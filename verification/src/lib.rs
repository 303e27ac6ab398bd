//! Verified core of a userspace network degrader.
//!
//! Intercepted IPv4 packets are subjected to a chain of queuing models
//! (random loss/delay, scripted pattern, token-bucket bandwidth shaping)
//! and each packet receives exactly one verdict, ACCEPT or DROP.

pub mod analyzer_config;
pub mod analyzer_packet;
pub mod bandwidth_queuing_model;
pub mod config;
pub mod degrader_model;
pub mod degrader_model_random;
pub mod dispatcher;
pub mod packet;
pub mod packet_queue;
pub mod pattern_file_queuing_model;
pub mod protocol;
pub mod queuing_model_chain;
pub mod random_queuing_model;
mod rng;
pub mod stats_aggregator;
pub mod text;

pub use packet::NfqPacket;
pub use packet::Verdict;
