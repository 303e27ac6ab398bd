//! Settings of the loopback measurement harness, and the small parsing and
//! sizing rules its flags follow.

use vstd::prelude::*;
use crate::text::find_byte;
use crate::text::find_byte_from;
use crate::text::parse_u64;
use crate::text::parse_u64_spec;

verus! {

/// Which side of the loopback pair to run.
#[derive(Clone, Copy, PartialEq, Eq, Structural, Debug)]
pub enum Mode {
    Server,
    Client,
    Both,
}

/// Everything one harness invocation runs with. Times are in nanoseconds.
pub struct Config {
    pub client_ip: String,
    pub client_port_range: (u16, u16),
    pub server_ip: String,
    pub server_port_range: (u16, u16),
    pub mode: Mode,
    pub send_interval: u64,
    pub payload_size: u64,
}

/// A port range `start:end`: two decimal port numbers around the first
/// colon; anything after a second colon is ignored.
pub open spec fn spec_parse_port_range(s: Seq<u8>) -> Option<(u16, u16)> {
    let k = find_byte(s, 58);
    if k >= s.len() {
        None
    } else {
        match (
            parse_u64_spec(s.subrange(0, k)),
            parse_u64_spec(
                s.subrange(k + 1, s.len() as int).subrange(
                    0,
                    find_byte(s.subrange(k + 1, s.len() as int), 58),
                ),
            ),
        ) {
            (Some(a), Some(b)) => if a <= u16::MAX as u64 && b <= u16::MAX as u64 {
                Some((a as u16, b as u16))
            } else {
                None
            },
            _ => None,
        }
    }
}

/// Reads a `start:end` port range.
pub fn parse_port_range(range: &[u8]) -> (r: Option<(u16, u16)>)
    ensures
        r == spec_parse_port_range(range@),
{
    proof {
        assert(range@.subrange(0, range@.len() as int) =~= range@);
    }
    let k = find_byte_from(range, 0, 58);
    if k >= range.len() {
        return None;
    }
    let k2 = find_byte_from(range, k + 1, 58);
    proof {
        assert(range@.subrange(k + 1, range@.len() as int).subrange(
            0,
            find_byte(range@.subrange(k + 1, range@.len() as int), 58),
        ) =~= range@.subrange(k + 1, k2 as int));
    }
    let a = match parse_u64(&range[0..k]) {
        None => {
            return None;
        },
        Some(v) => v,
    };
    let b = match parse_u64(&range[k + 1..k2]) {
        None => {
            return None;
        },
        Some(v) => v,
    };
    if a > u16::MAX as u64 || b > u16::MAX as u64 {
        return None;
    }
    Some((a as u16, b as u16))
}

/// Filler bytes towards a target IP packet size: the probe's fixed
/// footprint plus the IP and UDP headers come off the top, and a target too
/// small for them leaves no filler at all.
pub fn compute_payload_size(ip_packet_size: u64, base_size: u64) -> (r: u64)
    requires
        base_size + 28 <= u64::MAX,
    ensures
        r == if base_size + 28 <= ip_packet_size {
            ip_packet_size - base_size - 28
        } else {
            0
        },
{
    if base_size + 28 <= ip_packet_size {
        ip_packet_size - base_size - 28
    } else {
        0
    }
}

} // verus!
