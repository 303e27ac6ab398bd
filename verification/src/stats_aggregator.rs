//! Raw reception counters per connection, folded into a periodic summary.
//! Rates and percentages are presentation and stay with the caller; the
//! counters and the mean are exact integers.

use vstd::prelude::*;
use crate::analyzer_packet::Packet;

verus! {

/// Serialized probe header bytes on the wire.
pub const PACKET_HEADER_BYTES: u64 = 56;

/// IP and UDP header bytes counted against each probe.
pub const IP_UDP_HEADER_BYTES: u64 = 28;

/// Counters over the probes one connection received.
pub struct Stats {
    pub received_packets: Vec<u64>,
    pub received_rtts: u64,
    pub received_data: u128,
}

impl Stats {
    /// The wire bytes one probe stands for.
    pub open spec fn spec_packet_size(p: &Packet) -> nat {
        PACKET_HEADER_BYTES as nat + p.payload@.len() + IP_UDP_HEADER_BYTES as nat
    }

    pub fn new() -> (s: Stats)
        ensures
            s.received_packets@ == Seq::<u64>::empty(),
            s.received_rtts == 0,
            s.received_data == 0,
    {
        Stats { received_packets: Vec::new(), received_rtts: 0, received_data: 0 }
    }

    /// Counts one received probe: its wire size, its number displaced by
    /// one (so loss counting never starts at zero), and its round-trip
    /// milliseconds.
    pub fn append(&mut self, packet: &Packet)
        requires
            packet.client_receive_time >= packet.client_send_time,
            packet.number < u64::MAX,
            old(self).received_data + Self::spec_packet_size(packet) <= u128::MAX,
            old(self).received_rtts + (packet.client_receive_time - packet.client_send_time)
                / 1_000_000 <= u64::MAX,
        ensures
            final(self).received_data == old(self).received_data + Self::spec_packet_size(packet),
            final(self).received_packets@ == old(self).received_packets@.push(
                (packet.number + 1) as u64,
            ),
            final(self).received_rtts == old(self).received_rtts + (packet.client_receive_time
                - packet.client_send_time) / 1_000_000,
    {
        let packet_size: u128 = PACKET_HEADER_BYTES as u128 + packet.payload.len() as u128
            + IP_UDP_HEADER_BYTES as u128;
        self.received_data = self.received_data + packet_size;
        self.received_packets.push(packet.number + 1);
        let rtt_ms = packet.rtt() / 1_000_000;
        self.received_rtts = self.received_rtts + rtt_ms;
    }

    /// Mean round trip in milliseconds; with no probe received the sum
    /// stands as it is (a divisor of one).
    pub fn rtt(&self) -> (r: u64)
        ensures
            r == self.received_rtts as nat / (if self.received_packets@.len() == 0 {
                1nat
            } else {
                self.received_packets@.len()
            }),
    {
        let n = self.received_packets.len();
        if n == 0 {
            self.received_rtts
        } else {
            self.received_rtts / (n as u64)
        }
    }
}

/// One period's summary, handed out for presentation.
pub struct StatsReport {
    pub id: u32,
    pub received_data: u128,
    pub packet_count: usize,
    pub mean_rtt_ms: u64,
    pub elapsed: u64,
}

/// Rolls per-connection counters and reports once per period.
pub struct StatsAggregator {
    id: u32,
    stats: Stats,
    start_time: u64,
    period: u64,
}

impl StatsAggregator {
    pub closed spec fn spec_id(&self) -> u32 {
        self.id
    }

    pub closed spec fn spec_stats(&self) -> Stats {
        self.stats
    }

    /// Nanosecond timestamp the running period started at.
    pub closed spec fn spec_start_time(&self) -> u64 {
        self.start_time
    }

    /// Reporting period in nanoseconds.
    pub closed spec fn spec_period(&self) -> u64 {
        self.period
    }

    pub fn new(id: u32, period: u64, now: u64) -> (a: StatsAggregator)
        ensures
            a.spec_id() == id,
            a.spec_period() == period,
            a.spec_start_time() == now,
            a.spec_stats().received_packets@ == Seq::<u64>::empty(),
            a.spec_stats().received_rtts == 0,
            a.spec_stats().received_data == 0,
    {
        StatsAggregator { id, stats: Stats::new(), start_time: now, period }
    }

    /// Counts the probe; once a full period has passed since the last
    /// report, returns the period's summary and starts a fresh one.
    pub fn data_received(&mut self, packet: &Packet, now: u64) -> (report: Option<StatsReport>)
        requires
            now >= old(self).spec_start_time(),
            packet.client_receive_time >= packet.client_send_time,
            packet.number < u64::MAX,
            old(self).spec_stats().received_data + Stats::spec_packet_size(packet) <= u128::MAX,
            old(self).spec_stats().received_rtts + (packet.client_receive_time
                - packet.client_send_time) / 1_000_000 <= u64::MAX,
        ensures
            final(self).spec_id() == old(self).spec_id(),
            final(self).spec_period() == old(self).spec_period(),
            report is Some <==> now - old(self).spec_start_time() >= old(self).spec_period(),
            report matches Some(rep) ==> rep.id == old(self).spec_id()
                && rep.elapsed == now - old(self).spec_start_time()
                && rep.received_data == old(self).spec_stats().received_data
                    + Stats::spec_packet_size(packet)
                && rep.packet_count == old(self).spec_stats().received_packets@.len() + 1
                && rep.mean_rtt_ms == (old(self).spec_stats().received_rtts
                    + (packet.client_receive_time - packet.client_send_time) / 1_000_000) as nat
                    / (old(self).spec_stats().received_packets@.len() + 1)
                && final(self).spec_start_time() == now
                && final(self).spec_stats().received_packets@ == Seq::<u64>::empty()
                && final(self).spec_stats().received_rtts == 0
                && final(self).spec_stats().received_data == 0,
            report is None ==> final(self).spec_start_time() == old(self).spec_start_time()
                && final(self).spec_stats().received_packets@
                    == old(self).spec_stats().received_packets@.push((packet.number + 1) as u64)
                && final(self).spec_stats().received_rtts == old(self).spec_stats().received_rtts
                    + (packet.client_receive_time - packet.client_send_time) / 1_000_000
                && final(self).spec_stats().received_data
                    == old(self).spec_stats().received_data + Stats::spec_packet_size(packet),
    {
        self.stats.append(packet);
        if now - self.start_time >= self.period {
            let time_diff = now - self.start_time;
            let report = StatsReport {
                id: self.id,
                received_data: self.stats.received_data,
                packet_count: self.stats.received_packets.len(),
                mean_rtt_ms: self.stats.rtt(),
                elapsed: time_diff,
            };
            self.start_time = now;
            self.stats = Stats::new();
            Some(report)
        } else {
            None
        }
    }
}

} // verus!
