//! Random loss and delay: each packet is independently dropped with a
//! probability given in whole percent, and each survivor is deferred by a
//! fixed or a uniformly drawn delay.

use vstd::prelude::*;
use crate::packet::NfqPacket;
use crate::packet_queue::PacketQueue;
use crate::packet_queue::insert_pos;
use crate::packet_queue::packets_of;
use crate::packet_queue::store_insert;

verus! {

/// The delay a surviving packet is deferred by, in microseconds: a fixed
/// value, or a value drawn uniformly from an inclusive range.
pub enum Delay {
    Fixed(u64),
    Range(u64, u64),
}

impl Delay {
    pub open spec fn wf(&self) -> bool {
        match *self {
            Delay::Fixed(_) => true,
            Delay::Range(lo, hi) => lo <= hi,
        }
    }

    /// Whether `v` microseconds is a delay this setting can produce.
    pub open spec fn contains(&self, v: int) -> bool {
        match *self {
            Delay::Fixed(d) => v == d,
            Delay::Range(lo, hi) => lo <= v <= hi,
        }
    }

    /// The largest delay this setting can produce.
    pub open spec fn spec_max(&self) -> u64 {
        match *self {
            Delay::Fixed(d) => d,
            Delay::Range(_, hi) => hi,
        }
    }

    pub fn new(value: u64) -> (d: Delay)
        ensures
            d == Delay::Fixed(value),
    {
        Delay::Fixed(value)
    }

    pub fn new_with_range(low: u64, high: u64) -> (d: Delay)
        requires
            low <= high,
        ensures
            d == Delay::Range(low, high),
    {
        Delay::Range(low, high)
    }

    /// Draws a delay; whatever the generator returned, the result lies in
    /// the configured range. A draw beyond the largest span that folds
    /// evenly onto the range is redrawn, a bounded number of times, so the
    /// fold stays uniform but for a vanishing chance of repeated rejection.
    pub fn sample(&self, rng: &mut rand::rngs::SmallRng) -> (v: u64)
        requires
            self.wf(),
        ensures
            self.contains(v as int),
    {
        match *self {
            Delay::Fixed(d) => d,
            Delay::Range(lo, hi) => {
                if lo == 0 && hi == u64::MAX {
                    crate::rng::rng_next_u64(rng)
                } else {
                    let width = hi - lo + 1;
                    let excess = (u64::MAX % width + 1) % width;
                    let zone_max = u64::MAX - excess;
                    let mut r = crate::rng::rng_next_u64(rng);
                    let mut attempts: u64 = 0;
                    while r > zone_max && attempts < 8
                        invariant
                            width > 0,
                        decreases 8 - attempts,
                    {
                        r = crate::rng::rng_next_u64(rng);
                        attempts = attempts + 1;
                    }
                    lo + r % width
                }
            },
        }
    }
}

/// Per-packet Bernoulli drop plus random delay; survivors wait in a
/// release-time store.
pub struct RandomQueuingModel {
    loss_rate: u32,
    delay: Delay,
    rand: rand::rngs::SmallRng,
    queue: PacketQueue,
}

impl RandomQueuingModel {
    /// Drop probability in whole percent.
    pub closed spec fn spec_loss_rate(&self) -> u32 {
        self.loss_rate
    }

    pub closed spec fn spec_delay(&self) -> Delay {
        self.delay
    }

    /// The deferred packets, as `(release_time, packet)` entries in release order.
    pub closed spec fn store(&self) -> Seq<(u64, NfqPacket)> {
        self.queue@
    }

    pub closed spec fn spec_queue_wf(&self) -> bool {
        self.queue.wf()
    }

    pub open spec fn wf(&self) -> bool {
        self.spec_queue_wf() && self.spec_delay().wf()
    }

    pub fn new(loss_rate: u32) -> (m: RandomQueuingModel)
        ensures
            m.wf(),
            m.spec_loss_rate() == loss_rate,
            m.spec_delay() == Delay::Fixed(0u64),
            m.store() == Seq::<(u64, NfqPacket)>::empty(),
    {
        RandomQueuingModel {
            loss_rate,
            delay: Delay::Fixed(0),
            rand: crate::rng::new_seeded_rng(),
            queue: PacketQueue::new(),
        }
    }

    pub fn with_delay(self, delay: u64) -> (m: RandomQueuingModel)
        ensures
            m.spec_loss_rate() == self.spec_loss_rate(),
            m.spec_delay() == Delay::Fixed(delay),
            m.store() == self.store(),
            self.wf() ==> m.wf(),
    {
        RandomQueuingModel { delay: Delay::new(delay), ..self }
    }

    pub fn with_delay_range(self, range: (u64, u64)) -> (m: RandomQueuingModel)
        requires
            range.0 <= range.1,
        ensures
            m.spec_loss_rate() == self.spec_loss_rate(),
            m.spec_delay() == Delay::Range(range.0, range.1),
            m.store() == self.store(),
            self.wf() ==> m.wf(),
    {
        RandomQueuingModel { delay: Delay::new_with_range(range.0, range.1), ..self }
    }

    /// The drop decision for a draw `r` under loss rate `loss_rate`.
    pub open spec fn spec_drop_decision(r: u32, loss_rate: u32) -> bool {
        (r % 100) < loss_rate
    }

    /// What the drop decision is, given the value the generator returned.
    pub fn drop_decision(r: u32, loss_rate: u32) -> (b: bool)
        ensures
            b == Self::spec_drop_decision(r, loss_rate),
    {
        (r % 100) < loss_rate
    }

    /// Draws and decides whether the next packet is dropped. A loss rate of
    /// zero never drops; a loss rate of one hundred or more always drops.
    pub fn drop_packet(&mut self) -> (b: bool)
        ensures
            final(self).spec_loss_rate() == old(self).spec_loss_rate(),
            final(self).spec_delay() == old(self).spec_delay(),
            final(self).store() == old(self).store(),
            old(self).wf() ==> final(self).wf(),
            old(self).spec_loss_rate() == 0 ==> !b,
            old(self).spec_loss_rate() >= 100 ==> b,
    {
        let r = crate::rng::rng_next_u32(&mut self.rand);
        Self::drop_decision(r, self.loss_rate)
    }

    /// The release time for a packet received at `receive_time`: the receive
    /// time plus a drawn delay from the configured setting.
    pub fn get_send_time(&mut self, receive_time: u64) -> (t: u64)
        requires
            old(self).wf(),
            receive_time + old(self).spec_delay().spec_max() <= u64::MAX,
        ensures
            final(self).spec_loss_rate() == old(self).spec_loss_rate(),
            final(self).spec_delay() == old(self).spec_delay(),
            final(self).store() == old(self).store(),
            final(self).wf(),
            t >= receive_time,
            old(self).spec_delay().contains(t - receive_time),
    {
        let d = self.delay.sample(&mut self.rand);
        receive_time + d
    }

    /// Decides the packet's fate: returns it when it is dropped, otherwise
    /// defers it under `now` plus a drawn delay.
    pub fn enqueue(&mut self, packet: NfqPacket, now: u64) -> (dropped: Option<NfqPacket>)
        requires
            old(self).wf(),
            now + old(self).spec_delay().spec_max() <= u64::MAX,
        ensures
            final(self).wf(),
            final(self).spec_loss_rate() == old(self).spec_loss_rate(),
            final(self).spec_delay() == old(self).spec_delay(),
            dropped matches Some(p) ==> p == packet && final(self).store() == old(self).store(),
            dropped is None ==> exists|st: u64|
                now <= st
                && old(self).spec_delay().contains(st - now)
                && final(self).store() == #[trigger] store_insert(old(self).store(), st, packet),
            old(self).spec_loss_rate() == 0 ==> dropped is None,
            old(self).spec_loss_rate() >= 100 ==> dropped == Some(packet),
    {
        if !self.drop_packet() {
            let send_time = self.get_send_time(now);
            self.queue.push(packet, send_time);
            proof {
                assert(final(self).store() == store_insert(old(self).store(), send_time, packet));
            }
            None
        } else {
            Some(packet)
        }
    }

    /// Releases every deferred packet whose release time is at or before `now`.
    pub fn dequeue(&mut self, now: u64) -> (r: Vec<NfqPacket>)
        requires
            old(self).wf(),
        ensures
            final(self).wf(),
            final(self).spec_loss_rate() == old(self).spec_loss_rate(),
            final(self).spec_delay() == old(self).spec_delay(),
            r@ == packets_of(old(self).store().subrange(0, insert_pos(old(self).store(), now))),
            final(self).store() == old(self).store().subrange(
                insert_pos(old(self).store(), now),
                old(self).store().len() as int,
            ),
            forall|j: int| 0 <= j < final(self).store().len() ==> #[trigger] final(self).store()[j].0 > now,
    {
        self.queue.pop(now)
    }
}

} // verus!
