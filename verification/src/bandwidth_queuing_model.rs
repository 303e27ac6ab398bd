//! Token-bucket bandwidth shaping with a bounded byte buffer.
//!
//! One token is one byte. The bucket refills by `rate * elapsed / 1_000_000`
//! tokens (microsecond clock, bytes-per-second rate), capped at the burst
//! size; packets wait in arrival order for enough tokens and overflow of the
//! byte buffer is answered by dropping the arriving packet (tail drop). A
//! packet larger than the whole burst is released anyway once the bucket is
//! full, so a misconfigured chain still makes progress.

use vstd::prelude::*;
use vstd::arithmetic::div_mod::lemma_fundamental_div_mod;
use vstd::arithmetic::div_mod::lemma_mod_bound;
use vstd::arithmetic::mul::lemma_mul_inequality;
use vstd::arithmetic::mul::lemma_mul_is_distributive_sub_other_way;
use crate::packet::NfqPacket;

verus! {

/// A classical token bucket, counting bytes.
pub struct TokenBucket {
    token_count: u64,
    max_tokens: u64,
    rate: u64,
    last_token_time: u64,
    spent: Ghost<nat>,
}

impl TokenBucket {
    pub closed spec fn spec_tokens(&self) -> u64 {
        self.token_count
    }

    /// The burst size: the most credit the bucket can hold.
    pub closed spec fn spec_max_tokens(&self) -> u64 {
        self.max_tokens
    }

    /// Refill rate in bytes per second.
    pub closed spec fn spec_rate(&self) -> u64 {
        self.rate
    }

    /// Microsecond timestamp of the last refill that granted tokens.
    pub closed spec fn spec_last_time(&self) -> u64 {
        self.last_token_time
    }

    /// Tokens ever removed from the bucket.
    pub closed spec fn spec_spent(&self) -> nat {
        self.spent@
    }

    pub open spec fn wf(&self) -> bool {
        self.spec_tokens() <= self.spec_max_tokens()
    }

    /// Every token ever granted was earned by elapsed time: what was spent
    /// plus what is left never exceeds `rate * last_refill / 1_000_000`.
    pub open spec fn accounted(&self) -> bool {
        (self.spec_spent() + self.spec_tokens()) * 1_000_000 <= self.spec_rate() * self.spec_last_time()
    }

    /// Tokens granted by a refill at `now`.
    pub open spec fn spec_refill_delta(&self, now: u64) -> int {
        (self.spec_rate() * (now - self.spec_last_time())) / 1_000_000
    }

    /// The token count after a refill at `now`.
    pub open spec fn spec_refilled(&self, now: u64) -> u64 {
        if self.spec_refill_delta(now) > 0 {
            if self.spec_tokens() + self.spec_refill_delta(now) < self.spec_max_tokens() {
                (self.spec_tokens() + self.spec_refill_delta(now)) as u64
            } else {
                self.spec_max_tokens()
            }
        } else {
            self.spec_tokens()
        }
    }

    /// The last-refill time after a refill at `now`: it only advances when
    /// tokens were granted, so fractional credit is never lost.
    pub open spec fn spec_refilled_time(&self, now: u64) -> u64 {
        if self.spec_refill_delta(now) > 0 {
            now
        } else {
            self.spec_last_time()
        }
    }

    /// A fresh bucket is empty and starts its clock at zero, so the first
    /// refill is biased to fill it (bounded by the burst size).
    pub fn new(rate: u64, burst_size_bytes: u64) -> (b: TokenBucket)
        ensures
            b.wf(),
            b.accounted(),
            b.spec_tokens() == 0,
            b.spec_max_tokens() == burst_size_bytes,
            b.spec_rate() == rate,
            b.spec_last_time() == 0,
            b.spec_spent() == 0,
    {
        TokenBucket {
            token_count: 0,
            max_tokens: burst_size_bytes,
            rate,
            last_token_time: 0,
            spent: Ghost(0),
        }
    }

    /// Grants the tokens earned since the last refill, capped at the burst
    /// size; the clock only advances when at least one token was earned.
    pub fn add_token(&mut self, time_now: u64)
        requires
            old(self).wf(),
            time_now >= old(self).spec_last_time(),
        ensures
            final(self).wf(),
            final(self).spec_max_tokens() == old(self).spec_max_tokens(),
            final(self).spec_rate() == old(self).spec_rate(),
            final(self).spec_spent() == old(self).spec_spent(),
            final(self).spec_tokens() == old(self).spec_refilled(time_now),
            final(self).spec_last_time() == old(self).spec_refilled_time(time_now),
            old(self).accounted() ==> final(self).accounted(),
    {
        let diff: u64 = time_now - self.last_token_time;
        proof {
            assert((self.rate as u128) * (diff as u128) <= u64::MAX * u64::MAX) by (nonlinear_arith)
                requires
                    self.rate <= u64::MAX,
                    diff <= u64::MAX,
            ;
        }
        let delta128: u128 = (self.rate as u128) * (diff as u128) / 1_000_000;
        proof {
            assert(delta128 == self.spec_refill_delta(time_now));
            if old(self).accounted() && delta128 > 0 {
                // the granted tokens are covered by the elapsed time
                let x = self.rate * diff;
                lemma_fundamental_div_mod(x as int, 1_000_000);
                lemma_mod_bound(x as int, 1_000_000);
                lemma_mul_is_distributive_sub_other_way(
                    self.rate as int,
                    time_now as int,
                    self.last_token_time as int,
                );
                assert((self.spent@ + self.token_count + delta128) * 1_000_000
                    <= self.rate * time_now);
            }
        }
        if delta128 > 0 {
            self.last_token_time = time_now;
            let sum: u128 = self.token_count as u128 + delta128;
            if sum < self.max_tokens as u128 {
                self.token_count = sum as u64;
            } else {
                self.token_count = self.max_tokens;
            }
        }
    }

    /// Takes `packet_size_bytes` tokens when they are there. When the bucket
    /// is full yet still too small for the packet, it is emptied and the
    /// caller releases the packet anyway, so an oversized packet cannot
    /// wedge the queue. Otherwise nothing changes and the caller waits.
    pub fn remove_token(&mut self, packet_size_bytes: u64) -> (granted: bool)
        requires
            old(self).wf(),
        ensures
            final(self).wf(),
            final(self).spec_max_tokens() == old(self).spec_max_tokens(),
            final(self).spec_rate() == old(self).spec_rate(),
            final(self).spec_last_time() == old(self).spec_last_time(),
            old(self).spec_tokens() >= packet_size_bytes ==> granted
                && final(self).spec_tokens() == old(self).spec_tokens() - packet_size_bytes
                && final(self).spec_spent() == old(self).spec_spent() + packet_size_bytes,
            old(self).spec_tokens() < packet_size_bytes
                && old(self).spec_tokens() == old(self).spec_max_tokens() ==> granted
                && final(self).spec_tokens() == 0
                && final(self).spec_spent() == old(self).spec_spent() + old(self).spec_tokens(),
            old(self).spec_tokens() < packet_size_bytes
                && old(self).spec_tokens() != old(self).spec_max_tokens() ==> !granted
                && final(self).spec_tokens() == old(self).spec_tokens()
                && final(self).spec_spent() == old(self).spec_spent(),
            old(self).accounted() ==> final(self).accounted(),
    {
        if self.token_count < packet_size_bytes {
            if self.token_count == self.max_tokens {
                self.spent = Ghost(self.spent@ + self.token_count as nat);
                self.token_count = 0;
                return true;
            }
            return false;
        }
        self.spent = Ghost(self.spent@ + packet_size_bytes as nat);
        self.token_count = self.token_count - packet_size_bytes;
        true
    }
}

/// Total payload bytes of a run of packets.
pub open spec fn sum_sizes(s: Seq<NfqPacket>) -> nat
    decreases s.len(),
{
    if s.len() == 0 {
        0
    } else {
        s[0].spec_size() + sum_sizes(s.subrange(1, s.len() as int))
    }
}

proof fn lemma_sum_sizes_push(s: Seq<NfqPacket>, p: NfqPacket)
    ensures
        sum_sizes(s.push(p)) == sum_sizes(s) + p.spec_size(),
    decreases s.len(),
{
    if s.len() == 0 {
        assert(s.push(p)[0] == p);
        assert(s.push(p).subrange(1, 1) =~= Seq::<NfqPacket>::empty());
        assert(sum_sizes(s.push(p).subrange(1, 1)) == 0);
    } else {
        lemma_sum_sizes_push(s.subrange(1, s.len() as int), p);
        assert(s.push(p)[0] == s[0]);
        assert(s.push(p).subrange(1, s.push(p).len() as int) =~= s.subrange(1, s.len() as int).push(p));
        assert(sum_sizes(s.push(p)) == s[0].spec_size() + sum_sizes(s.subrange(1, s.len() as int).push(p)));
    }
}

/// How many waiting packets a dequeue releases and the tokens left over:
/// heads are released while the tokens suffice; a full bucket still smaller
/// than the head is emptied and the head released anyway; otherwise the
/// drain stops and the head waits.
pub open spec fn drain(tokens: nat, max: nat, pkts: Seq<NfqPacket>) -> (nat, nat)
    decreases pkts.len(),
{
    if pkts.len() == 0 {
        (0, tokens)
    } else if tokens >= pkts[0].spec_size() {
        let r = drain((tokens - pkts[0].spec_size()) as nat, max, pkts.subrange(1, pkts.len() as int));
        ((r.0 + 1) as nat, r.1)
    } else if tokens == max {
        let r = drain(0, max, pkts.subrange(1, pkts.len() as int));
        ((r.0 + 1) as nat, r.1)
    } else {
        (0, tokens)
    }
}

/// How many of the drained packets were released without token cover,
/// because a full bucket was still smaller than they are.
pub open spec fn drain_oversized(tokens: nat, max: nat, pkts: Seq<NfqPacket>) -> nat
    decreases pkts.len(),
{
    if pkts.len() == 0 {
        0
    } else if tokens >= pkts[0].spec_size() {
        drain_oversized(
            (tokens - pkts[0].spec_size()) as nat,
            max,
            pkts.subrange(1, pkts.len() as int),
        )
    } else if tokens == max {
        drain_oversized(0, max, pkts.subrange(1, pkts.len() as int)) + 1
    } else {
        0
    }
}

/// A count clipped to what a machine word holds, sticking at the top.
pub open spec fn sat_u64(n: nat) -> u64 {
    if n <= u64::MAX {
        n as u64
    } else {
        u64::MAX
    }
}

/// When every waiting packet fits the burst, nothing is released without
/// token cover.
pub proof fn lemma_drain_no_oversize(tokens: nat, max: nat, pkts: Seq<NfqPacket>)
    requires
        tokens <= max,
        forall|i: int| 0 <= i < pkts.len() ==> (#[trigger] pkts[i]).spec_size() <= max,
    ensures
        drain_oversized(tokens, max, pkts) == 0,
    decreases pkts.len(),
{
    if pkts.len() > 0 && tokens >= pkts[0].spec_size() {
        let rest = pkts.subrange(1, pkts.len() as int);
        assert forall|i: int| 0 <= i < rest.len() implies (#[trigger] rest[i]).spec_size()
            <= max by {
            assert(rest[i] == pkts[i + 1]);
        }
        lemma_drain_no_oversize((tokens - pkts[0].spec_size()) as nat, max, rest);
    }
}

/// The drain never claims more packets than are waiting.
pub proof fn lemma_drain_count_le(tokens: nat, max: nat, pkts: Seq<NfqPacket>)
    ensures
        drain(tokens, max, pkts).0 <= pkts.len(),
    decreases pkts.len(),
{
    if pkts.len() > 0 {
        if tokens >= pkts[0].spec_size() {
            lemma_drain_count_le((tokens - pkts[0].spec_size()) as nat, max, pkts.subrange(1, pkts.len() as int));
        } else if tokens == max {
            lemma_drain_count_le(0, max, pkts.subrange(1, pkts.len() as int));
        }
    }
}

/// Token-bucket rate limiter in front of a bounded byte buffer.
pub struct BandwidthQueuingModel {
    token_bucket: TokenBucket,
    buffer: Vec<NfqPacket>,
    current_buffer_size: u64,
    max_buffer_size: u64,
    oversized_count: u64,
    released: Ghost<nat>,
}

impl BandwidthQueuingModel {
    /// The packets waiting for tokens, in arrival order.
    pub closed spec fn buffer_view(&self) -> Seq<NfqPacket> {
        self.buffer@
    }

    pub closed spec fn spec_current(&self) -> u64 {
        self.current_buffer_size
    }

    /// Buffer cap in bytes; zero means unbounded.
    pub closed spec fn spec_max_buffer(&self) -> u64 {
        self.max_buffer_size
    }

    pub closed spec fn bucket(&self) -> TokenBucket {
        self.token_bucket
    }

    /// Payload bytes this model has ever released.
    pub closed spec fn spec_released(&self) -> nat {
        self.released@
    }

    /// Packets ever released without token cover because the burst was
    /// smaller than they are; the count sticks at the top of its range.
    pub closed spec fn spec_oversized(&self) -> u64 {
        self.oversized_count
    }

    pub fn oversized_releases(&self) -> (n: u64)
        ensures
            n == self.spec_oversized(),
    {
        self.oversized_count
    }

    pub open spec fn wf(&self) -> bool {
        self.bucket().wf() && self.spec_current() == sum_sizes(self.buffer_view())
    }

    /// Every waiting packet fits the burst, and the bytes ever released are
    /// exactly the tokens ever spent, which the bucket's accounting covers.
    pub open spec fn shaped(&self) -> bool {
        &&& self.wf()
        &&& self.bucket().accounted()
        &&& self.spec_released() == self.bucket().spec_spent()
        &&& forall|i: int| 0 <= i < self.buffer_view().len()
            ==> #[trigger] self.buffer_view()[i].spec_size() <= self.bucket().spec_max_tokens()
    }

    /// What a dequeue at `now` releases: the bucket refills first, then the
    /// waiting packets drain in order.
    pub open spec fn spec_drain(&self, now: u64) -> (nat, nat) {
        drain(
            self.bucket().spec_refilled(now) as nat,
            self.bucket().spec_max_tokens() as nat,
            self.buffer_view(),
        )
    }

    /// The parameters arrive in kilobytes and are kept in bytes.
    pub fn new(rate: u64, burst_size: u64, buffer_size: u64) -> (m: BandwidthQueuingModel)
        requires
            rate <= u64::MAX / 1024,
            burst_size <= u64::MAX / 1024,
            buffer_size <= u64::MAX / 1024,
        ensures
            m.wf(),
            m.shaped(),
            m.bucket().spec_rate() == rate * 1024,
            m.bucket().spec_max_tokens() == burst_size * 1024,
            m.bucket().spec_tokens() == 0,
            m.bucket().spec_last_time() == 0,
            m.spec_max_buffer() == buffer_size * 1024,
            m.spec_current() == 0,
            m.buffer_view() == Seq::<NfqPacket>::empty(),
            m.spec_released() == 0,
            m.spec_oversized() == 0,
    {
        BandwidthQueuingModel {
            token_bucket: TokenBucket::new(rate * 1024, burst_size * 1024),
            current_buffer_size: 0,
            max_buffer_size: buffer_size * 1024,
            buffer: Vec::new(),
            oversized_count: 0,
            released: Ghost(0),
        }
    }

    /// Whether the buffer has room for `size` more bytes. A cap of zero
    /// means unbounded, limited only by what the byte counter can hold.
    pub open spec fn spec_accepts(&self, size: nat) -> bool {
        if self.spec_max_buffer() == 0 {
            self.spec_current() + size <= u64::MAX
        } else {
            self.spec_current() + size <= self.spec_max_buffer()
        }
    }

    /// Appends the packet to the buffer's tail when it fits, else drops it
    /// (tail drop; the buffer cap is the sole backpressure).
    pub fn enqueue(&mut self, packet: NfqPacket, _now: u64) -> (dropped: Option<NfqPacket>)
        requires
            old(self).wf(),
        ensures
            final(self).wf(),
            final(self).bucket() == old(self).bucket(),
            final(self).spec_max_buffer() == old(self).spec_max_buffer(),
            final(self).spec_released() == old(self).spec_released(),
            final(self).spec_oversized() == old(self).spec_oversized(),
            old(self).spec_accepts(packet.spec_size()) ==> dropped is None
                && final(self).buffer_view() == old(self).buffer_view().push(packet)
                && final(self).spec_current() == old(self).spec_current() + packet.spec_size(),
            !old(self).spec_accepts(packet.spec_size()) ==> dropped == Some(packet)
                && final(self).buffer_view() == old(self).buffer_view()
                && final(self).spec_current() == old(self).spec_current(),
            old(self).shaped() && packet.spec_size() <= old(self).bucket().spec_max_tokens()
                ==> final(self).shaped(),
    {
        let packet_size = packet.size() as u64;
        if let Some(total) = self.current_buffer_size.checked_add(packet_size) {
            if self.max_buffer_size == 0 || self.max_buffer_size >= total {
                proof {
                    lemma_sum_sizes_push(self.buffer@, packet);
                }
                self.buffer.push(packet);
                self.current_buffer_size = total;
                return None;
            }
        }
        Some(packet)
    }

    /// Refills the bucket, then releases waiting packets in arrival order
    /// while tokens last, exactly as `spec_drain` describes.
    pub fn dequeue(&mut self, time_now: u64) -> (r: Vec<NfqPacket>)
        requires
            old(self).wf(),
            time_now >= old(self).bucket().spec_last_time(),
        ensures
            final(self).wf(),
            final(self).spec_max_buffer() == old(self).spec_max_buffer(),
            final(self).bucket().spec_rate() == old(self).bucket().spec_rate(),
            final(self).bucket().spec_max_tokens() == old(self).bucket().spec_max_tokens(),
            final(self).bucket().spec_last_time() == old(self).bucket().spec_refilled_time(time_now),
            final(self).bucket().spec_tokens() == old(self).spec_drain(time_now).1,
            r@ == old(self).buffer_view().subrange(0, old(self).spec_drain(time_now).0 as int),
            final(self).buffer_view() == old(self).buffer_view().subrange(
                old(self).spec_drain(time_now).0 as int,
                old(self).buffer_view().len() as int,
            ),
            sum_sizes(r@) <= old(self).spec_current(),
            final(self).spec_current() == old(self).spec_current() - sum_sizes(r@),
            final(self).spec_released() == old(self).spec_released() + sum_sizes(r@),
            final(self).spec_oversized() == sat_u64(
                (old(self).spec_oversized() + drain_oversized(
                    old(self).bucket().spec_refilled(time_now) as nat,
                    old(self).bucket().spec_max_tokens() as nat,
                    old(self).buffer_view(),
                )) as nat,
            ),
            old(self).shaped() ==> final(self).shaped()
                && final(self).spec_oversized() == old(self).spec_oversized(),
    {
        self.token_bucket.add_token(time_now);
        let ghost buf0 = self.buffer@;
        let ghost maxn = self.token_bucket.spec_max_tokens() as nat;
        let ghost t0 = self.token_bucket.spec_tokens() as nat;
        let ghost rel0 = self.released@;
        let ghost over0 = self.oversized_count;
        let ghost mut ocount: nat = 0nat;
        let ghost shaped0 = old(self).shaped();
        proof {
            lemma_drain_count_le(t0, maxn, buf0);
            if shaped0 {
                lemma_drain_no_oversize(t0, maxn, buf0);
            }
        }
        let mut packets: Vec<NfqPacket> = Vec::new();
        loop
            invariant
                time_now >= old(self).bucket().spec_last_time(),
                self.token_bucket.spec_max_tokens() == old(self).bucket().spec_max_tokens(),
                self.token_bucket.spec_rate() == old(self).bucket().spec_rate(),
                self.token_bucket.spec_last_time() == old(self).bucket().spec_refilled_time(time_now),
                self.token_bucket.wf(),
                maxn == self.token_bucket.spec_max_tokens() as nat,
                buf0 == old(self).buffer_view(),
                t0 == old(self).bucket().spec_refilled(time_now) as nat,
                rel0 == old(self).spec_released(),
                self.max_buffer_size == old(self).spec_max_buffer(),
                packets@.len() <= buf0.len(),
                packets@ == buf0.subrange(0, packets@.len() as int),
                self.buffer@ == buf0.subrange(packets@.len() as int, buf0.len() as int),
                self.current_buffer_size == sum_sizes(self.buffer@),
                sum_sizes(buf0) == sum_sizes(packets@) + sum_sizes(self.buffer@),
                self.released@ == rel0 + sum_sizes(packets@),
                over0 == old(self).spec_oversized(),
                self.oversized_count == sat_u64((over0 + ocount) as nat),
                drain_oversized(t0, maxn, buf0) == ocount + drain_oversized(
                    self.token_bucket.spec_tokens() as nat,
                    maxn,
                    self.buffer@,
                ),
                drain(t0, maxn, buf0).0 == packets@.len()
                    + drain(self.token_bucket.spec_tokens() as nat, maxn, self.buffer@).0,
                drain(t0, maxn, buf0).1
                    == drain(self.token_bucket.spec_tokens() as nat, maxn, self.buffer@).1,
                shaped0 ==> self.token_bucket.accounted()
                    && self.released@ == self.token_bucket.spec_spent()
                    && (forall|i: int| 0 <= i < self.buffer@.len()
                        ==> #[trigger] self.buffer@[i].spec_size() <= self.token_bucket.spec_max_tokens()),
                shaped0 == old(self).shaped(),
            ensures
                drain(self.token_bucket.spec_tokens() as nat, maxn, self.buffer@).0 == 0,
                drain(self.token_bucket.spec_tokens() as nat, maxn, self.buffer@).1
                    == self.token_bucket.spec_tokens() as nat,
            decreases self.buffer@.len(),
        {
            if self.buffer.len() == 0 {
                break;
            }
            let ghost pre_buf = self.buffer@;
            let ghost pre_tokens = self.token_bucket.spec_tokens() as nat;
            let packet_size = self.buffer[0].size() as u64;
            let oversize = self.token_bucket.token_count == self.token_bucket.max_tokens
                && self.token_bucket.token_count < packet_size;
            let granted = self.token_bucket.remove_token(packet_size);
            if !granted {
                proof {
                    assert(drain(pre_tokens, maxn, pre_buf) == (0nat, pre_tokens));
                    assert(drain_oversized(pre_tokens, maxn, pre_buf) == 0);
                }
                break;
            }
            if oversize {
                if self.oversized_count < u64::MAX {
                    self.oversized_count = self.oversized_count + 1;
                }
                proof {
                    ocount = ocount + 1;
                }
            }
            proof {
                if shaped0 {
                    // every waiting packet fits the burst, so the bucket is
                    // never emptied below the head's size while full
                    assert(pre_buf[0] == buf0[packets@.len() as int]);
                }
            }
            let p = self.buffer.remove(0);
            self.current_buffer_size = self.current_buffer_size - packet_size;
            self.released = Ghost(self.released@ + packet_size as nat);
            let ghost packets_before = packets@;
            packets.push(p);
            proof {
                assert(pre_buf.subrange(1, pre_buf.len() as int) =~= self.buffer@);
                assert(self.buffer@ =~= buf0.subrange(packets@.len() as int, buf0.len() as int));
                assert(packets@ =~= buf0.subrange(0, packets@.len() as int));
                lemma_sum_sizes_push(packets_before, p);
            }
        }
        proof {
            let k = packets@.len() as int;
            assert(packets@ == buf0.subrange(0, drain(t0, maxn, buf0).0 as int));
            assert(drain_oversized(t0, maxn, buf0) == ocount);
        }
        packets
    }
}

/// When every waiting packet fits the burst, a drain only ever spends the
/// tokens it was given: the released sizes and the leftover tokens add up to
/// what the drain started with.
proof fn lemma_drain_conserves(tokens: nat, max: nat, pkts: Seq<NfqPacket>)
    requires
        tokens <= max,
        forall|i: int| 0 <= i < pkts.len() ==> (#[trigger] pkts[i]).spec_size() <= max,
    ensures
        sum_sizes(pkts.subrange(0, drain(tokens, max, pkts).0 as int))
            + drain(tokens, max, pkts).1 == tokens,
    decreases pkts.len(),
{
    lemma_drain_count_le(tokens, max, pkts);
    if pkts.len() > 0 && tokens >= pkts[0].spec_size() {
        let rest = pkts.subrange(1, pkts.len() as int);
        let left = (tokens - pkts[0].spec_size()) as nat;
        assert forall|i: int| 0 <= i < rest.len() implies (#[trigger] rest[i]).spec_size()
            <= max by {
            assert(rest[i] == pkts[i + 1]);
        }
        lemma_drain_conserves(left, max, rest);
        lemma_drain_count_le(left, max, rest);
        let n = drain(tokens, max, pkts).0 as int;
        assert(pkts.subrange(0, n).subrange(1, n) =~= rest.subrange(0, n - 1));
        assert(pkts.subrange(0, n)[0] == pkts[0]);
    } else if pkts.len() > 0 && tokens < pkts[0].spec_size() {
        // a full bucket smaller than the head cannot happen when every
        // packet fits the burst, so the drain stops here
        assert(pkts[0].spec_size() <= max);
        assert(tokens != max || tokens >= pkts[0].spec_size());
        assert(drain(tokens, max, pkts) == (0nat, tokens));
        assert(pkts.subrange(0, 0) =~= Seq::<NfqPacket>::empty());
    } else if pkts.len() == 0 {
        assert(pkts.subrange(0, 0) =~= Seq::<NfqPacket>::empty());
    }
}

/// Bandwidth bound over one scheduling pass: what a dequeue at `now`
/// releases is covered by one burst plus what the rate earned since the last
/// refill, as long as every waiting packet fits the burst.
pub proof fn lemma_release_window_bound(m: &BandwidthQueuingModel, now: u64)
    requires
        m.shaped(),
        m.bucket().spec_last_time() <= now,
    ensures
        sum_sizes(m.buffer_view().subrange(0, m.spec_drain(now).0 as int)) * 1_000_000
            <= m.bucket().spec_max_tokens() * 1_000_000
                + m.bucket().spec_rate() * (now - m.bucket().spec_last_time()),
{
    let tokens = m.bucket().spec_refilled(now) as nat;
    let max = m.bucket().spec_max_tokens() as nat;
    lemma_drain_conserves(tokens, max, m.buffer_view());
    // the refill grants at most the elapsed time's earnings
    let x = m.bucket().spec_rate() * (now - m.bucket().spec_last_time());
    lemma_fundamental_div_mod(x as int, 1_000_000);
    lemma_mod_bound(x as int, 1_000_000);
}

/// Bandwidth bound: a bucket that starts empty can never have released more
/// bytes than its rate has earned, so over the whole run up to any `now` at
/// or past the last refill, the bytes released stay within `rate * now`
/// microsecond-seconds, and in particular within one burst plus `rate * now`.
/// This holds as long as every packet fits the burst; an oversized packet is
/// released without cover to keep the chain live, and steps outside it.
pub proof fn lemma_bandwidth_bound(m: &BandwidthQueuingModel, now: u64)
    requires
        m.shaped(),
        m.bucket().spec_last_time() <= now,
    ensures
        m.spec_released() * 1_000_000 <= m.bucket().spec_rate() * now,
        m.spec_released() * 1_000_000
            <= m.bucket().spec_max_tokens() * 1_000_000 + m.bucket().spec_rate() * now,
{
    lemma_mul_inequality(
        m.bucket().spec_last_time() as int,
        now as int,
        m.bucket().spec_rate() as int,
    );
}

} // verus!
