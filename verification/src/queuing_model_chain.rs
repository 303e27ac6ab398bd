//! Ordered composition of queuing models.
//!
//! A packet enters the chain at stage zero; on every dequeue, what a stage
//! releases is fed to the next stage as if it had just arrived, timestamped
//! with the dequeue-time clock, and the last stage's output is the chain's.
//! A packet dropped at any stage gets its verdict there and goes no further,
//! so each packet that enters leaves exactly once, dropped or accepted.

use vstd::prelude::*;
use crate::bandwidth_queuing_model::BandwidthQueuingModel;
use crate::config::QueuingModelConfig;
use crate::config::models_valid;
use crate::packet::NfqPacket;
use crate::packet_queue::lemma_insert_pos;
use crate::packet_queue::lemma_store_insert_bound;
use crate::pattern_file_queuing_model::PatternFileQueuingModel;
use crate::pattern_file_queuing_model::max_delay;
use crate::random_queuing_model::Delay;
use crate::random_queuing_model::RandomQueuingModel;

verus! {

/// Identity pass-through, used only when no models are configured: enqueue
/// buffers in order, dequeue drains everything whatever the time.
pub struct ForwardingQueuingModel {
    packets: Vec<NfqPacket>,
}

impl ForwardingQueuingModel {
    pub closed spec fn packets_view(&self) -> Seq<NfqPacket> {
        self.packets@
    }

    pub fn new() -> (m: ForwardingQueuingModel)
        ensures
            m.packets_view() == Seq::<NfqPacket>::empty(),
    {
        ForwardingQueuingModel { packets: Vec::new() }
    }

    pub fn enqueue(&mut self, packet: NfqPacket, _now: u64)
        ensures
            final(self).packets_view() == old(self).packets_view().push(packet),
    {
        self.packets.push(packet);
    }

    pub fn dequeue(&mut self, _now: u64) -> (r: Vec<NfqPacket>)
        ensures
            r@ == old(self).packets_view(),
            final(self).packets_view() == Seq::<NfqPacket>::empty(),
    {
        self.packets.split_off(0)
    }
}

/// One chain stage: any of the closed set of models.
pub enum QueuingModel {
    Random(RandomQueuingModel),
    PatternFile(PatternFileQueuingModel),
    Bandwidth(BandwidthQueuingModel),
    Forwarding(ForwardingQueuingModel),
}

impl QueuingModel {
    pub open spec fn wf(&self) -> bool {
        match *self {
            QueuingModel::Random(ref m) => m.wf(),
            QueuingModel::PatternFile(ref m) => m.wf(),
            QueuingModel::Bandwidth(ref m) => m.wf(),
            QueuingModel::Forwarding(_) => true,
        }
    }

    /// How many packets this stage is holding.
    pub open spec fn held(&self) -> nat {
        match *self {
            QueuingModel::Random(ref m) => m.store().len(),
            QueuingModel::PatternFile(ref m) => m.store().len(),
            QueuingModel::Bandwidth(ref m) => m.buffer_view().len(),
            QueuingModel::Forwarding(ref m) => m.packets_view().len(),
        }
    }

    /// The largest deferral this stage can assign, in microseconds.
    pub open spec fn stage_max_delay(&self) -> nat {
        match *self {
            QueuingModel::Random(ref m) => m.spec_delay().spec_max() as nat,
            QueuingModel::PatternFile(ref m) => max_delay(m.script()),
            QueuingModel::Bandwidth(_) => 0,
            QueuingModel::Forwarding(_) => 0,
        }
    }

    /// Packets this stage released without token cover (only a bandwidth
    /// stage ever does).
    pub open spec fn stage_oversized(&self) -> u64 {
        match *self {
            QueuingModel::Bandwidth(ref m) => m.spec_oversized(),
            _ => 0,
        }
    }

    pub fn oversized_releases(&self) -> (n: u64)
        ensures
            n == self.stage_oversized(),
    {
        match self {
            QueuingModel::Bandwidth(m) => m.oversized_releases(),
            _ => 0,
        }
    }

    /// Whether the stage accepts `now` as a clock reading: the bandwidth
    /// bucket must never see its clock run backwards.
    pub open spec fn time_le(&self, now: u64) -> bool {
        match *self {
            QueuingModel::Bandwidth(ref m) => m.bucket().spec_last_time() <= now,
            _ => true,
        }
    }

    /// The configuration a stage was built with, which packet traffic never
    /// changes.
    pub open spec fn same_config(a: &QueuingModel, b: &QueuingModel) -> bool {
        match (a, b) {
            (QueuingModel::Random(x), QueuingModel::Random(y)) => x.spec_loss_rate()
                == y.spec_loss_rate() && x.spec_delay() == y.spec_delay(),
            (QueuingModel::PatternFile(x), QueuingModel::PatternFile(y)) => x.script() == y.script(),
            (QueuingModel::Bandwidth(x), QueuingModel::Bandwidth(y)) => x.bucket().spec_rate()
                == y.bucket().spec_rate() && x.bucket().spec_max_tokens() == y.bucket().spec_max_tokens()
                && x.spec_max_buffer() == y.spec_max_buffer(),
            (QueuingModel::Forwarding(_), QueuingModel::Forwarding(_)) => true,
            _ => false,
        }
    }

    /// Every deferred entry of the stage is due at or after `t`.
    pub open spec fn entries_at_or_after(&self, t: u64) -> bool {
        match *self {
            QueuingModel::Random(ref m) => forall|j: int|
                0 <= j < m.store().len() ==> (#[trigger] m.store()[j]).0 >= t,
            QueuingModel::PatternFile(ref m) => forall|j: int|
                0 <= j < m.store().len() ==> (#[trigger] m.store()[j]).0 >= t,
            _ => true,
        }
    }

    /// Stage state a dequeue that released nothing must not disturb: the
    /// held packets and, for the pattern model, the cursor.
    pub open spec fn same_held_state(a: &QueuingModel, b: &QueuingModel) -> bool {
        match (a, b) {
            (QueuingModel::Random(x), QueuingModel::Random(y)) => x.store() == y.store(),
            (QueuingModel::PatternFile(x), QueuingModel::PatternFile(y)) => x.store() == y.store()
                && x.spec_seen() == y.spec_seen() && x.spec_cursor() == y.spec_cursor(),
            (QueuingModel::Bandwidth(x), QueuingModel::Bandwidth(y)) => x.buffer_view()
                == y.buffer_view() && x.spec_current() == y.spec_current(),
            (QueuingModel::Forwarding(x), QueuingModel::Forwarding(y)) => x.packets_view()
                == y.packets_view(),
            _ => false,
        }
    }

    /// What one stage's enqueue does, exactly as each model's own contract
    /// puts it: the stage decides the packet by its own rule and either
    /// returns it dropped or holds it, deferred from `now`.
    pub open spec fn enqueue_rel(
        pre: QueuingModel,
        post: QueuingModel,
        packet: NfqPacket,
        now: u64,
        dropped: Option<NfqPacket>,
    ) -> bool {
        match (pre, post) {
            (QueuingModel::Forwarding(a), QueuingModel::Forwarding(b)) => {
                &&& dropped is None
                &&& b.packets_view() == a.packets_view().push(packet)
            },
            (QueuingModel::PatternFile(a), QueuingModel::PatternFile(b)) => {
                &&& b.script() == a.script()
                &&& b.spec_seen() == a.spec_seen() + 1
                &&& crate::pattern_file_queuing_model::record_for(a.script(), a.spec_seen()).drop
                    ==> dropped == Some(packet) && b.store() == a.store()
                &&& !crate::pattern_file_queuing_model::record_for(a.script(), a.spec_seen()).drop
                    ==> dropped is None && b.store() == crate::packet_queue::store_insert(
                    a.store(),
                    (now + crate::pattern_file_queuing_model::record_for(
                        a.script(),
                        a.spec_seen(),
                    ).delay) as u64,
                    packet,
                )
            },
            (QueuingModel::Bandwidth(a), QueuingModel::Bandwidth(b)) => {
                &&& b.bucket() == a.bucket()
                &&& b.spec_max_buffer() == a.spec_max_buffer()
                &&& b.spec_released() == a.spec_released()
                &&& a.spec_accepts(packet.spec_size()) ==> dropped is None
                    && b.buffer_view() == a.buffer_view().push(packet)
                    && b.spec_current() == a.spec_current() + packet.spec_size()
                &&& !a.spec_accepts(packet.spec_size()) ==> dropped == Some(packet)
                    && b.buffer_view() == a.buffer_view() && b.spec_current() == a.spec_current()
            },
            (QueuingModel::Random(a), QueuingModel::Random(b)) => {
                &&& b.spec_loss_rate() == a.spec_loss_rate()
                &&& b.spec_delay() == a.spec_delay()
                &&& dropped matches Some(p) ==> p == packet && b.store() == a.store()
                &&& dropped is None ==> exists|st: u64|
                    now <= st && a.spec_delay().contains(st - now) && b.store()
                        == #[trigger] crate::packet_queue::store_insert(a.store(), st, packet)
                &&& a.spec_loss_rate() == 0 ==> dropped is None
                &&& a.spec_loss_rate() >= 100 ==> dropped == Some(packet)
            },
            _ => false,
        }
    }

    /// What one stage's dequeue at `now` does: the random and pattern stages
    /// release exactly what is due, the bandwidth stage refills and drains
    /// its head run, the pass-through stage empties, each by its own exact
    /// contract.
    pub open spec fn dequeue_rel(
        pre: QueuingModel,
        post: QueuingModel,
        now: u64,
        out: Seq<NfqPacket>,
    ) -> bool {
        match (pre, post) {
            (QueuingModel::Forwarding(a), QueuingModel::Forwarding(b)) => {
                &&& out == a.packets_view()
                &&& b.packets_view() == Seq::<NfqPacket>::empty()
            },
            (QueuingModel::PatternFile(a), QueuingModel::PatternFile(b)) => {
                &&& b.script() == a.script()
                &&& b.spec_seen() == a.spec_seen()
                &&& b.spec_cursor() == a.spec_cursor()
                &&& out == crate::packet_queue::packets_of(
                    a.store().subrange(0, crate::packet_queue::insert_pos(a.store(), now)),
                )
                &&& b.store() == a.store().subrange(
                    crate::packet_queue::insert_pos(a.store(), now),
                    a.store().len() as int,
                )
            },
            (QueuingModel::Random(a), QueuingModel::Random(b)) => {
                &&& b.spec_loss_rate() == a.spec_loss_rate()
                &&& b.spec_delay() == a.spec_delay()
                &&& out == crate::packet_queue::packets_of(
                    a.store().subrange(0, crate::packet_queue::insert_pos(a.store(), now)),
                )
                &&& b.store() == a.store().subrange(
                    crate::packet_queue::insert_pos(a.store(), now),
                    a.store().len() as int,
                )
            },
            (QueuingModel::Bandwidth(a), QueuingModel::Bandwidth(b)) => {
                &&& b.spec_max_buffer() == a.spec_max_buffer()
                &&& b.bucket().spec_rate() == a.bucket().spec_rate()
                &&& b.bucket().spec_max_tokens() == a.bucket().spec_max_tokens()
                &&& b.bucket().spec_last_time() == a.bucket().spec_refilled_time(now)
                &&& b.bucket().spec_tokens() == a.spec_drain(now).1
                &&& out == a.buffer_view().subrange(0, a.spec_drain(now).0 as int)
                &&& b.buffer_view() == a.buffer_view().subrange(
                    a.spec_drain(now).0 as int,
                    a.buffer_view().len() as int,
                )
                &&& b.spec_current() == a.spec_current() - crate::bandwidth_queuing_model::sum_sizes(out)
                &&& b.spec_released() == a.spec_released() + crate::bandwidth_queuing_model::sum_sizes(out)
            },
            _ => false,
        }
    }

    /// Hands the packet to the model: either it is dropped and returned, or
    /// the stage holds one packet more, exactly by the stage's own rule.
    /// Anything deferred is timed at or after `now`, never by the packet's
    /// earlier arrival.
    pub fn enqueue(&mut self, packet: NfqPacket, now: u64) -> (dropped: Option<NfqPacket>)
        requires
            old(self).wf(),
            now + old(self).stage_max_delay() <= u64::MAX,
        ensures
            final(self).wf(),
            Self::same_config(old(self), final(self)),
            Self::enqueue_rel(*old(self), *final(self), packet, now, dropped),
            dropped matches Some(p) ==> p == packet && final(self).held() == old(self).held(),
            dropped is None ==> final(self).held() == old(self).held() + 1,
            forall|t: u64| #[trigger] old(self).time_le(t) ==> final(self).time_le(t),
            forall|t: u64| t <= now && #[trigger] old(self).entries_at_or_after(t)
                ==> final(self).entries_at_or_after(t),
    {
        match self {
            QueuingModel::Random(m) => {
                let ghost s0 = m.store();
                let r = m.enqueue(packet, now);
                proof {
                    if r is None {
                        let st = choose|st: u64|
                            now <= st && old(self)->Random_0.spec_delay().contains(st - now)
                                && m.store() == #[trigger] crate::packet_queue::store_insert(s0, st, packet);
                        lemma_insert_pos(s0, st);
                        assert(m.store().len() == s0.len() + 1);
                        assert forall|t: u64| t <= now && #[trigger] old(self).entries_at_or_after(t)
                            implies final(self).entries_at_or_after(t) by {
                            lemma_store_insert_bound(s0, st, packet, t);
                        }
                    }
                }
                r
            },
            QueuingModel::PatternFile(m) => {
                let ghost s0 = m.store();
                let ghost rec = crate::pattern_file_queuing_model::record_for(m.script(), m.spec_seen());
                proof {
                    crate::pattern_file_queuing_model::lemma_max_delay_bound(
                        m.script(),
                        (m.spec_seen() % m.script().len()) as int,
                    );
                }
                let r = m.enqueue(packet, now);
                proof {
                    if r is None {
                        let st = (now + rec.delay) as u64;
                        lemma_insert_pos(s0, st);
                        assert(m.store().len() == s0.len() + 1);
                        assert forall|t: u64| t <= now && #[trigger] old(self).entries_at_or_after(t)
                            implies final(self).entries_at_or_after(t) by {
                            lemma_store_insert_bound(s0, st, packet, t);
                        }
                    }
                }
                r
            },
            QueuingModel::Bandwidth(m) => m.enqueue(packet, now),
            QueuingModel::Forwarding(m) => {
                m.enqueue(packet, now);
                None
            },
        }
    }

    /// Releases what is due, exactly by the stage's own rule: the stage
    /// holds exactly the released packets fewer, and a stage that held
    /// nothing releases nothing and keeps its held state (the bandwidth
    /// bucket may still refill).
    pub fn dequeue(&mut self, now: u64) -> (r: Vec<NfqPacket>)
        requires
            old(self).wf(),
            old(self).time_le(now),
        ensures
            final(self).wf(),
            Self::same_config(old(self), final(self)),
            Self::dequeue_rel(*old(self), *final(self), now, r@),
            final(self).held() + r@.len() == old(self).held(),
            final(self).time_le(now),
            forall|t: u64| #[trigger] old(self).entries_at_or_after(t)
                ==> final(self).entries_at_or_after(t),
            old(self).held() == 0 ==> r@.len() == 0
                && Self::same_held_state(old(self), final(self)),
    {
        match self {
            QueuingModel::Random(m) => {
                let ghost s0 = m.store();
                proof {
                    lemma_insert_pos(s0, now);
                }
                let r = m.dequeue(now);
                proof {
                    if s0.len() == 0 {
                        assert(m.store() =~= s0);
                        assert(r@ =~= Seq::<NfqPacket>::empty());
                    }
                }
                r
            },
            QueuingModel::PatternFile(m) => {
                let ghost s0 = m.store();
                proof {
                    lemma_insert_pos(s0, now);
                }
                let r = m.dequeue(now);
                proof {
                    if s0.len() == 0 {
                        assert(m.store() =~= s0);
                        assert(r@ =~= Seq::<NfqPacket>::empty());
                    }
                }
                r
            },
            QueuingModel::Bandwidth(m) => {
                let ghost b0 = m.buffer_view();
                proof {
                    crate::bandwidth_queuing_model::lemma_drain_count_le(
                        m.bucket().spec_refilled(now) as nat,
                        m.bucket().spec_max_tokens() as nat,
                        b0,
                    );
                }
                let r = m.dequeue(now);
                proof {
                    if b0.len() == 0 {
                        assert(m.buffer_view() =~= b0);
                        assert(r@ =~= Seq::<NfqPacket>::empty());
                    }
                }
                r
            },
            QueuingModel::Forwarding(m) => {
                let ghost p0 = m.packets_view();
                let r = m.dequeue(now);
                proof {
                    if p0.len() == 0 {
                        assert(m.packets_view() =~= p0);
                    }
                }
                r
            },
        }
    }
}

/// One stage fed a run of packets in order at `now`: each packet was
/// enqueued by the stage's own rule, and those the stage dropped are
/// collected in feed order.
pub open spec fn feed_rel(
    pre: QueuingModel,
    post: QueuingModel,
    packets: Seq<NfqPacket>,
    now: u64,
    dropped: Seq<NfqPacket>,
) -> bool
    decreases packets.len(),
{
    if packets.len() == 0 {
        post == pre && dropped.len() == 0
    } else {
        ||| exists|mid: QueuingModel|
            #[trigger] QueuingModel::enqueue_rel(mid, post, packets.last(), now, None)
                && feed_rel(pre, mid, packets.drop_last(), now, dropped)
        ||| (dropped.len() > 0 && dropped.last() == packets.last() && exists|mid: QueuingModel|
            #[trigger] QueuingModel::enqueue_rel(mid, post, packets.last(), now, Some(packets.last()))
                && feed_rel(pre, mid, packets.drop_last(), now, dropped.drop_last()))
    }
}

/// The chain's pipeline at `now`: each stage in order is fed the previous
/// stage's releases (the first stage takes `incoming`), timestamped with the
/// dequeue-time `now`; the last stage's releases are the chain's output, and
/// what any stage drops is collected in stage order and goes no further.
pub open spec fn chain_pipeline_rel(
    pre: Seq<QueuingModel>,
    post: Seq<QueuingModel>,
    incoming: Seq<NfqPacket>,
    now: u64,
    out: Seq<NfqPacket>,
    dropped: Seq<NfqPacket>,
) -> bool
    decreases pre.len(),
{
    if pre.len() == 0 {
        post.len() == 0 && out == incoming && dropped.len() == 0
    } else {
        post.len() == pre.len() && exists|
            mid_out: Seq<NfqPacket>,
            fed: QueuingModel,
            d_acc: Seq<NfqPacket>,
            d1: Seq<NfqPacket>,
        |
            chain_pipeline_rel(pre.drop_last(), post.drop_last(), incoming, now, mid_out, d_acc)
                && #[trigger] feed_rel(pre.last(), fed, mid_out, now, d1)
                && QueuingModel::dequeue_rel(fed, post.last(), now, out)
                && (#[trigger] (d_acc + d1)) == dropped
    }
}

/// A whole chain's enqueue: stage zero took the packet by its own rule and
/// every later stage is untouched.
pub open spec fn chain_enqueue_rel(
    pre: Seq<QueuingModel>,
    post: Seq<QueuingModel>,
    packet: NfqPacket,
    now: u64,
    dropped: Option<NfqPacket>,
) -> bool {
    &&& pre.len() > 0
    &&& post.len() == pre.len()
    &&& QueuingModel::enqueue_rel(pre[0], post[0], packet, now, dropped)
    &&& forall|i: int| 1 <= i < pre.len() ==> post[i] == #[trigger] pre[i]
}

/// Packets released without token cover across a run of stages.
pub open spec fn chain_oversized(s: Seq<QueuingModel>) -> nat
    decreases s.len(),
{
    if s.len() == 0 {
        0
    } else {
        s[0].stage_oversized() as nat + chain_oversized(s.subrange(1, s.len() as int))
    }
}

/// Packets held across a run of stages.
pub open spec fn chain_held(s: Seq<QueuingModel>) -> nat
    decreases s.len(),
{
    if s.len() == 0 {
        0
    } else {
        s[0].held() + chain_held(s.subrange(1, s.len() as int))
    }
}

proof fn lemma_chain_held_push(s: Seq<QueuingModel>, m: QueuingModel)
    ensures
        chain_held(s.push(m)) == chain_held(s) + m.held(),
    decreases s.len(),
{
    if s.len() == 0 {
        assert(s.push(m)[0] == m);
        assert(s.push(m).subrange(1, 1) =~= Seq::<QueuingModel>::empty());
        assert(chain_held(s.push(m).subrange(1, 1)) == 0);
    } else {
        lemma_chain_held_push(s.subrange(1, s.len() as int), m);
        assert(s.push(m)[0] == s[0]);
        assert(s.push(m).subrange(1, s.push(m).len() as int) =~= s.subrange(1, s.len() as int).push(m));
        assert(chain_held(s.push(m))
            == s[0].held() + chain_held(s.subrange(1, s.len() as int).push(m)));
    }
}

/// No stage holds more than the whole chain.
proof fn lemma_chain_held_elem(s: Seq<QueuingModel>, i: int)
    requires
        0 <= i < s.len(),
    ensures
        s[i].held() <= chain_held(s),
    decreases s.len(),
{
    if i > 0 {
        let rest = s.subrange(1, s.len() as int);
        lemma_chain_held_elem(rest, i - 1);
        assert(rest[i - 1] == s[i]);
    }
}

/// The largest deferral any stage of the chain can assign.
pub open spec fn chain_max_delay(s: Seq<QueuingModel>) -> nat
    decreases s.len(),
{
    if s.len() == 0 {
        0
    } else if s[0].stage_max_delay() >= chain_max_delay(s.subrange(1, s.len() as int)) {
        s[0].stage_max_delay()
    } else {
        chain_max_delay(s.subrange(1, s.len() as int))
    }
}

proof fn lemma_chain_max_delay_bound(s: Seq<QueuingModel>, i: int)
    requires
        0 <= i < s.len(),
    ensures
        s[i].stage_max_delay() <= chain_max_delay(s),
    decreases s.len(),
{
    if i > 0 {
        let rest = s.subrange(1, s.len() as int);
        lemma_chain_max_delay_bound(rest, i - 1);
        assert(rest[i - 1] == s[i]);
    }
}

pub open spec fn chain_wf_stages(s: Seq<QueuingModel>) -> bool {
    forall|i: int| 0 <= i < s.len() ==> (#[trigger] s[i]).wf()
}

/// Every stage accepts `now` as a clock reading.
pub open spec fn chain_time_le(s: Seq<QueuingModel>, now: u64) -> bool {
    forall|i: int| 0 <= i < s.len() ==> (#[trigger] s[i]).time_le(now)
}

/// Every deferred entry of every stage is due at or after `t`.
pub open spec fn chain_entries_at_or_after(s: Seq<QueuingModel>, t: u64) -> bool {
    forall|i: int| 0 <= i < s.len() ==> (#[trigger] s[i]).entries_at_or_after(t)
}

/// Pointwise equal configuration.
pub open spec fn same_configs(a: Seq<QueuingModel>, b: Seq<QueuingModel>) -> bool {
    a.len() == b.len() && forall|i: int|
        0 <= i < a.len() ==> QueuingModel::same_config(&a[i], &b[i])
}

/// Pointwise equal held state.
pub open spec fn same_held_states(a: Seq<QueuingModel>, b: Seq<QueuingModel>) -> bool {
    a.len() == b.len() && forall|i: int|
        0 <= i < a.len() ==> QueuingModel::same_held_state(&a[i], &b[i])
}

proof fn lemma_same_config_refl(m: &QueuingModel)
    ensures
        QueuingModel::same_config(m, m),
{
    match m {
        QueuingModel::Random(_) => {},
        QueuingModel::PatternFile(_) => {},
        QueuingModel::Bandwidth(_) => {},
        QueuingModel::Forwarding(_) => {},
    }
}

proof fn lemma_same_config_trans(a: &QueuingModel, b: &QueuingModel, c: &QueuingModel)
    requires
        QueuingModel::same_config(a, b),
        QueuingModel::same_config(b, c),
    ensures
        QueuingModel::same_config(a, c),
{
    match (a, b, c) {
        (QueuingModel::Random(_), QueuingModel::Random(_), QueuingModel::Random(_)) => {},
        (QueuingModel::PatternFile(_), QueuingModel::PatternFile(_), QueuingModel::PatternFile(_)) => {},
        (QueuingModel::Bandwidth(_), QueuingModel::Bandwidth(_), QueuingModel::Bandwidth(_)) => {},
        (QueuingModel::Forwarding(_), QueuingModel::Forwarding(_), QueuingModel::Forwarding(_)) => {},
        _ => {},
    }
}

/// Equally configured stages can assign the same deferrals.
proof fn lemma_same_config_delay(a: &QueuingModel, b: &QueuingModel)
    requires
        QueuingModel::same_config(a, b),
    ensures
        a.stage_max_delay() == b.stage_max_delay(),
{
    match (a, b) {
        (QueuingModel::Random(_), QueuingModel::Random(_)) => {},
        (QueuingModel::PatternFile(_), QueuingModel::PatternFile(_)) => {},
        (QueuingModel::Bandwidth(_), QueuingModel::Bandwidth(_)) => {},
        (QueuingModel::Forwarding(_), QueuingModel::Forwarding(_)) => {},
        _ => {},
    }
}

/// Whether a built stage carries a configured stage's settings.
pub open spec fn stage_matches(cfg: QueuingModelConfig, m: QueuingModel) -> bool {
    match (cfg, m) {
        (QueuingModelConfig::Random(c), QueuingModel::Random(x)) => x.spec_loss_rate() == c.loss_rate
            && x.spec_delay() == Delay::Range(c.delay_range.0, c.delay_range.1),
        (QueuingModelConfig::PatternFile(c), QueuingModel::PatternFile(x)) => x.script()
            == c.packet_info@,
        (QueuingModelConfig::Bandwidth(c), QueuingModel::Bandwidth(x)) => x.bucket().spec_rate()
            == c.rate * 1024 && x.bucket().spec_max_tokens() == c.burst_size * 1024
            && x.spec_max_buffer() == c.buffer_size * 1024,
        _ => false,
    }
}

/// A built chain mirrors its configuration, stage for stage; with nothing
/// configured it is the single pass-through stage.
pub open spec fn stages_match(cfgs: Seq<QueuingModelConfig>, s: Seq<QueuingModel>) -> bool {
    if cfgs.len() == 0 {
        s.len() == 1 && s[0] is Forwarding
    } else {
        s.len() == cfgs.len() && forall|i: int|
            0 <= i < s.len() ==> stage_matches(cfgs[i], #[trigger] s[i])
    }
}

/// A stage that has seen no traffic: nothing held, the pattern cursor at the
/// script's start, the token bucket empty with its clock at zero.
pub open spec fn stage_fresh(m: QueuingModel) -> bool {
    m.held() == 0 && match m {
        QueuingModel::PatternFile(x) => x.spec_seen() == 0,
        QueuingModel::Bandwidth(x) => x.bucket().spec_tokens() == 0
            && x.bucket().spec_last_time() == 0 && x.spec_current() == 0 && x.spec_released() == 0
            && x.shaped(),
        _ => true,
    }
}

pub open spec fn stages_fresh(s: Seq<QueuingModel>) -> bool {
    forall|i: int| 0 <= i < s.len() ==> stage_fresh(#[trigger] s[i])
}

/// Ordered composition of models; every flow gets a chain of its own.
pub struct QueuingModelChain {
    models: Vec<QueuingModel>,
}

impl QueuingModelChain {
    pub closed spec fn stages(&self) -> Seq<QueuingModel> {
        self.models@
    }

    pub open spec fn wf(&self) -> bool {
        self.stages().len() > 0 && chain_wf_stages(self.stages())
    }

    /// Total packets the chain's stages released without token cover, the
    /// count sticking at the top of its range. A grown count after a pass
    /// means a burst smaller than a packet was seen.
    pub fn oversized_releases(&self) -> (n: u64)
        ensures
            n == crate::bandwidth_queuing_model::sat_u64(chain_oversized(self.stages())),
    {
        let ghost s = self.stages();
        proof {
            assert(s.subrange(0, s.len() as int) =~= s);
        }
        let mut total: u64 = 0;
        let mut i: usize = 0;
        while i < self.models.len()
            invariant
                0 <= i <= s.len(),
                s == self.stages(),
                crate::bandwidth_queuing_model::sat_u64(
                    (total + chain_oversized(s.subrange(i as int, s.len() as int))) as nat,
                ) == crate::bandwidth_queuing_model::sat_u64(chain_oversized(s)),
                total <= crate::bandwidth_queuing_model::sat_u64(chain_oversized(s)),
            decreases s.len() - i,
        {
            proof {
                assert(s.subrange(i as int, s.len() as int).subrange(
                    1,
                    s.subrange(i as int, s.len() as int).len() as int,
                ) =~= s.subrange(i + 1, s.len() as int));
                assert(s.subrange(i as int, s.len() as int)[0] == s[i as int]);
            }
            let v = self.models[i].oversized_releases();
            total = if total > u64::MAX - v {
                u64::MAX
            } else {
                total + v
            };
            i = i + 1;
        }
        proof {
            assert(s.subrange(s.len() as int, s.len() as int) =~= Seq::<QueuingModel>::empty());
        }
        total
    }

    /// Builds one stage per configured model, in the configuration's order;
    /// with nothing configured, a single pass-through stage.
    pub fn new(config: &Vec<QueuingModelConfig>) -> (c: QueuingModelChain)
        requires
            models_valid(config@),
        ensures
            c.wf(),
            stages_match(config@, c.stages()),
            stages_fresh(c.stages()),
            chain_held(c.stages()) == 0,
            forall|t: u64| #[trigger] chain_time_le(c.stages(), t),
    {
        let mut models: Vec<QueuingModel> = Vec::new();
        let mut i: usize = 0;
        while i < config.len()
            invariant
                models_valid(config@),
                0 <= i <= config@.len(),
                models@.len() == i,
                forall|j: int| 0 <= j < i ==> stage_matches(config@[j], #[trigger] models@[j]),
                forall|j: int| 0 <= j < i ==> (#[trigger] models@[j]).wf(),
                forall|j: int| 0 <= j < i ==> stage_fresh(#[trigger] models@[j]),
            decreases config@.len() - i,
        {
            assert(config@[i as int].valid());
            match &config[i] {
                QueuingModelConfig::Bandwidth(cfg) => {
                    models.push(QueuingModel::Bandwidth(BandwidthQueuingModel::new(
                        cfg.rate,
                        cfg.burst_size,
                        cfg.buffer_size,
                    )));
                },
                QueuingModelConfig::Random(cfg) => {
                    models.push(QueuingModel::Random(
                        RandomQueuingModel::new(cfg.loss_rate).with_delay_range(cfg.delay_range),
                    ));
                },
                QueuingModelConfig::PatternFile(cfg) => {
                    models.push(QueuingModel::PatternFile(PatternFileQueuingModel::new(
                        &cfg.packet_info,
                    )));
                },
            }
            i = i + 1;
        }
        if models.len() == 0 {
            models.push(QueuingModel::Forwarding(ForwardingQueuingModel::new()));
        }
        let c = QueuingModelChain { models };
        proof {
            assert forall|t: u64| #[trigger] chain_time_le(c.stages(), t) by {
                assert forall|j: int| 0 <= j < c.stages().len() implies (
                    #[trigger] c.stages()[j]).time_le(t) by {
                    assert(stage_fresh(c.stages()[j]));
                }
            }
            assert forall|j: int| 0 <= j < c.stages().len() implies (
                #[trigger] c.stages()[j]).held() == 0 by {
                assert(stage_fresh(c.stages()[j]));
            }
            lemma_chain_held_zero(c.stages());
        }
        c
    }

    /// Hands the packet to stage zero, which decides it by its own rule;
    /// every later stage is untouched. Exactly one of two things happens:
    /// the packet comes back dropped, or the chain holds one packet more.
    pub fn enqueue(&mut self, packet: NfqPacket, now: u64) -> (dropped: Option<NfqPacket>)
        requires
            old(self).wf(),
            now + chain_max_delay(old(self).stages()) <= u64::MAX,
        ensures
            final(self).wf(),
            chain_enqueue_rel(old(self).stages(), final(self).stages(), packet, now, dropped),
            same_configs(old(self).stages(), final(self).stages()),
            forall|t: u64| #[trigger] chain_time_le(old(self).stages(), t)
                ==> chain_time_le(final(self).stages(), t),
            forall|t: u64| t <= now && #[trigger] chain_entries_at_or_after(old(self).stages(), t)
                ==> chain_entries_at_or_after(final(self).stages(), t),
            dropped matches Some(p) ==> p == packet
                && chain_held(final(self).stages()) == chain_held(old(self).stages()),
            dropped is None ==> chain_held(final(self).stages())
                == chain_held(old(self).stages()) + 1,
    {
        let ghost s0 = self.models@;
        proof {
            lemma_chain_max_delay_bound(s0, 0);
        }
        let mut m = self.models.remove(0);
        let r = m.enqueue(packet, now);
        self.models.insert(0, m);
        proof {
            let s1 = final(self).stages();
            assert(s1.subrange(1, s1.len() as int) =~= s0.subrange(1, s0.len() as int));
            assert(chain_held(s1) == s1[0].held() + chain_held(s1.subrange(1, s1.len() as int)));
            assert forall|i: int| 1 <= i < s0.len() implies s1[i] == #[trigger] s0[i] by {
                assert(s1.subrange(1, s1.len() as int)[i - 1] == s1[i]);
                assert(s0.subrange(1, s0.len() as int)[i - 1] == s0[i]);
            }
            assert forall|i: int| 0 <= i < s0.len() implies QueuingModel::same_config(
                &s0[i],
                &s1[i],
            ) by {
                if i > 0 {
                    lemma_same_config_refl(&s0[i]);
                }
            }
        }
        r
    }

    /// Walks the stages in order: what each stage releases at `now` is fed
    /// to the next stage timestamped `now` — never with its earlier arrival
    /// time — and the last stage's output is the chain's. Returns
    /// `(accepted, dropped)`: every packet the chain gave up holding is in
    /// exactly one of the two, and a chain that held nothing returns nothing
    /// and keeps every stage's held state.
    pub fn dequeue(&mut self, now: u64) -> (r: (Vec<NfqPacket>, Vec<NfqPacket>))
        requires
            old(self).wf(),
            chain_time_le(old(self).stages(), now),
            now + chain_max_delay(old(self).stages()) <= u64::MAX,
        ensures
            final(self).wf(),
            chain_pipeline_rel(
                old(self).stages(),
                final(self).stages(),
                Seq::<NfqPacket>::empty(),
                now,
                r.0@,
                r.1@,
            ),
            same_configs(old(self).stages(), final(self).stages()),
            chain_time_le(final(self).stages(), now),
            chain_held(old(self).stages())
                == chain_held(final(self).stages()) + r.0@.len() + r.1@.len(),
            chain_held(old(self).stages()) == 0 ==> r.0@.len() == 0 && r.1@.len() == 0
                && same_held_states(old(self).stages(), final(self).stages()),
            forall|t: u64| t <= now && #[trigger] chain_entries_at_or_after(old(self).stages(), t)
                ==> chain_entries_at_or_after(final(self).stages(), t),
    {
        let ghost s0 = self.models@;
        let mut processed: Vec<QueuingModel> = Vec::new();
        let mut packets: Vec<NfqPacket> = Vec::new();
        let mut dropped: Vec<NfqPacket> = Vec::new();
        proof {
            assert(s0.subrange(0, 0) =~= Seq::<QueuingModel>::empty());
            assert(chain_pipeline_rel(
                s0.subrange(0, 0),
                processed@,
                Seq::<NfqPacket>::empty(),
                now,
                packets@,
                dropped@,
            ));
        }
        while self.models.len() > 0
            invariant
                chain_wf_stages(s0),
                chain_time_le(s0, now),
                now + chain_max_delay(s0) <= u64::MAX,
                processed@.len() + self.models@.len() == s0.len(),
                self.models@ == s0.subrange(processed@.len() as int, s0.len() as int),
                chain_wf_stages(processed@),
                chain_time_le(processed@, now),
                forall|j: int| 0 <= j < processed@.len()
                    ==> QueuingModel::same_config(&s0[j], &(#[trigger] processed@[j])),
                chain_held(processed@) + chain_held(self.models@) + packets@.len()
                    + dropped@.len() == chain_held(s0),
                chain_held(s0) == 0 ==> packets@.len() == 0 && dropped@.len() == 0 && (
                forall|j: int| 0 <= j < processed@.len()
                    ==> QueuingModel::same_held_state(&s0[j], &(#[trigger] processed@[j]))),
                forall|t: u64, j: int|
                    t <= now && chain_entries_at_or_after(s0, t) && 0 <= j < processed@.len()
                        ==> #[trigger] processed@[j].entries_at_or_after(t),
                chain_pipeline_rel(
                    s0.subrange(0, processed@.len() as int),
                    processed@,
                    Seq::<NfqPacket>::empty(),
                    now,
                    packets@,
                    dropped@,
                ),
            decreases self.models@.len(),
        {
            let ghost k = processed@.len() as int;
            proof {
                assert(self.models@[0] == s0[k]);
                lemma_chain_max_delay_bound(s0, k);
                if chain_held(s0) == 0 {
                    lemma_chain_held_elem(s0, k);
                }
                // unfold the held count of the untouched suffix at its head
                assert(self.models@.subrange(1, self.models@.len() as int)
                    =~= s0.subrange(k + 1, s0.len() as int));
                assert(chain_held(self.models@)
                    == s0[k].held() + chain_held(s0.subrange(k + 1, s0.len() as int)));
            }
            let mut m = self.models.remove(0);
            let ghost m0 = m;
            let ghost packets_in = packets@;
            let ghost dropped_in = dropped@;
            proof {
                lemma_same_config_refl(&m);
                lemma_same_config_delay(&m0, &m);
            }
            proof {
                assert(packets_in.subrange(0, 0) =~= Seq::<NfqPacket>::empty());
                assert(dropped_in.subrange(dropped_in.len() as int, dropped_in.len() as int)
                    =~= Seq::<NfqPacket>::empty());
                assert(packets_in.subrange(0, packets_in.len() as int) =~= packets_in);
            }
            while packets.len() > 0
                invariant
                    m.wf(),
                    0 <= k < s0.len(),
                    m0 == s0[k],
                    now + chain_max_delay(s0) <= u64::MAX,
                    m0.stage_max_delay() <= chain_max_delay(s0),
                    QueuingModel::same_config(&m0, &m),
                    m.stage_max_delay() == m0.stage_max_delay(),
                    m.held() + packets@.len() + dropped@.len()
                        == m0.held() + packets_in.len() + dropped_in.len(),
                    forall|t: u64| #[trigger] m0.time_le(t) ==> m.time_le(t),
                    forall|t: u64| t <= now && #[trigger] m0.entries_at_or_after(t)
                        ==> m.entries_at_or_after(t),
                    chain_held(s0) == 0 ==> m == m0 && dropped@ == dropped_in
                        && packets@.len() == 0,
                    packets@.len() <= packets_in.len(),
                    packets@ == packets_in.subrange(
                        packets_in.len() - packets@.len(),
                        packets_in.len() as int,
                    ),
                    dropped@.len() >= dropped_in.len(),
                    dropped@.subrange(0, dropped_in.len() as int) == dropped_in,
                    feed_rel(
                        m0,
                        m,
                        packets_in.subrange(0, packets_in.len() - packets@.len()),
                        now,
                        dropped@.subrange(dropped_in.len() as int, dropped@.len() as int),
                    ),
                decreases packets@.len(),
            {
                let ghost fed_before = packets_in.subrange(0, packets_in.len() - packets@.len());
                let ghost seg_before = dropped@.subrange(dropped_in.len() as int, dropped@.len() as int);
                let p = packets.remove(0);
                let ghost m_before = m;
                let d = m.enqueue(p, now);
                let ghost dg = d;
                proof {
                    lemma_same_config_trans(&m0, &m_before, &m);
                    lemma_same_config_delay(&m0, &m);
                }
                match d {
                    Some(dp) => dropped.push(dp),
                    None => {},
                }
                proof {
                    // the packet just fed extends the feed relation at its end
                    let fed2 = packets_in.subrange(0, packets_in.len() - packets@.len());
                    let seg2 = dropped@.subrange(dropped_in.len() as int, dropped@.len() as int);
                    assert(p == packets_in[fed_before.len() as int]);
                    assert(fed2 =~= fed_before.push(p));
                    assert(fed2.drop_last() =~= fed_before);
                    assert(packets@ =~= packets_in.subrange(
                        packets_in.len() - packets@.len(),
                        packets_in.len() as int,
                    ));
                    assert(dropped@.subrange(0, dropped_in.len() as int) =~= dropped_in);
                    match dg {
                        None => {
                            assert(seg2 =~= seg_before);
                            assert(QueuingModel::enqueue_rel(m_before, m, fed2.last(), now, None));
                            assert(feed_rel(m0, m_before, fed2.drop_last(), now, seg2));
                        },
                        Some(dp) => {
                            assert(dp == p);
                            assert(seg2 =~= seg_before.push(dp));
                            assert(seg2.last() == fed2.last());
                            assert(seg2.drop_last() =~= seg_before);
                            assert(QueuingModel::enqueue_rel(
                                m_before,
                                m,
                                fed2.last(),
                                now,
                                Some(fed2.last()),
                            ));
                            assert(feed_rel(m0, m_before, fed2.drop_last(), now, seg2.drop_last()));
                        },
                    }
                    assert(feed_rel(m0, m, fed2, now, seg2));
                }
            }
            proof {
                assert(s0[k].time_le(now));
            }
            let ghost m_fed = m;
            let out = m.dequeue(now);
            proof {
                lemma_same_config_trans(&m0, &m_fed, &m);
            }
            let ghost m_done = m;
            let ghost processed_before = processed@;
            let ghost seg_stage = dropped@.subrange(dropped_in.len() as int, dropped@.len() as int);
            processed.push(m);
            packets = out;
            proof {
                lemma_chain_held_push(processed_before, m_done);
                assert(self.models@ =~= s0.subrange(k + 1, s0.len() as int));
                // the processed stage extends the pipeline relation at its end
                let pre2 = s0.subrange(0, k + 1);
                assert(pre2.drop_last() =~= s0.subrange(0, k));
                assert(pre2.last() == s0[k]);
                assert(processed@.drop_last() =~= processed_before);
                assert(processed@.last() == m_done);
                assert(feed_rel(pre2.last(), m_fed, packets_in, now, seg_stage));
                assert(QueuingModel::dequeue_rel(m_fed, processed@.last(), now, packets@));
                assert(chain_pipeline_rel(
                    pre2.drop_last(),
                    processed@.drop_last(),
                    Seq::<NfqPacket>::empty(),
                    now,
                    packets_in,
                    dropped_in,
                ));
                assert(dropped@ =~= dropped_in + seg_stage);
                assert(processed@.len() == pre2.len());
                assert(chain_pipeline_rel(
                    pre2,
                    processed@,
                    Seq::<NfqPacket>::empty(),
                    now,
                    packets@,
                    dropped@,
                ));
                assert forall|j: int| 0 <= j < processed@.len()
                    implies QueuingModel::same_config(&s0[j], &(#[trigger] processed@[j])) by {
                    if j < k {
                        assert(processed@[j] == processed_before[j]);
                    } else {
                        lemma_same_config_trans(&s0[k], &m0, &m_done);
                    }
                }
                if chain_held(s0) == 0 {
                    assert forall|j: int| 0 <= j < processed@.len()
                        implies QueuingModel::same_held_state(&s0[j], &(#[trigger] processed@[j])) by {
                        if j < k {
                            assert(processed@[j] == processed_before[j]);
                        } else {
                            assert(m_fed == s0[k]);
                        }
                    }
                }
                assert forall|t: u64, j: int|
                    t <= now && chain_entries_at_or_after(s0, t) && 0 <= j < processed@.len()
                        implies #[trigger] processed@[j].entries_at_or_after(t) by {
                    if j < k {
                        assert(processed@[j] == processed_before[j]);
                    } else {
                        assert(s0[k].entries_at_or_after(t));
                        assert(m0.entries_at_or_after(t));
                    }
                }
            }
        }
        proof {
            assert(processed@.len() == s0.len());
            assert(chain_held(self.models@) == 0);
            assert(s0.subrange(0, s0.len() as int) =~= s0);
        }
        self.models = processed;
        (packets, dropped)
    }
}

/// The largest deferral any configured stage can assign, in microseconds.
pub open spec fn config_delay(cfg: QueuingModelConfig) -> nat {
    match cfg {
        QueuingModelConfig::Random(c) => c.delay_range.1 as nat,
        QueuingModelConfig::PatternFile(c) => max_delay(c.packet_info@),
        QueuingModelConfig::Bandwidth(_) => 0,
    }
}

/// The largest deferral any stage of a configuration can assign.
pub open spec fn config_max_delay(cfgs: Seq<QueuingModelConfig>) -> nat
    decreases cfgs.len(),
{
    if cfgs.len() == 0 {
        0
    } else if config_delay(cfgs[0]) >= config_max_delay(cfgs.subrange(1, cfgs.len() as int)) {
        config_delay(cfgs[0])
    } else {
        config_max_delay(cfgs.subrange(1, cfgs.len() as int))
    }
}

proof fn lemma_config_max_delay_elem(cfgs: Seq<QueuingModelConfig>, i: int)
    requires
        0 <= i < cfgs.len(),
    ensures
        config_delay(cfgs[i]) <= config_max_delay(cfgs),
    decreases cfgs.len(),
{
    if i > 0 {
        let rest = cfgs.subrange(1, cfgs.len() as int);
        lemma_config_max_delay_elem(rest, i - 1);
        assert(rest[i - 1] == cfgs[i]);
    }
}

/// A bound on every stage's deferral bounds the chain's.
proof fn lemma_chain_max_delay_le(s: Seq<QueuingModel>, bound: nat)
    requires
        forall|j: int| 0 <= j < s.len() ==> (#[trigger] s[j]).stage_max_delay() <= bound,
    ensures
        chain_max_delay(s) <= bound,
    decreases s.len(),
{
    if s.len() > 0 {
        let rest = s.subrange(1, s.len() as int);
        assert forall|j: int| 0 <= j < rest.len() implies (#[trigger] rest[j]).stage_max_delay()
            <= bound by {
            assert(rest[j] == s[j + 1]);
        }
        lemma_chain_max_delay_le(rest, bound);
    }
}

proof fn lemma_stage_matches_delay(cfg: QueuingModelConfig, m: QueuingModel)
    requires
        stage_matches(cfg, m),
    ensures
        m.stage_max_delay() == config_delay(cfg),
{
    match (cfg, m) {
        (QueuingModelConfig::Random(_), QueuingModel::Random(_)) => {},
        (QueuingModelConfig::PatternFile(_), QueuingModel::PatternFile(_)) => {},
        (QueuingModelConfig::Bandwidth(_), QueuingModel::Bandwidth(_)) => {},
        _ => {},
    }
}

/// A chain that mirrors a configuration defers no longer than the
/// configuration allows.
pub proof fn lemma_chain_delay_from_config(cfgs: Seq<QueuingModelConfig>, s: Seq<QueuingModel>)
    requires
        stages_match(cfgs, s),
    ensures
        chain_max_delay(s) <= config_max_delay(cfgs),
{
    if cfgs.len() == 0 {
        assert forall|j: int| 0 <= j < s.len() implies (#[trigger] s[j]).stage_max_delay()
            <= 0 by {}
        lemma_chain_max_delay_le(s, 0);
    } else {
        assert forall|j: int| 0 <= j < s.len() implies (#[trigger] s[j]).stage_max_delay()
            <= config_max_delay(cfgs) by {
            lemma_stage_matches_delay(cfgs[j], s[j]);
            lemma_config_max_delay_elem(cfgs, j);
        }
        lemma_chain_max_delay_le(s, config_max_delay(cfgs));
    }
}

/// Packet traffic never changes what configuration a chain mirrors.
pub proof fn lemma_stages_match_preserved(
    cfgs: Seq<QueuingModelConfig>,
    a: Seq<QueuingModel>,
    b: Seq<QueuingModel>,
)
    requires
        stages_match(cfgs, a),
        same_configs(a, b),
    ensures
        stages_match(cfgs, b),
{
    if cfgs.len() == 0 {
        match (a[0], b[0]) {
            (QueuingModel::Forwarding(_), QueuingModel::Forwarding(_)) => {},
            _ => {
                assert(QueuingModel::same_config(&a[0], &b[0]));
                assert(a[0] is Forwarding);
                match (a[0], b[0]) {
                    (QueuingModel::Forwarding(_), QueuingModel::Forwarding(_)) => {},
                    _ => {},
                }
            },
        }
    } else {
        assert forall|i: int| 0 <= i < b.len() implies stage_matches(cfgs[i], #[trigger] b[i]) by {
            assert(stage_matches(cfgs[i], a[i]));
            assert(QueuingModel::same_config(&a[i], &b[i]));
            match (cfgs[i], a[i], b[i]) {
                (QueuingModelConfig::Random(_), QueuingModel::Random(_), QueuingModel::Random(_)) => {},
                (
                    QueuingModelConfig::PatternFile(_),
                    QueuingModel::PatternFile(_),
                    QueuingModel::PatternFile(_),
                ) => {},
                (
                    QueuingModelConfig::Bandwidth(_),
                    QueuingModel::Bandwidth(_),
                    QueuingModel::Bandwidth(_),
                ) => {},
                _ => {},
            }
        }
    }
}

/// A clock reading a stage accepts is accepted at every later reading.
pub proof fn lemma_chain_time_le_mono(s: Seq<QueuingModel>, t1: u64, t2: u64)
    requires
        chain_time_le(s, t1),
        t1 <= t2,
    ensures
        chain_time_le(s, t2),
{
    assert forall|i: int| 0 <= i < s.len() implies (#[trigger] s[i]).time_le(t2) by {
        assert(s[i].time_le(t1));
        match s[i] {
            QueuingModel::Bandwidth(_) => {},
            QueuingModel::Random(_) => {},
            QueuingModel::PatternFile(_) => {},
            QueuingModel::Forwarding(_) => {},
        }
    }
}

/// A chain that holds nothing holds nothing at every stage.
proof fn lemma_chain_held_zero(s: Seq<QueuingModel>)
    requires
        forall|j: int| 0 <= j < s.len() ==> (#[trigger] s[j]).held() == 0,
    ensures
        chain_held(s) == 0,
    decreases s.len(),
{
    if s.len() > 0 {
        let rest = s.subrange(1, s.len() as int);
        assert forall|j: int| 0 <= j < rest.len() implies (#[trigger] rest[j]).held() == 0 by {
            assert(rest[j] == s[j + 1]);
        }
        lemma_chain_held_zero(rest);
    }
}

} // verus!
