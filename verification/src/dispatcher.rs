//! Per-flow demultiplexer: owns one model chain per flow key, creates
//! chains lazily on a flow's first packet, never evicts them, and drives
//! every chain's clock from one monotonic source. Flows are independent:
//! a packet touches only its own flow's chain.

use vstd::prelude::*;
use crate::config::QueuingModelConfig;
use crate::config::models_valid;
use crate::packet::NfqPacket;
use crate::protocol::ProtocolInfo;
use crate::protocol::spec_flow_key;
use crate::protocol::zero_flow_key;
use crate::queuing_model_chain::QueuingModelChain;
use crate::queuing_model_chain::chain_enqueue_rel;
use crate::queuing_model_chain::chain_held;
use crate::queuing_model_chain::chain_oversized;
use crate::queuing_model_chain::chain_pipeline_rel;
use crate::queuing_model_chain::chain_time_le;
use crate::queuing_model_chain::config_max_delay;
use crate::queuing_model_chain::lemma_chain_delay_from_config;
use crate::queuing_model_chain::lemma_chain_time_le_mono;
use crate::queuing_model_chain::lemma_stages_match_preserved;
use crate::queuing_model_chain::stages_fresh;
use crate::queuing_model_chain::stages_match;

verus! {

/// Packets held across all flows' chains.
pub open spec fn flows_held(s: Seq<(ProtocolInfo, QueuingModelChain)>) -> nat
    decreases s.len(),
{
    if s.len() == 0 {
        0
    } else {
        chain_held(s[0].1.stages()) + flows_held(s.subrange(1, s.len() as int))
    }
}

proof fn lemma_flows_held_concat(
    a: Seq<(ProtocolInfo, QueuingModelChain)>,
    b: Seq<(ProtocolInfo, QueuingModelChain)>,
)
    ensures
        flows_held(a + b) == flows_held(a) + flows_held(b),
    decreases a.len(),
{
    if a.len() == 0 {
        assert(a + b =~= b);
    } else {
        lemma_flows_held_concat(a.subrange(1, a.len() as int), b);
        assert((a + b)[0] == a[0]);
        assert((a + b).subrange(1, (a + b).len() as int) =~= a.subrange(1, a.len() as int) + b);
        assert(flows_held(a + b)
            == chain_held(a[0].1.stages()) + flows_held(a.subrange(1, a.len() as int) + b));
    }
}

proof fn lemma_flows_held_one(e: (ProtocolInfo, QueuingModelChain))
    ensures
        flows_held(seq![e]) == chain_held(e.1.stages()),
{
    assert(seq![e].subrange(1, 1) =~= Seq::<(ProtocolInfo, QueuingModelChain)>::empty());
    assert(flows_held(seq![e].subrange(1, 1)) == 0);
}

/// Packets released without token cover across all flows' chains.
pub open spec fn flows_oversized(s: Seq<(ProtocolInfo, QueuingModelChain)>) -> nat
    decreases s.len(),
{
    if s.len() == 0 {
        0
    } else {
        chain_oversized(s[0].1.stages()) + flows_oversized(s.subrange(1, s.len() as int))
    }
}

/// One scheduling pass over the whole table: every flow's chain, in table
/// order, went through its pipeline at `now`, keeping its key; the accepted
/// and dropped packets are the per-flow outputs concatenated in table order.
pub open spec fn flows_poll_rel(
    pre: Seq<(ProtocolInfo, QueuingModelChain)>,
    post: Seq<(ProtocolInfo, QueuingModelChain)>,
    now: u64,
    accepted: Seq<NfqPacket>,
    dropped: Seq<NfqPacket>,
) -> bool
    decreases pre.len(),
{
    if pre.len() == 0 {
        post.len() == 0 && accepted.len() == 0 && dropped.len() == 0
    } else {
        post.len() == pre.len() && post.last().0 == pre.last().0 && exists|
            a1: Seq<NfqPacket>,
            d1: Seq<NfqPacket>,
            a2: Seq<NfqPacket>,
            d2: Seq<NfqPacket>,
        |
            flows_poll_rel(pre.drop_last(), post.drop_last(), now, a1, d1)
                && #[trigger] chain_pipeline_rel(
                pre.last().1.stages(),
                post.last().1.stages(),
                Seq::<NfqPacket>::empty(),
                now,
                a2,
                d2,
            ) && (#[trigger] (a1 + a2)) == accepted && (#[trigger] (d1 + d2)) == dropped
    }
}

/// Per-flow scheduler state: the flow table, the shared model
/// configuration, and the per-connection switch.
pub struct Dispatcher {
    flows: Vec<(ProtocolInfo, QueuingModelChain)>,
    models: Vec<QueuingModelConfig>,
    apply_per_connection: bool,
    last_now: u64,
}

impl Dispatcher {
    /// The flow table: one chain per flow key, in creation order.
    pub closed spec fn flows(&self) -> Seq<(ProtocolInfo, QueuingModelChain)> {
        self.flows@
    }

    pub closed spec fn spec_models(&self) -> Seq<QueuingModelConfig> {
        self.models@
    }

    pub closed spec fn spec_per_connection(&self) -> bool {
        self.apply_per_connection
    }

    /// The latest clock reading this dispatcher has seen.
    pub closed spec fn spec_last_now(&self) -> u64 {
        self.last_now
    }

    pub open spec fn wf(&self) -> bool {
        &&& models_valid(self.spec_models())
        &&& forall|i: int, j: int|
            0 <= i < j < self.flows().len() ==> (#[trigger] self.flows()[i]).0.key() != (
            #[trigger] self.flows()[j]).0.key()
        &&& forall|i: int| 0 <= i < self.flows().len() ==> (#[trigger] self.flows()[i]).1.wf()
        &&& forall|i: int| 0 <= i < self.flows().len() ==> chain_time_le(
            (#[trigger] self.flows()[i]).1.stages(),
            self.spec_last_now(),
        )
        &&& forall|i: int| 0 <= i < self.flows().len() ==> stages_match(
            self.spec_models(),
            (#[trigger] self.flows()[i]).1.stages(),
        )
    }

    pub fn new(models: Vec<QueuingModelConfig>, apply_per_connection: bool) -> (d: Dispatcher)
        requires
            models_valid(models@),
        ensures
            d.wf(),
            d.flows() == Seq::<(ProtocolInfo, QueuingModelChain)>::empty(),
            d.spec_models() == models@,
            d.spec_per_connection() == apply_per_connection,
            d.spec_last_now() == 0,
    {
        Dispatcher { flows: Vec::new(), models, apply_per_connection, last_now: 0 }
    }

    /// How many flows the table holds; a count that grew across a packet
    /// means a chain was just created for a new flow.
    pub fn flow_count(&self) -> (n: usize)
        ensures
            n == self.flows().len(),
    {
        self.flows.len()
    }

    /// Total packets released without token cover across all flows, the
    /// count sticking at the top of its range. A grown count after a pass
    /// means a bandwidth stage met a packet larger than its burst.
    pub fn oversized_releases(&self) -> (n: u64)
        ensures
            n == crate::bandwidth_queuing_model::sat_u64(flows_oversized(self.flows())),
    {
        let ghost s = self.flows();
        proof {
            assert(s.subrange(0, s.len() as int) =~= s);
        }
        let mut total: u64 = 0;
        let mut i: usize = 0;
        while i < self.flows.len()
            invariant
                0 <= i <= s.len(),
                s == self.flows(),
                crate::bandwidth_queuing_model::sat_u64(
                    (total + flows_oversized(s.subrange(i as int, s.len() as int))) as nat,
                ) == crate::bandwidth_queuing_model::sat_u64(flows_oversized(s)),
                total <= crate::bandwidth_queuing_model::sat_u64(flows_oversized(s)),
            decreases s.len() - i,
        {
            proof {
                assert(s.subrange(i as int, s.len() as int).subrange(
                    1,
                    s.subrange(i as int, s.len() as int).len() as int,
                ) =~= s.subrange(i + 1, s.len() as int));
                assert(s.subrange(i as int, s.len() as int)[0] == s[i as int]);
            }
            let v = self.flows[i].1.oversized_releases();
            total = if total > u64::MAX - v {
                u64::MAX
            } else {
                total + v
            };
            i = i + 1;
        }
        proof {
            assert(s.subrange(s.len() as int, s.len() as int)
                =~= Seq::<(ProtocolInfo, QueuingModelChain)>::empty());
        }
        total
    }

    /// Index of the flow with `key`'s key, or the table's length.
    fn find_flow(&self, key: &ProtocolInfo) -> (idx: usize)
        ensures
            idx <= self.flows().len(),
            forall|j: int| 0 <= j < idx ==> (#[trigger] self.flows()[j]).0.key() != key.key(),
            idx < self.flows().len() ==> self.flows()[idx as int].0.key() == key.key(),
    {
        let mut i: usize = 0;
        while i < self.flows.len()
            invariant
                0 <= i <= self.flows@.len(),
                forall|j: int| 0 <= j < i ==> (#[trigger] self.flows@[j]).0.key() != key.key(),
            decreases self.flows@.len() - i,
        {
            if self.flows[i].0.same_flow(key) {
                return i;
            }
            i = i + 1;
        }
        i
    }

    /// The key a packet's bytes select: its IPv4 5-tuple in per-connection
    /// mode, the zero key otherwise.
    pub open spec fn spec_key_of(&self, payload: Seq<u8>) -> (Seq<u8>, u16, Seq<u8>, u16, u8) {
        if self.spec_per_connection() {
            spec_flow_key(payload)
        } else {
            zero_flow_key()
        }
    }

    /// Routes one arriving packet: looks up (or lazily creates) its flow's
    /// chain and enqueues it there; every other flow's entry is untouched.
    /// Exactly one of two things happens: the packet comes back dropped, or
    /// some chain holds one packet more.
    #[verifier::rlimit(60)]
    pub fn handle_packet(&mut self, packet: NfqPacket, now: u64) -> (dropped: Option<NfqPacket>)
        requires
            old(self).wf(),
            now >= old(self).spec_last_now(),
            now + config_max_delay(old(self).spec_models()) <= u64::MAX,
        ensures
            final(self).wf(),
            final(self).spec_models() == old(self).spec_models(),
            final(self).spec_per_connection() == old(self).spec_per_connection(),
            final(self).spec_last_now() == now,
            final(self).flows().len() == old(self).flows().len()
                || final(self).flows().len() == old(self).flows().len() + 1,
            forall|j: int|
                0 <= j < old(self).flows().len() && (#[trigger] old(self).flows()[j]).0.key()
                    != old(self).spec_key_of(packet.payload@)
                    ==> final(self).flows()[j] == old(self).flows()[j],
            forall|j: int|
                0 <= j < old(self).flows().len()
                    ==> (#[trigger] final(self).flows()[j]).0 == old(self).flows()[j].0,
            final(self).flows().len() == old(self).flows().len() + 1
                ==> final(self).flows()[old(self).flows().len() as int].0.key()
                    == old(self).spec_key_of(packet.payload@),
            final(self).flows().len() == old(self).flows().len() <==> exists|j: int|
                0 <= j < old(self).flows().len() && (#[trigger] old(self).flows()[j]).0.key()
                    == old(self).spec_key_of(packet.payload@),
            forall|j: int|
                0 <= j < old(self).flows().len() && (#[trigger] old(self).flows()[j]).0.key()
                    == old(self).spec_key_of(packet.payload@) ==> chain_enqueue_rel(
                    old(self).flows()[j].1.stages(),
                    final(self).flows()[j].1.stages(),
                    packet,
                    now,
                    dropped,
                ),
            final(self).flows().len() == old(self).flows().len() + 1 ==> exists|
                fresh: Seq<crate::queuing_model_chain::QueuingModel>,
            |
                stages_match(old(self).spec_models(), fresh) && #[trigger] stages_fresh(fresh)
                    && chain_held(fresh) == 0 && chain_enqueue_rel(
                    fresh,
                    final(self).flows()[old(self).flows().len() as int].1.stages(),
                    packet,
                    now,
                    dropped,
                ),
            dropped matches Some(p) ==> p == packet
                && flows_held(final(self).flows()) == flows_held(old(self).flows()),
            dropped is None ==> flows_held(final(self).flows())
                == flows_held(old(self).flows()) + 1,
    {
        let key = if self.apply_per_connection {
            ProtocolInfo::from_ipv4_header(packet.payload.as_slice())
        } else {
            ProtocolInfo::zero()
        };
        let idx = self.find_flow(&key);
        let ghost flows_in = self.flows@;
        if idx == self.flows.len() {
            let chain = QueuingModelChain::new(&self.models);
            self.flows.push((key, chain));
        }
        let ghost flows_mid = self.flows@;
        let mut entry = self.flows.remove(idx);
        proof {
            lemma_chain_delay_from_config(self.models@, entry.1.stages());
            if idx < flows_in.len() {
                lemma_chain_time_le_mono(entry.1.stages(), old(self).spec_last_now(), now);
            }
        }
        let ghost chain_before = entry.1;
        let r = entry.1.enqueue(packet, now);
        proof {
            lemma_stages_match_preserved(
                self.models@,
                chain_before.stages(),
                entry.1.stages(),
            );
        }
        let ghost entry_done = entry;
        self.flows.insert(idx, entry);
        self.last_now = now;
        proof {
            let pre = flows_mid.subrange(0, idx as int);
            let post = flows_mid.subrange(idx + 1, flows_mid.len() as int);
            assert(flows_mid.remove(idx as int) =~= pre + post);
            assert(final(self).flows() =~= pre + (seq![entry_done] + post));
            assert(flows_mid =~= pre + (seq![flows_mid[idx as int]] + post));
            lemma_flows_held_concat(pre, seq![entry_done] + post);
            lemma_flows_held_concat(seq![entry_done], post);
            lemma_flows_held_concat(pre, seq![flows_mid[idx as int]] + post);
            lemma_flows_held_concat(seq![flows_mid[idx as int]], post);
            lemma_flows_held_one(entry_done);
            lemma_flows_held_one(flows_mid[idx as int]);
            assert((seq![entry_done] + post).subrange(1, (seq![entry_done] + post).len() as int)
                =~= post);
            if idx == flows_in.len() {
                lemma_flows_held_concat(flows_in, seq![flows_mid[idx as int]]);
                assert(flows_mid =~= flows_in + seq![flows_mid[idx as int]]);
                lemma_flows_held_one(flows_mid[idx as int]);
            }
            assert(final(self).flows() =~= flows_mid.update(idx as int, entry_done));
            assert forall|i: int| 0 <= i < final(self).flows().len() implies chain_time_le(
                (#[trigger] final(self).flows()[i]).1.stages(),
                now,
            ) by {
                if i != idx {
                    assert(final(self).flows()[i] == flows_mid[i]);
                    if idx == flows_in.len() {
                        assert(flows_mid[i] == flows_in[i]);
                    }
                    assert(chain_time_le(flows_in[i].1.stages(), old(self).spec_last_now()));
                    lemma_chain_time_le_mono(
                        final(self).flows()[i].1.stages(),
                        old(self).spec_last_now(),
                        now,
                    );
                } else {
                    assert(chain_time_le(chain_before.stages(), now));
                }
            }
            // the selected flow's chain performed the enqueue
            if idx < flows_in.len() {
                assert forall|j: int|
                    0 <= j < flows_in.len() && (#[trigger] flows_in[j]).0.key() == key.key()
                        implies chain_enqueue_rel(
                        flows_in[j].1.stages(),
                        final(self).flows()[j].1.stages(),
                        packet,
                        now,
                        r,
                    ) by {
                    assert(j == idx);
                    assert(final(self).flows()[j] == entry_done);
                }
            } else {
                assert(stages_fresh(chain_before.stages()));
                assert(stages_match(old(self).spec_models(), chain_before.stages()));
                assert(chain_held(chain_before.stages()) == 0);
                assert(final(self).flows()[flows_in.len() as int] == entry_done);
                assert(chain_enqueue_rel(
                    chain_before.stages(),
                    entry_done.1.stages(),
                    packet,
                    now,
                    r,
                ));
            }
        }
        r
    }

    /// One scheduling pass at `now`: every flow's chain is dequeued in table
    /// order and the packets that came due are returned, accepted first,
    /// dropped second. No flow is ever evicted.
    pub fn poll(&mut self, now: u64) -> (r: (Vec<NfqPacket>, Vec<NfqPacket>))
        requires
            old(self).wf(),
            now >= old(self).spec_last_now(),
            now + config_max_delay(old(self).spec_models()) <= u64::MAX,
        ensures
            final(self).wf(),
            final(self).spec_models() == old(self).spec_models(),
            final(self).spec_per_connection() == old(self).spec_per_connection(),
            final(self).spec_last_now() == now,
            final(self).flows().len() == old(self).flows().len(),
            forall|j: int| 0 <= j < old(self).flows().len()
                ==> (#[trigger] final(self).flows()[j]).0 == old(self).flows()[j].0,
            flows_poll_rel(old(self).flows(), final(self).flows(), now, r.0@, r.1@),
            flows_held(old(self).flows())
                == flows_held(final(self).flows()) + r.0@.len() + r.1@.len(),
    {
        let ghost s0 = self.flows@;
        let mut processed: Vec<(ProtocolInfo, QueuingModelChain)> = Vec::new();
        let mut accepted: Vec<NfqPacket> = Vec::new();
        let mut dropped: Vec<NfqPacket> = Vec::new();
        proof {
            assert(s0.subrange(0, 0) =~= Seq::<(ProtocolInfo, QueuingModelChain)>::empty());
            assert(flows_poll_rel(s0.subrange(0, 0), processed@, now, accepted@, dropped@));
        }
        while self.flows.len() > 0
            invariant
                models_valid(self.models@),
                self.models@ == old(self).spec_models(),
                self.apply_per_connection == old(self).spec_per_connection(),
                now >= old(self).spec_last_now(),
                now + config_max_delay(self.models@) <= u64::MAX,
                processed@.len() + self.flows@.len() == s0.len(),
                self.flows@ == s0.subrange(processed@.len() as int, s0.len() as int),
                forall|i: int| 0 <= i < s0.len() ==> (#[trigger] s0[i]).1.wf(),
                forall|i: int| 0 <= i < s0.len() ==> chain_time_le(
                    (#[trigger] s0[i]).1.stages(),
                    old(self).spec_last_now(),
                ),
                forall|i: int| 0 <= i < s0.len() ==> stages_match(
                    self.models@,
                    (#[trigger] s0[i]).1.stages(),
                ),
                forall|j: int| 0 <= j < processed@.len()
                    ==> (#[trigger] processed@[j]).0 == s0[j].0,
                forall|j: int| 0 <= j < processed@.len() ==> (#[trigger] processed@[j]).1.wf(),
                forall|j: int| 0 <= j < processed@.len() ==> chain_time_le(
                    (#[trigger] processed@[j]).1.stages(),
                    now,
                ),
                forall|j: int| 0 <= j < processed@.len() ==> stages_match(
                    self.models@,
                    (#[trigger] processed@[j]).1.stages(),
                ),
                flows_held(processed@) + flows_held(self.flows@) + accepted@.len()
                    + dropped@.len() == flows_held(s0),
                flows_poll_rel(
                    s0.subrange(0, processed@.len() as int),
                    processed@,
                    now,
                    accepted@,
                    dropped@,
                ),
            decreases self.flows@.len(),
        {
            let ghost k = processed@.len() as int;
            proof {
                assert(self.flows@[0] == s0[k]);
                assert(self.flows@.subrange(1, self.flows@.len() as int)
                    =~= s0.subrange(k + 1, s0.len() as int));
                assert(flows_held(self.flows@)
                    == chain_held(s0[k].1.stages()) + flows_held(s0.subrange(k + 1, s0.len() as int)));
                lemma_chain_time_le_mono(s0[k].1.stages(), old(self).spec_last_now(), now);
                lemma_chain_delay_from_config(self.models@, s0[k].1.stages());
            }
            let mut entry = self.flows.remove(0);
            let ghost chain_before = entry.1;
            let (mut acc, mut drp) = entry.1.dequeue(now);
            proof {
                lemma_stages_match_preserved(
                    self.models@,
                    chain_before.stages(),
                    entry.1.stages(),
                );
            }
            let ghost acc_before = accepted@;
            let ghost drp_before = dropped@;
            let ghost acc_new = acc@;
            let ghost drp_new = drp@;
            accepted.append(&mut acc);
            dropped.append(&mut drp);
            let ghost processed_before = processed@;
            let ghost entry_done = entry;
            processed.push(entry);
            proof {
                assert(processed@ =~= processed_before + seq![entry_done]);
                lemma_flows_held_concat(processed_before, seq![entry_done]);
                lemma_flows_held_one(entry_done);
                // this flow's pass extends the table's poll relation at its end
                let pre2 = s0.subrange(0, k + 1);
                assert(pre2.drop_last() =~= s0.subrange(0, k));
                assert(pre2.last() == s0[k]);
                assert(processed@.drop_last() =~= processed_before);
                assert(processed@.last() == entry_done);
                assert(chain_pipeline_rel(
                    pre2.last().1.stages(),
                    processed@.last().1.stages(),
                    Seq::<NfqPacket>::empty(),
                    now,
                    acc_new,
                    drp_new,
                ));
                assert(accepted@ == acc_before + acc_new);
                assert(dropped@ == drp_before + drp_new);
                assert(flows_poll_rel(pre2, processed@, now, accepted@, dropped@));
            }
        }
        proof {
            assert(s0.subrange(0, s0.len() as int) =~= s0);
        }
        self.flows = processed;
        self.last_now = now;
        (accepted, dropped)
    }
}

} // verus!
