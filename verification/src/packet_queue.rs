//! Store of packets keyed by release time.
//!
//! Entries are held sorted by release time; entries that share a release time
//! keep their insertion order. `push` files a packet under its release time
//! and `pop` removes and returns every packet whose release time has come,
//! in ascending release-time order and, within one release time, in push order.

use vstd::prelude::*;
use crate::packet::NfqPacket;

verus! {

/// The entries are sorted by release time (stable, so push order survives).
pub open spec fn sorted_by_time(s: Seq<(u64, NfqPacket)>) -> bool {
    forall|i: int, j: int|
        0 <= i < j < s.len() ==> #[trigger] s[i].0 <= #[trigger] s[j].0
}

/// Position at which an entry with release time `t` is filed: directly after
/// every entry whose release time is at most `t`.
pub open spec fn insert_pos(s: Seq<(u64, NfqPacket)>, t: u64) -> int
    decreases s.len(),
{
    if s.len() == 0 {
        0
    } else if s[0].0 > t {
        0
    } else {
        1 + insert_pos(s.subrange(1, s.len() as int), t)
    }
}

/// The store after filing `(t, p)`.
pub open spec fn store_insert(s: Seq<(u64, NfqPacket)>, t: u64, p: NfqPacket) -> Seq<(u64, NfqPacket)> {
    s.insert(insert_pos(s, t), (t, p))
}

/// The packets of a run of entries, in order.
pub open spec fn packets_of(s: Seq<(u64, NfqPacket)>) -> Seq<NfqPacket> {
    s.map_values(|e: (u64, NfqPacket)| e.1)
}

/// `insert_pos` is the first position whose release time exceeds `t`.
pub proof fn lemma_insert_pos(s: Seq<(u64, NfqPacket)>, t: u64)
    ensures
        0 <= insert_pos(s, t) <= s.len(),
        forall|j: int| 0 <= j < insert_pos(s, t) ==> #[trigger] s[j].0 <= t,
        insert_pos(s, t) < s.len() ==> s[insert_pos(s, t)].0 > t,
    decreases s.len(),
{
    if s.len() > 0 && s[0].0 <= t {
        let rest = s.subrange(1, s.len() as int);
        lemma_insert_pos(rest, t);
        assert forall|j: int| 0 <= j < insert_pos(s, t) implies #[trigger] s[j].0 <= t by {
            if j > 0 {
                assert(rest[j - 1] == s[j]);
            }
        }
        if insert_pos(s, t) < s.len() {
            assert(rest[insert_pos(s, t) - 1] == s[insert_pos(s, t)]);
        }
    }
}

/// Filing an entry keeps the store sorted.
pub proof fn lemma_store_insert_sorted(s: Seq<(u64, NfqPacket)>, t: u64, p: NfqPacket)
    requires
        sorted_by_time(s),
    ensures
        sorted_by_time(store_insert(s, t, p)),
{
    lemma_insert_pos(s, t);
    let pos = insert_pos(s, t);
    let s2 = store_insert(s, t, p);
    assert forall|i: int, j: int| 0 <= i < j < s2.len() implies #[trigger] s2[i].0 <= #[trigger] s2[j].0 by {
        if i < pos && j < pos {
        } else if i < pos && j == pos {
        } else if i < pos && j > pos {
            assert(s[i].0 <= t);
            assert(s2[j] == s[j - 1]);
            if j - 1 == pos {
                assert(s[pos].0 > t);
            } else {
                assert(s[pos].0 <= s[j - 1].0);
                assert(s[pos].0 > t);
            }
        } else if i == pos && j > pos {
            assert(s2[j] == s[j - 1]);
            if j - 1 == pos {
                assert(s[pos].0 > t);
            } else {
                assert(s[pos].0 <= s[j - 1].0);
                assert(s[pos].0 > t);
            }
        } else {
            assert(s2[i] == s[i - 1]);
            assert(s2[j] == s[j - 1]);
        }
    }
}

/// The store after filing each entry of `ps` in turn.
pub open spec fn store_insert_all(s: Seq<(u64, NfqPacket)>, ps: Seq<(u64, NfqPacket)>) -> Seq<(u64, NfqPacket)>
    decreases ps.len(),
{
    if ps.len() == 0 {
        s
    } else {
        store_insert_all(store_insert(s, ps[0].0, ps[0].1), ps.subrange(1, ps.len() as int))
    }
}

/// Filing an entry timed at or after `b` keeps `b` a lower bound on the store.
pub proof fn lemma_store_insert_bound(s: Seq<(u64, NfqPacket)>, t: u64, p: NfqPacket, b: u64)
    requires
        forall|k: int| 0 <= k < s.len() ==> #[trigger] s[k].0 >= b,
        t >= b,
    ensures
        forall|k: int| 0 <= k < store_insert(s, t, p).len() ==> #[trigger] store_insert(s, t, p)[k].0 >= b,
{
    lemma_insert_pos(s, t);
    let r = store_insert(s, t, p);
    let pos = insert_pos(s, t);
    assert forall|k: int| 0 <= k < r.len() implies #[trigger] r[k].0 >= b by {
        if k < pos {
            assert(r[k] == s[k]);
        } else if k == pos {
            assert(r[k] == (t, p));
        } else {
            assert(r[k] == s[k - 1]);
        }
    }
}

/// Filing any run of entries timed at or after `b` keeps `b` a lower bound.
proof fn lemma_store_insert_all_bound(s: Seq<(u64, NfqPacket)>, ps: Seq<(u64, NfqPacket)>, b: u64)
    requires
        forall|k: int| 0 <= k < s.len() ==> #[trigger] s[k].0 >= b,
        forall|k: int| 0 <= k < ps.len() ==> #[trigger] ps[k].0 >= b,
    ensures
        forall|k: int| 0 <= k < store_insert_all(s, ps).len()
            ==> #[trigger] store_insert_all(s, ps)[k].0 >= b,
    decreases ps.len(),
{
    if ps.len() > 0 {
        lemma_store_insert_bound(s, ps[0].0, ps[0].1, b);
        let rest = ps.subrange(1, ps.len() as int);
        assert forall|k: int| 0 <= k < rest.len() implies #[trigger] rest[k].0 >= b by {
            assert(rest[k] == ps[k + 1]);
        }
        lemma_store_insert_all_bound(store_insert(s, ps[0].0, ps[0].1), rest, b);
        assert(store_insert_all(s, ps) == store_insert_all(store_insert(s, ps[0].0, ps[0].1), rest));
    }
}

/// Monotone release, within one flow and one model: every packet the store
/// hands out at `now1` carries a release time at most that of every packet it
/// hands out at any later `now2`, whatever was filed in between, provided
/// each entry filed in between was timed at or after `now1` (a deferral made
/// at time `t >= now1` is for `t` plus a non-negative delay).
pub proof fn lemma_monotone_release(
    s: Seq<(u64, NfqPacket)>,
    now1: u64,
    pushed: Seq<(u64, NfqPacket)>,
    now2: u64,
)
    requires
        sorted_by_time(s),
        now1 <= now2,
        forall|k: int| 0 <= k < pushed.len() ==> #[trigger] pushed[k].0 >= now1,
    ensures
        forall|i: int, j: int|
            0 <= i < insert_pos(s, now1) && 0 <= j
                && j < store_insert_all(s.subrange(insert_pos(s, now1), s.len() as int), pushed).len()
            ==> #[trigger] s[i].0
                <= #[trigger] store_insert_all(s.subrange(insert_pos(s, now1), s.len() as int), pushed)[j].0,
{
    lemma_insert_pos(s, now1);
    let pos = insert_pos(s, now1);
    let rem = s.subrange(pos, s.len() as int);
    assert forall|k: int| 0 <= k < rem.len() implies #[trigger] rem[k].0 >= now1 by {
        assert(rem[k] == s[pos + k]);
        if k > 0 {
            assert(s[pos].0 <= s[pos + k].0);
        }
    }
    lemma_store_insert_all_bound(rem, pushed, now1);
}

/// Multiset of packets keyed by release time.
pub struct PacketQueue {
    entries: Vec<(u64, NfqPacket)>,
}

impl PacketQueue {
    /// The run of `(release_time, packet)` entries, in release order.
    pub closed spec fn view(&self) -> Seq<(u64, NfqPacket)> {
        self.entries@
    }

    pub open spec fn wf(&self) -> bool {
        sorted_by_time(self@)
    }

    pub fn new() -> (q: PacketQueue)
        ensures
            q.wf(),
            q@ == Seq::<(u64, NfqPacket)>::empty(),
    {
        PacketQueue { entries: Vec::new() }
    }

    pub fn len(&self) -> (n: usize)
        ensures
            n == self@.len(),
    {
        self.entries.len()
    }

    /// Files `packet` under `release_time`, after every entry already due at
    /// or before that time, so push order is kept within one release time.
    pub fn push(&mut self, packet: NfqPacket, release_time: u64)
        requires
            old(self).wf(),
        ensures
            final(self).wf(),
            final(self)@ == store_insert(old(self)@, release_time, packet),
    {
        let ghost s0 = self.entries@;
        proof {
            lemma_insert_pos(s0, release_time);
            lemma_store_insert_sorted(s0, release_time, packet);
        }
        let mut i: usize = 0;
        while i < self.entries.len() && self.entries[i].0 <= release_time
            invariant
                self.entries@ == s0,
                0 <= i <= s0.len(),
                forall|j: int| 0 <= j < i ==> #[trigger] s0[j].0 <= release_time,
            decreases s0.len() - i,
        {
            i = i + 1;
        }
        proof {
            let pos = insert_pos(s0, release_time);
            // i and pos both mark the first entry past release_time, so they agree.
            if i < pos {
                assert(s0[i as int].0 <= release_time);
            }
            if pos < i {
                assert(s0[pos].0 <= release_time);
            }
            assert(i == pos);
        }
        self.entries.insert(i, (release_time, packet));
    }

    /// Removes and returns every packet due at or before `now`, in ascending
    /// release-time order; what stays is exactly what is due later.
    pub fn pop(&mut self, now: u64) -> (r: Vec<NfqPacket>)
        requires
            old(self).wf(),
        ensures
            final(self).wf(),
            r@ == packets_of(old(self)@.subrange(0, insert_pos(old(self)@, now))),
            final(self)@ == old(self)@.subrange(insert_pos(old(self)@, now), old(self)@.len() as int),
            forall|j: int| 0 <= j < final(self)@.len() ==> #[trigger] final(self)@[j].0 > now,
    {
        let ghost s0 = self.entries@;
        let ghost pos = insert_pos(s0, now);
        proof {
            lemma_insert_pos(s0, now);
        }
        let mut out: Vec<NfqPacket> = Vec::new();
        while self.entries.len() > 0 && self.entries[0].0 <= now
            invariant
                sorted_by_time(s0),
                0 <= pos <= s0.len(),
                forall|j: int| 0 <= j < pos ==> #[trigger] s0[j].0 <= now,
                pos < s0.len() ==> s0[pos].0 > now,
                out@.len() <= pos,
                self.entries@ == s0.subrange(out@.len() as int, s0.len() as int),
                out@ == packets_of(s0.subrange(0, out@.len() as int)),
            decreases s0.len() - out@.len(),
        {
            let ghost k = out@.len() as int;
            assert(self.entries@[0] == s0[k]);
            // the head is due, so we have not yet reached the split point
            assert(k < pos) by {
                if k >= pos {
                    assert(s0[pos].0 <= s0[k].0);
                }
            }
            let e = self.entries.remove(0);
            out.push(e.1);
            proof {
                assert(self.entries@ =~= s0.subrange(k + 1, s0.len() as int));
                assert(out@ =~= packets_of(s0.subrange(0, k + 1))) by {
                    assert(s0.subrange(0, k + 1).drop_last() =~= s0.subrange(0, k));
                }
            }
        }
        proof {
            let k = out@.len() as int;
            // the loop stopped exactly at the split point
            if k < pos {
                assert(self.entries@[0] == s0[k]);
                assert(s0[k].0 <= now);
            }
            assert(k == pos);
            assert(self.entries@ =~= s0.subrange(pos, s0.len() as int));
            assert forall|j: int| 0 <= j < self.entries@.len() implies #[trigger] self.entries@[j].0 > now by {
                assert(self.entries@[j] == s0[pos + j]);
                if pos + j > pos {
                    assert(s0[pos].0 <= s0[pos + j].0);
                }
            }
        }
        out
    }
}

} // verus!
