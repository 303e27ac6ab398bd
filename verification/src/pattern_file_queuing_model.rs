//! Deterministic replay of a fixed `(delay, drop)` script.
//!
//! A cursor advances by one per observed packet and wraps at the script's
//! end; a first-packet flag makes the first packet consume index 0 instead
//! of skipping it. The k-th packet (counting from 1) is decided by
//! `script[(k - 1) % script.len()]`.

use vstd::prelude::*;
use vstd::arithmetic::div_mod::lemma_add_mod_noop;
use vstd::arithmetic::div_mod::lemma_mod_self_0;
use vstd::arithmetic::div_mod::lemma_small_mod;
use crate::packet::NfqPacket;
use crate::packet_queue::PacketQueue;
use crate::packet_queue::insert_pos;
use crate::packet_queue::packets_of;
use crate::packet_queue::store_insert;
use crate::text::find_byte;
use crate::text::find_byte_from;
use crate::text::parse_u64;
use crate::text::parse_u64_spec;
use crate::text::trim_range;
use crate::text::trimmed;

verus! {

/// Why a pattern file was rejected.
#[derive(Clone, Copy, PartialEq, Eq, Structural, Debug)]
pub enum PatternParseError {
    /// The file holds no header row.
    MissingHeader,
    /// The file holds a header but no data row.
    EmptyScript,
    /// A data row does not hold exactly two comma-separated fields.
    FieldCount,
    /// A field is not an unsigned decimal number in range.
    BadNumber,
    /// A delay too large to be counted in microseconds.
    DelayTooLarge,
}

/// One script record: defer by `delay` microseconds, or drop.
#[derive(Clone, Copy, PartialEq, Eq, Structural, Debug)]
pub struct PacketInfo {
    pub delay: u64,
    pub drop: bool,
}

/// The largest delay the script holds.
pub open spec fn max_delay(s: Seq<PacketInfo>) -> nat
    decreases s.len(),
{
    if s.len() == 0 {
        0
    } else if s[0].delay >= max_delay(s.subrange(1, s.len() as int)) {
        s[0].delay as nat
    } else {
        max_delay(s.subrange(1, s.len() as int))
    }
}

/// The script record that decides the next packet when `seen` packets came before.
pub open spec fn record_for(s: Seq<PacketInfo>, seen: nat) -> PacketInfo {
    s[(seen % s.len()) as int]
}

pub proof fn lemma_max_delay_bound(s: Seq<PacketInfo>, i: int)
    requires
        0 <= i < s.len(),
    ensures
        s[i].delay <= max_delay(s),
    decreases s.len(),
{
    if i > 0 {
        let rest = s.subrange(1, s.len() as int);
        lemma_max_delay_bound(rest, i - 1);
        assert(rest[i - 1] == s[i]);
    }
}

/// The line with a trailing carriage return removed, so that lines may end
/// in either a bare line feed or a carriage return and line feed.
pub open spec fn strip_cr(line: Seq<u8>) -> Seq<u8> {
    if line.len() > 0 && line[line.len() - 1] == 13 {
        line.subrange(0, line.len() - 1)
    } else {
        line
    }
}

/// One data row: exactly two comma-separated fields, blanks trimmed; the
/// first is the delay in milliseconds, the second is zero to accept and
/// non-zero to drop. The delay is kept in microseconds.
pub open spec fn parse_record(line: Seq<u8>) -> Result<PacketInfo, PatternParseError> {
    let k = find_byte(line, 44);
    if k >= line.len() {
        Err(PatternParseError::FieldCount)
    } else if find_byte(line.subrange(k + 1, line.len() as int), 44) < line.len() - k - 1 {
        Err(PatternParseError::FieldCount)
    } else {
        match parse_u64_spec(trimmed(line.subrange(0, k))) {
            None => Err(PatternParseError::BadNumber),
            Some(ms) => match parse_u64_spec(trimmed(line.subrange(k + 1, line.len() as int))) {
                None => Err(PatternParseError::BadNumber),
                Some(d) => if d > u32::MAX as u64 {
                    Err(PatternParseError::BadNumber)
                } else if ms > u64::MAX / 1000 {
                    Err(PatternParseError::DelayTooLarge)
                } else {
                    Ok(PacketInfo { delay: (ms * 1000) as u64, drop: d != 0 })
                },
            },
        }
    }
}

/// A row's contribution: empty lines are skipped, and the first bad row's
/// error wins.
pub open spec fn combine_row(
    line: Seq<u8>,
    rest: Result<Seq<PacketInfo>, PatternParseError>,
) -> Result<Seq<PacketInfo>, PatternParseError> {
    if strip_cr(line).len() == 0 {
        rest
    } else {
        match parse_record(strip_cr(line)) {
            Err(e) => Err(e),
            Ok(pi) => match rest {
                Err(e) => Err(e),
                Ok(rs) => Ok(seq![pi] + rs),
            },
        }
    }
}

/// The rows of everything after the header, split at line feeds.
pub open spec fn parse_rows(data: Seq<u8>) -> Result<Seq<PacketInfo>, PatternParseError>
    decreases data.len(),
{
    if data.len() == 0 {
        Ok(Seq::empty())
    } else {
        let k = find_byte(data, 10);
        if 0 <= k && k < data.len() {
            combine_row(data.subrange(0, k), parse_rows(data.subrange(k + 1, data.len() as int)))
        } else {
            combine_row(data, Ok(Seq::empty()))
        }
    }
}

/// The emptiness test applied once the rows are read: a script must hold at
/// least one record.
pub open spec fn finish_pattern(
    r: Result<Seq<PacketInfo>, PatternParseError>,
) -> Result<Seq<PacketInfo>, PatternParseError> {
    match r {
        Err(e) => Err(e),
        Ok(rs) => if rs.len() == 0 {
            Err(PatternParseError::EmptyScript)
        } else {
            Ok(rs)
        },
    }
}

/// The whole pattern file: a header row is required and skipped unread; the
/// remaining rows must yield a non-empty script.
pub open spec fn parse_pattern(data: Seq<u8>) -> Result<Seq<PacketInfo>, PatternParseError> {
    if data.len() == 0 {
        Err(PatternParseError::MissingHeader)
    } else {
        let k = find_byte(data, 10);
        finish_pattern(
            if 0 <= k && k < data.len() {
                parse_rows(data.subrange(k + 1, data.len() as int))
            } else {
                Ok(Seq::empty())
            },
        )
    }
}

/// Reads one data row against `parse_record`.
fn parse_record_exec(line: &[u8]) -> (r: Result<PacketInfo, PatternParseError>)
    ensures
        r == parse_record(line@),
{
    proof {
        assert(line@.subrange(0, line@.len() as int) =~= line@);
    }
    let k = find_byte_from(line, 0, 44);
    if k >= line.len() {
        return Err(PatternParseError::FieldCount);
    }
    let k2 = find_byte_from(line, k + 1, 44);
    if k2 < line.len() {
        return Err(PatternParseError::FieldCount);
    }
    let (lo1, hi1) = trim_range(line, 0, k);
    let ms = match parse_u64(&line[lo1..hi1]) {
        None => {
            return Err(PatternParseError::BadNumber);
        },
        Some(v) => v,
    };
    let (lo2, hi2) = trim_range(line, k + 1, line.len());
    let d = match parse_u64(&line[lo2..hi2]) {
        None => {
            return Err(PatternParseError::BadNumber);
        },
        Some(v) => v,
    };
    if d > u32::MAX as u64 {
        return Err(PatternParseError::BadNumber);
    }
    if ms > u64::MAX / 1000 {
        return Err(PatternParseError::DelayTooLarge);
    }
    Ok(PacketInfo { delay: ms * 1000, drop: d != 0 })
}

/// Cyclic replay of a `(delay, drop)` script, per chain.
pub struct PatternFileQueuingModel {
    packet_info: Vec<PacketInfo>,
    is_first_packet: bool,
    curr_packet_no: usize,
    queue: PacketQueue,
    seen: Ghost<nat>,
}

impl PatternFileQueuingModel {
    /// The script driving the decisions.
    pub closed spec fn script(&self) -> Seq<PacketInfo> {
        self.packet_info@
    }

    /// How many packets this model has decided so far.
    pub closed spec fn spec_seen(&self) -> nat {
        self.seen@
    }

    pub closed spec fn spec_cursor(&self) -> nat {
        self.curr_packet_no as nat
    }

    /// The deferred packets, as `(release_time, packet)` entries in release order.
    pub closed spec fn store(&self) -> Seq<(u64, NfqPacket)> {
        self.queue@
    }

    pub closed spec fn spec_queue_wf(&self) -> bool {
        self.queue.wf()
    }

    pub closed spec fn spec_first_flag(&self) -> bool {
        self.is_first_packet
    }

    pub open spec fn wf(&self) -> bool {
        &&& self.script().len() > 0
        &&& self.spec_queue_wf()
        &&& self.spec_cursor() < self.script().len()
        &&& self.spec_first_flag() ==> self.spec_seen() == 0 && self.spec_cursor() == 0
        &&& !self.spec_first_flag() ==> self.spec_seen() >= 1
            && self.spec_cursor() == (self.spec_seen() - 1) % (self.script().len() as int)
    }

    /// Reads a pattern file's bytes into script records, exactly as
    /// `parse_pattern` describes; the first malformed row's error is returned.
    #[verifier::rlimit(50)]
    pub fn parse_packet_info(data: &[u8]) -> (r: Result<Vec<PacketInfo>, PatternParseError>)
        ensures
            r matches Ok(v) ==> parse_pattern(data@) == Ok::<Seq<PacketInfo>, PatternParseError>(v@),
            r matches Err(e) ==> parse_pattern(data@) == Err::<Seq<PacketInfo>, PatternParseError>(e),
    {
        if data.len() == 0 {
            return Err(PatternParseError::MissingHeader);
        }
        proof {
            assert(data@.subrange(0, data@.len() as int) =~= data@);
        }
        let header_end = find_byte_from(data, 0, 10);
        let pos0: usize = if header_end < data.len() {
            header_end + 1
        } else {
            data.len()
        };
        let ghost rows_all: Seq<u8> = data@.subrange(pos0 as int, data@.len() as int);
        proof {
            assert(find_byte(data@, 10) == header_end);
            if header_end >= data@.len() {
                assert(rows_all =~= Seq::<u8>::empty());
            }
            assert(parse_pattern(data@) == finish_pattern(parse_rows(rows_all)));
        }
        let mut pos: usize = pos0;
        let mut out: Vec<PacketInfo> = Vec::new();
        while pos < data.len()
            invariant
                pos0 <= pos <= data@.len(),
                pos0 <= data@.len(),
                rows_all == data@.subrange(pos0 as int, data@.len() as int),
                parse_pattern(data@) == finish_pattern(parse_rows(rows_all)),
                (parse_rows(data@.subrange(pos as int, data@.len() as int)) matches Ok(rs)
                    ==> parse_rows(rows_all) == Ok::<Seq<PacketInfo>, PatternParseError>(out@ + rs)),
                (parse_rows(data@.subrange(pos as int, data@.len() as int)) matches Err(e)
                    ==> parse_rows(rows_all) == Err::<Seq<PacketInfo>, PatternParseError>(e)),
            decreases data@.len() - pos,
        {
            let ghost suffix = data@.subrange(pos as int, data@.len() as int);
            let k = find_byte_from(data, pos, 10);
            let ghost raw_line = data@.subrange(pos as int, k as int);
            let hi = if k > pos && data[k - 1] == 13 {
                k - 1
            } else {
                k
            };
            let next_pos = if k < data.len() {
                k + 1
            } else {
                k
            };
            let ghost rest = parse_rows(data@.subrange(next_pos as int, data@.len() as int));
            proof {
                assert(strip_cr(raw_line) =~= data@.subrange(pos as int, hi as int));
                // one unfolding of parse_rows over this line
                let kk = find_byte(suffix, 10);
                assert(kk == k - pos);
                if k < data@.len() {
                    assert(suffix.subrange(0, kk) =~= raw_line);
                    assert(suffix.subrange(kk + 1, suffix.len() as int)
                        =~= data@.subrange(next_pos as int, data@.len() as int));
                    assert(parse_rows(suffix) == combine_row(raw_line, rest));
                } else {
                    assert(suffix =~= raw_line);
                    assert(data@.subrange(next_pos as int, data@.len() as int) =~= Seq::<u8>::empty());
                    assert(parse_rows(suffix) == combine_row(raw_line, rest));
                }
            }
            if hi > pos {
                match parse_record_exec(&data[pos..hi]) {
                    Err(e) => {
                        proof {
                            assert(parse_rows(suffix) == Err::<Seq<PacketInfo>, PatternParseError>(e));
                        }
                        return Err(e);
                    },
                    Ok(pi) => {
                        let ghost out_before = out@;
                        out.push(pi);
                        proof {
                            match rest {
                                Ok(rs) => {
                                    assert(parse_rows(suffix)
                                        == Ok::<Seq<PacketInfo>, PatternParseError>(seq![pi] + rs));
                                    assert(out_before + (seq![pi] + rs) =~= out@ + rs);
                                },
                                Err(_) => {},
                            }
                        }
                    },
                }
            }
            pos = next_pos;
        }
        proof {
            assert(data@.subrange(pos as int, data@.len() as int) =~= Seq::<u8>::empty());
            assert(parse_rows(rows_all) == Ok::<Seq<PacketInfo>, PatternParseError>(out@ + Seq::empty()));
            assert(out@ + Seq::<PacketInfo>::empty() =~= out@);
        }
        if out.len() == 0 {
            Err(PatternParseError::EmptyScript)
        } else {
            Ok(out)
        }
    }

    pub fn new(packet_info: &Vec<PacketInfo>) -> (m: PatternFileQueuingModel)
        requires
            packet_info@.len() > 0,
        ensures
            m.wf(),
            m.script() == packet_info@,
            m.spec_seen() == 0,
            m.store() == Seq::<(u64, NfqPacket)>::empty(),
    {
        PatternFileQueuingModel {
            packet_info: packet_info.clone(),
            is_first_packet: true,
            curr_packet_no: 0,
            queue: PacketQueue::new(),
            seen: Ghost(0),
        }
    }

    /// Advances the cursor and reports the script's decision for this packet:
    /// the k-th packet observed (counting from 1) is decided by
    /// `script[(k - 1) % script.len()]`.
    pub fn drop_packet(&mut self) -> (b: bool)
        requires
            old(self).wf(),
        ensures
            final(self).wf(),
            final(self).script() == old(self).script(),
            final(self).store() == old(self).store(),
            final(self).spec_seen() == old(self).spec_seen() + 1,
            final(self).spec_cursor() == old(self).spec_seen() % old(self).script().len(),
            b == record_for(old(self).script(), old(self).spec_seen()).drop,
    {
        let ghost s = self.seen@ as int;
        let ghost len = self.packet_info@.len() as int;
        if self.is_first_packet {
            self.is_first_packet = false;
            proof {
                lemma_small_mod(0, len as nat);
            }
        } else {
            proof {
                // the cursor wraps exactly as the remainder does
                lemma_add_mod_noop(s - 1, 1, len);
                if len == 1 {
                    lemma_small_mod(0, 1);
                    lemma_mod_self_0(1);
                } else {
                    lemma_small_mod(1, len as nat);
                }
                if (s - 1) % len + 1 == len {
                    lemma_mod_self_0(len);
                } else {
                    lemma_small_mod(((s - 1) % len + 1) as nat, len as nat);
                }
            }
            assert(self.curr_packet_no < self.packet_info.len());
            if self.curr_packet_no + 1 == self.packet_info.len() {
                self.curr_packet_no = 0;
            } else {
                self.curr_packet_no = self.curr_packet_no + 1;
            }
        }
        self.seen = Ghost(self.seen@ + 1);
        self.packet_info[self.curr_packet_no].drop
    }

    /// The release time the current script record assigns to a packet
    /// received at `receive_time`.
    pub fn get_send_time(&self, receive_time: u64) -> (t: u64)
        requires
            self.wf(),
            receive_time + self.script()[self.spec_cursor() as int].delay <= u64::MAX,
        ensures
            t == receive_time + self.script()[self.spec_cursor() as int].delay,
    {
        receive_time + self.packet_info[self.curr_packet_no].delay
    }

    /// Decides the packet by the script: returns it when the record says
    /// drop, otherwise defers it by the record's delay from `now`.
    pub fn enqueue(&mut self, packet: NfqPacket, now: u64) -> (dropped: Option<NfqPacket>)
        requires
            old(self).wf(),
            now + max_delay(old(self).script()) <= u64::MAX,
        ensures
            final(self).wf(),
            final(self).script() == old(self).script(),
            final(self).spec_seen() == old(self).spec_seen() + 1,
            record_for(old(self).script(), old(self).spec_seen()).drop
                ==> dropped == Some(packet) && final(self).store() == old(self).store(),
            !record_for(old(self).script(), old(self).spec_seen()).drop
                ==> dropped is None
                && final(self).store() == store_insert(
                    old(self).store(),
                    (now + record_for(old(self).script(), old(self).spec_seen()).delay) as u64,
                    packet,
                ),
    {
        let dropped = self.drop_packet();
        if !dropped {
            proof {
                lemma_max_delay_bound(self.packet_info@, self.curr_packet_no as int);
            }
            let send_time = self.get_send_time(now);
            self.queue.push(packet, send_time);
            None
        } else {
            Some(packet)
        }
    }

    /// Releases every deferred packet whose release time is at or before `now`.
    pub fn dequeue(&mut self, now: u64) -> (r: Vec<NfqPacket>)
        requires
            old(self).wf(),
        ensures
            final(self).wf(),
            final(self).script() == old(self).script(),
            final(self).spec_seen() == old(self).spec_seen(),
            final(self).spec_cursor() == old(self).spec_cursor(),
            r@ == packets_of(old(self).store().subrange(0, insert_pos(old(self).store(), now))),
            final(self).store() == old(self).store().subrange(
                insert_pos(old(self).store(), now),
                old(self).store().len() as int,
            ),
            forall|j: int| 0 <= j < final(self).store().len() ==> #[trigger] final(self).store()[j].0 > now,
    {
        self.queue.pop(now)
    }
}

} // verus!
