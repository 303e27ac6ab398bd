//! Byte-level text scanning: finding a separator, trimming blanks, and
//! reading unsigned decimal numbers, each against an exact specification.

use vstd::prelude::*;

verus! {

/// Index of the first occurrence of `b`, or the length when absent.
pub open spec fn find_byte(s: Seq<u8>, b: u8) -> int
    decreases s.len(),
{
    if s.len() == 0 {
        0
    } else if s[0] == b {
        0
    } else {
        1 + find_byte(s.subrange(1, s.len() as int), b)
    }
}

/// `find_byte` is the first index holding `b`.
pub proof fn lemma_find_byte(s: Seq<u8>, b: u8)
    ensures
        0 <= find_byte(s, b) <= s.len(),
        forall|j: int| 0 <= j < find_byte(s, b) ==> s[j] != b,
        find_byte(s, b) < s.len() ==> s[find_byte(s, b)] == b,
    decreases s.len(),
{
    if s.len() > 0 && s[0] != b {
        let rest = s.subrange(1, s.len() as int);
        lemma_find_byte(rest, b);
        assert forall|j: int| 0 <= j < find_byte(s, b) implies s[j] != b by {
            if j > 0 {
                assert(rest[j - 1] == s[j]);
            }
        }
        if find_byte(s, b) < s.len() {
            assert(rest[find_byte(s, b) - 1] == s[find_byte(s, b)]);
        }
    }
}

/// Scans forward from `start` for `b`; the result is `start` plus what
/// `find_byte` gives on the remaining bytes.
pub(crate) fn find_byte_from(s: &[u8], start: usize, b: u8) -> (k: usize)
    requires
        start <= s@.len(),
    ensures
        k - start == find_byte(s@.subrange(start as int, s@.len() as int), b),
        start <= k <= s@.len(),
{
    let ghost suffix = s@.subrange(start as int, s@.len() as int);
    proof {
        lemma_find_byte(suffix, b);
    }
    let mut k = start;
    while k < s.len() && s[k] != b
        invariant
            start <= k <= s@.len(),
            suffix == s@.subrange(start as int, s@.len() as int),
            forall|j: int| start <= j < k ==> s@[j] != b,
        decreases s@.len() - k,
    {
        k = k + 1;
    }
    proof {
        let f = find_byte(suffix, b);
        let d = k - start;
        // both mark the first occurrence of b past start, so they agree
        assert forall|j: int| 0 <= j < suffix.len() implies suffix[j] == s@[start + j] by {}
        if d < f {
            assert(suffix[d] == b);
            assert(s@[start + d] == b);
        }
        if f < d {
            assert(suffix[f] == b);
            assert(s@[start + f] != b);
        }
    }
    k
}

/// A blank that surrounds a field: space or horizontal tab.
pub open spec fn is_blank(b: u8) -> bool {
    b == 32 || b == 9
}

pub open spec fn trim_front(s: Seq<u8>) -> Seq<u8>
    decreases s.len(),
{
    if s.len() > 0 && is_blank(s[0]) {
        trim_front(s.subrange(1, s.len() as int))
    } else {
        s
    }
}

pub open spec fn trim_back(s: Seq<u8>) -> Seq<u8>
    decreases s.len(),
{
    if s.len() > 0 && is_blank(s[s.len() - 1]) {
        trim_back(s.subrange(0, s.len() - 1))
    } else {
        s
    }
}

/// The field with leading and trailing blanks removed.
pub open spec fn trimmed(s: Seq<u8>) -> Seq<u8> {
    trim_back(trim_front(s))
}

/// Bounds `lo <= hi` within `[from, to]` such that the bytes between them
/// are the trimmed field.
pub(crate) fn trim_range(s: &[u8], from: usize, to: usize) -> (r: (usize, usize))
    requires
        from <= to <= s@.len(),
    ensures
        from <= r.0 <= r.1 <= to,
        s@.subrange(r.0 as int, r.1 as int) == trimmed(s@.subrange(from as int, to as int)),
{
    let mut lo = from;
    while lo < to && (s[lo] == 32 || s[lo] == 9)
        invariant
            from <= lo <= to <= s@.len(),
            trim_front(s@.subrange(from as int, to as int)) == trim_front(s@.subrange(lo as int, to as int)),
        decreases to - lo,
    {
        proof {
            assert(s@.subrange(lo as int, to as int).subrange(1, (to - lo) as int)
                =~= s@.subrange(lo + 1, to as int));
        }
        lo = lo + 1;
    }
    proof {
        assert(trim_front(s@.subrange(lo as int, to as int)) == s@.subrange(lo as int, to as int));
    }
    let mut hi = to;
    while hi > lo && (s[hi - 1] == 32 || s[hi - 1] == 9)
        invariant
            from <= lo <= hi <= to <= s@.len(),
            trim_back(s@.subrange(lo as int, to as int)) == trim_back(s@.subrange(lo as int, hi as int)),
        decreases hi - lo,
    {
        proof {
            assert(s@.subrange(lo as int, hi as int).subrange(0, (hi - lo - 1) as int)
                =~= s@.subrange(lo as int, hi - 1));
        }
        hi = hi - 1;
    }
    proof {
        assert(trim_back(s@.subrange(lo as int, hi as int)) == s@.subrange(lo as int, hi as int));
    }
    (lo, hi)
}

pub open spec fn is_digit(b: u8) -> bool {
    48 <= b <= 57
}

pub open spec fn all_digits(s: Seq<u8>) -> bool {
    forall|i: int| 0 <= i < s.len() ==> is_digit(#[trigger] s[i])
}

/// The value of a run of decimal digits, most significant first.
pub open spec fn digits_val(s: Seq<u8>) -> nat
    decreases s.len(),
{
    if s.len() == 0 {
        0
    } else {
        digits_val(s.subrange(0, s.len() - 1)) * 10 + (s[s.len() - 1] - 48) as nat
    }
}

/// Bytes the field spells as an unsigned decimal that fits `u64`, if it does.
pub open spec fn parse_u64_spec(s: Seq<u8>) -> Option<u64> {
    if s.len() > 0 && all_digits(s) && digits_val(s) <= u64::MAX {
        Some(digits_val(s) as u64)
    } else {
        None
    }
}

/// A longer digit run never has a smaller value.
proof fn lemma_digits_val_prefix_le(s: Seq<u8>, i: int)
    requires
        0 <= i <= s.len(),
    ensures
        digits_val(s.subrange(0, i)) <= digits_val(s),
    decreases s.len() - i,
{
    if i < s.len() {
        lemma_digits_val_prefix_le(s.subrange(0, s.len() - 1), i);
        assert(s.subrange(0, s.len() - 1).subrange(0, i) =~= s.subrange(0, i));
    } else {
        assert(s.subrange(0, i) =~= s);
    }
}

/// Reads the field as an unsigned decimal, exactly when the specification
/// admits one.
pub(crate) fn parse_u64(s: &[u8]) -> (r: Option<u64>)
    ensures
        r == parse_u64_spec(s@),
{
    if s.len() == 0 {
        return None;
    }
    let mut acc: u64 = 0;
    let mut i: usize = 0;
    while i < s.len()
        invariant
            0 <= i <= s@.len(),
            all_digits(s@.subrange(0, i as int)),
            acc == digits_val(s@.subrange(0, i as int)),
        decreases s@.len() - i,
    {
        let b = s[i];
        if b < 48 || b > 57 {
            assert(!all_digits(s@));
            return None;
        }
        let d = b - 48;
        let acc10 = match acc.checked_mul(10) {
            Some(v) => v,
            None => {
                proof {
                    lemma_digits_val_prefix_le(s@, i + 1);
                    assert(s@.subrange(0, i + 1).subrange(0, i as int) =~= s@.subrange(0, i as int));
                }
                return None;
            },
        };
        let next = match acc10.checked_add(d as u64) {
            Some(v) => v,
            None => {
                proof {
                    lemma_digits_val_prefix_le(s@, i + 1);
                    assert(s@.subrange(0, i + 1).subrange(0, i as int) =~= s@.subrange(0, i as int));
                }
                return None;
            },
        };
        proof {
            assert(s@.subrange(0, i + 1).subrange(0, i as int) =~= s@.subrange(0, i as int));
        }
        acc = next;
        i = i + 1;
    }
    proof {
        assert(s@.subrange(0, s@.len() as int) =~= s@);
    }
    Some(acc)
}

} // verus!
