//! Validation of caller-supplied numeric input.
//!
//! Delays and tick counts arrive from the embedding caller as strings;
//! a malformed value must be rejected before any clock state is touched.
//! The accepted grammar matches `u64::from_str`: an optional leading
//! `'+'` followed by one or more decimal digits, denoting a value that
//! fits in a `u64`.

use vstd::prelude::*;

verus! {

/// The numeric value of a sequence of decimal digit characters, most
/// significant digit first.
pub open spec fn dec_value(s: Seq<char>) -> int
    decreases s.len(),
{
    if s.len() == 0 {
        0
    } else {
        dec_value(s.drop_last()) * 10 + (s.last() as int - '0' as int)
    }
}

/// Every character of `s` is a decimal digit.
pub open spec fn is_dec_digits(s: Seq<char>) -> bool {
    forall|i: int| 0 <= i < s.len() ==> '0' <= #[trigger] s[i] && s[i] <= '9'
}

/// The digit portion of an unsigned decimal literal: everything after
/// an optional leading `'+'`.
pub open spec fn unsigned_digits(s: Seq<char>) -> Seq<char> {
    if s.len() > 0 && s[0] == '+' {
        s.subrange(1, s.len() as int)
    } else {
        s
    }
}

/// What parsing an unsigned 64-bit decimal literal yields: the value,
/// or nothing when the text is malformed or the value does not fit.
pub open spec fn parse_u64_spec(s: Seq<char>) -> Option<u64> {
    let d = unsigned_digits(s);
    if d.len() > 0 && is_dec_digits(d) && dec_value(d) <= u64::MAX {
        Some(dec_value(d) as u64)
    } else {
        None
    }
}

proof fn lemma_dec_value_nonneg(s: Seq<char>)
    requires
        is_dec_digits(s),
    ensures
        dec_value(s) >= 0,
    decreases s.len(),
{
    if s.len() > 0 {
        assert(is_dec_digits(s.drop_last())) by {
            assert(forall|i: int|
                0 <= i < s.len() - 1 ==> s.drop_last()[i] == #[trigger] s[i]);
        }
        lemma_dec_value_nonneg(s.drop_last());
    }
}

/// Appending further digits never shrinks the value.
proof fn lemma_dec_value_prefix_le(s: Seq<char>, j: int)
    requires
        is_dec_digits(s),
        0 <= j <= s.len(),
    ensures
        dec_value(s.take(j)) <= dec_value(s),
    decreases s.len() - j,
{
    if j < s.len() {
        let t = s.take(j + 1);
        assert(t.drop_last() =~= s.take(j));
        assert(is_dec_digits(t)) by {
            assert(forall|i: int| 0 <= i < t.len() ==> t[i] == #[trigger] s[i]);
        }
        assert(is_dec_digits(s.take(j))) by {
            assert(forall|i: int|
                0 <= i < j ==> s.take(j)[i] == #[trigger] s[i]);
        }
        lemma_dec_value_nonneg(s.take(j));
        assert(dec_value(t) == dec_value(s.take(j)) * 10 + (t.last() as int - '0' as int));
        assert(dec_value(s.take(j)) * 10 >= dec_value(s.take(j))) by {
            lemma_dec_value_nonneg(s.take(j));
            assert(dec_value(s.take(j)) >= 0);
        }
        lemma_dec_value_prefix_le(s, j + 1);
    } else {
        assert(s.take(j) =~= s);
    }
}

/// Parses an unsigned 64-bit decimal literal, exactly as
/// `u64::from_str` would: an optional `'+'`, then one or more digits,
/// rejecting values that do not fit in a `u64`.
pub fn parse_u64(s: &str) -> (r: Option<u64>)
    ensures
        r == parse_u64_spec(s@),
{
    let len = s.unicode_len();
    if len == 0 {
        return None;
    }
    let mut start: usize = 0;
    if s.get_char(0) == '+' {
        start = 1;
    }
    if start == len {
        // A bare sign with no digits.
        return None;
    }
    let ghost d = unsigned_digits(s@);
    assert(d.len() == len - start);
    assert(forall|k: int| 0 <= k < d.len() ==> d[k] == s@[k + start]);

    let mut acc: u64 = 0;
    let mut i: usize = start;
    while i < len
        invariant
            start <= i <= len,
            len == s@.len(),
            start == 1 ==> s@[0] == '+',
            start == 0 ==> !(s@.len() > 0 && s@[0] == '+'),
            d == unsigned_digits(s@),
            d.len() == len - start,
            forall|k: int| 0 <= k < d.len() ==> d[k] == s@[k + start],
            is_dec_digits(d.take(i - start)),
            acc == dec_value(d.take(i - start)),
        decreases len - i,
    {
        let c = s.get_char(i);
        if !('0' <= c && c <= '9') {
            assert(d[i - start] == c);
            assert(!is_dec_digits(d));
            return None;
        }
        let dv: u64 = (c as u32 as u64) - ('0' as u32 as u64);
        assert(dv == c as int - '0' as int);
        let ghost prefix = d.take(i - start);
        let ghost next = d.take(i + 1 - start);
        assert(next.drop_last() =~= prefix);
        assert(next.last() == c);
        assert(is_dec_digits(next));
        assert(dec_value(next) == acc * 10 + dv);
        if acc > u64::MAX / 10 {
            proof {
                assert(acc * 10 > u64::MAX) by (nonlinear_arith)
                    requires acc > u64::MAX / 10;
                if is_dec_digits(d) {
                    lemma_dec_value_prefix_le(d, i + 1 - start);
                    assert(dec_value(d) >= dec_value(next) > u64::MAX);
                }
            }
            return None;
        }
        assert(acc * 10 <= u64::MAX - 5) by (nonlinear_arith)
            requires acc <= u64::MAX / 10;
        let acc10: u64 = acc * 10;
        if dv > u64::MAX - acc10 {
            proof {
                if is_dec_digits(d) {
                    lemma_dec_value_prefix_le(d, i + 1 - start);
                    assert(dec_value(d) >= dec_value(next) > u64::MAX);
                }
            }
            return None;
        }
        acc = acc10 + dv;
        i = i + 1;
    }
    assert(d.take(i - start) =~= d);
    Some(acc)
}

} // verus!
