//! Byte scans that the token extractors share, each proved against its
//! counterpart in the grammar.
use vstd::prelude::*;

use crate::grammar::{
    crlf_at, digits_value, is_digit, is_first_crlf, is_first_line_break, is_line_break,
    line_break, number, terminator, CR, DIGIT_NINE, DIGIT_ZERO, LF,
};

verus! {

/// At most one position is the first terminator from `from` on.
proof fn lemma_first_crlf_unique(b: Seq<u8>, from: int, t: int)
    requires
        is_first_crlf(b, from, t),
    ensures
        terminator(b, from) == Some(t),
{
    let c = choose|c: int| is_first_crlf(b, from, c);
    assert(is_first_crlf(b, from, c));
    if c < t {
        assert(!crlf_at(b, c));
    } else if t < c {
        assert(!crlf_at(b, t));
    }
}

/// At most one position is the first line break in a range.
proof fn lemma_first_line_break_unique(b: Seq<u8>, from: int, to: int, p: int)
    requires
        is_first_line_break(b, from, to, p),
    ensures
        line_break(b, from, to) == Some(p),
{
    let c = choose|c: int| is_first_line_break(b, from, to, c);
    assert(is_first_line_break(b, from, to, c));
    if c < p {
        assert(!is_line_break(b[c]));
    } else if p < c {
        assert(!is_line_break(b[p]));
    }
}

/// Finds the first terminator (CR then LF) that starts at or after `from`.
pub(crate) fn find_terminator(bytes: &[u8], from: usize) -> (r: Option<usize>)
    requires
        from <= bytes@.len(),
    ensures
        match r {
            Some(t) => {
                &&& is_first_crlf(bytes@, from as int, t as int)
                &&& terminator(bytes@, from as int) == Some(t as int)
            },
            None => terminator(bytes@, from as int) is None,
        },
{
    let mut i: usize = from;
    while i < bytes.len()
        invariant
            from <= i <= bytes@.len(),
            forall|u: int| from <= u < i ==> !crlf_at(bytes@, u),
        decreases bytes@.len() - i,
    {
        if i + 1 < bytes.len() && bytes[i] == CR && bytes[i + 1] == LF {
            proof {
                lemma_first_crlf_unique(bytes@, from as int, i as int);
            }
            return Some(i);
        }
        i = i + 1;
    }
    assert(!exists|t: int| is_first_crlf(bytes@, from as int, t));
    None
}

/// Finds the first CR or LF byte in `[from, to)`.
pub(crate) fn find_line_break(bytes: &[u8], from: usize, to: usize) -> (r: Option<usize>)
    requires
        from <= to <= bytes@.len(),
    ensures
        match r {
            Some(p) => {
                &&& is_first_line_break(bytes@, from as int, to as int, p as int)
                &&& line_break(bytes@, from as int, to as int) == Some(p as int)
            },
            None => line_break(bytes@, from as int, to as int) is None,
        },
{
    let mut i: usize = from;
    while i < to
        invariant
            from <= i <= to <= bytes@.len(),
            forall|u: int| from <= u < i ==> !is_line_break(bytes@[u]),
        decreases to - i,
    {
        if bytes[i] == CR || bytes[i] == LF {
            proof {
                lemma_first_line_break_unique(bytes@, from as int, to as int, i as int);
            }
            return Some(i);
        }
        i = i + 1;
    }
    assert(!exists|p: int| is_first_line_break(bytes@, from as int, to as int, p));
    None
}

/// Appending a digit multiplies the value by ten and adds the digit.
proof fn lemma_digits_value_extend(b: Seq<u8>, from: int, i: int)
    requires
        0 <= from <= i < b.len(),
    ensures
        digits_value(b.subrange(from, i + 1)) == 10 * digits_value(b.subrange(from, i)) + (
        b[i] - DIGIT_ZERO),
{
    assert(b.subrange(from, i + 1).drop_last() =~= b.subrange(from, i));
}

/// Over digits, the value of a prefix is no larger than the whole.
proof fn lemma_digits_value_prefix(s: Seq<u8>, k: int)
    requires
        0 <= k <= s.len(),
        forall|i: int| 0 <= i < s.len() ==> is_digit(#[trigger] s[i]),
    ensures
        0 <= digits_value(s.subrange(0, k)) <= digits_value(s),
    decreases s.len(),
{
    if k == s.len() {
        assert(s.subrange(0, k) =~= s);
        if s.len() > 0 {
            lemma_digits_value_prefix(s.drop_last(), k - 1);
            assert(s.drop_last().subrange(0, k - 1) =~= s.drop_last());
        }
    } else {
        lemma_digits_value_prefix(s.drop_last(), k);
        assert(s.drop_last().subrange(0, k) =~= s.subrange(0, k));
        assert(is_digit(s[s.len() - 1]));
    }
}

/// Reads the number written in `[from, to)`: one or more ASCII digits whose
/// value fits in `i64`.
pub(crate) fn parse_number(bytes: &[u8], from: usize, to: usize) -> (r: Option<i64>)
    requires
        from <= to <= bytes@.len(),
    ensures
        match r {
            Some(n) => 0 <= n && number(bytes@.subrange(from as int, to as int)) == Some(n as int),
            None => number(bytes@.subrange(from as int, to as int)) is None,
        },
{
    let ghost s = bytes@.subrange(from as int, to as int);
    if from == to {
        return None;
    }
    let mut value: i64 = 0;
    let mut i: usize = from;
    while i < to
        invariant
            from <= i <= to <= bytes@.len(),
            s == bytes@.subrange(from as int, to as int),
            forall|u: int| from <= u < i ==> is_digit(#[trigger] bytes@[u]),
            0 <= value,
            value as int == digits_value(bytes@.subrange(from as int, i as int)),
        decreases to - i,
    {
        let c = bytes[i];
        if c < DIGIT_ZERO || c > DIGIT_NINE {
            assert(!is_digit(s[i - from]));
            return None;
        }
        let d = (c - DIGIT_ZERO) as i64;
        proof {
            lemma_digits_value_extend(bytes@, from as int, i as int);
        }
        if value > (i64::MAX - d) / 10 {
            proof {
                assert(10 * value + d > i64::MAX) by (nonlinear_arith)
                    requires
                        value > (i64::MAX - d) / 10,
                        0 <= d <= 9,
                ;
                if forall|u: int| 0 <= u < s.len() ==> is_digit(#[trigger] s[u]) {
                    lemma_digits_value_prefix(s, i - from + 1);
                    assert(s.subrange(0, i - from + 1) =~= bytes@.subrange(
                        from as int,
                        i + 1,
                    ));
                }
            }
            return None;
        }
        proof {
            assert(10 * value + d <= i64::MAX) by (nonlinear_arith)
                requires
                    value <= (i64::MAX - d) / 10,
                    0 <= d <= 9,
            ;
        }
        value = value * 10 + d;
        i = i + 1;
    }
    assert(s =~= bytes@.subrange(from as int, i as int));
    Some(value)
}

} // verus!
