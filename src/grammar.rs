//! The wire format as mathematics: what decoding a byte sequence yields.
//!
//! Every position here is an absolute byte offset into the whole input.
use vstd::prelude::*;

use crate::error::{Error, Node};

verus! {

/// Carriage return, the first byte of the two-byte terminator.
pub const CR: u8 = 13;

/// Line feed, the second byte of the two-byte terminator.
pub const LF: u8 = 10;

/// Leading byte of an array token, `*`.
pub const ARRAY_MARKER: u8 = 42;

/// Leading byte of an error token, `-`.
pub const ERROR_MARKER: u8 = 45;

/// Leading byte of an integer token, `:`.
pub const INTEGER_MARKER: u8 = 58;

/// Leading byte of a bulk string token, `$`.
pub const BULK_STRING_MARKER: u8 = 36;

/// Leading byte of a simple string token, `+`.
pub const SIMPLE_STRING_MARKER: u8 = 43;

/// The ASCII digit `0`.
pub const DIGIT_ZERO: u8 = 48;

/// The ASCII digit `1`.
pub const DIGIT_ONE: u8 = 49;

/// The ASCII digit `9`.
pub const DIGIT_NINE: u8 = 57;

/// How many arrays may be nested inside one another in a decoded message.
pub const MAX_DEPTH: usize = 128;

/// A decoded value, with string bodies as the bytes they were read from.
pub enum SpecValue {
    Nil,
    Integer(int),
    Error(Seq<u8>),
    String(Seq<u8>),
    Array(Seq<SpecValue>),
}

/// A terminator (CR then LF) starts at `t`.
pub open spec fn crlf_at(b: Seq<u8>, t: int) -> bool {
    0 <= t && t + 1 < b.len() && b[t] == CR && b[t + 1] == LF
}

/// `t` is the first terminator that starts at or after `from`.
pub open spec fn is_first_crlf(b: Seq<u8>, from: int, t: int) -> bool {
    &&& from <= t
    &&& crlf_at(b, t)
    &&& forall|u: int| from <= u < t ==> !crlf_at(b, u)
}

/// Where the first terminator at or after `from` starts, if there is one.
pub open spec fn terminator(b: Seq<u8>, from: int) -> Option<int> {
    if exists|t: int| is_first_crlf(b, from, t) {
        Some(choose|t: int| is_first_crlf(b, from, t))
    } else {
        None
    }
}

pub open spec fn is_line_break(c: u8) -> bool {
    c == CR || c == LF
}

/// `p` is the first CR or LF byte in `[from, to)`.
pub open spec fn is_first_line_break(b: Seq<u8>, from: int, to: int, p: int) -> bool {
    &&& from <= p < to
    &&& is_line_break(b[p])
    &&& forall|u: int| from <= u < p ==> !is_line_break(b[u])
}

/// Where the first CR or LF byte in `[from, to)` stands, if there is one.
pub open spec fn line_break(b: Seq<u8>, from: int, to: int) -> Option<int> {
    if exists|p: int| is_first_line_break(b, from, to, p) {
        Some(choose|p: int| is_first_line_break(b, from, to, p))
    } else {
        None
    }
}

pub open spec fn is_digit(c: u8) -> bool {
    DIGIT_ZERO <= c <= DIGIT_NINE
}

/// The value of a string of decimal digits, most significant first.
pub open spec fn digits_value(s: Seq<u8>) -> int
    decreases s.len(),
{
    if s.len() == 0 {
        0
    } else {
        10 * digits_value(s.drop_last()) + (s.last() - DIGIT_ZERO)
    }
}

/// The number that `s` writes: one or more ASCII digits, no sign, at most
/// `i64::MAX`.
pub open spec fn number(s: Seq<u8>) -> Option<int> {
    if 0 < s.len() && (forall|i: int| 0 <= i < s.len() ==> is_digit(#[trigger] s[i]))
        && digits_value(s) <= i64::MAX {
        Some(digits_value(s))
    } else {
        None
    }
}

/// An integer token, or a length prefix, whose marker stands at `pos`: the
/// number and the position just past its terminator.
pub open spec fn integer_token(b: Seq<u8>, pos: int, node: Node) -> Result<(int, int), Error> {
    match terminator(b, pos + 1) {
        None => Err(Error::Unexpected { index: b.len() as usize, node }),
        Some(t) => match number(b.subrange(pos + 1, t)) {
            None => Err(Error::Type { index: (pos + 1) as usize, node }),
            Some(n) => Ok((n, t + 2)),
        },
    }
}

/// A simple string or error token whose marker stands at `pos`: its body and
/// the position just past its terminator.
pub open spec fn simple_string_token(b: Seq<u8>, pos: int, node: Node) -> Result<
    (Seq<u8>, int),
    Error,
> {
    match terminator(b, pos + 1) {
        None => Err(Error::Unexpected { index: (pos + 1) as usize, node }),
        Some(t) => match line_break(b, pos + 1, t) {
            Some(p) => Err(Error::Unexpected { index: p as usize, node }),
            None => Ok((b.subrange(pos + 1, t), t + 2)),
        },
    }
}

/// The five bytes of a nil bulk string: `$-1` and a terminator.
pub open spec fn nil_sentinel() -> Seq<u8> {
    seq![BULK_STRING_MARKER, ERROR_MARKER, DIGIT_ONE, CR, LF]
}

pub open spec fn nil_at(b: Seq<u8>, pos: int) -> bool {
    0 <= pos && pos + 5 <= b.len() && b.subrange(pos, pos + 5) == nil_sentinel()
}

/// A bulk string token whose marker stands at `pos`.
///
/// When its body is not followed by a terminator, the index is where the
/// terminator should start; if the input ends before that position could
/// hold a byte, it is one past the input's end.
pub open spec fn bulk_string_token(b: Seq<u8>, pos: int) -> Result<(SpecValue, int), Error> {
    if nil_at(b, pos) {
        Ok((SpecValue::Nil, pos + 5))
    } else {
        match integer_token(b, pos, Node::SIZE) {
            Err(e) => Err(e),
            Ok((n, start)) => {
                let end = start + n;
                if crlf_at(b, end) {
                    Ok((SpecValue::String(b.subrange(start, end)), end + 2))
                } else if end < b.len() {
                    Err(Error::Size { index: end as usize, node: Node::BULK_STRING })
                } else {
                    Err(Error::Size { index: (b.len() + 1) as usize, node: Node::BULK_STRING })
                }
            },
        }
    }
}

/// The token that starts at `pos`, inside which at most `room` more arrays
/// may open: its value and the position just past it.
pub open spec fn token(b: Seq<u8>, pos: int, room: nat) -> Result<(SpecValue, int), Error>
    decreases room, 2nat, 0nat,
{
    if pos < 0 || b.len() <= pos {
        Err(Error::Unexpected { index: pos as usize, node: Node::UNKNOWN })
    } else if b[pos] == ARRAY_MARKER {
        array_token(b, pos, room)
    } else if b[pos] == ERROR_MARKER {
        match simple_string_token(b, pos, Node::ERROR) {
            Ok((s, next)) => Ok((SpecValue::Error(s), next)),
            Err(e) => Err(e),
        }
    } else if b[pos] == INTEGER_MARKER {
        match integer_token(b, pos, Node::INTEGER) {
            Ok((n, next)) => Ok((SpecValue::Integer(n), next)),
            Err(e) => Err(e),
        }
    } else if b[pos] == BULK_STRING_MARKER {
        bulk_string_token(b, pos)
    } else if b[pos] == SIMPLE_STRING_MARKER {
        match simple_string_token(b, pos, Node::SIMPLE_STRING) {
            Ok((s, next)) => Ok((SpecValue::String(s), next)),
            Err(e) => Err(e),
        }
    } else {
        Err(Error::Unexpected { index: pos as usize, node: Node::UNKNOWN })
    }
}

/// An array token whose marker stands at `pos`.
pub open spec fn array_token(b: Seq<u8>, pos: int, room: nat) -> Result<(SpecValue, int), Error>
    decreases room, 1nat, 0nat,
{
    if room == 0 {
        Err(Error::Unexpected { index: pos as usize, node: Node::ARRAY })
    } else {
        match integer_token(b, pos, Node::SIZE) {
            Err(e) => Err(e),
            Ok((n, first)) => match elements(b, first, n as nat, (room - 1) as nat) {
                Err(e) => Err(e),
                Ok((items, next)) => Ok((SpecValue::Array(items), next)),
            },
        }
    }
}

/// `count` consecutive tokens from `cursor` on, the elements of an array.
pub open spec fn elements(b: Seq<u8>, cursor: int, count: nat, room: nat) -> Result<
    (Seq<SpecValue>, int),
    Error,
>
    decreases room, 3nat, count,
{
    if count == 0 {
        Ok((seq![], cursor))
    } else if b.len() <= cursor {
        Err(Error::Size { index: cursor as usize, node: Node::ARRAY })
    } else {
        match token(b, cursor, room) {
            Err(e) => Err(e),
            Ok((v, next)) => match elements(b, next, (count - 1) as nat, room) {
                Err(e) => Err(e),
                Ok((rest, end)) => Ok((seq![v] + rest, end)),
            },
        }
    }
}

/// What a whole message decodes to: the token at its start. Bytes after
/// that token are not read.
pub open spec fn message(b: Seq<u8>) -> Result<SpecValue, Error> {
    match token(b, 0, MAX_DEPTH as nat) {
        Ok((v, _)) => Ok(v),
        Err(e) => Err(e),
    }
}


/// The outcome of reading a token that starts at `pos` stays inside the
/// input: a success ends past `pos` and no later than the input's end, and a
/// failure's index is at most one past the input's end.
pub open spec fn within_input<T>(b: Seq<u8>, pos: int, r: Result<(T, int), Error>) -> bool {
    match r {
        Ok((_, next)) => pos < next <= b.len(),
        Err(e) => e.spec_index() <= b.len() + 1,
    }
}

/// The first terminator is a terminator, and none comes before it.
pub proof fn lemma_terminator(b: Seq<u8>, from: int)
    ensures
        terminator(b, from) matches Some(t) ==> is_first_crlf(b, from, t),
{
}

/// The first line break is a line break, and none comes before it.
pub proof fn lemma_line_break(b: Seq<u8>, from: int, to: int)
    ensures
        line_break(b, from, to) matches Some(p) ==> is_first_line_break(b, from, to, p),
{
}

/// A number is never negative.
pub proof fn lemma_digits_value_nonnegative(s: Seq<u8>)
    requires
        forall|i: int| 0 <= i < s.len() ==> is_digit(#[trigger] s[i]),
    ensures
        0 <= digits_value(s),
    decreases s.len(),
{
    if s.len() > 0 {
        lemma_digits_value_nonnegative(s.drop_last());
        assert(is_digit(s[s.len() - 1]));
    }
}

pub proof fn lemma_integer_token_bounds(b: Seq<u8>, pos: int, node: Node)
    requires
        0 <= pos < b.len() < usize::MAX,
    ensures
        within_input(b, pos, integer_token(b, pos, node)),
        integer_token(b, pos, node) matches Ok((n, _)) ==> 0 <= n <= i64::MAX,
{
    lemma_terminator(b, pos + 1);
    if let Some(t) = terminator(b, pos + 1) {
        let s = b.subrange(pos + 1, t);
        if number(s) is Some {
            lemma_digits_value_nonnegative(s);
        }
    }
}

pub proof fn lemma_simple_string_token_bounds(b: Seq<u8>, pos: int, node: Node)
    requires
        0 <= pos < b.len() < usize::MAX,
    ensures
        within_input(b, pos, simple_string_token(b, pos, node)),
{
    lemma_terminator(b, pos + 1);
    if let Some(t) = terminator(b, pos + 1) {
        lemma_line_break(b, pos + 1, t);
    }
}

pub proof fn lemma_bulk_string_token_bounds(b: Seq<u8>, pos: int)
    requires
        0 <= pos < b.len() < usize::MAX,
    ensures
        within_input(b, pos, bulk_string_token(b, pos)),
{
    lemma_integer_token_bounds(b, pos, Node::SIZE);
}

pub proof fn lemma_token_bounds(b: Seq<u8>, pos: int, room: nat)
    requires
        0 <= pos <= b.len() < usize::MAX,
    ensures
        within_input(b, pos, token(b, pos, room)),
    decreases room, 2nat, 0nat,
{
    if 0 <= pos < b.len() {
        lemma_integer_token_bounds(b, pos, Node::INTEGER);
        lemma_integer_token_bounds(b, pos, Node::SIZE);
        lemma_simple_string_token_bounds(b, pos, Node::ERROR);
        lemma_simple_string_token_bounds(b, pos, Node::SIMPLE_STRING);
        lemma_bulk_string_token_bounds(b, pos);
        if b[pos] == ARRAY_MARKER {
            lemma_array_token_bounds(b, pos, room);
        }
    }
}

pub proof fn lemma_array_token_bounds(b: Seq<u8>, pos: int, room: nat)
    requires
        0 <= pos < b.len() < usize::MAX,
    ensures
        within_input(b, pos, array_token(b, pos, room)),
    decreases room, 1nat, 0nat,
{
    lemma_integer_token_bounds(b, pos, Node::SIZE);
    if room > 0 {
        if let Ok((n, first)) = integer_token(b, pos, Node::SIZE) {
            lemma_elements_bounds(b, first, n as nat, (room - 1) as nat);
        }
    }
}

pub proof fn lemma_elements_bounds(b: Seq<u8>, cursor: int, count: nat, room: nat)
    requires
        0 <= cursor <= b.len() < usize::MAX,
    ensures
        match elements(b, cursor, count, room) {
            Ok((_, end)) => cursor <= end <= b.len(),
            Err(e) => e.spec_index() <= b.len() + 1,
        },
    decreases room, 3nat, count,
{
    if count > 0 && cursor < b.len() {
        lemma_token_bounds(b, cursor, room);
        if let Ok((v, next)) = token(b, cursor, room) {
            lemma_elements_bounds(b, next, (count - 1) as nat, room);
        }
    }
}

} // verus!
