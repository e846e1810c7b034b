//! Properties of decoding as a whole.
use vstd::prelude::*;

use crate::error::{Error, Node};
use crate::grammar::{
    array_token, bulk_string_token, elements, integer_token, is_first_line_break, is_line_break,
    lemma_integer_token_bounds, lemma_terminator, line_break, simple_string_token, terminator, SpecValue,
};
use crate::value::Value;
use vstd::string::StringSliceAdditionalSpecFns;

verus! {

/// Decoding is a pure function of its input: decoding the same text twice
/// gives structurally equal results.
pub proof fn lemma_decode_is_pure(
    source: &str,
    first: Result<Value, Error>,
    second: Result<Value, Error>,
)
    requires
        call_ensures(Value::decode, (source,), first),
        call_ensures(Value::decode, (source,), second),
    ensures
        Value::result_model(first) == Value::result_model(second),
{
}

/// The same holds of `TryFrom<&str>`: converting the same text twice gives
/// structurally equal results.
pub proof fn lemma_try_from_is_pure(
    source: &str,
    first: Result<Value, Error>,
    second: Result<Value, Error>,
)
    requires
        call_ensures(<Value as TryFrom<&str>>::try_from, (source,), first),
        call_ensures(<Value as TryFrom<&str>>::try_from, (source,), second),
        source.spec_bytes().len() < usize::MAX,
    ensures
        Value::result_model(first) == Value::result_model(second),
{
}

/// When `[from, to)` holds a CR or LF byte, it holds a first one.
proof fn lemma_some_line_break_is_found(b: Seq<u8>, from: int, to: int, p: int)
    requires
        from <= p < to,
        is_line_break(b[p]),
    ensures
        line_break(b, from, to) is Some,
    decreases p - from,
{
    if is_line_break(b[from]) {
        assert(is_first_line_break(b, from, to, from));
    } else {
        let next = from + 1;
        lemma_some_line_break_is_found(b, next, to, p);
        let q = choose|q: int| is_first_line_break(b, next, to, q);
        assert(is_first_line_break(b, from, to, q));
    }
}

/// The body of a decoded simple string or error holds no CR or LF byte.
pub proof fn lemma_simple_string_body_has_no_line_break(b: Seq<u8>, pos: int, node: Node)
    requires
        0 <= pos < b.len(),
    ensures
        simple_string_token(b, pos, node) matches Ok((body, _)) ==> forall|i: int|
            0 <= i < body.len() ==> !is_line_break(#[trigger] body[i]),
{
    if let Ok((body, _)) = simple_string_token(b, pos, node) {
        lemma_terminator(b, pos + 1);
        let t = terminator(b, pos + 1)->Some_0;
        assert forall|i: int| 0 <= i < body.len() implies !is_line_break(#[trigger] body[i]) by {
            if is_line_break(body[i]) {
                assert(body[i] == b[pos + 1 + i]);
                lemma_some_line_break_is_found(b, pos + 1, t, pos + 1 + i);
            }
        }
    }
}

/// The body of a decoded bulk string is exactly as long as its declared
/// length.
pub proof fn lemma_bulk_string_body_has_declared_length(b: Seq<u8>, pos: int)
    requires
        0 <= pos < b.len() < usize::MAX,
    ensures
        bulk_string_token(b, pos) matches Ok((SpecValue::String(body), _)) ==> integer_token(
            b,
            pos,
            Node::SIZE,
        ) matches Ok((n, _)) && body.len() == n,
{
    lemma_integer_token_bounds(b, pos, Node::SIZE);
}

/// `count` decoded elements are `count` values.
proof fn lemma_elements_count(b: Seq<u8>, cursor: int, count: nat, room: nat)
    ensures
        elements(b, cursor, count, room) matches Ok((items, _)) ==> items.len() == count,
    decreases count,
{
    if count > 0 {
        if let Ok((_, next)) = crate::grammar::token(b, cursor, room) {
            lemma_elements_count(b, next, (count - 1) as nat, room);
        }
    }
}

/// A decoded array holds exactly as many elements as it declares.
pub proof fn lemma_array_has_declared_count(b: Seq<u8>, pos: int, room: nat)
    requires
        0 <= pos < b.len() < usize::MAX,
    ensures
        array_token(b, pos, room) matches Ok((SpecValue::Array(items), _)) ==> integer_token(
            b,
            pos,
            Node::SIZE,
        ) matches Ok((n, _)) && items.len() == n,
{
    lemma_integer_token_bounds(b, pos, Node::SIZE);
    if room > 0 {
        if let Ok((n, first)) = integer_token(b, pos, Node::SIZE) {
            lemma_elements_count(b, first, n as nat, (room - 1) as nat);
        }
    }
}

} // verus!
