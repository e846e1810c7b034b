use vstd::prelude::*;

use crate::error::{Error, Node};
use crate::grammar::{
    array_token, bulk_string_token, crlf_at, elements, integer_token, lemma_integer_token_bounds,
    lemma_token_bounds, message, nil_at, nil_sentinel, simple_string_token, token, SpecValue,
    ARRAY_MARKER, BULK_STRING_MARKER, CR, DIGIT_ONE, ERROR_MARKER, INTEGER_MARKER, LF, MAX_DEPTH,
    SIMPLE_STRING_MARKER,
};
use crate::scan::{find_line_break, find_terminator, parse_number};
use crate::text::{lemma_ascii_boundaries, text_between};
use vstd::string::StringSliceAdditionalSpecFns;
use vstd::utf8::{encode_utf8, encode_utf8_valid_utf8};

verus! {

/// A decoded value.
#[derive(Debug, PartialEq)]
pub enum Value {
    /// The absence of a value (a nil bulk string).
    Nil,
    /// An integer token.
    Integer(i64),
    /// An error token's message: domain data, not a decoding failure.
    Error(String),
    /// A simple or bulk string.
    String(String),
    /// The elements of an array token, in order.
    Array(Vec<Value>),
}

impl Value {
    /// The value as mathematics, with string bodies as their UTF-8 bytes.
    pub open spec fn model(self) -> SpecValue
        decreases self,
    {
        match self {
            Value::Nil => SpecValue::Nil,
            Value::Integer(n) => SpecValue::Integer(n as int),
            Value::Error(s) => SpecValue::Error(encode_utf8(s@)),
            Value::String(s) => SpecValue::String(encode_utf8(s@)),
            Value::Array(items) => SpecValue::Array(Value::models(items@)),
        }
    }

    /// The outcome of a decoding as mathematics.
    pub open spec fn result_model(r: Result<Value, Error>) -> Result<SpecValue, Error> {
        match r {
            Ok(v) => Ok(v.model()),
            Err(e) => Err(e),
        }
    }

    /// The models of a sequence of values, in order.
    pub open spec fn models(items: Seq<Value>) -> Seq<SpecValue>
        decreases items,
    {
        if items.len() == 0 {
            seq![]
        } else {
            Value::models(items.drop_last()).push(items.last().model())
        }
    }
}

impl<'a> TryFrom<&'a str> for Value {
    type Error = Error;

    /// Decodes the token at the start of `source`, as [`Value::decode`] does.
    fn try_from(source: &'a str) -> (r: Result<Value, Error>)
        ensures
            source.spec_bytes().len() < usize::MAX ==> Value::result_model(r) == message(
                source.spec_bytes(),
            ),
            source.spec_bytes().len() < usize::MAX ==> (r matches Err(e) ==> e.spec_index()
                <= source.spec_bytes().len() + 1),
    {
        let length = source.as_bytes().len();
        if length < usize::MAX {
            Value::decode(source)
        } else {
            // A `str` never holds that many bytes: Rust caps its length at
            // `isize::MAX`.
            Err(Error::of_unexpected(Node::UNKNOWN, length))
        }
    }
}

/// The contract of `try_from` is its own `ensures` above, stated over
/// [`Value::result_model`]: a `Value` holds a `Vec` and `String`s, which a spec
/// function cannot build, so no `try_from_spec` can give the result itself.
/// `obeys_try_from_spec` is therefore `false`, and `try_from_spec` is an inert
/// placeholder that nothing reads.
impl<'a> vstd::std_specs::convert::TryFromSpecImpl<&'a str> for Value {
    open spec fn obeys_try_from_spec() -> bool {
        false
    }

    open spec fn try_from_spec(source: &'a str) -> Result<Value, Error> {
        Err(Error::Unexpected { index: 0, node: Node::UNKNOWN })
    }
}

/// What decoding a `&str` gives: a value, or a located error.
pub type ValueResult<'a> = Result<Value, <Value as TryFrom<&'a str>>::Error>;

/// A place in a message: the whole message, as text and as bytes, and the
/// offset at which the token being read starts.
#[derive(Clone, Copy)]
struct Input<'a> {
    source: &'a str,
    bytes: &'a [u8],
    position: usize,
}

impl<'a> Input<'a> {
    spec fn data(self) -> Seq<u8> {
        self.bytes@
    }

    spec fn pos(self) -> int {
        self.position as int
    }

    spec fn wf(self) -> bool {
        &&& self.bytes@ == self.source.spec_bytes()
        &&& self.bytes@.len() < usize::MAX
        &&& self.position <= self.bytes@.len()
    }

    /// The same message, read from `position` on.
    fn at(self, position: usize) -> (r: Input<'a>)
        ensures
            r.source == self.source,
            r.bytes == self.bytes,
            r.position == position,
    {
        Input { source: self.source, bytes: self.bytes, position }
    }
}

/// A token read from `pos`, with how many bytes it took, against what the
/// grammar says of it.
spec fn decoded(
    r: Result<(Value, usize), Error>,
    pos: int,
    expected: Result<(SpecValue, int), Error>,
) -> bool {
    match r {
        Ok((v, consumed)) => expected == Ok::<_, Error>((v.model(), pos + consumed)),
        Err(e) => expected == Err::<(SpecValue, int), Error>(e),
    }
}

impl Value {
    /// Decodes the token at the start of `source`; bytes after it are not
    /// read.
    ///
    /// Every failure is located by a byte offset into `source`, at most one
    /// past its end. An array nested inside [`MAX_DEPTH`] others fails with
    /// [`Error::Unexpected`] at its marker, so that no input can exhaust the
    /// stack.
    pub fn decode(source: &str) -> (r: Result<Value, Error>)
        requires
            source.spec_bytes().len() < usize::MAX,
        ensures
            Value::result_model(r) == message(source.spec_bytes()),
            r matches Err(e) ==> e.spec_index() <= source.spec_bytes().len() + 1,
    {
        proof {
            lemma_token_bounds(source.spec_bytes(), 0, MAX_DEPTH as nat);
        }
        let input = Input { source, bytes: source.as_bytes(), position: 0 };
        match Value::internal_try_from(input, MAX_DEPTH) {
            Ok((v, _)) => Ok(v),
            Err(e) => Err(e),
        }
    }

    /// Reads the token at `input.position`, inside which at most `room` more
    /// arrays may open.
    fn internal_try_from(input: Input, room: usize) -> (r: Result<(Value, usize), Error>)
        requires
            input.wf(),
        ensures
            decoded(r, input.pos(), token(input.data(), input.pos(), room as nat)),
        decreases room, 2usize,
    {
        let pos = input.position;
        if pos >= input.bytes.len() {
            return Err(Error::of_unexpected(Node::UNKNOWN, pos));
        }
        let marker = input.bytes[pos];
        if marker == ARRAY_MARKER {
            Value::extract_array(input, room)
        } else if marker == ERROR_MARKER {
            Value::extract_error(input)
        } else if marker == INTEGER_MARKER {
            match Value::extract_integer(input, Node::INTEGER) {
                Ok((n, consumed)) => Ok((Value::Integer(n), consumed)),
                Err(e) => Err(e),
            }
        } else if marker == BULK_STRING_MARKER {
            Value::extract_bulk_string(input)
        } else if marker == SIMPLE_STRING_MARKER {
            match Value::extract_simple_string(input, Node::SIMPLE_STRING) {
                Ok((text, consumed)) => Ok((Value::String(text), consumed)),
                Err(e) => Err(e),
            }
        } else {
            Err(Error::of_unexpected(Node::UNKNOWN, pos))
        }
    }

    /// Reads an array token: its count, then that many tokens.
    fn extract_array(input: Input, room: usize) -> (r: Result<(Value, usize), Error>)
        requires
            input.wf(),
            input.position < input.data().len(),
        ensures
            decoded(r, input.pos(), array_token(input.data(), input.pos(), room as nat)),
        decreases room, 1usize,
    {
        let ghost b = input.data();
        let pos = input.position;
        if room == 0 {
            return Err(Error::of_unexpected(Node::ARRAY, pos));
        }
        let inner = room - 1;
        match Value::extract_integer(input, Node::SIZE) {
            Err(e) => Err(e),
            Ok((count, consumed)) => {
                let ghost first = pos + consumed;
                let ghost whole = elements(b, first, count as nat, inner as nat);
                let mut values: Vec<Value> = Vec::new();
                let mut cursor: usize = pos + consumed;
                let mut left: u64 = count as u64;
                while left > 0
                    invariant
                        input.wf(),
                        b == input.data(),
                        pos == input.position,
                        pos < cursor <= b.len(),
                        inner < room,
                        array_token(b, pos as int, room as nat) == match whole {
                            Ok((items, next)) => Ok((SpecValue::Array(items), next)),
                            Err(e) => Err(e),
                        },
                        whole == match elements(b, cursor as int, left as nat, inner as nat) {
                            Ok((rest, end)) => Ok((Value::models(values@) + rest, end)),
                            Err(e) => Err(e),
                        },
                    decreases left,
                {
                    if cursor == input.bytes.len() {
                        return Err(Error::of_size(Node::ARRAY, cursor));
                    }
                    match Value::internal_try_from(input.at(cursor), inner) {
                        Err(e) => {
                            return Err(e);
                        },
                        Ok((v, taken)) => {
                            proof {
                                lemma_token_bounds(b, cursor as int, inner as nat);
                                let next = cursor + taken;
                                let old_models = Value::models(values@);
                                let later = elements(b, next, (left - 1) as nat, inner as nat);
                                if let Ok((rest, end)) = later {
                                    let m = v.model();
                                    assert(old_models + (seq![m] + rest) =~= old_models.push(m)
                                        + rest);
                                }
                            }
                            let ghost old_values = values@;
                            values.push(v);
                            assert(values@.drop_last() =~= old_values);
                            cursor = cursor + taken;
                            left = left - 1;
                        },
                    }
                }
                assert(Value::models(values@) + seq![] =~= Value::models(values@));
                Ok((Value::Array(values), cursor - pos))
            },
        }
    }

    /// Reads an error token: a simple string whose failures name the error
    /// token.
    fn extract_error(input: Input) -> (r: Result<(Value, usize), Error>)
        requires
            input.wf(),
            input.position < input.data().len(),
            input.data()[input.pos()] == ERROR_MARKER,
        ensures
            decoded(
                r,
                input.pos(),
                match simple_string_token(input.data(), input.pos(), Node::ERROR) {
                    Ok((s, next)) => Ok((SpecValue::Error(s), next)),
                    Err(e) => Err(e),
                },
            ),
    {
        match Value::extract_simple_string(input, Node::ERROR) {
            Ok((message, consumed)) => Ok((Value::Error(message), consumed)),
            Err(e) => Err(e),
        }
    }

    /// Reads a number up to the first terminator after the marker at
    /// `input.position`; failures carry `node`.
    fn extract_integer(input: Input, node: Node) -> (r: Result<(i64, usize), Error>)
        requires
            input.wf(),
            input.position < input.data().len(),
        ensures
            match r {
                Ok((n, consumed)) => {
                    &&& 0 <= n
                    &&& integer_token(input.data(), input.pos(), node) == Ok::<_, Error>(
                        (n as int, input.position + consumed),
                    )
                },
                Err(e) => integer_token(input.data(), input.pos(), node) == Err::<
                    (int, int),
                    Error,
                >(e),
            },
    {
        let pos = input.position;
        let start = pos + 1;
        match find_terminator(input.bytes, start) {
            None => Err(Error::of_unexpected(node, input.bytes.len())),
            Some(t) => match parse_number(input.bytes, start, t) {
                None => Err(Error::of_type(node, start)),
                Some(n) => Ok((n, t + 2 - pos)),
            },
        }
    }

    /// Reads a bulk string token: the nil sentinel, or a length, a
    /// terminator, that many bytes and a terminator.
    fn extract_bulk_string(input: Input) -> (r: Result<(Value, usize), Error>)
        requires
            input.wf(),
            input.position < input.data().len(),
        ensures
            decoded(r, input.pos(), bulk_string_token(input.data(), input.pos())),
    {
        let ghost b = input.data();
        let bytes = input.bytes;
        let pos = input.position;
        let len = bytes.len();
        if len - pos >= 5 && bytes[pos] == BULK_STRING_MARKER && bytes[pos + 1] == ERROR_MARKER
            && bytes[pos + 2] == DIGIT_ONE && bytes[pos + 3] == CR && bytes[pos + 4] == LF {
            assert(b.subrange(pos as int, pos + 5) =~= nil_sentinel());
            return Ok((Value::Nil, 5));
        }
        assert(!nil_at(b, pos as int)) by {
            if nil_at(b, pos as int) {
                assert(b.subrange(pos as int, pos + 5)[0] == nil_sentinel()[0]);
                assert(b.subrange(pos as int, pos + 5)[1] == nil_sentinel()[1]);
                assert(b.subrange(pos as int, pos + 5)[2] == nil_sentinel()[2]);
                assert(b.subrange(pos as int, pos + 5)[3] == nil_sentinel()[3]);
                assert(b.subrange(pos as int, pos + 5)[4] == nil_sentinel()[4]);
            }
        }
        proof {
            lemma_integer_token_bounds(b, pos as int, Node::SIZE);
        }
        match Value::extract_integer(input, Node::SIZE) {
            Err(e) => Err(e),
            Ok((size, consumed)) => {
                let start = pos + consumed;
                let available = len - start;
                if (size as u64) > (available as u64) {
                    return Err(Error::of_size(Node::BULK_STRING, len + 1));
                }
                let end = start + size as usize;
                if len - end >= 2 && bytes[end] == CR && bytes[end + 1] == LF {
                    proof {
                        encode_utf8_valid_utf8(input.source@);
                        let t = start - 2;
                        assert(crlf_at(b, t as int));
                        lemma_ascii_boundaries(b, t + 1);
                        lemma_ascii_boundaries(b, end as int);
                    }
                    let body = text_between(input.source, start, end);
                    Ok((Value::String(body), end + 2 - pos))
                } else if end < len {
                    Err(Error::of_size(Node::BULK_STRING, end))
                } else {
                    Err(Error::of_size(Node::BULK_STRING, len + 1))
                }
            },
        }
    }

    /// Reads a simple string (or error) token: the bytes up to the first
    /// terminator after the marker, which may hold no CR or LF; failures carry
    /// `node`.
    fn extract_simple_string(input: Input, node: Node) -> (r: Result<(String, usize), Error>)
        requires
            input.wf(),
            input.position < input.data().len(),
            input.data()[input.pos()] <= 0x7f,
        ensures
            match r {
                Ok((text, consumed)) => {
                    let body = encode_utf8(text@);
                    simple_string_token(input.data(), input.pos(), node) == Ok::<_, Error>(
                        (body, input.pos() + consumed),
                    )
                },
                Err(e) => simple_string_token(input.data(), input.pos(), node) == Err::<
                    (Seq<u8>, int),
                    Error,
                >(e),
            },
    {
        let ghost b = input.data();
        let pos = input.position;
        let start = pos + 1;
        match find_terminator(input.bytes, start) {
            None => Err(Error::of_unexpected(node, start)),
            Some(t) => match find_line_break(input.bytes, start, t) {
                Some(p) => Err(Error::of_unexpected(node, p)),
                None => {
                    proof {
                        encode_utf8_valid_utf8(input.source@);
                        lemma_ascii_boundaries(b, pos as int);
                        lemma_ascii_boundaries(b, t as int);
                    }
                    let body = text_between(input.source, start, t);
                    Ok((body, t + 2 - pos))
                },
            },
        }
    }
}

} // verus!
