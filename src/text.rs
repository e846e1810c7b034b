//! Taking text out of the input at byte offsets, on character boundaries.
use vstd::prelude::*;

use vstd::string::StringSliceAdditionalSpecFns;
use vstd::utf8::{
    encode_utf8, encode_utf8_valid_utf8, is_char_boundary,
    is_char_boundary_iff_not_is_continuation_byte, is_char_boundary_start_end_of_seq,
    is_continuation_byte, length_of_first_scalar, pop_first_scalar, valid_utf8,
};

verus! {

/// In valid UTF-8, a character that starts with an ASCII byte is that byte
/// alone, so the next position is a boundary too.
proof fn lemma_boundary_after_ascii(bytes: Seq<u8>, i: int)
    requires
        valid_utf8(bytes),
        0 <= i < bytes.len(),
        is_char_boundary(bytes, i),
        bytes[i] <= 0x7f,
    ensures
        is_char_boundary(bytes, i + 1),
    decreases bytes.len(),
{
    let tail = pop_first_scalar(bytes);
    let l = length_of_first_scalar(bytes);
    assert(1 <= l <= 4);
    assert(tail.len() == bytes.len() - l);
    if i == 0 {
        assert(l == 1);
        assert(is_char_boundary(tail, 0));
    } else {
        assert(is_char_boundary(tail, i - l));
        assert(tail[i - l] == bytes[i]);
        lemma_boundary_after_ascii(tail, i - l);
        assert(is_char_boundary(tail, i + 1 - l));
    }
}

/// A position that holds an ASCII byte is a character boundary, and so is
/// the one after it.
pub(crate) proof fn lemma_ascii_boundaries(bytes: Seq<u8>, i: int)
    requires
        valid_utf8(bytes),
        0 <= i < bytes.len(),
        bytes[i] <= 0x7f,
    ensures
        is_char_boundary(bytes, i),
        is_char_boundary(bytes, i + 1),
{
    is_char_boundary_iff_not_is_continuation_byte(bytes, i);
    assert(!is_continuation_byte(bytes[i]));
    lemma_boundary_after_ascii(bytes, i);
}

/// The text held in bytes `[start, end)` of `source`.
pub(crate) fn text_between(source: &str, start: usize, end: usize) -> (r: String)
    requires
        start <= end <= source.spec_bytes().len(),
        is_char_boundary(source.spec_bytes(), start as int),
        is_char_boundary(source.spec_bytes(), end as int),
    ensures
        encode_utf8(r@) == source.spec_bytes().subrange(start as int, end as int),
{
    let ghost b = source.spec_bytes();
    proof {
        encode_utf8_valid_utf8(source@);
    }
    let (_, rest) = source.split_at(start);
    let ghost k = (end - start) as int;
    proof {
        let rb = rest.spec_bytes();
        encode_utf8_valid_utf8(rest@);
        if k == rb.len() {
            is_char_boundary_start_end_of_seq(rb);
        } else {
            is_char_boundary_iff_not_is_continuation_byte(b, end as int);
            is_char_boundary_iff_not_is_continuation_byte(rb, k);
            assert(rb[k] == b[end as int]);
        }
    }
    let (body, _) = rest.split_at(end - start);
    let r = body.to_owned();
    assert(body.spec_bytes() =~= b.subrange(start as int, end as int));
    r
}

} // verus!
