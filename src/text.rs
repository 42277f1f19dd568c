//! Copying a span of the input out as an owned string.

use vstd::prelude::*;
use vstd::utf8::{
    encode_utf8, encode_utf8_valid_utf8, is_char_boundary,
    is_char_boundary_iff_not_is_continuation_byte, is_char_boundary_start_end_of_seq,
    length_of_first_scalar, pop_first_scalar, valid_utf8, valid_utf8_split,
};
use vstd::string::StringSliceAdditionalSpecFns;

verus! {

/// In valid UTF-8 an ASCII byte is a whole character: a character boundary
/// stands on each side of it.
pub proof fn lemma_ascii_boundaries(bytes: Seq<u8>, i: int)
    requires
        valid_utf8(bytes),
        0 <= i < bytes.len(),
        bytes[i] <= 0x7f,
    ensures
        is_char_boundary(bytes, i),
        is_char_boundary(bytes, i + 1),
{
    is_char_boundary_iff_not_is_continuation_byte(bytes, i);
    lemma_boundary_after_ascii(bytes, i);
}

proof fn lemma_boundary_after_ascii(bytes: Seq<u8>, i: int)
    requires
        valid_utf8(bytes),
        0 <= i < bytes.len(),
        is_char_boundary(bytes, i),
        bytes[i] <= 0x7f,
    ensures
        is_char_boundary(bytes, i + 1),
    decreases bytes.len(),
{
    let n = length_of_first_scalar(bytes);
    let rest = pop_first_scalar(bytes);
    assert(valid_utf8(rest));
    assert(1 <= n <= bytes.len());
    assert(rest.len() == bytes.len() - n);
    if i == 0 {
        assert(n == 1);
        assert(is_char_boundary(rest, 0));
    } else {
        assert(is_char_boundary(rest, i - n));
        assert(0 <= i - n);
        assert(rest[i - n] == bytes[i]);
        lemma_boundary_after_ascii(rest, i - n);
    }
}

/// The text between two character boundaries of `text`, as an owned string.
pub fn substring(text: &str, a: usize, c: usize) -> (r: String)
    requires
        a <= c <= text.spec_bytes().len(),
        is_char_boundary(text.spec_bytes(), a as int),
        is_char_boundary(text.spec_bytes(), c as int),
    ensures
        encode_utf8(r@) == text.spec_bytes().subrange(a as int, c as int),
{
    let ghost bytes = text.spec_bytes();
    proof {
        encode_utf8_valid_utf8(text@);
    }
    let (head, _tail) = text.split_at(c);
    let ghost hb = head.spec_bytes();
    proof {
        valid_utf8_split(bytes, c as int);
        assert(hb =~= bytes.subrange(0, c as int));
        if a < c {
            is_char_boundary_iff_not_is_continuation_byte(bytes, a as int);
            is_char_boundary_iff_not_is_continuation_byte(hb, a as int);
        } else {
            is_char_boundary_start_end_of_seq(hb);
        }
    }
    let (_front, mid) = head.split_at(a);
    assert(mid.spec_bytes() =~= bytes.subrange(a as int, c as int));
    mid.to_owned()
}

} // verus!
