//! Borrowing a piece of a text by byte offsets, without copying.
//!
//! A `&str` can only be cut at character boundaries. The scanner cuts next
//! to ASCII bytes only, and both sides of an ASCII byte are boundaries.

use vstd::prelude::*;
use vstd::string::StringSliceAdditionalSpecFns;
use vstd::utf8::*;

verus! {

/// Whether `b` is an ASCII byte, that is, a whole character by itself.
pub open spec fn is_ascii_byte(b: u8) -> bool {
    b < 0x80
}

/// In well-formed UTF-8 an ASCII byte begins a character and the next
/// character begins right after it.
pub proof fn lemma_boundaries_around_ascii(bytes: Seq<u8>, i: int)
    requires
        valid_utf8(bytes),
        0 <= i < bytes.len(),
        is_ascii_byte(bytes[i]),
    ensures
        is_char_boundary(bytes, i),
        is_char_boundary(bytes, i + 1),
    decreases bytes.len(),
{
    let b = bytes[i];
    assert(!is_continuation_byte(b) && is_leading_byte_width_1(b)) by (bit_vector)
        requires
            b < 0x80u8,
    ;
    is_char_boundary_iff_not_is_continuation_byte(bytes, i);
    reveal_with_fuel(is_char_boundary, 2);
    reveal_with_fuel(valid_utf8, 2);
    if i == 0 {
        assert(length_of_first_scalar(bytes) == 1);
        assert(is_char_boundary(bytes, 1));
    } else {
        let width = length_of_first_scalar(bytes);
        let rest = pop_first_scalar(bytes);
        assert(is_char_boundary(rest, i - width));
        assert(i - width >= 0);
        assert(rest[i - width] == bytes[i]);
        lemma_boundaries_around_ascii(rest, i - width);
        assert(is_char_boundary(rest, i + 1 - width));
    }
}

/// The piece of `text` between the byte offsets `start` and `end`.
pub fn slice_str<'a>(text: &'a str, start: usize, end: usize) -> (r: &'a str)
    requires
        start <= end <= text.spec_bytes().len(),
        is_char_boundary(text.spec_bytes(), start as int),
        is_char_boundary(text.spec_bytes(), end as int),
    ensures
        r.spec_bytes() == text.spec_bytes().subrange(start as int, end as int),
{
    broadcast use encode_utf8_valid_utf8;

    let (head, _) = text.split_at(end);
    proof {
        let bytes = text.spec_bytes();
        let prefix = head.spec_bytes();
        assert(valid_utf8(bytes));
        assert(valid_utf8(prefix));
        assert(prefix == bytes.subrange(0, end as int));
        if start < end {
            is_char_boundary_iff_not_is_continuation_byte(bytes, start as int);
            assert(prefix[start as int] == bytes[start as int]);
            is_char_boundary_iff_not_is_continuation_byte(prefix, start as int);
        } else {
            is_char_boundary_start_end_of_seq(prefix);
        }
    }
    let (_, r) = head.split_at(start);
    proof {
        assert(r.spec_bytes() =~= text.spec_bytes().subrange(start as int, end as int));
    }
    r
}

} // verus!
