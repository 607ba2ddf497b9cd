//! Facts about character boundaries in UTF-8 text.

use vstd::prelude::*;
use vstd::utf8::{is_char_boundary, length_of_first_scalar, pop_first_scalar, valid_utf8};

verus! {

/// A span that lies within `bytes` and starts and ends on character
/// boundaries.
pub open spec fn span_on_boundaries(bytes: Seq<u8>, span: crate::span::Span) -> bool {
    &&& span.end() <= bytes.len()
    &&& is_char_boundary(bytes, span.start() as int)
    &&& is_char_boundary(bytes, span.end() as int)
}

/// In valid UTF-8, the position after an ASCII byte that starts a character
/// is again a character boundary.
proof fn lemma_boundary_after_ascii_at(bytes: Seq<u8>, j: int)
    requires
        valid_utf8(bytes),
        0 <= j < bytes.len(),
        is_char_boundary(bytes, j),
        bytes[j] < 0x80,
    ensures
        is_char_boundary(bytes, j + 1),
    decreases bytes.len(),
{
    reveal_with_fuel(is_char_boundary, 2);
    let l1 = length_of_first_scalar(bytes);
    let pop = pop_first_scalar(bytes);
    if j == 0 {
        assert(l1 == 1);
        assert(is_char_boundary(pop, 0));
    } else {
        assert(is_char_boundary(pop, j - l1));
        assert(j - l1 >= 0);
        assert(pop.len() == bytes.len() - l1);
        assert(pop[j - l1] == bytes[j]);
        if j - l1 == 0 {
            lemma_boundary_after_ascii_at(pop, 0);
        } else {
            lemma_boundary_after_ascii_at(pop, j - l1);
        }
        assert(is_char_boundary(pop, j + 1 - l1));
    }
}

/// In valid UTF-8, the position right after an ASCII byte is a character
/// boundary.
pub proof fn lemma_boundary_after_ascii(bytes: Seq<u8>, i: int)
    requires
        valid_utf8(bytes),
        0 < i <= bytes.len(),
        bytes[i - 1] < 0x80,
    ensures
        is_char_boundary(bytes, i),
{
    vstd::utf8::is_char_boundary_iff_not_is_continuation_byte(bytes, i - 1);
    lemma_boundary_after_ascii_at(bytes, i - 1);
}

} // verus!
