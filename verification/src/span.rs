//! Byte ranges of source text, packed into one `u32`: the start in the high
//! 20 bits and the length in the low 12 bits.

use vstd::prelude::*;

verus! {

/// Largest start offset a span can hold.
pub const MAX_SPAN_START: usize = 0xF_FFFF;

/// Largest length a span can hold.
pub const MAX_SPAN_LEN: usize = 0xFFF;

/// `end - start`, or zero when `end` lies before `start`.
pub open spec fn saturating_len(start: int, end: int) -> int {
    if end >= start {
        end - start
    } else {
        0
    }
}

/// A byte range `start .. start + len` of a source text.
#[derive(Debug, Clone, Copy, PartialEq, Eq, Structural, PartialOrd, Ord)]
pub struct Span(u32);

/// `u32 as usize`, through `num_traits::AsPrimitive`.
///
/// Trusted: `<u32 as num_traits::AsPrimitive<usize>>::as_` is `self as usize`
/// in the crate's source, which keeps the value on every target whose `usize`
/// has at least 32 bits (the only ones Verus admits).
#[verifier::external_body]
fn u32_as_usize(v: u32) -> (r: usize)
    ensures
        r == v,
{
    num_traits::AsPrimitive::<usize>::as_(v)
}

impl Span {
    /// The offset of the first byte.
    pub closed spec fn start(self) -> nat {
        (self.0 >> 12u32) as nat
    }

    /// The number of bytes covered.
    pub closed spec fn len(self) -> nat {
        (self.0 & 0xFFFu32) as nat
    }

    /// The end offset, one past the last byte.
    pub open spec fn end(self) -> nat {
        self.start() + self.len()
    }

    /// Whether `Span::new(start, end)` accepts its arguments.
    pub open spec fn fits(start: int, end: int) -> bool {
        &&& 0 <= start <= MAX_SPAN_START
        &&& saturating_len(start, end) <= MAX_SPAN_LEN
    }

    /// The span that `Span::new(start, end)` builds.
    pub closed spec fn spec_new(start: int, end: int) -> Span {
        Span((((start as u32) << 12u32) | (saturating_len(start, end) as u32)) as u32)
    }

    /// Within the limits, a built span gives back its start and length.
    pub proof fn lemma_new(start: int, end: int)
        requires
            Span::fits(start, end),
        ensures
            Span::spec_new(start, end).start() == start,
            Span::spec_new(start, end).len() == saturating_len(start, end),
    {
        let s = start as u32;
        let l = saturating_len(start, end) as u32;
        assert(s <= 0xF_FFFF && l <= 0xFFF ==> ((s << 12u32) | l) >> 12u32 == s) by (bit_vector);
        assert(s <= 0xF_FFFF && l <= 0xFFF ==> ((s << 12u32) | l) & 0xFFFu32 == l) by (bit_vector);
    }

    /// Two spans are equal exactly when their starts and lengths are.
    pub proof fn lemma_eq(a: Span, b: Span)
        ensures
            (a == b) <==> (a.start() == b.start() && a.len() == b.len()),
    {
        let x = a.0;
        let y = b.0;
        assert(x >> 12u32 == y >> 12u32 && x & 0xFFFu32 == y & 0xFFFu32 ==> x == y) by (bit_vector);
    }

    /// Every span keeps within the packing limits.
    pub proof fn lemma_bounds(s: Span)
        ensures
            s.start() <= MAX_SPAN_START,
            s.len() <= MAX_SPAN_LEN,
    {
        let x = s.0;
        assert(x >> 12u32 <= 0xF_FFFFu32) by (bit_vector);
        assert(x & 0xFFFu32 <= 0xFFFu32) by (bit_vector);
    }

    /// Packs `start .. end`; a reversed range gets length zero.
    pub fn new(start: usize, end: usize) -> (s: Span)
        requires
            Span::fits(start as int, end as int),
        ensures
            s == Span::spec_new(start as int, end as int),
            s.start() == start,
            s.len() == saturating_len(start as int, end as int),
    {
        proof {
            Span::lemma_new(start as int, end as int);
        }
        let len: usize = if end >= start {
            end - start
        } else {
            0
        };
        let len32: u32 = len as u32;
        let start32: u32 = start as u32;
        Span((start32 << 12u32) | len32)
    }

    /// Returns the start and the **length** of the span.
    pub fn unpack(&self) -> (r: (usize, usize))
        ensures
            r.0 == self.start(),
            r.1 == self.len(),
    {
        let span: u32 = self.0;
        let start: u32 = span >> 12u32;
        let len: u32 = span & 0xFFFu32;
        (u32_as_usize(start), u32_as_usize(len))
    }
}

} // verus!
