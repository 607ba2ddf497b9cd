use juan::span::Span;

#[test]
fn span_round_trip() {
    let s = Span::new(5, 12);
    assert_eq!(s.unpack(), (5, 7));
}

#[test]
fn span_reversed_range_is_empty() {
    let s = Span::new(9, 3);
    assert_eq!(s.unpack(), (9, 0));
}

#[test]
fn span_holds_the_largest_start_and_length() {
    let s = Span::new(0xF_FFFF, 0xF_FFFF + 0xFFF);
    assert_eq!(s.unpack(), (0xF_FFFF, 0xFFF));
}

#[test]
fn span_empty_at_zero() {
    assert_eq!(Span::new(0, 0).unpack(), (0, 0));
}

#[test]
fn spans_with_the_same_range_are_equal() {
    assert_eq!(Span::new(3, 8), Span::new(3, 8));
    assert_ne!(Span::new(3, 8), Span::new(3, 9));
}
