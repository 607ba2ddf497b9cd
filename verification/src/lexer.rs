//! The lexer: turns source bytes into tokens, one at a time.

use vstd::prelude::*;
use vstd::string::StringSliceAdditionalSpecFns;
use crate::span::{MAX_SPAN_LEN, MAX_SPAN_START, Span};
use crate::tokens::{Token, TokenKind};
use crate::text::lemma_boundary_after_ascii;
use vstd::utf8::{is_char_boundary, valid_utf8};

verus! {

/// Whitespace that separates tokens: space, tab, form feed, carriage return.
/// A line feed is a token of its own.
pub open spec fn is_ws(b: u8) -> bool {
    b == 0x20 || b == 0x09 || b == 0x0C || b == 0x0D
}

/// An ASCII decimal digit.
pub open spec fn is_digit(b: u8) -> bool {
    0x30 <= b <= 0x39
}

/// An ASCII letter or digit, or `_`.
pub open spec fn is_ident_byte(b: u8) -> bool {
    is_digit(b) || (0x41 <= b <= 0x5A) || (0x61 <= b <= 0x7A) || b == 0x5F
}

/// The first position at or after `c` that does not hold whitespace.
pub open spec fn skip_ws(src: Seq<u8>, c: int) -> int
    decreases src.len() - c,
{
    if 0 <= c < src.len() && is_ws(src[c]) {
        skip_ws(src, c + 1)
    } else {
        c
    }
}

/// The first position at or after `c` that does not hold a digit.
pub open spec fn digits_end(src: Seq<u8>, c: int) -> int
    decreases src.len() - c,
{
    if 0 <= c < src.len() && is_digit(src[c]) {
        digits_end(src, c + 1)
    } else {
        c
    }
}

/// The first position at or after `c` that does not hold an identifier byte.
pub open spec fn ident_end(src: Seq<u8>, c: int) -> int
    decreases src.len() - c,
{
    if 0 <= c < src.len() && is_ident_byte(src[c]) {
        ident_end(src, c + 1)
    } else {
        c
    }
}

/// An ASCII letter or `_`: a byte that starts an identifier.
pub open spec fn is_ident_start(b: u8) -> bool {
    (0x41 <= b <= 0x5A) || (0x61 <= b <= 0x7A) || b == 0x5F
}

/// A byte that continues a UTF-8 encoded character.
pub open spec fn is_continuation(b: u8) -> bool {
    0x80 <= b <= 0xBF
}

/// The position of the `"` that closes a string whose text starts at `c`,
/// or the end of input when none does. A `\` escapes the byte after it, so
/// `\"` does not close the string.
pub open spec fn quote_end(src: Seq<u8>, c: int) -> int
    decreases src.len() - c,
{
    if 0 <= c < src.len() && src[c] != 0x22 {
        if src[c] == 0x5C && c + 1 < src.len() {
            quote_end(src, c + 2)
        } else {
            quote_end(src, c + 1)
        }
    } else {
        c
    }
}

/// The first position at or after `c` that does not hold a UTF-8
/// continuation byte.
pub open spec fn scalar_end(src: Seq<u8>, c: int) -> int
    decreases src.len() - c,
{
    if 0 <= c < src.len() && is_continuation(src[c]) {
        scalar_end(src, c + 1)
    } else {
        c
    }
}

/// The keyword that an identifier spells, if any.
pub open spec fn keyword_kind(s: Seq<u8>) -> Option<TokenKind> {
    if s =~= seq![0x66u8, 0x6E] {
        Some(TokenKind::Fn)
    } else if s =~= seq![0x6Du8, 0x6F, 0x64, 0x75, 0x6C, 0x65] {
        Some(TokenKind::Module)
    } else if s =~= seq![0x69u8, 0x6D, 0x70, 0x6F, 0x72, 0x74] {
        Some(TokenKind::Import)
    } else {
        None
    }
}

/// The kind, start and end of the token that the lexer reads at cursor `c`.
/// The lexer goes on at the end. Whitespace is skipped; a line feed is a
/// newline token; `.`, `(`, `)`, `{`, `}`, `+`, `-`, `*`, `/` and `%` are
/// one-byte tokens; a digit starts a number, which is a float when a `.` and a digit follow its digits; `"`
/// starts a string, in which `\` escapes the next byte, unterminated when no
/// `"` closes it; an ASCII letter or `_` starts an identifier or keyword; any
/// other byte is an unknown token, which takes in the continuation bytes of
/// its character; past the input is the end-of-input token.
pub open spec fn lex(src: Seq<u8>, c: int) -> (TokenKind, int, int) {
    let s = skip_ws(src, c);
    if s >= src.len() {
        (TokenKind::Eof, s, s)
    } else {
        let b = src[s];
        if b == 0x2E {
            (TokenKind::Dot, s, s + 1)
        } else if b == 0x28 {
            (TokenKind::LParen, s, s + 1)
        } else if b == 0x29 {
            (TokenKind::RParen, s, s + 1)
        } else if b == 0x7B {
            (TokenKind::LBrace, s, s + 1)
        } else if b == 0x7D {
            (TokenKind::RBrace, s, s + 1)
        } else if b == 0x2B {
            (TokenKind::Plus, s, s + 1)
        } else if b == 0x2D {
            (TokenKind::Minus, s, s + 1)
        } else if b == 0x2A {
            (TokenKind::Star, s, s + 1)
        } else if b == 0x2F {
            (TokenKind::Slash, s, s + 1)
        } else if b == 0x25 {
            (TokenKind::Percent, s, s + 1)
        } else if b == 0x0A {
            (TokenKind::Newline, s, s + 1)
        } else if is_digit(b) {
            let e = digits_end(src, s);
            if e + 1 < src.len() && src[e] == 0x2E && is_digit(src[e + 1]) {
                (TokenKind::Float, s, digits_end(src, e + 1))
            } else {
                (TokenKind::Int, s, e)
            }
        } else if b == 0x22 {
            let e = quote_end(src, s + 1);
            if e < src.len() {
                (TokenKind::Str, s, e + 1)
            } else {
                (TokenKind::UnterminatedStr, s, e)
            }
        } else if is_ident_start(b) {
            let e = ident_end(src, s);
            match keyword_kind(src.subrange(s, e)) {
                Some(k) => (k, s, e),
                None => (TokenKind::Identifier, s, e),
            }
        } else {
            (TokenKind::Unknown, s, scalar_end(src, s + 1))
        }
    }
}

/// The token read at cursor `c`.
pub open spec fn lex_token(src: Seq<u8>, c: int) -> Token {
    Token { kind: lex(src, c).0, span: Span::spec_new(lex(src, c).1, lex(src, c).2) }
}

/// Whether the token read at `c` fits in a span.
pub open spec fn lex_fits(src: Seq<u8>, c: int) -> bool {
    Span::fits(lex(src, c).1, lex(src, c).2)
}

proof fn lemma_skip_ws(src: Seq<u8>, c: int)
    requires
        0 <= c <= src.len(),
    ensures
        c <= skip_ws(src, c) <= src.len(),
        skip_ws(src, c) < src.len() ==> !is_ws(src[skip_ws(src, c)]),
    decreases src.len() - c,
{
    if c < src.len() && is_ws(src[c]) {
        lemma_skip_ws(src, c + 1);
    }
}

proof fn lemma_digits_end(src: Seq<u8>, c: int)
    requires
        0 <= c <= src.len(),
    ensures
        c <= digits_end(src, c) <= src.len(),
    decreases src.len() - c,
{
    if c < src.len() && is_digit(src[c]) {
        lemma_digits_end(src, c + 1);
    }
}

proof fn lemma_ident_end(src: Seq<u8>, c: int)
    requires
        0 <= c <= src.len(),
    ensures
        c <= ident_end(src, c) <= src.len(),
    decreases src.len() - c,
{
    if c < src.len() && is_ident_byte(src[c]) {
        lemma_ident_end(src, c + 1);
    }
}

proof fn lemma_quote_end(src: Seq<u8>, c: int)
    requires
        0 <= c <= src.len(),
    ensures
        c <= quote_end(src, c) <= src.len(),
        quote_end(src, c) < src.len() ==> src[quote_end(src, c)] == 0x22,
    decreases src.len() - c,
{
    if c < src.len() && src[c] != 0x22 {
        if src[c] == 0x5C && c + 1 < src.len() {
            lemma_quote_end(src, c + 2);
        } else {
            lemma_quote_end(src, c + 1);
        }
    }
}

proof fn lemma_scalar_end(src: Seq<u8>, c: int)
    requires
        0 <= c <= src.len(),
    ensures
        c <= scalar_end(src, c) <= src.len(),
        scalar_end(src, c) < src.len() ==> !is_continuation(src[scalar_end(src, c)]),
    decreases src.len() - c,
{
    if c < src.len() && is_continuation(src[c]) {
        lemma_scalar_end(src, c + 1);
    }
}

/// Once the input is used up, the end-of-input token sits at the end of the
/// input, and reading again from there gives the same token without moving.
pub proof fn lemma_eof_repeats(src: Seq<u8>, c: int)
    requires
        0 <= c <= src.len(),
        lex(src, c).0 == TokenKind::Eof,
    ensures
        lex(src, c).1 == src.len(),
        lex(src, c).2 == src.len(),
        lex(src, lex(src, c).2) == lex(src, c),
{
    lemma_skip_ws(src, c);
    lemma_skip_ws(src, src.len() as int);
    if skip_ws(src, c) < src.len() {
        lemma_lex(src, c);
    }
}

/// Every byte from `c` up to where the digits end is a digit.
proof fn lemma_digits_all(src: Seq<u8>, c: int)
    requires
        0 <= c <= src.len(),
    ensures
        forall|i: int| c <= i < digits_end(src, c) ==> is_digit(#[trigger] src[i]),
    decreases src.len() - c,
{
    if c < src.len() && is_digit(src[c]) {
        lemma_digits_all(src, c + 1);
    }
}

/// Every byte from `c` up to where the identifier ends is an identifier byte.
proof fn lemma_ident_all(src: Seq<u8>, c: int)
    requires
        0 <= c <= src.len(),
    ensures
        forall|i: int| c <= i < ident_end(src, c) ==> is_ident_byte(#[trigger] src[i]),
    decreases src.len() - c,
{
    if c < src.len() && is_ident_byte(src[c]) {
        lemma_ident_all(src, c + 1);
    }
}

/// What the text of a token is made of: an identifier or keyword, of ASCII
/// letters, digits and `_`, starting with a letter or `_`; an integer, of one or
/// more decimal digits; a float, of decimal digits, a `.` and decimal digits,
/// with at least one digit on each side of the `.`.
pub proof fn lemma_token_text(src: Seq<u8>, c: int)
    requires
        0 <= c <= src.len(),
    ensures
        ({
            let (k, s, e) = lex(src, c);
            &&& (k == TokenKind::Identifier || k == TokenKind::Fn || k == TokenKind::Module || k
                == TokenKind::Import) ==> {
                &&& forall|i: int| s <= i < e ==> is_ident_byte(#[trigger] src[i])
                &&& s < e
                &&& is_ident_start(src[s])
            }
            &&& k == TokenKind::Int ==> s < e && forall|i: int| s <= i < e ==> is_digit(#[trigger] src[i])
            &&& k == TokenKind::Float ==> exists|d: int|
                s < d < e - 1 && src[d] == 0x2E && forall|i: int|
                    s <= i < e && i != d ==> is_digit(#[trigger] src[i])
        }),
{
    lemma_lex(src, c);
    lemma_skip_ws(src, c);
    let (k, s, e) = lex(src, c);
    if s < src.len() {
        lemma_digits_end(src, s);
        lemma_digits_all(src, s);
        lemma_ident_all(src, s);
        let d = digits_end(src, s);
        if d + 1 < src.len() {
            lemma_digits_end(src, d + 1);
            lemma_digits_all(src, d + 1);
        }
        if k == TokenKind::Float {
            assert(digits_end(src, d + 1) == digits_end(src, d + 2));
            lemma_digits_end(src, d + 2);
            assert forall|i: int| s <= i < e && i != d implies is_digit(#[trigger] src[i]) by {
                if i > d {
                    assert(d + 1 <= i < digits_end(src, d + 1));
                }
            }
        }
    }
}

/// Every byte from `c` up to where the whitespace ends is whitespace.
proof fn lemma_skip_ws_all(src: Seq<u8>, c: int)
    requires
        0 <= c <= src.len(),
    ensures
        forall|p: int| c <= p < skip_ws(src, c) ==> is_ws(#[trigger] src[p]),
    decreases src.len() - c,
{
    if c < src.len() && is_ws(src[c]) {
        lemma_skip_ws_all(src, c + 1);
    }
}

/// Every byte from `c` up to where the continuation bytes end is one.
proof fn lemma_scalar_all(src: Seq<u8>, c: int)
    requires
        0 <= c <= src.len(),
    ensures
        forall|p: int| c <= p < scalar_end(src, c) ==> is_continuation(#[trigger] src[p]),
    decreases src.len() - c,
{
    if c < src.len() && is_continuation(src[c]) {
        lemma_scalar_all(src, c + 1);
    }
}

/// A token other than a string holds no whitespace.
pub proof fn lemma_token_not_ws(src: Seq<u8>, c: int)
    requires
        0 <= c <= src.len(),
        lex(src, c).0 != TokenKind::Str,
        lex(src, c).0 != TokenKind::UnterminatedStr,
    ensures
        forall|p: int| lex(src, c).1 <= p < lex(src, c).2 ==> !is_ws(#[trigger] src[p]),
{
    lemma_lex(src, c);
    lemma_skip_ws(src, c);
    lemma_token_text(src, c);
    let (k, s, e) = lex(src, c);
    if s < src.len() && k == TokenKind::Unknown {
        lemma_scalar_all(src, s + 1);
        assert forall|p: int| s <= p < e implies !is_ws(#[trigger] src[p]) by {
            if p > s {
                assert(is_continuation(src[p]));
            }
        }
    }
    if k == TokenKind::Float {
        let d = choose|d: int|
            s < d < e - 1 && src[d] == 0x2E && forall|i: int| s <= i < e && i != d ==> is_digit(#[trigger] src[i]);
        assert forall|p: int| s <= p < e implies !is_ws(#[trigger] src[p]) by {
            if p != d {
                assert(is_digit(src[p]));
            }
        }
    }
}

/// The tokens that the lexer reads from `c` on, one after the other, up to
/// and including the end-of-input token, as kind, start and end: the tokens
/// that repeated calls of [`Lexer::next_token`] return.
pub open spec fn tokens_from(src: Seq<u8>, c: int) -> Seq<(TokenKind, int, int)>
    decreases src.len() - c,
{
    let t = lex(src, c);
    if t.0 == TokenKind::Eof || c < 0 || t.2 <= c || t.2 > src.len() {
        seq![t]
    } else {
        seq![t] + tokens_from(src, t.2)
    }
}

/// The token stream of an input from position `c`: it ends with the
/// end-of-input token at the end of the input, and only there; every other
/// token is non-empty and lies after the one before, so the spans are
/// disjoint and in increasing order; a byte that no token covers is
/// whitespace, and a token other than a string covers no whitespace, so
/// outside strings the uncovered bytes are exactly the whitespace bytes; and
/// there are at most as many tokens as bytes, plus one.
pub proof fn lemma_token_stream(src: Seq<u8>, c: int)
    requires
        0 <= c <= src.len(),
    ensures
        ({
            let ts = tokens_from(src, c);
            &&& 1 <= ts.len() <= src.len() - c + 1
            &&& ts.last() == (TokenKind::Eof, src.len() as int, src.len() as int)
            &&& forall|i: int| 0 <= i < ts.len() - 1 ==> (#[trigger] ts[i]).0 != TokenKind::Eof
                && c <= ts[i].1 < ts[i].2
            &&& forall|i: int| 0 <= i < ts.len() - 1 ==> (#[trigger] ts[i]).2 <= ts[i + 1].1
            &&& forall|i: int, p: int|
                0 <= i < ts.len() && (#[trigger] ts[i]).0 != TokenKind::Str && ts[i].0
                    != TokenKind::UnterminatedStr && ts[i].1 <= p < ts[i].2 ==> !is_ws(
                    #[trigger] src[p],
                )
            &&& forall|p: int|
                c <= p < src.len() ==> is_ws(#[trigger] src[p]) || exists|i: int|
                    0 <= i < ts.len() && (#[trigger] ts[i]).1 <= p < ts[i].2
        }),
    decreases src.len() - c,
{
    let t = lex(src, c);
    let (k, s, e) = t;
    lemma_lex(src, c);
    lemma_skip_ws(src, c);
    lemma_skip_ws_all(src, c);
    let ts = tokens_from(src, c);
    if k != TokenKind::Str && k != TokenKind::UnterminatedStr {
        lemma_token_not_ws(src, c);
    }
    if k == TokenKind::Eof {
        lemma_eof_repeats(src, c);
        assert(ts == seq![t]);
        assert forall|p: int| c <= p < src.len() implies is_ws(#[trigger] src[p]) || exists|i: int|
            0 <= i < ts.len() && (#[trigger] ts[i]).1 <= p < ts[i].2 by {
            assert(p < skip_ws(src, c));
        }
    } else {
        lemma_token_stream(src, e);
        let rest = tokens_from(src, e);
        assert(ts == seq![t] + rest);
        lemma_lex(src, e);
        assert(rest[0] == lex(src, e));
        assert forall|i: int| 0 <= i < ts.len() - 1 implies (#[trigger] ts[i]).0 != TokenKind::Eof
            && c <= ts[i].1 < ts[i].2 by {
            if i > 0 {
                assert(ts[i] == rest[i - 1]);
            }
        }
        assert forall|i: int, p: int|
            0 <= i < ts.len() && (#[trigger] ts[i]).0 != TokenKind::Str && ts[i].0
                != TokenKind::UnterminatedStr && ts[i].1 <= p < ts[i].2 implies !is_ws(
            #[trigger] src[p],
        ) by {
            if i > 0 {
                assert(ts[i] == rest[i - 1]);
            }
        }
        assert forall|i: int| 0 <= i < ts.len() - 1 implies (#[trigger] ts[i]).2 <= ts[i + 1].1 by {
            assert(ts[i + 1] == rest[i]);
            if i > 0 {
                assert(ts[i] == rest[i - 1]);
            }
        }
        assert forall|p: int| c <= p < src.len() implies is_ws(#[trigger] src[p]) || exists|i: int|
            0 <= i < ts.len() && (#[trigger] ts[i]).1 <= p < ts[i].2 by {
            if p < s {
            } else if p < e {
                assert(ts[0].1 <= p < ts[0].2);
            } else {
                if !is_ws(src[p]) {
                    let j = choose|j: int| 0 <= j < rest.len() && (#[trigger] rest[j]).1 <= p < rest[j].2;
                    assert(ts[j + 1] == rest[j]);
                }
            }
        }
        assert(ts.last() == rest.last());
    }
}

/// The identifier reaches up to the first byte that cannot continue it.
proof fn lemma_ident_end_stops(src: Seq<u8>, c: int)
    requires
        0 <= c <= src.len(),
    ensures
        ident_end(src, c) < src.len() ==> !is_ident_byte(src[ident_end(src, c)]),
    decreases src.len() - c,
{
    if c < src.len() && is_ident_byte(src[c]) {
        lemma_ident_end_stops(src, c + 1);
    }
}

/// Words: a byte that is an ASCII letter, upper or lower case, or `_` starts
/// an identifier or keyword, read at once, and it runs over all the ASCII
/// letters, digits and `_` that follow, up to the first other byte.
pub proof fn lemma_words(src: Seq<u8>, c: int)
    requires
        0 <= c < src.len(),
        (0x41 <= src[c] <= 0x5A) || (0x61 <= src[c] <= 0x7A) || src[c] == 0x5F,
    ensures
        ({
            let (k, s, e) = lex(src, c);
            &&& k == TokenKind::Identifier || k == TokenKind::Fn || k == TokenKind::Module || k
                == TokenKind::Import
            &&& s == c
            &&& c < e <= src.len()
            &&& forall|p: int|
                c <= p < e ==> ((0x30 <= #[trigger] src[p] <= 0x39) || (0x41 <= src[p] <= 0x5A) || (
                0x61 <= src[p] <= 0x7A) || src[p] == 0x5F)
            &&& e < src.len() ==> !((0x30 <= src[e] <= 0x39) || (0x41 <= src[e] <= 0x5A) || (0x61
                <= src[e] <= 0x7A) || src[e] == 0x5F)
        }),
{
    lemma_lex(src, c);
    lemma_token_text(src, c);
    lemma_ident_end(src, c);
    lemma_ident_end_stops(src, c);
    lemma_ident_all(src, c);
    assert(skip_ws(src, c) == c);
    assert(is_ident_start(src[c]));
}

/// Where a token lies: it starts at or after the cursor and ends within the
/// input; only the end-of-input token is empty.
pub proof fn lemma_lex(src: Seq<u8>, c: int)
    requires
        0 <= c <= src.len(),
    ensures
        c <= lex(src, c).1 <= lex(src, c).2 <= src.len(),
        lex(src, c).0 == TokenKind::Eof ==> lex(src, c).1 == lex(src, c).2,
        lex(src, c).0 != TokenKind::Eof ==> lex(src, c).1 < lex(src, c).2,
{
    lemma_skip_ws(src, c);
    let s = skip_ws(src, c);
    if s < src.len() {
        lemma_digits_end(src, s);
        lemma_ident_end(src, s);
        lemma_quote_end(src, s + 1);
        lemma_scalar_end(src, s + 1);
        let e = digits_end(src, s);
        if e + 1 < src.len() {
            lemma_digits_end(src, e + 1);
        }
        if is_digit(src[s]) {
            assert(digits_end(src, s) == digits_end(src, s + 1));
            lemma_digits_end(src, s + 1);
            if e + 1 < src.len() && src[e] == 0x2E && is_digit(src[e + 1]) {
                assert(digits_end(src, e + 1) == digits_end(src, e + 2));
                lemma_digits_end(src, e + 2);
            }
        }
        if is_ident_start(src[s]) {
            assert(ident_end(src, s) == ident_end(src, s + 1));
            lemma_ident_end(src, s + 1);
        }
    }
}

proof fn lemma_skip_ws_prev(src: Seq<u8>, c: int)
    requires
        0 <= c <= src.len(),
    ensures
        skip_ws(src, c) == c || (c < skip_ws(src, c) <= src.len() && is_ws(src[skip_ws(src, c) - 1])),
    decreases src.len() - c,
{
    if c < src.len() && is_ws(src[c]) {
        lemma_skip_ws_prev(src, c + 1);
        lemma_skip_ws(src, c + 1);
    }
}

proof fn lemma_digits_end_last(src: Seq<u8>, c: int)
    requires
        0 <= c <= src.len(),
    ensures
        digits_end(src, c) > c ==> is_digit(src[digits_end(src, c) - 1]),
    decreases src.len() - c,
{
    if c < src.len() && is_digit(src[c]) {
        lemma_digits_end_last(src, c + 1);
    }
}

proof fn lemma_ident_end_last(src: Seq<u8>, c: int)
    requires
        0 <= c <= src.len(),
    ensures
        ident_end(src, c) > c ==> is_ident_byte(src[ident_end(src, c) - 1]),
    decreases src.len() - c,
{
    if c < src.len() && is_ident_byte(src[c]) {
        lemma_ident_end_last(src, c + 1);
    }
}

/// In valid UTF-8, a token read at a character boundary starts and ends at
/// character boundaries.
pub proof fn lemma_lex_boundaries(src: Seq<u8>, c: int)
    requires
        valid_utf8(src),
        0 <= c <= src.len(),
        is_char_boundary(src, c),
    ensures
        is_char_boundary(src, lex(src, c).1),
        is_char_boundary(src, lex(src, c).2),
{
    lemma_lex(src, c);
    lemma_skip_ws(src, c);
    lemma_skip_ws_prev(src, c);
    vstd::utf8::is_char_boundary_start_end_of_seq(src);
    let s = skip_ws(src, c);
    if s > c {
        lemma_boundary_after_ascii(src, s);
    }
    let (k, a, e) = lex(src, c);
    if k == TokenKind::Unknown {
        lemma_scalar_end(src, s + 1);
        if e < src.len() {
            vstd::utf8::is_char_boundary_iff_not_is_continuation_byte(src, e);
        }
    } else if e > a && e < src.len() {
        if s < src.len() {
            let b = src[s];
            lemma_digits_end(src, s);
            lemma_digits_end_last(src, s);
            lemma_ident_end(src, s);
            lemma_ident_end_last(src, s);
            lemma_quote_end(src, s + 1);
            let de = digits_end(src, s);
            if de + 1 < src.len() {
                lemma_digits_end(src, de + 1);
                lemma_digits_end_last(src, de + 1);
            }
            assert(src[e - 1] < 0x80);
        }
        lemma_boundary_after_ascii(src, e);
    }
}

/// Reads Juan source text one token at a time.
pub struct Lexer<'a> {
    pub src: &'a [u8],
    cursor: usize,
}

impl<'a> Lexer<'a> {
    /// The position at which the next token is read.
    pub closed spec fn cursor(&self) -> nat {
        self.cursor as nat
    }

    /// The bytes being read.
    pub closed spec fn source(&self) -> Seq<u8> {
        self.src@
    }

    /// The cursor lies within the input.
    pub open spec fn wf(&self) -> bool {
        self.cursor() <= self.source().len()
    }

    /// The bytes being read.
    pub fn bytes(&self) -> (r: &'a [u8])
        ensures
            r@ == self.source(),
    {
        self.src
    }

    /// A lexer at the start of `input`.
    pub fn new(input: &'a str) -> (l: Lexer<'a>)
        ensures
            l.source() == input.spec_bytes(),
            l.cursor() == 0,
            l.wf(),
    {
        Lexer { src: input.as_bytes(), cursor: 0 }
    }

    /// Reads the next token and moves past it. At the end of input it keeps
    /// returning the end-of-input token.
    pub fn next_token(&mut self) -> (t: Token)
        requires
            old(self).wf(),
            lex_fits(old(self).source(), old(self).cursor() as int),
        ensures
            final(self).wf(),
            final(self).source() == old(self).source(),
            t == lex_token(old(self).source(), old(self).cursor() as int),
            final(self).cursor() == lex(old(self).source(), old(self).cursor() as int).2,
            t.kind != TokenKind::Eof ==> tokens_from(old(self).source(), old(self).cursor() as int)
                == seq![(t.kind, t.span.start() as int, t.span.end() as int)] + tokens_from(
                final(self).source(),
                final(self).cursor() as int,
            ),
            t.kind == TokenKind::Eof ==> tokens_from(old(self).source(), old(self).cursor() as int)
                == seq![(t.kind, t.span.start() as int, t.span.end() as int)],
    {
        let ghost src = self.src@;
        let ghost c0 = self.cursor as int;
        proof {
            lemma_lex(src, c0);
            lemma_skip_ws(src, c0);
            Span::lemma_new(lex(src, c0).1, lex(src, c0).2);
            let l = lex(src, c0);
            assert(l == (lex_token(src, c0).kind, lex_token(src, c0).span.start() as int,
                lex_token(src, c0).span.end() as int));
            if l.0 != TokenKind::Eof {
                assert(tokens_from(src, c0) == seq![l] + tokens_from(src, l.2));
            } else {
                assert(tokens_from(src, c0) == seq![l]);
            }
        }
        self.skip_whitespace();
        if self.cursor >= self.src.len() {
            return Token::new(TokenKind::Eof, Span::new(self.cursor, self.cursor));
        }
        let current_byte = self.src[self.cursor];
        if current_byte == 0x2Eu8 {
            self.advance(TokenKind::Dot)
        } else if current_byte == 0x28u8 {
            self.advance(TokenKind::LParen)
        } else if current_byte == 0x29u8 {
            self.advance(TokenKind::RParen)
        } else if current_byte == 0x7Bu8 {
            self.advance(TokenKind::LBrace)
        } else if current_byte == 0x7Du8 {
            self.advance(TokenKind::RBrace)
        } else if current_byte == 0x2Bu8 {
            self.advance(TokenKind::Plus)
        } else if current_byte == 0x2Du8 {
            self.advance(TokenKind::Minus)
        } else if current_byte == 0x2Au8 {
            self.advance(TokenKind::Star)
        } else if current_byte == 0x2Fu8 {
            self.advance(TokenKind::Slash)
        } else if current_byte == 0x25u8 {
            self.advance(TokenKind::Percent)
        } else if current_byte == 0x0Au8 {
            self.advance(TokenKind::Newline)
        } else if 0x30u8 <= current_byte && current_byte <= 0x39u8 {
            self.read_num()
        } else if current_byte == 0x22u8 {
            self.read_string()
        } else if is_ident_start_byte(current_byte) {
            self.read_identifier()
        } else {
            self.read_unknown()
        }
    }

    /// An unknown token: the character at the cursor, which starts no other
    /// token.
    fn read_unknown(&mut self) -> (t: Token)
        requires
            old(self).wf(),
            old(self).cursor() < old(self).source().len(),
            lex(old(self).source(), old(self).cursor() as int).0 == TokenKind::Unknown,
            skip_ws(old(self).source(), old(self).cursor() as int) == old(self).cursor(),
            lex_fits(old(self).source(), old(self).cursor() as int),
        ensures
            final(self).wf(),
            final(self).source() == old(self).source(),
            t == lex_token(old(self).source(), old(self).cursor() as int),
            final(self).cursor() == lex(old(self).source(), old(self).cursor() as int).2,
    {
        let start = self.cursor;
        proof {
            lemma_scalar_end(self.src@, start + 1);
        }
        let end = scalar_end_from(self.src, start + 1);
        self.cursor = end;
        Token::new(TokenKind::Unknown, Span::new(start, end))
    }

    /// Whether the next token fits in a span, which [`Lexer::next_token`]
    /// needs to read it.
    pub fn next_fits(&self) -> (b: bool)
        requires
            self.wf(),
        ensures
            b == lex_fits(self.source(), self.cursor() as int),
    {
        let (start, end) = self.next_bounds();
        proof {
            lemma_lex(self.source(), self.cursor() as int);
        }
        start <= MAX_SPAN_START && end - start <= MAX_SPAN_LEN
    }

    /// Where the next token starts and ends, without reading it.
    fn next_bounds(&self) -> (r: (usize, usize))
        requires
            self.wf(),
        ensures
            r.0 == lex(self.source(), self.cursor() as int).1,
            r.1 == lex(self.source(), self.cursor() as int).2,
    {
        let ghost src = self.src@;
        let ghost c0 = self.cursor as int;
        proof {
            lemma_lex(src, c0);
            lemma_skip_ws(src, c0);
        }
        let mut s = self.cursor;
        while s < self.src.len() && is_whitespace(self.src[s])
            invariant
                c0 <= s <= src.len(),
                self.src@ == src,
                skip_ws(src, s as int) == skip_ws(src, c0),
            decreases src.len() - s,
        {
            s = s + 1;
        }
        if s >= self.src.len() {
            return (s, s);
        }
        let b = self.src[s];
        if b == 0x2Eu8 || b == 0x28u8 || b == 0x29u8 || b == 0x7Bu8 || b == 0x7Du8 || b == 0x2Bu8
            || b == 0x2Du8 || b == 0x2Au8 || b == 0x2Fu8 || b == 0x25u8 || b == 0x0Au8 {
            return (s, s + 1);
        }
        let mut e = s;
        if 0x30u8 <= b && b <= 0x39u8 {
            proof {
                lemma_digits_end(src, s as int);
            }
            while e < self.src.len() && 0x30u8 <= self.src[e] && self.src[e] <= 0x39u8
                invariant
                    s <= e <= src.len(),
                    self.src@ == src,
                    digits_end(src, e as int) == digits_end(src, s as int),
                decreases src.len() - e,
            {
                e = e + 1;
            }
            if e < self.src.len() && e + 1 < self.src.len() && self.src[e] == 0x2Eu8 && 0x30u8 <= self.src[e + 1]
                && self.src[e + 1] <= 0x39u8 {
                let ghost d = e as int;
                e = e + 1;
                proof {
                    lemma_digits_end(src, e as int);
                }
                while e < self.src.len() && 0x30u8 <= self.src[e] && self.src[e] <= 0x39u8
                    invariant
                        d + 1 <= e <= src.len(),
                        self.src@ == src,
                        digits_end(src, e as int) == digits_end(src, d + 1),
                    decreases src.len() - e,
                {
                    e = e + 1;
                }
            }
        } else if b == 0x22u8 {
            e = s + 1;
            proof {
                lemma_quote_end(src, e as int);
            }
            while e < self.src.len() && self.src[e] != 0x22u8
                invariant
                    s < e <= src.len(),
                    self.src@ == src,
                    quote_end(src, e as int) == quote_end(src, s + 1),
                decreases src.len() - e,
            {
                if self.src[e] == 0x5Cu8 && e + 1 < self.src.len() {
                    e = e + 2;
                } else {
                    e = e + 1;
                }
            }
            if e < self.src.len() {
                e = e + 1;
            }
        } else if is_ident_start_byte(b) {
            proof {
                lemma_ident_end(src, s as int);
            }
            while e < self.src.len() && is_ident(self.src[e])
                invariant
                    s <= e <= src.len(),
                    self.src@ == src,
                    ident_end(src, e as int) == ident_end(src, s as int),
                decreases src.len() - e,
            {
                e = e + 1;
            }
        }
        if !(0x30u8 <= b && b <= 0x39u8) && b != 0x22u8 && !is_ident_start_byte(b) {
            e = scalar_end_from(self.src, s + 1);
        }
        (s, e)
    }

    /// A one-byte token of `kind` at the cursor.
    fn advance(&mut self, kind: TokenKind) -> (t: Token)
        requires
            old(self).cursor() < old(self).source().len(),
            Span::fits(old(self).cursor() as int, old(self).cursor() + 1int),
        ensures
            final(self).source() == old(self).source(),
            final(self).cursor() == old(self).cursor() + 1,
            t == (Token {
                kind,
                span: Span::spec_new(old(self).cursor() as int, old(self).cursor() + 1int),
            }),
    {
        let start = self.cursor;
        self.cursor = self.cursor + 1;
        Token::new(kind, Span::new(start, self.cursor))
    }

    /// Moves the cursor past whitespace.
    fn skip_whitespace(&mut self)
        requires
            old(self).wf(),
        ensures
            final(self).wf(),
            final(self).source() == old(self).source(),
            final(self).cursor() == skip_ws(old(self).source(), old(self).cursor() as int),
    {
        while self.cursor < self.src.len() && is_whitespace(self.src[self.cursor])
            invariant
                self.wf(),
                self.src == old(self).src,
                skip_ws(self.src@, self.cursor as int) == skip_ws(
                    old(self).source(),
                    old(self).cursor() as int,
                ),
            decreases self.src@.len() - self.cursor,
        {
            self.cursor = self.cursor + 1;
        }
    }

    /// A string literal, or an unterminated one, starting at the cursor.
    fn read_string(&mut self) -> (t: Token)
        requires
            old(self).wf(),
            old(self).cursor() < old(self).source().len(),
            old(self).source()[old(self).cursor() as int] == 0x22,
            skip_ws(old(self).source(), old(self).cursor() as int) == old(self).cursor(),
            lex_fits(old(self).source(), old(self).cursor() as int),
        ensures
            final(self).wf(),
            final(self).source() == old(self).source(),
            t == lex_token(old(self).source(), old(self).cursor() as int),
            final(self).cursor() == lex(old(self).source(), old(self).cursor() as int).2,
    {
        let ghost src = self.src@;
        let start = self.cursor;
        proof {
            lemma_quote_end(src, start + 1);
        }
        let mut end = self.cursor + 1;
        while end < self.src.len() && self.src[end] != 0x22u8
            invariant
                start < end <= src.len(),
                self.src@ == src,
                quote_end(src, end as int) == quote_end(src, start + 1),
            decreases src.len() - end,
        {
            if self.src[end] == 0x5Cu8 && end + 1 < self.src.len() {
                end = end + 2;
            } else {
                end = end + 1;
            }
        }
        if end < self.src.len() {
            self.cursor = end + 1;
            Token::new(TokenKind::Str, Span::new(start, end + 1))
        } else {
            self.cursor = end;
            Token::new(TokenKind::UnterminatedStr, Span::new(start, end))
        }
    }

    /// A number starting at the cursor: an integer, or a float when a `.` and
    /// a digit follow its digits.
    fn read_num(&mut self) -> (t: Token)
        requires
            old(self).wf(),
            old(self).cursor() < old(self).source().len(),
            is_digit(old(self).source()[old(self).cursor() as int]),
            skip_ws(old(self).source(), old(self).cursor() as int) == old(self).cursor(),
            lex_fits(old(self).source(), old(self).cursor() as int),
        ensures
            final(self).wf(),
            final(self).source() == old(self).source(),
            t == lex_token(old(self).source(), old(self).cursor() as int),
            final(self).cursor() == lex(old(self).source(), old(self).cursor() as int).2,
    {
        let ghost src = self.src@;
        let start = self.cursor;
        let mut end = start;
        let mut is_float = false;
        proof {
            lemma_digits_end(src, start as int);
        }
        while end < self.src.len() && 0x30u8 <= self.src[end] && self.src[end] <= 0x39u8
            invariant
                start <= end <= src.len(),
                self.src@ == src,
                digits_end(src, end as int) == digits_end(src, start as int),
            decreases src.len() - end,
        {
            end = end + 1;
        }
        let ghost e = end as int;
        if end < self.src.len() && self.src[end] == 0x2Eu8 {
            let is_next_digit = end + 1 < self.src.len() && 0x30u8 <= self.src[end + 1]
                && self.src[end + 1] <= 0x39u8;
            if is_next_digit {
                is_float = true;
                end = end + 1;
                proof {
                    lemma_digits_end(src, end as int);
                }
                while end < self.src.len() && 0x30u8 <= self.src[end] && self.src[end] <= 0x39u8
                    invariant
                        e + 1 <= end <= src.len(),
                        self.src@ == src,
                        digits_end(src, end as int) == digits_end(src, e + 1),
                    decreases src.len() - end,
                {
                    end = end + 1;
                }
            }
        }
        self.cursor = end;
        let kind = if is_float {
            TokenKind::Float
        } else {
            TokenKind::Int
        };
        Token::new(kind, Span::new(start, end))
    }

    /// An identifier or keyword starting at the cursor.
    fn read_identifier(&mut self) -> (t: Token)
        requires
            old(self).wf(),
            old(self).cursor() < old(self).source().len(),
            is_ident_start(old(self).source()[old(self).cursor() as int]),
            skip_ws(old(self).source(), old(self).cursor() as int) == old(self).cursor(),
            lex_fits(old(self).source(), old(self).cursor() as int),
        ensures
            final(self).wf(),
            final(self).source() == old(self).source(),
            t == lex_token(old(self).source(), old(self).cursor() as int),
            final(self).cursor() == lex(old(self).source(), old(self).cursor() as int).2,
    {
        let ghost src = self.src@;
        let start = self.cursor;
        let mut end = self.cursor;
        proof {
            lemma_ident_end(src, start as int);
        }
        while end < self.src.len() && is_ident(self.src[end])
            invariant
                start <= end <= src.len(),
                self.src@ == src,
                ident_end(src, end as int) == ident_end(src, start as int),
            decreases src.len() - end,
        {
            end = end + 1;
        }
        let ident = vstd::slice::slice_subrange(self.src, start, end);
        self.cursor = end;
        match keyword(ident) {
            Some(kind) => Token::new(kind, Span::new(start, end)),
            None => Token::new(TokenKind::Identifier, Span::new(start, end)),
        }
    }
}

/// Whether a byte starts an identifier.
fn is_ident_start_byte(b: u8) -> (r: bool)
    ensures
        r == is_ident_start(b),
{
    (0x41u8 <= b && b <= 0x5Au8) || (0x61u8 <= b && b <= 0x7Au8) || b == 0x5Fu8
}

/// The first position at or after `c` that does not hold a UTF-8
/// continuation byte.
fn scalar_end_from(src: &[u8], c: usize) -> (e: usize)
    requires
        c <= src@.len(),
    ensures
        e == scalar_end(src@, c as int),
{
    let mut e = c;
    proof {
        lemma_scalar_end(src@, c as int);
    }
    while e < src.len() && 0x80u8 <= src[e] && src[e] <= 0xBFu8
        invariant
            c <= e <= src@.len(),
            scalar_end(src@, e as int) == scalar_end(src@, c as int),
        decreases src@.len() - e,
    {
        e = e + 1;
    }
    e
}

/// Whether a byte is whitespace that separates tokens.
fn is_whitespace(b: u8) -> (r: bool)
    ensures
        r == is_ws(b),
{
    b == 0x20u8 || b == 0x09u8 || b == 0x0Cu8 || b == 0x0Du8
}

/// Whether a byte may stand in an identifier.
fn is_ident(b: u8) -> (r: bool)
    ensures
        r == is_ident_byte(b),
{
    (0x30u8 <= b && b <= 0x39u8) || (0x41u8 <= b && b <= 0x5Au8) || (0x61u8 <= b && b <= 0x7Au8) || b == 0x5Fu8
}

/// The keyword an identifier spells, if any.
fn keyword(ident: &[u8]) -> (r: Option<TokenKind>)
    ensures
        r == keyword_kind(ident@),
{
    let n = ident.len();
    if n == 2 && ident[0] == 0x66u8 && ident[1] == 0x6Eu8 {
        assert(ident@ =~= seq![0x66u8, 0x6E]);
        Some(TokenKind::Fn)
    } else if n == 6 && ident[0] == 0x6Du8 && ident[1] == 0x6Fu8 && ident[2] == 0x64u8 && ident[3] == 0x75u8
        && ident[4] == 0x6Cu8 && ident[5] == 0x65u8 {
        assert(ident@ =~= seq![0x6Du8, 0x6F, 0x64, 0x75, 0x6C, 0x65]);
        Some(TokenKind::Module)
    } else if n == 6 && ident[0] == 0x69u8 && ident[1] == 0x6Du8 && ident[2] == 0x70u8 && ident[3] == 0x6Fu8
        && ident[4] == 0x72u8 && ident[5] == 0x74u8 {
        assert(ident@ =~= seq![0x69u8, 0x6D, 0x70, 0x6F, 0x72, 0x74]);
        Some(TokenKind::Import)
    } else {
        proof {
            if ident@ =~= seq![0x66u8, 0x6E] {
                assert(ident@[0] == 0x66);
            }
            if ident@ =~= seq![0x6Du8, 0x6F, 0x64, 0x75, 0x6C, 0x65] {
                assert(ident@[0] == 0x6D);
            }
            if ident@ =~= seq![0x69u8, 0x6D, 0x70, 0x6F, 0x72, 0x74] {
                assert(ident@[0] == 0x69);
            }
        }
        None
    }
}

} // verus!
