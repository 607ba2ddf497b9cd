//! Laws of the parser's meaning that hold over every input.

use vstd::prelude::*;
use crate::parser_spec::{
    Outcome, PState, ParseFailure, factor_op, initial_state, p_advance, p_allocate, p_expect,
    p_factor, p_factor_loop, p_factor_step, p_module, p_module_loop, p_negate, p_parse,
    p_primary, p_skip_in_parens, p_skip_newlines, p_term, p_term_loop, p_term_step, p_top,
    p_top_step, p_unary, rem, term_op,
};
use crate::lexer::{lemma_lex, lemma_token_text, lex, lex_fits};
use crate::parser_spec::{all_digits, digits_value};
use crate::span::Span;
use crate::tokens::TokenKind;

verus! {

/// A failure that blames a line break, or an operator that could go on with
/// the expression, for what went wrong: a newline found where an expression
/// was expected, or a newline or an operator found where `)` was expected.
pub open spec fn blames_line_break(e: ParseFailure) -> bool {
    match e {
        ParseFailure::UnexpectedToken(k) => k == TokenKind::Newline,
        ParseFailure::TokenMismatch(k, expected) => expected == TokenKind::RParen && (k
            == TokenKind::Newline || k == TokenKind::Plus || k == TokenKind::Minus || k
            == TokenKind::Star || k == TokenKind::Slash || k == TokenKind::Percent),
        _ => false,
    }
}

/// The outcome is no failure that blames a line break.
pub open spec fn no_break_blamed<T>(o: Outcome<T>) -> bool {
    o matches Outcome::Fail(e) ==> !blames_line_break(e)
}

/// Where a factor may stop at nesting depth `d`: before no `*`, `/` or `%`,
/// and, inside parentheses, before no newline.
spec fn factor_stop(s: PState, d: int) -> bool {
    &&& s.depth == d
    &&& s.tok.kind != TokenKind::Star && s.tok.kind != TokenKind::Slash && s.tok.kind
        != TokenKind::Percent
    &&& d > 0 ==> s.tok.kind != TokenKind::Newline
}

/// Where a term may stop at nesting depth `d`: where a factor may, and
/// before no `+` or `-`.
spec fn term_stop(s: PState, d: int) -> bool {
    &&& factor_stop(s, d)
    &&& s.tok.kind != TokenKind::Plus && s.tok.kind != TokenKind::Minus
}

/// Skipping newlines ends on another token and keeps the depth.
proof fn lemma_skip_newlines(src: Seq<u8>, st: PState)
    ensures
        p_skip_newlines(src, st) matches Some(s) ==> s.tok.kind != TokenKind::Newline && s.depth
            == st.depth,
        st.tok.kind != TokenKind::Newline ==> p_skip_newlines(src, st) == Some(st),
    decreases rem(src, st),
{
    if st.tok.kind == TokenKind::Newline {
        if let Some(s) = p_advance(src, st) {
            if 0 <= rem(src, s) < rem(src, st) {
                lemma_skip_newlines(src, s);
            }
        }
    }
}

proof fn lemma_primary(src: Seq<u8>, st: PState)
    requires
        st.tok.kind != TokenKind::Newline,
        st.depth >= 0,
    ensures
        no_break_blamed(p_primary(src, st)),
        p_primary(src, st) matches Outcome::Done((id, s)) ==> s.depth == st.depth,
    decreases rem(src, st), 2int,
{
    if rem(src, st) >= 0 && st.tok.kind == TokenKind::LParen && st.depth < u32::MAX {
        if let Some(s2) = p_advance(src, PState { depth: st.depth + 1, ..st }) {
            lemma_skip_newlines(src, s2);
            if let Some(s3) = p_skip_newlines(src, s2) {
                if 0 <= rem(src, s3) < rem(src, st) {
                    lemma_term(src, s3);
                }
            }
        }
    }
}

proof fn lemma_unary(src: Seq<u8>, st: PState)
    requires
        st.tok.kind != TokenKind::Newline,
        st.depth >= 0,
    ensures
        no_break_blamed(p_unary(src, st)),
        p_unary(src, st) matches Outcome::Done((id, s)) ==> s.depth == st.depth,
    decreases rem(src, st), 3int,
{
    if rem(src, st) >= 0 {
        if st.tok.kind == TokenKind::Minus {
            if let Some(s2) = p_advance(src, st) {
                lemma_skip_newlines(src, s2);
                if let Some(s3) = p_skip_newlines(src, s2) {
                    if 0 <= rem(src, s3) < rem(src, st) {
                        lemma_unary(src, s3);
                    }
                }
            }
        } else {
            lemma_primary(src, st);
        }
    }
}

#[verifier::rlimit(40)]
proof fn lemma_factor_loop(src: Seq<u8>, st: PState, left: crate::ast::NodeId)
    requires
        st.depth >= 0,
    ensures
        no_break_blamed(p_factor_loop(src, st, left)),
        p_factor_loop(src, st, left) matches Outcome::Done((id, s)) ==> factor_stop(s, st.depth),
    decreases rem(src, st), 1int,
{
    if rem(src, st) >= 0 {
        lemma_skip_newlines(src, st);
        let step = p_factor_step(src, st, left);
        if let Some(s1) = p_skip_in_parens(src, st) {
            assert(s1.depth == st.depth);
            assert(st.depth > 0 ==> s1.tok.kind != TokenKind::Newline);
            if factor_op(s1.tok.kind) is None {
                assert(step == Outcome::Done((Option::<crate::ast::NodeId>::None, s1)));
            } else {
                if let Some(s2) = p_advance(src, s1) {
                    lemma_skip_newlines(src, s2);
                    if let Some(s3) = p_skip_newlines(src, s2) {
                        if 0 <= rem(src, s3) < rem(src, st) {
                            lemma_unary(src, s3);
                            if let Outcome::Done((right, s4)) = p_unary(src, s3) {
                                if let Outcome::Done((id, s5)) = p_allocate(
                                    s4,
                                    left,
                                    right,
                                    factor_op(s1.tok.kind)->0,
                                ) {
                                    if 0 <= rem(src, s5) < rem(src, st) {
                                        lemma_factor_loop(src, s5, id);
                                    }
                                }
                            }
                        }
                    }
                }
            }
        }
    }
}

proof fn lemma_factor(src: Seq<u8>, st: PState)
    requires
        st.tok.kind != TokenKind::Newline,
        st.depth >= 0,
    ensures
        no_break_blamed(p_factor(src, st)),
        p_factor(src, st) matches Outcome::Done((id, s)) ==> factor_stop(s, st.depth),
    decreases rem(src, st), 4int,
{
    if rem(src, st) >= 0 {
        lemma_unary(src, st);
        if let Outcome::Done((left, s1)) = p_unary(src, st) {
            if 0 <= rem(src, s1) <= rem(src, st) {
                lemma_factor_loop(src, s1, left);
            }
        }
    }
}

#[verifier::rlimit(40)]
proof fn lemma_term_loop(src: Seq<u8>, st: PState, left: crate::ast::NodeId)
    requires
        factor_stop(st, st.depth),
        st.depth >= 0,
    ensures
        no_break_blamed(p_term_loop(src, st, left)),
        p_term_loop(src, st, left) matches Outcome::Done((id, s)) ==> term_stop(s, st.depth),
    decreases rem(src, st), 1int,
{
    if rem(src, st) >= 0 {
        lemma_skip_newlines(src, st);
        let step = p_term_step(src, st, left);
        if let Some(s1) = p_skip_in_parens(src, st) {
            assert(s1.depth == st.depth);
            assert(st.depth > 0 ==> s1.tok.kind != TokenKind::Newline);
            if term_op(s1.tok.kind) is None {
                assert(step == Outcome::Done((Option::<crate::ast::NodeId>::None, s1)));
            } else {
                if let Some(s2) = p_advance(src, s1) {
                    lemma_skip_newlines(src, s2);
                    if let Some(s3) = p_skip_newlines(src, s2) {
                        if 0 <= rem(src, s3) < rem(src, st) {
                            lemma_factor(src, s3);
                            if let Outcome::Done((right, s4)) = p_factor(src, s3) {
                                if let Outcome::Done((id, s5)) = p_allocate(
                                    s4,
                                    left,
                                    right,
                                    term_op(s1.tok.kind)->0,
                                ) {
                                    if 0 <= rem(src, s5) < rem(src, st) {
                                        lemma_term_loop(src, s5, id);
                                    }
                                }
                            }
                        }
                    }
                }
            }
        }
    }
}

proof fn lemma_term(src: Seq<u8>, st: PState)
    requires
        st.tok.kind != TokenKind::Newline,
        st.depth >= 0,
    ensures
        no_break_blamed(p_term(src, st)),
        p_term(src, st) matches Outcome::Done((id, s)) ==> term_stop(s, st.depth),
    decreases rem(src, st), 5int,
{
    if rem(src, st) >= 0 {
        lemma_factor(src, st);
        if let Outcome::Done((left, s1)) = p_factor(src, st) {
            if 0 <= rem(src, s1) <= rem(src, st) {
                lemma_term_loop(src, s1, left);
            }
        }
    }
}

proof fn lemma_module_loop(src: Seq<u8>, st: PState, end: int)
    ensures
        no_break_blamed(p_module_loop(src, st, end)),
    decreases rem(src, st),
{
    if st.tok.kind == TokenKind::Dot {
        if let Some(s1) = p_advance(src, st) {
            if let Outcome::Done((tok, s2)) = p_expect(src, s1, TokenKind::Identifier) {
                if 0 <= rem(src, s2) < rem(src, st) {
                    lemma_module_loop(src, s2, tok.span.end() as int);
                }
            }
        }
    }
}

proof fn lemma_top(src: Seq<u8>, st: PState)
    requires
        st.depth >= 0,
    ensures
        no_break_blamed(p_top(src, st)),
    decreases rem(src, st),
{
    reveal(p_top_step);
    let k = st.tok.kind;
    if k == TokenKind::Int || k == TokenKind::LParen || k == TokenKind::Minus {
        lemma_term(src, st);
    }
    if let Outcome::Done((false, s)) = p_top_step(src, st) {
        if 0 <= rem(src, s) < rem(src, st) {
            assert(s.depth == st.depth);
            lemma_top(src, s);
        }
    }
}


/// The text is within the parser's limits: at most 4095 bytes, and no 19
/// bytes in a row are decimal digits.
pub open spec fn within_limits(src: Seq<u8>) -> bool {
    &&& src.len() <= 0xFFF
    &&& forall|i: int| 0 <= i && i + 19 <= src.len() ==> #[trigger] non_digit_among_19(src, i)
}

/// Among the 19 bytes from `i` on, one is not a decimal digit.
pub open spec fn non_digit_among_19(src: Seq<u8>, i: int) -> bool {
    exists|k: int| i <= k < i + 19 && !(0x30 <= #[trigger] src[k] <= 0x39)
}

/// Ten to the power `n`.
spec fn pow10(n: nat) -> nat
    decreases n,
{
    if n == 0 {
        1
    } else {
        10 * pow10((n - 1) as nat)
    }
}

/// A string of digits is worth less than ten to the power of its length.
proof fn lemma_digits_below(t: Seq<u8>)
    requires
        all_digits(t),
    ensures
        0 <= digits_value(t) < pow10(t.len()),
    decreases t.len(),
{
    if t.len() > 0 {
        let u = t.drop_last();
        assert(all_digits(u)) by {
            assert forall|i: int| 0 <= i < u.len() implies 0x30 <= #[trigger] u[i] <= 0x39 by {
                assert(u[i] == t[i]);
            }
        }
        lemma_digits_below(u);
        let v = digits_value(u);
        let d = t.last() - 0x30;
        let p = pow10(u.len());
        assert(0 <= d <= 9);
        assert(v * 10 + d < 10 * p) by (nonlinear_arith)
            requires
                0 <= v < p,
                0 <= d <= 9,
        ;
    }
}

/// Ten to a power is at least as large as ten to a smaller one.
proof fn lemma_pow10_mono(a: nat, b: nat)
    requires
        a <= b,
    ensures
        pow10(a) <= pow10(b),
    decreases b,
{
    if a < b {
        lemma_pow10_mono(a, (b - 1) as nat);
    }
}

/// A parse state that the parser can reach within the limits: its token is
/// in the text and empty only at the end; an integer token is a string of
/// at most eighteen digits; no more nodes and open parentheses than bytes
/// before the token; node spans end within the text.
spec fn reachable(src: Seq<u8>, st: PState) -> bool {
    &&& 0 <= st.pos <= src.len()
    &&& st.tok.span.end() == st.pos
    &&& st.tok.kind != TokenKind::Eof ==> st.tok.span.start() < st.tok.span.end()
    &&& st.tok.kind == TokenKind::Int ==> {
        &&& all_digits(src.subrange(st.tok.span.start() as int, st.tok.span.end() as int))
        &&& digits_value(src.subrange(st.tok.span.start() as int, st.tok.span.end() as int))
            <= i64::MAX
    }
    &&& st.tree.len() <= st.tok.span.start()
    &&& 0 <= st.depth <= st.tok.span.start()
    &&& forall|i: int| 0 <= i < st.tree.len() ==> (#[trigger] st.tree[i]).span.end() <= src.len()
}

/// Within the limits, the next token always fits, and it lies after the
/// cursor, empty only at the end, an integer token being a short string of
/// digits.
proof fn lemma_advance_lim(src: Seq<u8>, st: PState)
    requires
        within_limits(src),
        0 <= st.pos <= src.len(),
    ensures
        p_advance(src, st) matches Some(s) && {
            &&& s.tree == st.tree && s.depth == st.depth && s.roots == st.roots
            &&& st.pos <= s.tok.span.start() <= s.tok.span.end() == s.pos <= src.len()
            &&& s.tok.kind != TokenKind::Eof ==> s.tok.span.start() < s.tok.span.end()
            &&& s.tok.kind == TokenKind::Int ==> {
                &&& all_digits(src.subrange(s.tok.span.start() as int, s.tok.span.end() as int))
                &&& digits_value(src.subrange(s.tok.span.start() as int, s.tok.span.end() as int))
                    <= i64::MAX
            }
        },
{
    let c = st.pos;
    lemma_lex(src, c);
    lemma_token_text(src, c);
    let (k, a, e) = lex(src, c);
    assert(lex_fits(src, c));
    Span::lemma_new(a, e);
    if k == TokenKind::Int {
        let t = src.subrange(a, e);
        assert(all_digits(t)) by {
            assert forall|i: int| 0 <= i < t.len() implies 0x30 <= #[trigger] t[i] <= 0x39 by {
                assert(t[i] == src[a + i]);
            }
        }
        if e - a >= 19 {
            assert(non_digit_among_19(src, a));
            let k2 = choose|k: int| a <= k < a + 19 && !(0x30 <= #[trigger] src[k] <= 0x39);
            assert(0x30 <= src[k2] <= 0x39);
        }
        lemma_digits_below(t);
        lemma_pow10_mono(t.len(), 18);
        assert(pow10(18) == 1000000000000000000) by {
            reveal_with_fuel(pow10, 19);
        }
    }
}

/// Within the limits, skipping newlines never stops and keeps a reachable
/// state reachable.
proof fn lemma_skip_lim(src: Seq<u8>, st: PState)
    requires
        within_limits(src),
        reachable(src, st),
    ensures
        p_skip_newlines(src, st) matches Some(s) && reachable(src, s) && s.tree == st.tree && s.depth
            == st.depth && s.tok.span.start() >= st.tok.span.start(),
    decreases rem(src, st),
{
    if st.tok.kind == TokenKind::Newline {
        lemma_advance_lim(src, st);
        let s = p_advance(src, st)->0;
        lemma_skip_lim(src, s);
    }
}

/// What a parse of an operand gives within the limits from a reachable
/// state: no stop at a limit, and on success a reachable state after at
/// least one more token, at the same depth, with no more new nodes than
/// bytes passed, and a node of the tree.
spec fn operand_ok(src: Seq<u8>, st: PState, o: Outcome<(crate::ast::NodeId, PState)>) -> bool {
    &&& !(o is Abort)
    &&& o matches Outcome::Done((id, s)) ==> {
        &&& reachable(src, s)
        &&& s.depth == st.depth
        &&& s.tok.span.start() > st.tok.span.start()
        &&& st.tree.len() <= s.tree.len()
        &&& s.tree.len() - st.tree.len() <= s.tok.span.start() - st.tok.span.start()
        &&& (id.0 as int) < s.tree.len()
    }
}

/// The same for the rest of a term or factor after its first operand, which
/// may pass no token at all.
spec fn rest_ok(src: Seq<u8>, st: PState, o: Outcome<(crate::ast::NodeId, PState)>) -> bool {
    &&& !(o is Abort)
    &&& o matches Outcome::Done((id, s)) ==> {
        &&& reachable(src, s)
        &&& s.depth == st.depth
        &&& s.tok.span.start() >= st.tok.span.start()
        &&& st.tree.len() <= s.tree.len()
        &&& s.tree.len() - st.tree.len() <= s.tok.span.start() - st.tok.span.start()
        &&& (id.0 as int) < s.tree.len()
    }
}

proof fn lemma_primary_lim(src: Seq<u8>, st: PState)
    requires
        within_limits(src),
        reachable(src, st),
    ensures
        operand_ok(src, st, p_primary(src, st)),
    decreases rem(src, st), 2int,
{
    if st.tok.kind == TokenKind::Int {
        let n = st.tree.len();
        let s1 = PState { tree: st.tree.push(crate::ast::Node {
            expr: crate::ast::Expr::Literal(
                crate::ast::Literal::Int(
                    digits_value(src.subrange(st.tok.span.start() as int, st.tok.span.end() as int))
                        as i64,
                ),
            ),
            span: st.tok.span,
        }), ..st };
        lemma_advance_lim(src, s1);
    } else if st.tok.kind == TokenKind::LParen {
        let st1 = PState { depth: st.depth + 1, ..st };
        lemma_advance_lim(src, st1);
        let s2 = p_advance(src, st1)->0;
        lemma_skip_lim(src, s2);
        let s3 = p_skip_newlines(src, s2)->0;
        lemma_term_lim(src, s3);
        if let Outcome::Done((idx, s4)) = p_term(src, s3) {
            let s5 = PState { depth: s4.depth - 1, ..s4 };
            if s5.tok.kind == TokenKind::RParen {
                lemma_advance_lim(src, s5);
            }
        }
    }
}

proof fn lemma_unary_lim(src: Seq<u8>, st: PState)
    requires
        within_limits(src),
        reachable(src, st),
    ensures
        operand_ok(src, st, p_unary(src, st)),
    decreases rem(src, st), 3int,
{
    if st.tok.kind == TokenKind::Minus {
        lemma_advance_lim(src, st);
        let s2 = p_advance(src, st)->0;
        lemma_skip_lim(src, s2);
        let s3 = p_skip_newlines(src, s2)->0;
        lemma_unary_lim(src, s3);
        if let Outcome::Done((operand, s4)) = p_unary(src, s3) {
            let start = st.tok.span.start() as int;
            let end = s4.tree[operand.0 as int].span.end() as int;
            assert(end <= src.len());
            Span::lemma_new(start, end);
            assert(Span::fits(start, end));
            if let Outcome::Done((id, s5)) = p_negate(s4, start, operand) {
                assert(s5.tree.len() == s4.tree.len() + 1);
                assert forall|i: int| 0 <= i < s5.tree.len() implies (#[trigger] s5.tree[i]).span.end()
                    <= src.len() by {
                    if i < s4.tree.len() {
                        assert(s5.tree[i] == s4.tree[i]);
                    }
                }
                assert(reachable(src, s5));
            }
        }
    } else {
        lemma_primary_lim(src, st);
    }
}

#[verifier::rlimit(60)]
proof fn lemma_factor_loop_lim(src: Seq<u8>, st: PState, left: crate::ast::NodeId)
    requires
        within_limits(src),
        reachable(src, st),
        (left.0 as int) < st.tree.len(),
    ensures
        rest_ok(src, st, p_factor_loop(src, st, left)),
    decreases rem(src, st), 1int,
{
    lemma_skip_lim(src, st);
    let s1 = if st.depth > 0 {
        p_skip_newlines(src, st)->0
    } else {
        st
    };
    assert(p_skip_in_parens(src, st) == Some(s1));
    assert(rem(src, st) >= 0);
    let step = p_factor_step(src, st, left);
    if factor_op(s1.tok.kind) is None {
        assert(step == Outcome::Done((Option::<crate::ast::NodeId>::None, s1)));
        assert(p_factor_loop(src, st, left) == Outcome::Done((left, s1)));
    }
    if factor_op(s1.tok.kind) is Some {
        lemma_advance_lim(src, s1);
        let s2 = p_advance(src, s1)->0;
        lemma_skip_lim(src, s2);
        let s3 = p_skip_newlines(src, s2)->0;
        lemma_unary_lim(src, s3);
        if let Outcome::Done((right, s4)) = p_unary(src, s3) {
            let op = factor_op(s1.tok.kind)->0;
            if let Outcome::Done((id, s5)) = p_allocate(s4, left, right, op) {
                assert forall|i: int| 0 <= i < s5.tree.len() implies (#[trigger] s5.tree[i]).span.end()
                    <= src.len() by {
                    if i < s4.tree.len() {
                        assert(s5.tree[i] == s4.tree[i]);
                    } else {
                        Span::lemma_new(
                            s4.tree[left.0 as int].span.start() as int,
                            s4.tree[right.0 as int].span.end() as int,
                        );
                    }
                }
                assert(s5.tree.len() == s4.tree.len() + 1);
                assert(s5.tok == s4.tok && s5.depth == s4.depth && s5.pos == s4.pos);
                assert(reachable(src, s5));
                assert(0 <= rem(src, s3) < rem(src, st));
                assert(step == Outcome::Done((Some(id), s5)));
                assert(0 <= rem(src, s5) < rem(src, st));
                lemma_factor_loop_lim(src, s5, id);
            } else {
                assert(s4.tree[left.0 as int].span.end() <= src.len());
                assert(s4.tree[right.0 as int].span.end() <= src.len());
            }
        }
    }
}

proof fn lemma_factor_lim(src: Seq<u8>, st: PState)
    requires
        within_limits(src),
        reachable(src, st),
    ensures
        operand_ok(src, st, p_factor(src, st)),
    decreases rem(src, st), 4int,
{
    lemma_unary_lim(src, st);
    if let Outcome::Done((left, s1)) = p_unary(src, st) {
        lemma_factor_loop_lim(src, s1, left);
    }
}

#[verifier::rlimit(60)]
proof fn lemma_term_loop_lim(src: Seq<u8>, st: PState, left: crate::ast::NodeId)
    requires
        within_limits(src),
        reachable(src, st),
        (left.0 as int) < st.tree.len(),
    ensures
        rest_ok(src, st, p_term_loop(src, st, left)),
    decreases rem(src, st), 1int,
{
    lemma_skip_lim(src, st);
    let s1 = if st.depth > 0 {
        p_skip_newlines(src, st)->0
    } else {
        st
    };
    assert(p_skip_in_parens(src, st) == Some(s1));
    assert(rem(src, st) >= 0);
    let step = p_term_step(src, st, left);
    if term_op(s1.tok.kind) is None {
        assert(step == Outcome::Done((Option::<crate::ast::NodeId>::None, s1)));
        assert(p_term_loop(src, st, left) == Outcome::Done((left, s1)));
    }
    if term_op(s1.tok.kind) is Some {
        lemma_advance_lim(src, s1);
        let s2 = p_advance(src, s1)->0;
        lemma_skip_lim(src, s2);
        let s3 = p_skip_newlines(src, s2)->0;
        lemma_factor_lim(src, s3);
        if let Outcome::Done((right, s4)) = p_factor(src, s3) {
            let op = term_op(s1.tok.kind)->0;
            if let Outcome::Done((id, s5)) = p_allocate(s4, left, right, op) {
                assert forall|i: int| 0 <= i < s5.tree.len() implies (#[trigger] s5.tree[i]).span.end()
                    <= src.len() by {
                    if i < s4.tree.len() {
                        assert(s5.tree[i] == s4.tree[i]);
                    } else {
                        Span::lemma_new(
                            s4.tree[left.0 as int].span.start() as int,
                            s4.tree[right.0 as int].span.end() as int,
                        );
                    }
                }
                assert(s5.tree.len() == s4.tree.len() + 1);
                assert(s5.tok == s4.tok && s5.depth == s4.depth && s5.pos == s4.pos);
                assert(reachable(src, s5));
                assert(0 <= rem(src, s3) < rem(src, st));
                assert(step == Outcome::Done((Some(id), s5)));
                assert(0 <= rem(src, s5) < rem(src, st));
                lemma_term_loop_lim(src, s5, id);
            } else {
                assert(s4.tree[left.0 as int].span.end() <= src.len());
                assert(s4.tree[right.0 as int].span.end() <= src.len());
            }
        }
    }
}

proof fn lemma_term_lim(src: Seq<u8>, st: PState)
    requires
        within_limits(src),
        reachable(src, st),
    ensures
        operand_ok(src, st, p_term(src, st)),
    decreases rem(src, st), 5int,
{
    lemma_factor_lim(src, st);
    if let Outcome::Done((left, s1)) = p_factor(src, st) {
        lemma_term_loop_lim(src, s1, left);
    }
}

/// Line breaks never make parsing fail: no failure is blamed on a newline
/// where an expression was expected (after an operator, after `(` or after
/// a `-`, a line break is passed over), nor on a newline or an operator
/// where `)` was expected (inside parentheses a line break may stand before
/// any operator, `*`, `/` and `%` as well as `+` and `-`).
pub proof fn lemma_line_breaks(src: Seq<u8>, c: int)
    ensures
        no_break_blamed(p_parse(src, initial_state(src, c))),
{
    let st = initial_state(src, c);
    if let Outcome::Done((_, s1)) = p_module(src, st) {
        if let Some(s2) = p_advance(src, s1) {
            assert(s2.depth == 0) by {
                lemma_module_depth(src, st);
            }
            lemma_top(src, s2);
        }
    }
    lemma_module_fail(src, st);
}

proof fn lemma_module_fail(src: Seq<u8>, st: PState)
    ensures
        no_break_blamed(p_module(src, st)),
{
    if let Outcome::Done((_, s1)) = p_expect(src, st, TokenKind::Module) {
        if let Outcome::Done((tok, s2)) = p_expect(src, s1, TokenKind::Identifier) {
            lemma_module_loop(src, s2, tok.span.end() as int);
        }
    }
}

proof fn lemma_module_loop_depth(src: Seq<u8>, st: PState, end: int)
    ensures
        p_module_loop(src, st, end) matches Outcome::Done((e, s)) ==> s.depth == st.depth,
    decreases rem(src, st),
{
    if st.tok.kind == TokenKind::Dot {
        if let Some(s1) = p_advance(src, st) {
            if let Outcome::Done((tok, s2)) = p_expect(src, s1, TokenKind::Identifier) {
                if 0 <= rem(src, s2) < rem(src, st) {
                    lemma_module_loop_depth(src, s2, tok.span.end() as int);
                }
            }
        }
    }
}

proof fn lemma_module_depth(src: Seq<u8>, st: PState)
    ensures
        p_module(src, st) matches Outcome::Done((span, s)) ==> s.depth == st.depth,
{
    if let Outcome::Done((_, s1)) = p_expect(src, st, TokenKind::Module) {
        if let Outcome::Done((tok, s2)) = p_expect(src, s1, TokenKind::Identifier) {
            lemma_module_loop_depth(src, s2, tok.span.end() as int);
        }
    }
}

/// The current token lies in the text, ends at the cursor, and is empty only
/// at the end of the text.
spec fn cursor_ok(src: Seq<u8>, st: PState) -> bool {
    &&& 0 <= st.pos <= src.len()
    &&& st.tok.span.start() <= st.tok.span.end() == st.pos
    &&& st.tok.kind != TokenKind::Eof ==> st.tok.span.start() < st.tok.span.end()
}

/// Within the limits, the rest of a module path never stops at a limit; it
/// ends after the identifiers it read, before the current token.
proof fn lemma_module_loop_lim(src: Seq<u8>, st: PState, end: int)
    requires
        within_limits(src),
        cursor_ok(src, st),
        0 <= end <= st.tok.span.start(),
    ensures
        !(p_module_loop(src, st, end) is Abort),
        p_module_loop(src, st, end) matches Outcome::Done((e, s)) ==> {
            &&& cursor_ok(src, s)
            &&& s.tree == st.tree && s.depth == st.depth
            &&& end <= e <= s.tok.span.start()
        },
    decreases rem(src, st),
{
    if st.tok.kind == TokenKind::Dot {
        lemma_advance_lim(src, st);
        let s1 = p_advance(src, st)->0;
        if s1.tok.kind == TokenKind::Identifier {
            lemma_advance_lim(src, s1);
            let s2 = p_advance(src, s1)->0;
            assert(0 <= rem(src, s2) < rem(src, st));
            lemma_module_loop_lim(src, s2, s1.tok.span.end() as int);
        }
    }
}

/// Within the limits, the module declaration never stops at a limit.
proof fn lemma_module_lim(src: Seq<u8>, st: PState)
    requires
        within_limits(src),
        cursor_ok(src, st),
    ensures
        !(p_module(src, st) is Abort),
        p_module(src, st) matches Outcome::Done((span, s)) ==> cursor_ok(src, s) && s.tree
            == st.tree && s.depth == st.depth,
{
    if st.tok.kind == TokenKind::Module {
        lemma_advance_lim(src, st);
        let s1 = p_advance(src, st)->0;
        if s1.tok.kind == TokenKind::Identifier {
            lemma_advance_lim(src, s1);
            let s2 = p_advance(src, s1)->0;
            lemma_module_loop_lim(src, s2, s1.tok.span.end() as int);
        }
    }
}

/// Within the limits, the top-level items never stop at a limit.
proof fn lemma_top_lim(src: Seq<u8>, st: PState)
    requires
        within_limits(src),
        reachable(src, st),
    ensures
        !(p_top(src, st) is Abort),
    decreases rem(src, st),
{
    reveal(p_top_step);
    let k = st.tok.kind;
    if k == TokenKind::Int || k == TokenKind::LParen || k == TokenKind::Minus {
        lemma_term_lim(src, st);
        if let Outcome::Done((id, s1)) = p_term(src, st) {
            if s1.tok.kind == TokenKind::Newline {
                lemma_advance_lim(src, s1);
                let s2 = p_advance(src, s1)->0;
                let s = PState { roots: s2.roots.push(id), ..s2 };
                assert(reachable(src, s));
                assert(p_top_step(src, st) == Outcome::Done((false, s)));
                lemma_top_lim(src, s);
            } else if s1.tok.kind == TokenKind::Eof {
                let s = PState { roots: s1.roots.push(id), ..s1 };
                assert(reachable(src, s));
                assert(p_top_step(src, st) == Outcome::Done((false, s)));
                lemma_top_lim(src, s);
            }
        }
    } else if k == TokenKind::Newline {
        lemma_advance_lim(src, st);
        let s1 = p_advance(src, st)->0;
        assert(reachable(src, s1));
        lemma_top_lim(src, s1);
    }
}

/// Within the limits (a text of at most 4095 bytes with no run of 19 or
/// more digits), parsing a module never stops at a machine limit: whatever
/// the nesting of parentheses, the first token fits and the parse ends in a
/// syntax tree or a parse error.
pub proof fn lemma_within_limits(src: Seq<u8>)
    requires
        within_limits(src),
    ensures
        lex_fits(src, 0),
        !(p_parse(src, initial_state(src, 0)) is Abort),
{
    let st = initial_state(src, 0);
    let st0 = PState { pos: 0, ..st };
    lemma_advance_lim(src, st0);
    assert(p_advance(src, st0) == Some(st));
    lemma_module_lim(src, st);
    if let Outcome::Done((span, s1)) = p_module(src, st) {
        let k = s1.tok.kind;
        if k == TokenKind::Newline || k == TokenKind::Eof {
            lemma_advance_lim(src, s1);
            let s2 = p_advance(src, s1)->0;
            assert(reachable(src, s2));
            lemma_top_lim(src, s2);
        }
    }
}

/// Outside parentheses a line break ends an expression: at a newline, no
/// operator of a factor or a term is looked for past it, and the expression
/// built so far is the whole one.
pub proof fn lemma_newline_ends_expression(src: Seq<u8>, st: PState, left: crate::ast::NodeId)
    requires
        st.depth == 0,
        st.tok.kind == TokenKind::Newline,
        st.tok.span.start() <= src.len(),
    ensures
        p_factor_loop(src, st, left) == Outcome::Done((left, st)),
        p_term_loop(src, st, left) == Outcome::Done((left, st)),
{
    assert(p_skip_in_parens(src, st) == Some(st));
    assert(p_factor_step(src, st, left) == Outcome::Done((Option::<crate::ast::NodeId>::None, st)));
    assert(p_term_step(src, st, left) == Outcome::Done((Option::<crate::ast::NodeId>::None, st)));
}

} // verus!
