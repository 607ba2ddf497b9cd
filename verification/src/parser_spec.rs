//! The meaning of the parser: a functional description of what parsing a
//! token stream yields, step by step, over the lexer's tokens.

use vstd::prelude::*;
use crate::ast::{Expr, Literal, Node, NodeId, Op, UnaryOp};
use crate::lexer::{lex, lex_fits, lex_token};
use crate::span::Span;
use crate::tokens::{Token, TokenKind};

verus! {

/// The reasons parsing stops, as values.
pub enum ParseFailure {
    UnexpectedToken(TokenKind),
    TokenMismatch(TokenKind, TokenKind),
    ExpectedOneOf(TokenKind, Seq<TokenKind>),
}

/// The state of a parse: the current token, the lexer's position after it,
/// the nodes built so far, the top-level expressions found so far, and the
/// depth of open parentheses.
pub struct PState {
    pub tok: Token,
    pub pos: int,
    pub tree: Seq<Node>,
    pub roots: Seq<NodeId>,
    pub depth: int,
}

/// How a parsing step ends: with a result, with a parse error, or on an input
/// on which parsing cannot go on within the machine's limits (a token or node
/// span beyond what a span can hold, an integer literal beyond `i64`, a tree
/// of more than `u32::MAX` nodes, more than `u32::MAX` open parentheses).
/// The same outcome also closes off, as unreachable, the branches in which a
/// step would fail to move forward, which keeps these definitions total.
pub enum Outcome<T> {
    Done(T),
    Fail(ParseFailure),
    Abort,
}

/// The distance from the current token's start to the end of the input.
pub open spec fn rem(src: Seq<u8>, st: PState) -> int {
    src.len() - st.tok.span.start()
}

/// The value of a string of decimal digits.
pub open spec fn digits_value(s: Seq<u8>) -> int
    decreases s.len(),
{
    if s.len() == 0 {
        0
    } else {
        digits_value(s.drop_last()) * 10 + (s.last() - 0x30)
    }
}

/// Every byte is a decimal digit.
pub open spec fn all_digits(s: Seq<u8>) -> bool {
    forall|i: int| 0 <= i < s.len() ==> 0x30 <= #[trigger] s[i] <= 0x39
}

/// Reads the next token.
/// `None` when the token does not fit in a span.
pub open spec fn p_advance(src: Seq<u8>, st: PState) -> Option<PState> {
    if lex_fits(src, st.pos) {
        Some(PState { tok: lex_token(src, st.pos), pos: lex(src, st.pos).2, ..st })
    } else {
        None
    }
}

/// Takes the current token if it has `kind`.
pub open spec fn p_expect(src: Seq<u8>, st: PState, kind: TokenKind) -> Outcome<(Token, PState)> {
    if st.tok.kind != kind {
        Outcome::Fail(ParseFailure::TokenMismatch(st.tok.kind, kind))
    } else {
        match p_advance(src, st) {
            Some(s) => Outcome::Done((st.tok, s)),
            None => Outcome::Abort,
        }
    }
}

/// Skips newline tokens; `None` when a token does not fit in a span.
pub open spec fn p_skip_newlines(src: Seq<u8>, st: PState) -> Option<PState>
    decreases rem(src, st),
{
    if st.tok.kind == TokenKind::Newline {
        match p_advance(src, st) {
            Some(s) => if 0 <= rem(src, s) < rem(src, st) {
                p_skip_newlines(src, s)
            } else {
                None
            },
            None => None,
        }
    } else {
        Some(st)
    }
}

/// Skips newline tokens while inside parentheses.
pub open spec fn p_skip_in_parens(src: Seq<u8>, st: PState) -> Option<PState> {
    if st.depth > 0 {
        p_skip_newlines(src, st)
    } else {
        Some(st)
    }
}

/// Appends a node to the tree and returns its index.
pub open spec fn p_alloc(st: PState, node: Node) -> Outcome<(NodeId, PState)> {
    if st.tree.len() >= u32::MAX {
        Outcome::Abort
    } else {
        Outcome::Done((NodeId(st.tree.len() as u32), PState { tree: st.tree.push(node), ..st }))
    }
}

/// Builds the node of a binary operation, spanning from its left operand to
/// the end of its right operand.
pub open spec fn p_allocate(st: PState, left: NodeId, right: NodeId, op: Op) -> Outcome<(NodeId, PState)> {
    if left.0 >= st.tree.len() || right.0 >= st.tree.len() {
        Outcome::Abort
    } else {
        let ls = st.tree[left.0 as int].span.start() as int;
        let re = st.tree[right.0 as int].span.end() as int;
        if !Span::fits(ls, re) {
            Outcome::Abort
        } else {
            p_alloc(
                st,
                Node { expr: Expr::BinaryOp { op, left, right }, span: Span::spec_new(ls, re) },
            )
        }
    }
}

/// The operator of `term` that a token stands for.
pub open spec fn term_op(k: TokenKind) -> Option<Op> {
    if k == TokenKind::Plus {
        Some(Op::Add)
    } else if k == TokenKind::Minus {
        Some(Op::Sub)
    } else {
        None
    }
}

/// The operator of `factor` that a token stands for.
pub open spec fn factor_op(k: TokenKind) -> Option<Op> {
    if k == TokenKind::Star {
        Some(Op::Mul)
    } else if k == TokenKind::Slash {
        Some(Op::Div)
    } else if k == TokenKind::Percent {
        Some(Op::Rem)
    } else {
        None
    }
}

/// One round of `term` after its first operand: `None` with the state after
/// any skipped newlines when no `+` or `-` follows, else the node combining
/// `left` with the next factor.
pub open spec fn p_term_step(src: Seq<u8>, st: PState, left: NodeId) -> Outcome<(Option<NodeId>, PState)>
    decreases rem(src, st), 0int,
{
    if rem(src, st) < 0 {
        Outcome::Abort
    } else {
        match p_skip_in_parens(src, st) {
            None => Outcome::Abort,
            Some(s1) => match term_op(s1.tok.kind) {
                None => Outcome::Done((None, s1)),
                Some(op) => match p_advance(src, s1) {
                    None => Outcome::Abort,
                    Some(s2) => match p_skip_newlines(src, s2) {
                        None => Outcome::Abort,
                        Some(s3) => if 0 <= rem(src, s3) < rem(src, st) {
                            match p_factor(src, s3) {
                                Outcome::Done((right, s4)) => match p_allocate(s4, left, right, op) {
                                    Outcome::Done((id, s5)) => Outcome::Done((Some(id), s5)),
                                    Outcome::Fail(e) => Outcome::Fail(e),
                                    Outcome::Abort => Outcome::Abort,
                                },
                                Outcome::Fail(e) => Outcome::Fail(e),
                                Outcome::Abort => Outcome::Abort,
                            }
                        } else {
                            Outcome::Abort
                        },
                    },
                },
            },
        }
    }
}

/// The repetition of `term` after its first operand, left-associative.
pub open spec fn p_term_loop(src: Seq<u8>, st: PState, left: NodeId) -> Outcome<(NodeId, PState)>
    decreases rem(src, st), 1int,
{
    if rem(src, st) < 0 {
        Outcome::Abort
    } else {
        match p_term_step(src, st, left) {
            Outcome::Done((None, s1)) => Outcome::Done((left, s1)),
            Outcome::Done((Some(id), s5)) => if 0 <= rem(src, s5) < rem(src, st) {
                p_term_loop(src, s5, id)
            } else {
                Outcome::Abort
            },
            Outcome::Fail(e) => Outcome::Fail(e),
            Outcome::Abort => Outcome::Abort,
        }
    }
}

/// `term := factor (("+" | "-") factor)*`.
pub open spec fn p_term(src: Seq<u8>, st: PState) -> Outcome<(NodeId, PState)>
    decreases rem(src, st), 5int,
{
    if rem(src, st) < 0 {
        Outcome::Abort
    } else {
        match p_factor(src, st) {
            Outcome::Done((left, s1)) => if 0 <= rem(src, s1) <= rem(src, st) {
                p_term_loop(src, s1, left)
            } else {
                Outcome::Abort
            },
            Outcome::Fail(e) => Outcome::Fail(e),
            Outcome::Abort => Outcome::Abort,
        }
    }
}

/// One round of `factor` after its first operand: `None` with the state
/// after any skipped newlines when no `*`, `/` or `%` follows, else the node
/// combining `left` with the next unary expression.
pub open spec fn p_factor_step(src: Seq<u8>, st: PState, left: NodeId) -> Outcome<(Option<NodeId>, PState)>
    decreases rem(src, st), 0int,
{
    if rem(src, st) < 0 {
        Outcome::Abort
    } else {
        match p_skip_in_parens(src, st) {
            None => Outcome::Abort,
            Some(s1) => match factor_op(s1.tok.kind) {
                None => Outcome::Done((None, s1)),
                Some(op) => match p_advance(src, s1) {
                    None => Outcome::Abort,
                    Some(s2) => match p_skip_newlines(src, s2) {
                        None => Outcome::Abort,
                        Some(s3) => if 0 <= rem(src, s3) < rem(src, st) {
                            match p_unary(src, s3) {
                                Outcome::Done((right, s4)) => match p_allocate(s4, left, right, op) {
                                    Outcome::Done((id, s5)) => Outcome::Done((Some(id), s5)),
                                    Outcome::Fail(e) => Outcome::Fail(e),
                                    Outcome::Abort => Outcome::Abort,
                                },
                                Outcome::Fail(e) => Outcome::Fail(e),
                                Outcome::Abort => Outcome::Abort,
                            }
                        } else {
                            Outcome::Abort
                        },
                    },
                },
            },
        }
    }
}

/// The repetition of `factor` after its first operand, left-associative.
pub open spec fn p_factor_loop(src: Seq<u8>, st: PState, left: NodeId) -> Outcome<(NodeId, PState)>
    decreases rem(src, st), 1int,
{
    if rem(src, st) < 0 {
        Outcome::Abort
    } else {
        match p_factor_step(src, st, left) {
            Outcome::Done((None, s1)) => Outcome::Done((left, s1)),
            Outcome::Done((Some(id), s5)) => if 0 <= rem(src, s5) < rem(src, st) {
                p_factor_loop(src, s5, id)
            } else {
                Outcome::Abort
            },
            Outcome::Fail(e) => Outcome::Fail(e),
            Outcome::Abort => Outcome::Abort,
        }
    }
}

/// `factor := unary (("*" | "/" | "%") unary)*`.
pub open spec fn p_factor(src: Seq<u8>, st: PState) -> Outcome<(NodeId, PState)>
    decreases rem(src, st), 4int,
{
    if rem(src, st) < 0 {
        Outcome::Abort
    } else {
        match p_unary(src, st) {
            Outcome::Done((left, s1)) => if 0 <= rem(src, s1) <= rem(src, st) {
                p_factor_loop(src, s1, left)
            } else {
                Outcome::Abort
            },
            Outcome::Fail(e) => Outcome::Fail(e),
            Outcome::Abort => Outcome::Abort,
        }
    }
}

/// `unary := "-" unary | primary`; a negation spans from its `-` to the end
/// of its operand.
pub open spec fn p_unary(src: Seq<u8>, st: PState) -> Outcome<(NodeId, PState)>
    decreases rem(src, st), 3int,
{
    if rem(src, st) < 0 {
        Outcome::Abort
    } else if st.tok.kind == TokenKind::Minus {
        let start = st.tok.span.start() as int;
        match p_advance(src, st) {
            None => Outcome::Abort,
            Some(s2) => match p_skip_newlines(src, s2) {
                None => Outcome::Abort,
                Some(s3) => if 0 <= rem(src, s3) < rem(src, st) {
                    match p_unary(src, s3) {
                        Outcome::Done((operand, s4)) => p_negate(s4, start, operand),
                        Outcome::Fail(e) => Outcome::Fail(e),
                        Outcome::Abort => Outcome::Abort,
                    }
                } else {
                    Outcome::Abort
                },
            },
        }
    } else {
        p_primary(src, st)
    }
}

/// Builds the negation of `operand`, spanning from `start` to the end of the
/// operand.
pub open spec fn p_negate(st: PState, start: int, operand: NodeId) -> Outcome<(NodeId, PState)> {
    if operand.0 >= st.tree.len() {
        Outcome::Abort
    } else {
        let end = st.tree[operand.0 as int].span.end() as int;
        if !Span::fits(start, end) {
            Outcome::Abort
        } else {
            p_alloc(
                st,
                Node {
                    expr: Expr::UnaryOp { op: UnaryOp::Neg, operand },
                    span: Span::spec_new(start, end),
                },
            )
        }
    }
}

/// The literal of the current integer token, which must be a non-empty
/// string of digits whose value fits in an `i64`.
pub open spec fn p_int_literal(src: Seq<u8>, st: PState) -> Outcome<(NodeId, PState)> {
    let start = st.tok.span.start() as int;
    let end = st.tok.span.end() as int;
    if end > src.len() || end <= start || !all_digits(src.subrange(start, end))
        || digits_value(src.subrange(start, end)) > i64::MAX {
        Outcome::Abort
    } else {
        let v = digits_value(src.subrange(start, end)) as i64;
        match p_alloc(st, Node { expr: Expr::Literal(Literal::Int(v)), span: st.tok.span }) {
            Outcome::Done((id, s1)) => match p_advance(src, s1) {
                Some(s2) => Outcome::Done((id, s2)),
                None => Outcome::Abort,
            },
            Outcome::Fail(e) => Outcome::Fail(e),
            Outcome::Abort => Outcome::Abort,
        }
    }
}

/// `primary := int | "(" term ")"`; an integer literal is read in decimal.
pub open spec fn p_primary(src: Seq<u8>, st: PState) -> Outcome<(NodeId, PState)>
    decreases rem(src, st), 2int,
{
    if rem(src, st) < 0 {
        Outcome::Abort
    } else if st.tok.kind == TokenKind::Int {
        p_int_literal(src, st)
    } else if st.tok.kind == TokenKind::LParen {
        if st.depth >= u32::MAX {
            Outcome::Abort
        } else {
            match p_advance(src, PState { depth: st.depth + 1, ..st }) {
                None => Outcome::Abort,
                Some(s2) => match p_skip_newlines(src, s2) {
                    None => Outcome::Abort,
                    Some(s3) => if 0 <= rem(src, s3) < rem(src, st) {
                        match p_term(src, s3) {
                            Outcome::Done((idx, s4)) => if s4.depth <= 0 {
                                Outcome::Abort
                            } else {
                                match p_expect(
                                    src,
                                    PState { depth: s4.depth - 1, ..s4 },
                                    TokenKind::RParen,
                                ) {
                                    Outcome::Done((_, s6)) => Outcome::Done((idx, s6)),
                                    Outcome::Fail(e) => Outcome::Fail(e),
                                    Outcome::Abort => Outcome::Abort,
                                }
                            },
                            Outcome::Fail(e) => Outcome::Fail(e),
                            Outcome::Abort => Outcome::Abort,
                        }
                    } else {
                        Outcome::Abort
                    },
                },
            }
        }
    } else {
        Outcome::Fail(ParseFailure::UnexpectedToken(st.tok.kind))
    }
}

/// The rest of a module path: `("." identifier)*`; yields the end of the
/// last identifier.
pub open spec fn p_module_loop(src: Seq<u8>, st: PState, end: int) -> Outcome<(int, PState)>
    decreases rem(src, st),
{
    if st.tok.kind == TokenKind::Dot {
        match p_advance(src, st) {
            Some(s1) => match p_expect(src, s1, TokenKind::Identifier) {
                Outcome::Done((tok, s2)) => if 0 <= rem(src, s2) < rem(src, st) {
                    p_module_loop(src, s2, tok.span.end() as int)
                } else {
                    Outcome::Abort
                },
                Outcome::Fail(e) => Outcome::Fail(e),
                Outcome::Abort => Outcome::Abort,
            },
            None => Outcome::Abort,
        }
    } else {
        Outcome::Done((end, st))
    }
}

/// `module := "module" identifier ("." identifier)*`; yields the span of the
/// path.
pub open spec fn p_module(src: Seq<u8>, st: PState) -> Outcome<(Span, PState)> {
    match p_expect(src, st, TokenKind::Module) {
        Outcome::Done((_, s1)) => match p_expect(src, s1, TokenKind::Identifier) {
            Outcome::Done((tok, s2)) => {
                let start = tok.span.start() as int;
                match p_module_loop(src, s2, tok.span.end() as int) {
                    Outcome::Done((end, s3)) => if Span::fits(start, end) {
                        Outcome::Done((Span::spec_new(start, end), s3))
                    } else {
                        Outcome::Abort
                    },
                    Outcome::Fail(e) => Outcome::Fail(e),
                    Outcome::Abort => Outcome::Abort,
                }
            },
            Outcome::Fail(e) => Outcome::Fail(e),
            Outcome::Abort => Outcome::Abort,
        },
        Outcome::Fail(e) => Outcome::Fail(e),
        Outcome::Abort => Outcome::Abort,
    }
}

/// The error raised where a newline or the end of input was expected.
pub open spec fn expected_line_end(k: TokenKind) -> ParseFailure {
    ParseFailure::ExpectedOneOf(k, seq![TokenKind::Newline, TokenKind::Eof])
}

/// One top-level item: an expression ended by a newline or the end of input
/// (recorded as a root), a blank line, or the end of input (`true`).
#[verifier::opaque]
pub open spec fn p_top_step(src: Seq<u8>, st: PState) -> Outcome<(bool, PState)> {
    let k = st.tok.kind;
    if k == TokenKind::Int || k == TokenKind::LParen || k == TokenKind::Minus {
        match p_term(src, st) {
            Outcome::Done((id, s1)) => {
                let s2o = if s1.tok.kind == TokenKind::Newline {
                    match p_advance(src, s1) {
                        Some(s2) => Outcome::Done(s2),
                        None => Outcome::Abort,
                    }
                } else if s1.tok.kind != TokenKind::Eof {
                    Outcome::Fail(expected_line_end(s1.tok.kind))
                } else {
                    Outcome::Done(s1)
                };
                match s2o {
                    Outcome::Done(s2) => Outcome::Done((false, PState { roots: s2.roots.push(id), ..s2 })),
                    Outcome::Fail(e) => Outcome::Fail(e),
                    Outcome::Abort => Outcome::Abort,
                }
            },
            Outcome::Fail(e) => Outcome::Fail(e),
            Outcome::Abort => Outcome::Abort,
        }
    } else if k == TokenKind::Newline {
        match p_advance(src, st) {
            Some(s1) => Outcome::Done((false, s1)),
            None => Outcome::Abort,
        }
    } else if k == TokenKind::Eof {
        Outcome::Done((true, st))
    } else {
        Outcome::Fail(ParseFailure::UnexpectedToken(k))
    }
}

/// Top-level items until the end of input.
pub open spec fn p_top(src: Seq<u8>, st: PState) -> Outcome<PState>
    decreases rem(src, st),
{
    match p_top_step(src, st) {
        Outcome::Done((true, s)) => Outcome::Done(s),
        Outcome::Done((false, s)) => if 0 <= rem(src, s) < rem(src, st) {
            p_top(src, s)
        } else {
            Outcome::Abort
        },
        Outcome::Fail(e) => Outcome::Fail(e),
        Outcome::Abort => Outcome::Abort,
    }
}

/// A whole module: its declaration, a newline or the end of input, then its
/// top-level expressions. Yields the path span and the final state.
pub open spec fn p_parse(src: Seq<u8>, st: PState) -> Outcome<(Span, PState)> {
    match p_module(src, st) {
        Outcome::Done((span, s1)) => {
            let k = s1.tok.kind;
            if k == TokenKind::Newline || k == TokenKind::Eof {
                match p_advance(src, s1) {
                    Some(s2) => match p_top(src, s2) {
                        Outcome::Done(s3) => Outcome::Done((span, s3)),
                        Outcome::Fail(e) => Outcome::Fail(e),
                        Outcome::Abort => Outcome::Abort,
                    },
                    None => Outcome::Abort,
                }
            } else {
                Outcome::Fail(expected_line_end(k))
            }
        },
        Outcome::Fail(e) => Outcome::Fail(e),
        Outcome::Abort => Outcome::Abort,
    }
}

/// The state of a parser that has just read its first token at `c`.
pub open spec fn initial_state(src: Seq<u8>, c: int) -> PState {
    PState {
        tok: lex_token(src, c),
        pos: lex(src, c).2,
        tree: Seq::empty(),
        roots: Seq::empty(),
        depth: 0,
    }
}

} // verus!
