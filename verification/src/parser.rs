//! The parser: reads a module declaration and top-level arithmetic
//! expressions from a lexer's tokens and builds their syntax tree.

use vstd::prelude::*;
use crate::ast::{
    Expr, Literal, ModuleDecl, Node, NodeId, Op, ParsedModule, SyntaxTree, UnaryOp, tree_alloc,
    tree_get, tree_len, tree_new, tree_nodes,
};
use crate::lexer::{Lexer, lex, lex_fits, lemma_lex, lemma_lex_boundaries};
use crate::semantics::{
    byte_between, grouped, grouping_ok, lemma_push_grouped, level,
    children, finite_depth, is_forest, lemma_push_nested, span_covers, spans_nested, tree_extends, lemma_occurrences_push, lemma_occurrences_small,
    lemma_operand_count_fresh, lemma_operand_count_push, lemma_wf_bounded, occurrences, operand_count,
    tree_wf,
};
use vstd::utf8::{is_char_boundary, valid_utf8};
use crate::parser_spec::{
    Outcome, PState, ParseFailure, all_digits, digits_value, initial_state, p_advance,
    p_allocate, p_expect, p_factor, p_factor_loop, p_module, p_module_loop, p_parse, p_primary,
    p_skip_newlines, p_term, p_term_loop, p_top_step, p_term_step, p_factor_step, p_top, p_unary, rem,
};
use crate::span::{MAX_SPAN_LEN, MAX_SPAN_START, Span};
use crate::tokens::{Token, TokenKind};
use crate::text::span_on_boundaries;

verus! {

/// Why parsing stopped.
#[derive(Debug)]
pub enum ParserError {
    /// The token found.
    UnexpectedToken(TokenKind),
    /// The token found and the token expected.
    TokenMismatch(TokenKind, TokenKind),
    /// The token found and the tokens one of which was expected.
    ExpectedOneOf(TokenKind, Vec<TokenKind>),
}

impl View for ParserError {
    type V = ParseFailure;

    open spec fn view(&self) -> ParseFailure {
        match self {
            ParserError::UnexpectedToken(k) => ParseFailure::UnexpectedToken(*k),
            ParserError::TokenMismatch(a, b) => ParseFailure::TokenMismatch(*a, *b),
            ParserError::ExpectedOneOf(k, v) => ParseFailure::ExpectedOneOf(*k, v@),
        }
    }
}

/// Why a parsing step stopped early: a parse error, or input beyond the
/// limits within which the parser works (see [`Outcome`]).
enum Stop {
    Error(ParserError),
    Limit,
}

/// Whether a result and a final state are what an outcome describes.
spec fn settles<T>(o: Outcome<(T, PState)>, r: Result<T, Stop>, s: PState) -> bool {
    match o {
        Outcome::Done((x, st)) => r == Ok::<T, Stop>(x) && s == st,
        Outcome::Fail(e) => (r matches Err(Stop::Error(err)) && err@ == e),
        Outcome::Abort => (r matches Err(Stop::Limit)),
    }
}

/// The nodes that `t1` adds to `t0` form one tree rooted at `id`: each of
/// them but `id` stands as an operand exactly once, `id` nowhere, and the
/// nodes of `t0` keep their counts.
spec fn adds_subtree(t0: Seq<Node>, t1: Seq<Node>, id: NodeId) -> bool {
    &&& t0.len() <= id.0 < t1.len()
    &&& forall|x: NodeId|
        #[trigger] operand_count(t1, x) == operand_count(t0, x) + if t0.len() <= x.0 < t1.len() && x
            != id {
            1nat
        } else {
            0nat
        }
}

/// The node stands in parentheses in `src`: a `(` lies from `lo` up to its
/// start and a `)` from its end up to `hi`.
spec fn wrapped(src: Seq<u8>, lo: int, node: Node, hi: int) -> bool {
    &&& byte_between(src, lo, node.span.start() as int, 0x28)
    &&& byte_between(src, node.span.end() as int, hi, 0x29)
}

/// A byte found in a range is found in any range around it.
proof fn lemma_between_widen(src: Seq<u8>, lo: int, hi: int, lo2: int, hi2: int, b: u8)
    requires
        byte_between(src, lo, hi, b),
        lo2 <= lo,
        hi <= hi2,
    ensures
        byte_between(src, lo2, hi2, b),
{
    let p = choose|p: int| lo <= p < hi && 0 <= p < src.len() && #[trigger] src[p] == b;
    assert(lo2 <= p < hi2 && 0 <= p < src.len() && src[p] == b);
}

/// How tightly a binary operator binds.
spec fn op_level(op: Op) -> int {
    if op == Op::Add || op == Op::Sub {
        1
    } else {
        2
    }
}

/// A binary node built over the trees of its two operands is the root of the
/// tree they form together.
proof fn lemma_join_binary(
    t0: Seq<Node>,
    t1: Seq<Node>,
    t2: Seq<Node>,
    t3: Seq<Node>,
    left: NodeId,
    right: NodeId,
    z: NodeId,
)
    requires
        tree_wf(t0),
        tree_wf(t1),
        tree_wf(t2),
        adds_subtree(t0, t1, left),
        adds_subtree(t1, t2, right),
        t3.len() == t2.len() + 1,
        z.0 == t2.len(),
        forall|x: NodeId|
            #[trigger] operand_count(t3, x) == operand_count(t2, x) + (if x == left {
                1nat
            } else {
                0nat
            }) + (if x == right {
                1nat
            } else {
                0nat
            }),
    ensures
        adds_subtree(t0, t3, z),
{
    assert forall|x: NodeId|
        #[trigger] operand_count(t3, x) == operand_count(t0, x) + if t0.len() <= x.0 < t3.len() && x
            != z {
            1nat
        } else {
            0nat
        } by {
        assert(operand_count(t1, x) == operand_count(t0, x) + if t0.len() <= x.0 < t1.len() && x
            != left {
            1nat
        } else {
            0nat
        });
        assert(operand_count(t2, x) == operand_count(t1, x) + if t1.len() <= x.0 < t2.len() && x
            != right {
            1nat
        } else {
            0nat
        });
        if x == left || x == right || x == z {
            lemma_operand_count_fresh(t0, x);
        }
        if x == right || x == z {
            lemma_operand_count_fresh(t1, x);
        }
        if x == z {
            lemma_operand_count_fresh(t2, x);
        }
    }
}

/// A negation built over the tree of its operand is the root of that tree.
proof fn lemma_join_unary(t0: Seq<Node>, t2: Seq<Node>, t3: Seq<Node>, operand: NodeId, z: NodeId)
    requires
        tree_wf(t0),
        tree_wf(t2),
        adds_subtree(t0, t2, operand),
        t3.len() == t2.len() + 1,
        z.0 == t2.len(),
        forall|x: NodeId|
            #[trigger] operand_count(t3, x) == operand_count(t2, x) + if x == operand {
                1nat
            } else {
                0nat
            },
    ensures
        adds_subtree(t0, t3, z),
{
    assert forall|x: NodeId|
        #[trigger] operand_count(t3, x) == operand_count(t0, x) + if t0.len() <= x.0 < t3.len() && x
            != z {
            1nat
        } else {
            0nat
        } by {
        assert(operand_count(t2, x) == operand_count(t0, x) + if t0.len() <= x.0 < t2.len() && x
            != operand {
            1nat
        } else {
            0nat
        });
        if x == operand || x == z {
            lemma_operand_count_fresh(t0, x);
        }
        if x == z {
            lemma_operand_count_fresh(t2, x);
        }
    }
}

/// Adding a tree of new nodes and recording its root keeps a forest a forest.
proof fn lemma_forest_grows(t0: Seq<Node>, r0: Seq<NodeId>, t1: Seq<Node>, r1: Seq<NodeId>)
    requires
        is_forest(t0, r0),
        tree_wf(t1),
        forall|i: int| 0 <= i < r1.len() ==> ((#[trigger] r1[i]).0 as int) < t1.len(),
        t0.len() <= t1.len(),
        forall|x: NodeId|
            #[trigger] operand_count(t1, x) + occurrences(r1, x) == operand_count(t0, x) + occurrences(
                r0,
                x,
            ) + if t0.len() <= x.0 < t1.len() {
                1nat
            } else {
                0nat
            },
    ensures
        is_forest(t1, r1),
{
    assert forall|x: NodeId| (x.0 as int) < t1.len() implies #[trigger] operand_count(t1, x)
        + occurrences(r1, x) == 1 by {
        assert(operand_count(t1, x) + occurrences(r1, x) == operand_count(t0, x) + occurrences(
            r0,
            x,
        ) + if t0.len() <= x.0 < t1.len() {
            1nat
        } else {
            0nat
        });
        if (x.0 as int) >= t0.len() {
            lemma_operand_count_fresh(t0, x);
            lemma_occurrences_absent_roots(r0, x, t0.len() as int);
        }
    }
}

/// A parser fresh from [`Parser::new`] holds an empty tree and no roots,
/// which is a forest; so what [`Parser::parse`] returns from it is a forest
/// whose roots are the module's top-level expressions.
pub proof fn lemma_initial_forest(src: Seq<u8>, c: int)
    ensures
        is_forest(initial_state(src, c).tree, initial_state(src, c).roots),
{
}

/// Roots that lie below `bound` do not include a node at or beyond it.
proof fn lemma_occurrences_absent_roots(r: Seq<NodeId>, x: NodeId, bound: int)
    requires
        forall|i: int| 0 <= i < r.len() ==> ((#[trigger] r[i]).0 as int) < bound,
        (x.0 as int) >= bound,
    ensures
        occurrences(r, x) == 0,
    decreases r.len(),
{
    if r.len() > 0 {
        lemma_occurrences_absent_roots(r.drop_last(), x, bound);
    }
}

/// Parses a module from the tokens of a lexer.
pub struct Parser<'a> {
    lexer: Lexer<'a>,
    current_token: Token,
    tree: SyntaxTree,
    expr_roots: Vec<NodeId>,
    paren_depth: u32,
    aligned: Ghost<bool>,
}

impl<'a> Parser<'a> {
    /// The bytes being parsed.
    pub closed spec fn source(&self) -> Seq<u8> {
        self.lexer.source()
    }

    /// The parser's state.
    pub closed spec fn state(&self) -> PState {
        PState {
            tok: self.current_token,
            pos: self.lexer.cursor() as int,
            tree: tree_nodes(self.tree),
            roots: self.expr_roots@,
            depth: self.paren_depth as int,
        }
    }

    /// Whether the parser started on valid UTF-8 at a character boundary.
    pub closed spec fn aligned(&self) -> bool {
        self.aligned@
    }

    /// The lexer's cursor lies within the input, right after the current
    /// token, which is empty only at the end of input; every node's operands
    /// were built before it, its span covers theirs, and it respects how
    /// operators group in the source; a parenthesis token stands on its byte;
    /// the top-level
    /// expressions are nodes of the tree; on aligned input the cursor and the current token's start are
    /// character boundaries.
    pub closed spec fn wf(&self) -> bool {
        &&& self.lexer.wf()
        &&& self.current_token.span.end() == self.lexer.cursor()
        &&& (self.current_token.kind != TokenKind::Eof ==> self.current_token.span.start()
            < self.current_token.span.end())
        &&& tree_wf(tree_nodes(self.tree))
        &&& spans_nested(tree_nodes(self.tree))
        &&& grouped(self.lexer.source(), tree_nodes(self.tree))
        &&& (self.current_token.kind == TokenKind::LParen ==> self.current_token.span.start()
            < self.lexer.source().len() && self.lexer.source()[self.current_token.span.start() as int]
            == 0x28)
        &&& (self.current_token.kind == TokenKind::RParen ==> self.current_token.span.start()
            < self.lexer.source().len() && self.lexer.source()[self.current_token.span.start() as int]
            == 0x29)
        &&& forall|i: int|
            0 <= i < self.expr_roots@.len() ==> ((#[trigger] self.expr_roots@[i]).0 as int) < tree_nodes(
                self.tree,
            ).len()
        &&& self.aligned@ ==> {
            &&& valid_utf8(self.lexer.source())
            &&& is_char_boundary(self.lexer.source(), self.current_token.span.start() as int)
            &&& is_char_boundary(self.lexer.source(), self.lexer.cursor() as int)
        }
    }

    /// A parser over the tokens of `lexer`, which reads its first token.
    pub fn new(lexer: Lexer<'a>) -> (p: Parser<'a>)
        requires
            lexer.wf(),
            lex_fits(lexer.source(), lexer.cursor() as int),
        ensures
            p.wf(),
            p.source() == lexer.source(),
            p.state() == initial_state(lexer.source(), lexer.cursor() as int),
            p.aligned() == (valid_utf8(lexer.source()) && is_char_boundary(
                lexer.source(),
                lexer.cursor() as int,
            )),
    {
        let ghost src = lexer.source();
        let ghost c = lexer.cursor() as int;
        let ghost al = valid_utf8(src) && is_char_boundary(src, c);
        proof {
            lemma_lex(src, c);
            Span::lemma_new(lex(src, c).1, lex(src, c).2);
            if al {
                lemma_lex_boundaries(src, c);
            }
        }
        let mut lexer = lexer;
        let current_token = lexer.next_token();
        let tree = tree_new();
        assert(tree_wf(tree_nodes(tree)));
        Parser {
            lexer,
            current_token,
            tree,
            expr_roots: Vec::new(),
            paren_depth: 0,
            aligned: Ghost(al),
        }
    }

    /// Parses the module: its declaration, then its top-level expressions.
    pub fn parse(self) -> (r: Result<ParsedModule, ParserError>)
        requires
            self.wf(),
            !(p_parse(self.source(), self.state()) is Abort),
        ensures
            match p_parse(self.source(), self.state()) {
                Outcome::Done((span, s)) => (r matches Ok(m) && m.decl.path_span == span
                    && tree_nodes(m.tree) == s.tree && m.expr_roots@ == s.roots),
                Outcome::Fail(e) => (r matches Err(err) && err@ == e),
                Outcome::Abort => false,
            },
            r matches Ok(m) ==> {
                &&& tree_wf(tree_nodes(m.tree))
                &&& spans_nested(tree_nodes(m.tree))
                &&& grouped(self.source(), tree_nodes(m.tree))
                &&& forall|i: int|
                    0 <= i < m.expr_roots@.len() ==> finite_depth(
                        tree_nodes(m.tree),
                        #[trigger] m.expr_roots@[i],
                    )
                &&& self.aligned() ==> span_on_boundaries(self.source(), m.decl.path_span)
                &&& is_forest(self.state().tree, self.state().roots) ==> is_forest(
                    tree_nodes(m.tree),
                    m.expr_roots@,
                )
            },
    {
        match self.parse_checked() {
            Some(r) => r,
            None => vstd::pervasive::unreached(),
        }
    }

    /// Parses the module as [`Parser::parse`] does, on any input: `None`
    /// where the input goes beyond what the parser can hold (a token, an
    /// expression or the module path longer than a span can cover, or
    /// starting beyond the largest span start; an integer literal beyond
    /// `i64`; more than `u32::MAX` nodes or nested parentheses).
    pub fn parse_checked(self) -> (r: Option<Result<ParsedModule, ParserError>>)
        requires
            self.wf(),
        ensures
            match p_parse(self.source(), self.state()) {
                Outcome::Done((span, s)) => (r matches Some(Ok(m)) && m.decl.path_span == span
                    && tree_nodes(m.tree) == s.tree && m.expr_roots@ == s.roots),
                Outcome::Fail(e) => (r matches Some(Err(err)) && err@ == e),
                Outcome::Abort => r is None,
            },
            r matches Some(Ok(m)) ==> {
                &&& tree_wf(tree_nodes(m.tree))
                &&& spans_nested(tree_nodes(m.tree))
                &&& grouped(self.source(), tree_nodes(m.tree))
                &&& forall|i: int|
                    0 <= i < m.expr_roots@.len() ==> finite_depth(
                        tree_nodes(m.tree),
                        #[trigger] m.expr_roots@[i],
                    )
                &&& self.aligned() ==> span_on_boundaries(self.source(), m.decl.path_span)
                &&& is_forest(self.state().tree, self.state().roots) ==> is_forest(
                    tree_nodes(m.tree),
                    m.expr_roots@,
                )
            },
    {
        let ghost src = self.source();
        let ghost st0 = self.state();
        let mut this = self;
        let span = match this.parse_module() {
            Ok(d) => d.path_span,
            Err(Stop::Error(e)) => {
                return Some(Err(e));
            },
            Err(Stop::Limit) => {
                return None;
            },
        };
        assert(this.aligned() ==> span_on_boundaries(src, span));
        let decl = ModuleDecl { path_span: span };
        let k = this.current_token.kind;
        if k == TokenKind::Newline || k == TokenKind::Eof {
            if !this.advance() {
                return None;
            }
        } else {
            let v = vec![TokenKind::Newline, TokenKind::Eof];
            assert(v@ =~= seq![TokenKind::Newline, TokenKind::Eof]);
            return Some(Err(ParserError::ExpectedOneOf(k, v)));
        }
        let ghost target = p_parse(src, st0);
        let ghost ttop = p_top(src, this.state());
        let ghost forest0 = is_forest(st0.tree, st0.roots);
        assert(this.state().tree == st0.tree && this.state().roots == st0.roots);
        assert(target == match ttop {
            Outcome::Done(s3) => Outcome::Done((span, s3)),
            Outcome::Fail(e) => Outcome::Fail(e),
            Outcome::Abort => Outcome::<(Span, PState)>::Abort,
        });
        let mut failure: Option<Stop> = None;
        loop
            invariant_except_break
                ttop == p_top(src, this.state()),
                failure is None,
                forest0 ==> is_forest(this.state().tree, this.state().roots),
            invariant
                this.wf(),
                this.source() == src,
            ensures
                this.wf(),
                failure is None ==> (forest0 ==> is_forest(this.state().tree, this.state().roots)),
                failure matches Some(Stop::Error(e)) ==> ttop == Outcome::<PState>::Fail(e@),
                failure matches Some(Stop::Limit) ==> ttop is Abort,
                failure is None ==> ttop == Outcome::Done(this.state()),
            decreases rem(src, this.state()),
        {
            let ghost before = this.state();
            match this.parse_item() {
                Ok(finished) => {
                    proof {
                        if forest0 {
                            lemma_forest_grows(
                                before.tree,
                                before.roots,
                                this.state().tree,
                                this.state().roots,
                            );
                        }
                    }
                    if finished {
                        break;
                    }
                },
                Err(e) => {
                    failure = Some(e);
                    break;
                },
            }
        }
        match failure {
            Some(Stop::Error(e)) => {
                return Some(Err(e));
            },
            Some(Stop::Limit) => {
                return None;
            },
            None => {},
        }
        proof {
            let t = tree_nodes(this.tree);
            assert forall|i: int| 0 <= i < this.expr_roots@.len() implies finite_depth(
                t,
                #[trigger] this.expr_roots@[i],
            ) by {
                lemma_wf_bounded(t, this.expr_roots@[i]);
            }
        }
        Some(Ok(ParsedModule { decl, tree: this.tree, expr_roots: this.expr_roots }))
    }

    /// One top-level item; `true` at the end of input.
    fn parse_item(&mut self) -> (r: Result<bool, Stop>)
        requires
            old(self).wf(),
        ensures
            final(self).wf(),
            final(self).source() == old(self).source(),
            final(self).aligned() == old(self).aligned(),
            old(self).state().tree.len() <= final(self).state().tree.len(),
            settles(p_top_step(old(self).source(), old(self).state()), r, final(self).state()),
            r == Ok::<bool, Stop>(false) ==> final(self).state().tok.span.start() > old(
                self,
            ).state().tok.span.start(),
            r is Ok ==> forall|x: NodeId|
                #[trigger] operand_count(final(self).state().tree, x) + occurrences(
                    final(self).state().roots,
                    x,
                ) == operand_count(old(self).state().tree, x) + occurrences(old(self).state().roots, x)
                    + if old(self).state().tree.len() <= x.0 < final(self).state().tree.len() {
                    1nat
                } else {
                    0nat
                },
    {
        reveal(p_top_step);
        let k = self.current_token.kind;
        if k == TokenKind::Int || k == TokenKind::LParen || k == TokenKind::Minus {
            let id = match self.parse_term() {
                Ok(id) => id,
                Err(e) => {
                    return Err(e);
                },
            };
            if self.current_token.kind == TokenKind::Newline {
                if !self.advance() {
                    return Err(Stop::Limit);
                }
            } else if self.current_token.kind != TokenKind::Eof {
                let v = vec![TokenKind::Newline, TokenKind::Eof];
                assert(v@ =~= seq![TokenKind::Newline, TokenKind::Eof]);
                return Err(Stop::Error(ParserError::ExpectedOneOf(self.current_token.kind, v)));
            }
            let ghost before = self.state();
            assert(adds_subtree(old(self).state().tree, before.tree, id));
            self.expr_roots.push(id);
            proof {
                let after = self.state();
                assert forall|x: NodeId| #[trigger] operand_count(after.tree, x) + occurrences(
                    after.roots,
                    x,
                ) == operand_count(old(self).state().tree, x) + occurrences(old(self).state().roots, x)
                    + if old(self).state().tree.len() <= x.0 < after.tree.len() {
                    1nat
                } else {
                    0nat
                } by {
                    lemma_occurrences_push(before.roots, id, x);
                    assert(after.roots == before.roots.push(id));
                    assert(operand_count(before.tree, x) == operand_count(old(self).state().tree, x)
                        + if old(self).state().tree.len() <= x.0 < before.tree.len() && x != id {
                        1nat
                    } else {
                        0nat
                    });
                }
            }
            Ok(false)
        } else if k == TokenKind::Newline {
            if !self.advance() {
                return Err(Stop::Limit);
            }
            Ok(false)
        } else if k == TokenKind::Eof {
            Ok(true)
        } else {
            Err(Stop::Error(ParserError::UnexpectedToken(k)))
        }
    }

    /// Reads the next token; `false`, with nothing read, when it does not fit
    /// in a span.
    fn advance(&mut self) -> (ok: bool)
        requires
            old(self).wf(),
        ensures
            final(self).wf(),
            final(self).source() == old(self).source(),
            final(self).aligned() == old(self).aligned(),
            ok == p_advance(old(self).source(), old(self).state()) is Some,
            ok ==> p_advance(old(self).source(), old(self).state()) == Some(final(self).state()),
            !ok ==> final(self).state() == old(self).state(),
            ok ==> final(self).state().tok.span.start() >= old(self).state().pos,
            final(self).state().tree == old(self).state().tree,
            final(self).state().roots == old(self).state().roots,
    {
        if !self.lexer.next_fits() {
            return false;
        }
        let ghost src = self.source();
        let ghost c = self.lexer.cursor() as int;
        proof {
            lemma_lex(src, c);
            Span::lemma_new(lex(src, c).1, lex(src, c).2);
            if self.aligned@ {
                lemma_lex_boundaries(src, c);
            }
        }
        self.current_token = self.lexer.next_token();
        true
    }

    /// Takes the current token if it has `kind`.
    fn expect(&mut self, kind: TokenKind) -> (r: Result<Token, Stop>)
        requires
            old(self).wf(),
        ensures
            final(self).wf(),
            final(self).source() == old(self).source(),
            final(self).aligned() == old(self).aligned(),
            final(self).state().tree == old(self).state().tree,
            settles(p_expect(old(self).source(), old(self).state(), kind), r, final(self).state()),
            r is Ok ==> final(self).state().tok.span.start() >= old(self).state().pos,
            r is Err ==> final(self).state() == old(self).state(),
            final(self).state().roots == old(self).state().roots,
    {
        let token = self.current_token;
        if token.kind != kind {
            return Err(Stop::Error(ParserError::TokenMismatch(token.kind, kind)));
        }
        if !self.advance() {
            return Err(Stop::Limit);
        }
        Ok(token)
    }

    /// Skips newline tokens; `false` when the token after one does not fit
    /// in a span.
    fn skip_newlines(&mut self) -> (ok: bool)
        requires
            old(self).wf(),
        ensures
            final(self).state().roots == old(self).state().roots,
            final(self).wf(),
            final(self).source() == old(self).source(),
            final(self).aligned() == old(self).aligned(),
            final(self).state().tree == old(self).state().tree,
            final(self).state().depth == old(self).state().depth,
            ok == p_skip_newlines(old(self).source(), old(self).state()) is Some,
            ok ==> p_skip_newlines(old(self).source(), old(self).state()) == Some(final(self).state()),
            final(self).state().tok.span.start() >= old(self).state().tok.span.start(),
    {
        let ghost src = self.source();
        let ghost st0 = self.state();
        while self.current_token.kind == TokenKind::Newline
            invariant
                self.wf(),
                self.source() == src,
                p_skip_newlines(src, st0) == p_skip_newlines(src, self.state()),
                self.aligned() == old(self).aligned(),
                self.state().tree == st0.tree,
                self.state().roots == st0.roots,
                self.state().depth == st0.depth,
                self.state().tok.span.start() >= st0.tok.span.start(),
                src == old(self).source(),
                st0 == old(self).state(),
            decreases rem(src, self.state()),
        {
            if !self.advance() {
                return false;
            }
        }
        true
    }

    /// Skips newline tokens while inside parentheses.
    fn skip_in_parens(&mut self) -> (ok: bool)
        requires
            old(self).wf(),
        ensures
            final(self).state().roots == old(self).state().roots,
            final(self).wf(),
            final(self).source() == old(self).source(),
            final(self).aligned() == old(self).aligned(),
            final(self).state().tree == old(self).state().tree,
            final(self).state().depth == old(self).state().depth,
            ok == crate::parser_spec::p_skip_in_parens(old(self).source(), old(self).state()) is Some,
            ok ==> crate::parser_spec::p_skip_in_parens(old(self).source(), old(self).state())
                == Some(final(self).state()),
            final(self).state().tok.span.start() >= old(self).state().tok.span.start(),
    {
        if self.paren_depth > 0 {
            self.skip_newlines()
        } else {
            true
        }
    }

    /// `module := "module" identifier ("." identifier)*`.
    fn parse_module(&mut self) -> (r: Result<ModuleDecl, Stop>)
        requires
            old(self).wf(),
        ensures
            final(self).wf(),
            final(self).source() == old(self).source(),
            final(self).aligned() == old(self).aligned(),
            r matches Ok(d) ==> (final(self).aligned() ==> span_on_boundaries(
                final(self).source(),
                d.path_span,
            )),
            final(self).state().tree == old(self).state().tree,
            final(self).state().roots == old(self).state().roots,
            match p_module(old(self).source(), old(self).state()) {
                Outcome::Done((span, s)) => (r matches Ok(d) && d.path_span == span
                    && final(self).state() == s),
                Outcome::Fail(e) => (r matches Err(Stop::Error(err)) && err@ == e),
                Outcome::Abort => (r matches Err(Stop::Limit)),
            },
    {
        let ghost src = self.source();
        match self.expect(TokenKind::Module) {
            Ok(_) => {},
            Err(e) => {
                return Err(e);
            },
        }
        let ghost t0 = self.current_token;
        let token = match self.expect(TokenKind::Identifier) {
            Ok(t) => t,
            Err(e) => {
                return Err(e);
            },
        };
        assert(token == t0);
        let (start, len) = token.span.unpack();
        proof {
            Span::lemma_bounds(token.span);
        }
        let mut end = start + len;
        let ghost s2 = self.state();
        let ghost target = p_module_loop(src, s2, token.span.end() as int);
        let mut failure: Option<Stop> = None;
        loop
            invariant_except_break
                target == p_module_loop(src, self.state(), end as int),
                failure is None,
            invariant
                self.wf(),
                self.source() == src,
                src == old(self).source(),
                p_module(src, old(self).state()) == match target {
                    Outcome::Done((e, s3)) => if Span::fits(start as int, e) {
                        Outcome::Done((Span::spec_new(start as int, e), s3))
                    } else {
                        Outcome::Abort
                    },
                    Outcome::Fail(e) => Outcome::Fail(e),
                    Outcome::Abort => Outcome::Abort,
                },
                start == token.span.start(),
                start <= MAX_SPAN_START,
                self.state().tree == old(self).state().tree,
                self.state().roots == old(self).state().roots,
                end <= MAX_SPAN_START + MAX_SPAN_LEN,
                self.aligned() == old(self).aligned(),
                self.aligned() ==> {
                    &&& end <= src.len()
                    &&& is_char_boundary(src, start as int)
                    &&& is_char_boundary(src, end as int)
                },
            ensures
                self.wf(),
                self.source() == src,
                failure is None ==> target == Outcome::Done((end as int, self.state())),
                failure matches Some(Stop::Error(e)) ==> target == Outcome::<(int, PState)>::Fail(e@),
                failure matches Some(Stop::Limit) ==> target is Abort,
            decreases rem(src, self.state()),
        {
            if self.current_token.kind != TokenKind::Dot {
                break;
            }
            if !self.advance() {
                failure = Some(Stop::Limit);
                break;
            }
            let ghost t1 = self.current_token;
            let token = match self.expect(TokenKind::Identifier) {
                Ok(t) => t,
                Err(e) => {
                    failure = Some(e);
                    break;
                },
            };
            assert(token == t1);
            let (start_offset, len_offset) = token.span.unpack();
            proof {
                Span::lemma_bounds(token.span);
            }
            end = start_offset + len_offset;
        }
        match failure {
            Some(e) => {
                return Err(e);
            },
            None => {},
        }
        let path_len = if end >= start {
            end - start
        } else {
            0
        };
        if path_len > MAX_SPAN_LEN {
            return Err(Stop::Limit);
        }
        let path_span = Span::new(start, end);
        Ok(ModuleDecl { path_span })
    }

    /// Builds the node of a binary operation; `None` when its span or the
    /// tree would grow beyond their limits.
    fn allocate(&mut self, left: NodeId, right: NodeId, op: Op) -> (r: Option<NodeId>)
        requires
            old(self).wf(),
            (left.0 as int) < old(self).state().tree.len(),
            (right.0 as int) < old(self).state().tree.len(),
            old(self).state().tree[left.0 as int].span.end() <= old(self).state().tree[right.0 as int].span.start(),
            level(old(self).state().tree[left.0 as int]) < op_level(op) ==> byte_between(
                old(self).source(),
                old(self).state().tree[left.0 as int].span.end() as int,
                old(self).state().tree[right.0 as int].span.start() as int,
                0x29,
            ),
            level(old(self).state().tree[right.0 as int]) <= op_level(op) ==> byte_between(
                old(self).source(),
                old(self).state().tree[left.0 as int].span.end() as int,
                old(self).state().tree[right.0 as int].span.start() as int,
                0x28,
            ),
        ensures
            r matches Some(z) ==> level(final(self).state().tree[z.0 as int]) == op_level(op),
            final(self).state().roots == old(self).state().roots,
            tree_extends(old(self).state().tree, final(self).state().tree),
            final(self).state().tok == old(self).state().tok,
            r matches Some(z) ==> final(self).state().tree[z.0 as int].span.start() == old(
                self,
            ).state().tree[left.0 as int].span.start() && final(self).state().tree[z.0 as int].span.end()
                == old(self).state().tree[right.0 as int].span.end(),
            final(self).wf(),
            final(self).source() == old(self).source(),
            final(self).aligned() == old(self).aligned(),
            old(self).state().tree.len() <= final(self).state().tree.len(),
            match p_allocate(old(self).state(), left, right, op) {
                Outcome::Done((id, s)) => r == Some(id) && final(self).state() == s,
                _ => r is None,
            },
            r matches Some(id) ==> (id.0 as int) < final(self).state().tree.len(),
            r matches Some(z) ==> {
                &&& z.0 == old(self).state().tree.len()
                &&& final(self).state().tree.len() == old(self).state().tree.len() + 1
                &&& forall|x: NodeId|
                    #[trigger] operand_count(final(self).state().tree, x) == operand_count(
                        old(self).state().tree,
                        x,
                    ) + (if x == left {
                        1nat
                    } else {
                        0nat
                    }) + (if x == right {
                        1nat
                    } else {
                        0nat
                    })
            },
    {
        let (left_start, _) = tree_get(&self.tree, left).span.unpack();
        let (right_start, len) = tree_get(&self.tree, right).span.unpack();
        proof {
            Span::lemma_bounds(tree_nodes(self.tree)[left.0 as int].span);
            Span::lemma_bounds(tree_nodes(self.tree)[right.0 as int].span);
        }
        let end = right_start + len;
        let span_len = if end >= left_start {
            end - left_start
        } else {
            0
        };
        if span_len > MAX_SPAN_LEN || tree_len(&self.tree) >= 0xFFFF_FFFFusize {
            return None;
        }
        let span = Span::new(left_start, end);
        let ghost t0 = tree_nodes(self.tree);
        let node = Node { expr: Expr::BinaryOp { op, left, right }, span };
        let ghost gnode = node;
        let id = tree_alloc(&mut self.tree, node);
        proof {
            let t = tree_nodes(self.tree);
            assert(span_covers(t, t0.len() as int));
            lemma_push_nested(t0, gnode);
            assert(grouping_ok(self.source(), t, t0.len() as int));
            lemma_push_grouped(self.source(), t0, gnode);
            assert forall|x: NodeId| #[trigger] operand_count(t, x) == operand_count(t0, x) + (if x
                == left {
                1nat
            } else {
                0nat
            }) + (if x == right {
                1nat
            } else {
                0nat
            }) by {
                lemma_operand_count_push(t0, gnode, x);
                lemma_occurrences_small(left, right, x);
            }
            assert forall|i: int| 0 <= i < t.len() implies crate::semantics::operands_before(#[trigger] t[i], i) by {
                if i < t0.len() {
                    assert(t[i] == t0[i]);
                }
            }
        }
        Some(id)
    }

    /// `term := factor (("+" | "-") factor)*`.
    fn parse_term(&mut self) -> (r: Result<NodeId, Stop>)
        requires
            old(self).wf(),
        ensures
            final(self).state().roots == old(self).state().roots,
            final(self).wf(),
            final(self).source() == old(self).source(),
            final(self).aligned() == old(self).aligned(),
            old(self).state().tree.len() <= final(self).state().tree.len(),
            settles(p_term(old(self).source(), old(self).state()), r, final(self).state()),
            r matches Ok(id) ==> {
                &&& (id.0 as int) < final(self).state().tree.len()
                &&& final(self).state().tok.span.start() > old(self).state().tok.span.start()
                &&& final(self).state().depth == old(self).state().depth
                &&& adds_subtree(old(self).state().tree, final(self).state().tree, id)
                &&& old(self).state().tok.span.start() <= final(self).state().tree[id.0 as int].span.start()
                &&& final(self).state().tree[id.0 as int].span.end() <= final(self).state().tok.span.start()
            },
            tree_extends(old(self).state().tree, final(self).state().tree),
        decreases rem(old(self).source(), old(self).state()), 5int,
    {
        let ghost src = self.source();
        let ghost st0 = self.state();
        assert(tree_wf(st0.tree));
        let mut left = match self.parse_factor() {
            Ok(l) => l,
            Err(e) => {
                return Err(e);
            },
        };
        let ghost target = p_term(src, st0);
        let mut failure: Option<Stop> = None;
        loop
            invariant_except_break
                target == p_term_loop(src, self.state(), left),
                failure is None,
                (left.0 as int) < self.state().tree.len(),
                adds_subtree(st0.tree, self.state().tree, left),
                st0.tok.span.start() <= self.state().tree[left.0 as int].span.start(),
                self.state().tree[left.0 as int].span.end() <= self.state().tok.span.start(),
                self.state().tok.span.start() > st0.tok.span.start(),
                self.state().depth == st0.depth,
            invariant
                self.wf(),
                self.source() == src,
                src == old(self).source(),
                st0 == old(self).state(),
                self.aligned() == old(self).aligned(),
                st0.tree.len() <= self.state().tree.len(),
                tree_wf(st0.tree),
                self.state().roots == st0.roots,
                tree_extends(st0.tree, self.state().tree),
            ensures
                tree_extends(st0.tree, self.state().tree),
                failure is None ==> st0.tok.span.start() <= self.state().tree[left.0 as int].span.start()
                    && self.state().tree[left.0 as int].span.end() <= self.state().tok.span.start(),
                self.wf(),
                self.source() == src,
                self.aligned() == old(self).aligned(),
                st0.tree.len() <= self.state().tree.len(),
                failure is None ==> target == Outcome::Done((left, self.state())) && (left.0 as int)
                    < self.state().tree.len() && self.state().tok.span.start()
                    > st0.tok.span.start() && self.state().depth == st0.depth && adds_subtree(
                    st0.tree,
                    self.state().tree,
                    left,
                ),
                failure matches Some(Stop::Error(e)) ==> target == Outcome::<(NodeId, PState)>::Fail(
                    e@,
                ),
                failure matches Some(Stop::Limit) ==> target is Abort,
            decreases rem(src, self.state()),
        {
            let ghost s = self.state();
            let ghost step = p_term_step(src, s, left);
            assert(0 <= rem(src, s));
            if !self.skip_in_parens() {
                assert(step is Abort);
                failure = Some(Stop::Limit);
                break;
            }
            let op = if self.current_token.kind == TokenKind::Plus {
                Op::Add
            } else if self.current_token.kind == TokenKind::Minus {
                Op::Sub
            } else {
                break;
            };
            if !self.advance() {
                failure = Some(Stop::Limit);
                break;
            }
            if !self.skip_newlines() {
                failure = Some(Stop::Limit);
                break;
            }
            let ghost s3 = self.state();
            let right = match self.parse_factor() {
                Ok(r) => r,
                Err(e) => {
                    failure = Some(e);
                    break;
                },
            };
            let ghost mid = self.state().tree;
            assert(mid[left.0 as int] == s.tree[left.0 as int]);
            assert(mid[left.0 as int].span.end() <= s3.tok.span.start());
            proof {
                let l = mid[left.0 as int];
                let rn = mid[right.0 as int];
                if level(rn) <= op_level(op) {
                    lemma_between_widen(
                        src,
                        s3.tok.span.start() as int,
                        rn.span.start() as int,
                        l.span.end() as int,
                        rn.span.start() as int,
                        0x28,
                    );
                }
            }
            match self.allocate(left, right, op) {
                Some(id) => {
                    proof {
                        lemma_join_binary(st0.tree, s.tree, mid, self.state().tree, left, right, id);
                    }
                    left = id;
                },
                None => {
                    failure = Some(Stop::Limit);
                    break;
                },
            }
        }
        match failure {
            Some(e) => Err(e),
            None => Ok(left),
        }
    }

    /// `factor := unary (("*" | "/" | "%") unary)*`.
    #[verifier::rlimit(80)]
    fn parse_factor(&mut self) -> (r: Result<NodeId, Stop>)
        requires
            old(self).wf(),
        ensures
            final(self).state().roots == old(self).state().roots,
            final(self).wf(),
            final(self).source() == old(self).source(),
            final(self).aligned() == old(self).aligned(),
            old(self).state().tree.len() <= final(self).state().tree.len(),
            settles(p_factor(old(self).source(), old(self).state()), r, final(self).state()),
            r matches Ok(id) ==> {
                &&& (id.0 as int) < final(self).state().tree.len()
                &&& final(self).state().tok.span.start() > old(self).state().tok.span.start()
                &&& final(self).state().depth == old(self).state().depth
                &&& adds_subtree(old(self).state().tree, final(self).state().tree, id)
                &&& old(self).state().tok.span.start() <= final(self).state().tree[id.0 as int].span.start()
                &&& final(self).state().tree[id.0 as int].span.end() <= final(self).state().tok.span.start()
            },
            r matches Ok(id) ==> (level(final(self).state().tree[id.0 as int]) < 2 ==> wrapped(
                final(self).source(),
                old(self).state().tok.span.start() as int,
                final(self).state().tree[id.0 as int],
                final(self).state().tok.span.start() as int,
            )),
            tree_extends(old(self).state().tree, final(self).state().tree),
        decreases rem(old(self).source(), old(self).state()), 4int,
    {
        let ghost src = self.source();
        let ghost st0 = self.state();
        assert(tree_wf(st0.tree));
        let mut left = match self.parse_unary() {
            Ok(l) => l,
            Err(e) => {
                return Err(e);
            },
        };
        let ghost target = p_factor(src, st0);
        let mut failure: Option<Stop> = None;
        loop
            invariant_except_break
                target == p_factor_loop(src, self.state(), left),
                failure is None,
                (left.0 as int) < self.state().tree.len(),
                level(self.state().tree[left.0 as int]) < 2 ==> wrapped(
                    src,
                    st0.tok.span.start() as int,
                    self.state().tree[left.0 as int],
                    self.state().tok.span.start() as int,
                ),
                adds_subtree(st0.tree, self.state().tree, left),
                st0.tok.span.start() <= self.state().tree[left.0 as int].span.start(),
                self.state().tree[left.0 as int].span.end() <= self.state().tok.span.start(),
                self.state().tok.span.start() > st0.tok.span.start(),
                self.state().depth == st0.depth,
            invariant
                self.wf(),
                self.source() == src,
                src == old(self).source(),
                st0 == old(self).state(),
                self.aligned() == old(self).aligned(),
                st0.tree.len() <= self.state().tree.len(),
                tree_wf(st0.tree),
                self.state().roots == st0.roots,
                tree_extends(st0.tree, self.state().tree),
            ensures
                tree_extends(st0.tree, self.state().tree),
                failure is None ==> st0.tok.span.start() <= self.state().tree[left.0 as int].span.start()
                    && self.state().tree[left.0 as int].span.end() <= self.state().tok.span.start(),
                failure is None ==> (level(self.state().tree[left.0 as int]) < 2 ==> wrapped(
                    src,
                    st0.tok.span.start() as int,
                    self.state().tree[left.0 as int],
                    self.state().tok.span.start() as int,
                )),
                self.wf(),
                self.source() == src,
                self.aligned() == old(self).aligned(),
                st0.tree.len() <= self.state().tree.len(),
                failure is None ==> target == Outcome::Done((left, self.state())) && (left.0 as int)
                    < self.state().tree.len() && self.state().tok.span.start()
                    > st0.tok.span.start() && self.state().depth == st0.depth && adds_subtree(
                    st0.tree,
                    self.state().tree,
                    left,
                ),
                failure matches Some(Stop::Error(e)) ==> target == Outcome::<(NodeId, PState)>::Fail(
                    e@,
                ),
                failure matches Some(Stop::Limit) ==> target is Abort,
            decreases rem(src, self.state()),
        {
            let ghost s = self.state();
            let ghost step = p_factor_step(src, s, left);
            assert(0 <= rem(src, s));
            if !self.skip_in_parens() {
                assert(step is Abort);
                failure = Some(Stop::Limit);
                break;
            }
            let op = if self.current_token.kind == TokenKind::Star {
                Op::Mul
            } else if self.current_token.kind == TokenKind::Slash {
                Op::Div
            } else if self.current_token.kind == TokenKind::Percent {
                Op::Rem
            } else {
                proof {
                    if level(self.state().tree[left.0 as int]) < 2 {
                        lemma_between_widen(
                            src,
                            self.state().tree[left.0 as int].span.end() as int,
                            s.tok.span.start() as int,
                            self.state().tree[left.0 as int].span.end() as int,
                            self.state().tok.span.start() as int,
                            0x29,
                        );
                    }
                }
                break;
            };
            if !self.advance() {
                failure = Some(Stop::Limit);
                break;
            }
            if !self.skip_newlines() {
                failure = Some(Stop::Limit);
                break;
            }
            let ghost s3 = self.state();
            let right = match self.parse_unary() {
                Ok(r) => r,
                Err(e) => {
                    failure = Some(e);
                    break;
                },
            };
            let ghost mid = self.state().tree;
            assert(mid[left.0 as int] == s.tree[left.0 as int]);
            assert(mid[left.0 as int].span.end() <= s3.tok.span.start());
            proof {
                let l = mid[left.0 as int];
                let rn = mid[right.0 as int];
                if level(l) < op_level(op) {
                    lemma_between_widen(
                        src,
                        l.span.end() as int,
                        s.tok.span.start() as int,
                        l.span.end() as int,
                        rn.span.start() as int,
                        0x29,
                    );
                }
                if level(rn) <= op_level(op) {
                    lemma_between_widen(
                        src,
                        s3.tok.span.start() as int,
                        rn.span.start() as int,
                        l.span.end() as int,
                        rn.span.start() as int,
                        0x28,
                    );
                }
            }
            match self.allocate(left, right, op) {
                Some(id) => {
                    proof {
                        lemma_join_binary(st0.tree, s.tree, mid, self.state().tree, left, right, id);
                    }
                    left = id;
                },
                None => {
                    failure = Some(Stop::Limit);
                    break;
                },
            }
        }
        match failure {
            Some(e) => Err(e),
            None => Ok(left),
        }
    }

    /// `unary := "-" unary | primary`.
    fn parse_unary(&mut self) -> (r: Result<NodeId, Stop>)
        requires
            old(self).wf(),
        ensures
            final(self).state().roots == old(self).state().roots,
            final(self).wf(),
            final(self).source() == old(self).source(),
            final(self).aligned() == old(self).aligned(),
            old(self).state().tree.len() <= final(self).state().tree.len(),
            settles(p_unary(old(self).source(), old(self).state()), r, final(self).state()),
            r matches Ok(id) ==> {
                &&& (id.0 as int) < final(self).state().tree.len()
                &&& final(self).state().tok.span.start() > old(self).state().tok.span.start()
                &&& final(self).state().depth == old(self).state().depth
                &&& adds_subtree(old(self).state().tree, final(self).state().tree, id)
                &&& old(self).state().tok.span.start() <= final(self).state().tree[id.0 as int].span.start()
                &&& final(self).state().tree[id.0 as int].span.end() <= final(self).state().tok.span.start()
            },
            r matches Ok(id) ==> (level(final(self).state().tree[id.0 as int]) < 3 ==> wrapped(
                final(self).source(),
                old(self).state().tok.span.start() as int,
                final(self).state().tree[id.0 as int],
                final(self).state().tok.span.start() as int,
            )),
            tree_extends(old(self).state().tree, final(self).state().tree),
        decreases rem(old(self).source(), old(self).state()), 3int,
    {
        let ghost t_old = self.state().tree;
        assert(tree_wf(t_old));
        if self.current_token.kind == TokenKind::Minus {
            let (start, _) = self.current_token.span.unpack();
            proof {
                Span::lemma_bounds(self.current_token.span);
            }
            if !self.advance() {
                return Err(Stop::Limit);
            }
            if !self.skip_newlines() {
                return Err(Stop::Limit);
            }
            let operand = match self.parse_unary() {
                Ok(o) => o,
                Err(e) => {
                    return Err(e);
                },
            };
            let (op_start, op_len) = tree_get(&self.tree, operand).span.unpack();
            proof {
                Span::lemma_bounds(tree_nodes(self.tree)[operand.0 as int].span);
            }
            let end = op_start + op_len;
            let span_len = if end >= start {
                end - start
            } else {
                0
            };
            if span_len > MAX_SPAN_LEN || tree_len(&self.tree) >= 0xFFFF_FFFFusize {
                return Err(Stop::Limit);
            }
            let node = Node {
                expr: Expr::UnaryOp { op: UnaryOp::Neg, operand },
                span: Span::new(start, end),
            };
            let ghost t2 = self.state().tree;
            let ghost gnode = node;
            let id = tree_alloc(&mut self.tree, node);
            proof {
                let t3 = self.state().tree;
                assert(span_covers(t3, t2.len() as int));
                lemma_push_nested(t2, gnode);
                assert(grouping_ok(self.source(), t3, t2.len() as int));
                lemma_push_grouped(self.source(), t2, gnode);
                assert(tree_extends(t_old, t3));
                assert forall|x: NodeId| #[trigger] operand_count(t3, x) == operand_count(t2, x) + if x
                    == operand {
                    1nat
                } else {
                    0nat
                } by {
                    lemma_operand_count_push(t2, gnode, x);
                    lemma_occurrences_small(operand, operand, x);
                }
                lemma_join_unary(t_old, t2, t3, operand, id);
            }
            return Ok(id);
        }
        self.parse_primary()
    }

    /// `primary := int | "(" term ")"`.
    #[verifier::rlimit(40)]
    fn parse_primary(&mut self) -> (r: Result<NodeId, Stop>)
        requires
            old(self).wf(),
        ensures
            final(self).state().roots == old(self).state().roots,
            final(self).wf(),
            final(self).source() == old(self).source(),
            final(self).aligned() == old(self).aligned(),
            old(self).state().tree.len() <= final(self).state().tree.len(),
            settles(p_primary(old(self).source(), old(self).state()), r, final(self).state()),
            r matches Ok(id) ==> {
                &&& (id.0 as int) < final(self).state().tree.len()
                &&& final(self).state().tok.span.start() > old(self).state().tok.span.start()
                &&& final(self).state().depth == old(self).state().depth
                &&& adds_subtree(old(self).state().tree, final(self).state().tree, id)
                &&& old(self).state().tok.span.start() <= final(self).state().tree[id.0 as int].span.start()
                &&& final(self).state().tree[id.0 as int].span.end() <= final(self).state().tok.span.start()
            },
            r matches Ok(id) ==> (level(final(self).state().tree[id.0 as int]) < 3 ==> wrapped(
                final(self).source(),
                old(self).state().tok.span.start() as int,
                final(self).state().tree[id.0 as int],
                final(self).state().tok.span.start() as int,
            )),
            tree_extends(old(self).state().tree, final(self).state().tree),
        decreases rem(old(self).source(), old(self).state()), 2int,
    {
        let ghost src = self.source();
        if self.current_token.kind == TokenKind::Int {
            let (start, len) = self.current_token.span.unpack();
            proof {
                Span::lemma_bounds(self.current_token.span);
            }
            let text = vstd::slice::slice_subrange(self.lexer.bytes(), start, start + len);
            let literal = match decimal_value(text) {
                Some(v) => v,
                None => {
                    return Err(Stop::Limit);
                },
            };
            if tree_len(&self.tree) >= 0xFFFF_FFFFusize {
                return Err(Stop::Limit);
            }
            let node = Node { expr: Expr::Literal(Literal::Int(literal)), span: self.current_token.span };
            let ghost t0 = self.state().tree;
            let ghost gnode = node;
            let idx = tree_alloc(&mut self.tree, node);
            proof {
                let t1 = self.state().tree;
                lemma_push_nested(t0, gnode);
                lemma_push_grouped(self.source(), t0, gnode);
                assert forall|x: NodeId| #[trigger] operand_count(t1, x) == operand_count(t0, x) + if t0.len()
                    <= x.0 < t1.len() && x != idx {
                    1nat
                } else {
                    0nat
                } by {
                    lemma_operand_count_push(t0, gnode, x);
                    lemma_occurrences_small(idx, idx, x);
                }
                assert(adds_subtree(t0, t1, idx));
            }
            if !self.advance() {
                return Err(Stop::Limit);
            }
            Ok(idx)
        } else if self.current_token.kind == TokenKind::LParen {
            if self.paren_depth == 0xFFFF_FFFFu32 {
                return Err(Stop::Limit);
            }
            self.paren_depth = self.paren_depth + 1;
            if !self.advance() {
                return Err(Stop::Limit);
            }
            if !self.skip_newlines() {
                return Err(Stop::Limit);
            }
            let idx = match self.parse_term() {
                Ok(i) => i,
                Err(e) => {
                    return Err(e);
                },
            };
            self.paren_depth = self.paren_depth - 1;
            match self.expect(TokenKind::RParen) {
                Ok(_) => {},
                Err(e) => {
                    return Err(e);
                },
            }
            Ok(idx)
        } else {
            Err(Stop::Error(ParserError::UnexpectedToken(self.current_token.kind)))
        }
    }
}

/// A string of digits is worth at least as much as any of its prefixes, and
/// nothing negative.
proof fn lemma_digits_prefix(s: Seq<u8>, k: int)
    requires
        all_digits(s),
        0 <= k <= s.len(),
    ensures
        0 <= digits_value(s.take(k)) <= digits_value(s),
    decreases s.len(),
{
    if k == s.len() {
        assert(s.take(k) =~= s);
        if s.len() > 0 {
            lemma_digits_prefix(s.drop_last(), k - 1);
            assert(s.drop_last().take(k - 1) =~= s.drop_last());
        }
    } else {
        assert(all_digits(s.drop_last()));
        lemma_digits_prefix(s.drop_last(), k);
        assert(s.drop_last().take(k) =~= s.take(k));
        lemma_digits_prefix(s.drop_last(), s.len() - 1);
        assert(s.drop_last().take(s.len() - 1) =~= s.drop_last());
    }
}

/// The value of a non-empty string of decimal digits, or `None` when the
/// string is empty, holds another byte, or is worth more than `i64::MAX`.
fn decimal_value(text: &[u8]) -> (r: Option<i64>)
    ensures
        r == (if text@.len() > 0 && all_digits(text@) && digits_value(text@) <= i64::MAX {
            Some(digits_value(text@) as i64)
        } else {
            None::<i64>
        }),
{
    if text.len() == 0 {
        return None;
    }
    let mut acc: i64 = 0;
    let mut i: usize = 0;
    while i < text.len()
        invariant
            0 <= i <= text@.len(),
            all_digits(text@.take(i as int)),
            acc == digits_value(text@.take(i as int)),
            0 <= acc,
        decreases text@.len() - i,
    {
        let b = text[i];
        let ghost t = text@.take(i + 1);
        proof {
            assert(t.drop_last() =~= text@.take(i as int));
            assert(t.last() == b);
        }
        if b < 0x30u8 || b > 0x39u8 {
            proof {
                assert(!all_digits(text@)) by {
                    assert(text@[i as int] == b);
                }
            }
            return None;
        }
        let d = (b - 0x30u8) as i64;
        let next = match acc.checked_mul(10) {
            Some(m) => m.checked_add(d),
            None => None,
        };
        match next {
            Some(v) => {
                acc = v;
            },
            None => {
                proof {
                    if all_digits(text@) {
                        lemma_digits_prefix(text@, i + 1);
                    }
                }
                return None;
            },
        }
        i = i + 1;
        proof {
            assert(all_digits(text@.take(i as int))) by {
                assert forall|j: int| 0 <= j < i implies 0x30 <= #[trigger] text@.take(i as int)[j] <= 0x39 by {
                    if j < i - 1 {
                        assert(text@.take(i as int)[j] == text@.take(i - 1)[j]);
                    }
                }
            }
        }
    }
    assert(text@.take(i as int) =~= text@);
    Some(acc)
}

} // verus!
