//! The bytecode compiler: turns the top-level expressions of a parsed module
//! into a chunk named after the module.

use vstd::prelude::*;
use vstd::string::StringSliceAdditionalSpecFns;
use vstd::utf8::{decode_utf8, encode_utf8, is_char_boundary};
use crate::ast::{Expr, Literal, NodeId, Op, ParsedModule, SyntaxTree, UnaryOp, tree_get, tree_nodes};
use crate::bytecode::{Chunk, Opcode, opcode_byte};
use crate::chunk_table::ChunkTable;
use crate::semantics::{bounded, code, depth_bound, eval, expr_code, expr_value, finite_depth, lemma_exec_code, module_code, roots_code, roots_values, stmts_code};
use crate::lexer::{Lexer, lex_fits};
use crate::parser::{Parser, ParserError};
use crate::parser_spec::{Outcome, initial_state, p_parse};
use crate::span::Span;
use crate::text::span_on_boundaries;
use crate::value::Value;
use crate::vm::{exec_from, run_code, Step, step, VMError};

verus! {

/// `std::io::Error`, carried by [`CompilerError::StdIo`].
#[verifier::external_type_specification]
#[verifier::external_body]
pub struct ExIoError(std::io::Error);

/// What can go wrong when writing compiled chunks out.
#[derive(Debug)]
pub enum CompilerError {
    StdIo(std::io::Error),
}

/// Why source text could not be compiled.
#[derive(Debug)]
pub enum SourceError {
    /// The text is not a well-formed module.
    Parse(ParserError),
    /// The text goes beyond what the parser can hold, as
    /// [`Parser::parse_checked`] describes.
    LimitExceeded,
}

/// The text of `src` that a span covers, as characters.
pub open spec fn source_text(src: Seq<char>, span: Span) -> Seq<char> {
    decode_utf8(encode_utf8(src).subrange(span.start() as int, span.end() as int))
}

/// A span that lies within `src` and starts and ends on character boundaries.
pub open spec fn span_in_text(src: Seq<char>, span: Span) -> bool {
    span_on_boundaries(encode_utf8(src), span)
}

/// Compiles parsed modules to chunks, one per module, named by the module path.
pub struct Compiler {
    chunks: ChunkTable,
}

impl Compiler {
    /// The names of the chunks, in the order they were first compiled.
    pub closed spec fn names(&self) -> Seq<Seq<char>> {
        self.chunks.names()
    }
}

impl View for Compiler {
    type V = Map<Seq<char>, Chunk>;

    closed spec fn view(&self) -> Map<Seq<char>, Chunk> {
        self.chunks@
    }
}

/// The text `start .. start + len` of `src`.
fn source_slice(src: &str, start: usize, len: usize) -> (r: String)
    requires
        start + len <= src.spec_bytes().len(),
        is_char_boundary(src.spec_bytes(), start as int),
        is_char_boundary(src.spec_bytes(), start + len),
    ensures
        r@ == decode_utf8(src.spec_bytes().subrange(start as int, start + len)),
{
    let ghost bytes = src.spec_bytes();
    proof {
        vstd::utf8::encode_utf8_valid_utf8(src@);
    }
    let (_, rest) = src.split_at(start);
    proof {
        let rb = rest.spec_bytes();
        assert(rb =~= bytes.subrange(start as int, bytes.len() as int));
        vstd::utf8::encode_utf8_valid_utf8(rest@);
        if len as int == rb.len() {
            vstd::utf8::is_char_boundary_start_end_of_seq(rb);
        } else {
            vstd::utf8::is_char_boundary_iff_not_is_continuation_byte(rb, len as int);
            vstd::utf8::is_char_boundary_iff_not_is_continuation_byte(bytes, start + len);
            assert(rb[len as int] == bytes[start + len]);
        }
    }
    let (name, _) = rest.split_at(len);
    proof {
        assert(name.spec_bytes() =~= bytes.subrange(start as int, start + len));
        vstd::utf8::encode_utf8_decode_utf8(name@);
    }
    name.to_owned()
}

impl Compiler {
    /// A compiler with no chunks.
    pub fn new() -> (c: Compiler)
        ensures
            c@ == Map::<Seq<char>, Chunk>::empty(),
            c.names() == Seq::<Seq<char>>::empty(),
    {
        Compiler { chunks: ChunkTable::new() }
    }

    /// Appends the code of the node at `id` to `chunk`.
    fn compile_expr(&self, id: NodeId, tree: &SyntaxTree, chunk: &mut Chunk, Ghost(n): Ghost<nat>)
        requires
            bounded(tree_nodes(*tree), id, n),
        ensures
            final(chunk)@ == old(chunk)@ + code(tree_nodes(*tree), id, n),
            final(chunk).generation() == old(chunk).generation(),
        decreases n,
    {
        let ghost t = tree_nodes(*tree);
        let ghost nn = (n - 1) as nat;
        let node = tree_get(tree, id);
        match &node.expr {
            Expr::Literal(literal) => match literal {
                Literal::Int(i) => {
                    chunk.write_opcode(Opcode::PushInt);
                    chunk.write_i32(*i as i32);
                    assert(chunk@ =~= old(chunk)@ + code(t, id, n));
                },
            },
            Expr::BinaryOp { op, left, right } => {
                self.compile_expr(*left, tree, chunk, Ghost(nn));
                self.compile_expr(*right, tree, chunk, Ghost(nn));
                let opcode = match op {
                    Op::Add => Opcode::Add,
                    Op::Sub => Opcode::Sub,
                    Op::Mul => Opcode::Mul,
                    Op::Div => Opcode::Div,
                    Op::Rem => Opcode::Rem,
                };
                chunk.write_opcode(opcode);
                assert(chunk@ =~= old(chunk)@ + code(t, id, n));
            },
            Expr::UnaryOp { op, operand } => {
                self.compile_expr(*operand, tree, chunk, Ghost(nn));
                let opcode = match op {
                    UnaryOp::Neg => Opcode::Neg,
                };
                chunk.write_opcode(opcode);
                assert(chunk@ =~= old(chunk)@ + code(t, id, n));
            },
            Expr::Block { statements, tail } => {
                let ghost start = chunk@;
                let mut i: usize = 0;
                while i < statements.len()
                    invariant
                        0 <= i <= statements@.len(),
                        t == tree_nodes(*tree),
                        forall|k: int|
                            0 <= k < statements@.len() ==> bounded(t, #[trigger] statements@[k], nn),
                        chunk@ == start + stmts_code(t, statements@.take(i as int), nn),
                        chunk.generation() == old(chunk).generation(),
                        nn + 1 == n,
                    decreases statements@.len() - i,
                {
                    let ghost before = chunk@;
                    let sid = statements[i];
                    assert(bounded(t, statements@[i as int], nn));
                    self.compile_expr(sid, tree, chunk, Ghost(nn));
                    chunk.write_opcode(Opcode::Pop);
                    proof {
                        let s1 = statements@.take(i + 1);
                        assert(s1.drop_last() =~= statements@.take(i as int));
                        assert(s1.last() == sid);
                    }
                    i = i + 1;
                    assert(chunk@ =~= start + stmts_code(t, statements@.take(i as int), nn));
                }
                assert(statements@.take(i as int) =~= statements@);
                match tail {
                    Some(x) => {
                        self.compile_expr(*x, tree, chunk, Ghost(nn));
                    },
                    None => {
                        chunk.write_opcode(Opcode::PushUnit);
                    },
                }
                assert(chunk@ =~= old(chunk)@ + code(t, id, n));
            },
        }
    }

    /// Compiles the top-level expressions of `module`, in order, followed by
    /// `Halt`, into one chunk named by the module's path as it is written in
    /// `src`; a chunk of that name is replaced.
    pub fn read_module(&mut self, module: &ParsedModule, src: String)
        requires
            forall|i: int|
                0 <= i < module.expr_roots@.len() ==> finite_depth(
                    tree_nodes(module.tree),
                    #[trigger] module.expr_roots@[i],
                ),
            span_in_text(src@, module.decl.path_span),
        ensures
            ({
                let name = source_text(src@, module.decl.path_span);
                &&& final(self)@.contains_key(name)
                &&& final(self)@ == old(self)@.insert(name, final(self)@[name])
                &&& final(self)@[name]@ == module_code(tree_nodes(module.tree), module.expr_roots@)
                &&& final(self)@[name].generation() == 1
                &&& final(self).names() == if old(self)@.contains_key(name) {
                    old(self).names()
                } else {
                    old(self).names().push(name)
                }
            }),
    {
        let ghost t = tree_nodes(module.tree);
        let ghost roots = module.expr_roots@;
        let (module_start, module_len) = module.decl.path_span.unpack();
        let module_name = source_slice(src.as_str(), module_start, module_len);
        let mut chunk = Chunk::new();
        let mut i: usize = 0;
        while i < module.expr_roots.len()
            invariant
                0 <= i <= roots.len(),
                t == tree_nodes(module.tree),
                roots == module.expr_roots@,
                forall|k: int| 0 <= k < roots.len() ==> finite_depth(t, #[trigger] roots[k]),
                chunk@ == roots_code(t, roots.take(i as int)),
                chunk.generation() == 1,
            decreases roots.len() - i,
        {
            let id = module.expr_roots[i];
            assert(finite_depth(t, roots[i as int]));
            self.compile_expr(id, &module.tree, &mut chunk, Ghost(depth_bound(t, id)));
            proof {
                let r1 = roots.take(i + 1);
                assert(r1.drop_last() =~= roots.take(i as int));
                assert(r1.last() == id);
            }
            i = i + 1;
        }
        assert(roots.take(i as int) =~= roots);
        chunk.write_opcode(Opcode::Halt);
        self.chunks.insert(module_name, chunk);
    }

    /// Parses the module written in `src` and compiles it as
    /// [`Compiler::read_module`] does; returns the name of its chunk, or why
    /// the text could not be compiled.
    pub fn compile_source(&mut self, src: String) -> (r: Result<String, SourceError>)
        ensures
            !lex_fits(encode_utf8(src@), 0) ==> (r matches Err(SourceError::LimitExceeded))
                && final(self)@ == old(self)@ && final(self).names() == old(self).names(),
            lex_fits(encode_utf8(src@), 0) ==> match p_parse(
                encode_utf8(src@),
                initial_state(encode_utf8(src@), 0),
            ) {
                Outcome::Done((span, s)) => (r matches Ok(name) && {
                    &&& name@ == source_text(src@, span)
                    &&& final(self)@.contains_key(name@)
                    &&& final(self)@ == old(self)@.insert(name@, final(self)@[name@])
                    &&& final(self)@[name@]@ == module_code(s.tree, s.roots)
                    &&& final(self)@[name@].generation() == 1
                    &&& final(self).names() == if old(self)@.contains_key(name@) {
                        old(self).names()
                    } else {
                        old(self).names().push(name@)
                    }
                    &&& run_code(final(self)@[name@]@) == roots_values(s.tree, s.roots)
                }),
                Outcome::Fail(e) => (r matches Err(SourceError::Parse(err)) && err@ == e)
                    && final(self)@ == old(self)@ && final(self).names() == old(self).names(),
                Outcome::Abort => (r matches Err(SourceError::LimitExceeded)) && final(self)@ == old(
                    self,
                )@ && final(self).names() == old(self).names(),
            },
    {
        proof {
            vstd::utf8::encode_utf8_valid_utf8(src@);
        }
        let lexer = Lexer::new(src.as_str());
        if !lexer.next_fits() {
            return Err(SourceError::LimitExceeded);
        }
        let parser = Parser::new(lexer);
        let module = match parser.parse_checked() {
            Some(Ok(m)) => m,
            Some(Err(e)) => {
                return Err(SourceError::Parse(e));
            },
            None => {
                return Err(SourceError::LimitExceeded);
            },
        };
        let (start, len) = module.decl.path_span.unpack();
        let name = source_slice(src.as_str(), start, len);
        proof {
            lemma_module_code_runs(tree_nodes(module.tree), module.expr_roots@);
        }
        self.read_module(&module, src);
        Ok(name)
    }

    /// The chunk named `name`, if any.
    pub fn get_chunk(&self, name: String) -> (r: Option<&Chunk>)
        ensures
            r matches Some(c) ==> self@.contains_key(name@) && *c == self@[name@],
            r is None ==> !self@.contains_key(name@),
    {
        self.chunks.get(&name)
    }

    /// The names of all compiled chunks.
    pub fn chunk_names(&self) -> (r: Vec<String>)
        ensures
            forall|k: Seq<char>| self@.contains_key(k) <==> exists|i: int| 0 <= i < r@.len() && #[trigger] r@[i]@ == k,
            forall|i: int, j: int| 0 <= i < j < r@.len() ==> r@[i]@ != r@[j]@,
            r@.len() == self.names().len(),
            forall|i: int| 0 <= i < r@.len() ==> r@[i]@ == self.names()[i],
    {
        let r = self.chunks.names_vec();
        r
    }
}

/// The code of one expression followed by `Halt` runs to the expression's
/// value, alone on the stack, or stops with the error its evaluation raises.
pub proof fn lemma_expr_chunk_runs(t: Seq<crate::ast::Node>, id: NodeId)
    requires
        finite_depth(t, id),
    ensures
        run_code(expr_code(t, id).push(opcode_byte(Opcode::Halt))) == match expr_value(t, id) {
            Ok(v) => Ok(seq![v]),
            Err(e) => Err::<Seq<Value>, VMError>(e),
        },
{
    let n = depth_bound(t, id);
    let c = code(t, id, n);
    let chunk = c.push(opcode_byte(Opcode::Halt));
    assert(chunk.subrange(0, c.len() as int) =~= c);
    lemma_exec_code(t, id, n, chunk, 0, Seq::empty());
    match eval(t, id, n) {
        Ok(v) => {
            assert(Seq::<Value>::empty().push(v) =~= seq![v]);
            assert(chunk[c.len() as int] == opcode_byte(Opcode::Halt));
            assert(step(chunk, c.len() as int, seq![v]) == Step::Halted(seq![v]));
        },
        Err(e) => {},
    }
}

/// The chunk of a module runs to the values of its top-level expressions, in
/// source order, or stops with the first error their evaluation raises.
pub proof fn lemma_module_code_runs(t: Seq<crate::ast::Node>, roots: Seq<NodeId>)
    requires
        forall|i: int| 0 <= i < roots.len() ==> finite_depth(t, #[trigger] roots[i]),
    ensures
        run_code(module_code(t, roots)) == roots_values(t, roots),
{
    let mc = module_code(t, roots);
    let rc = roots_code(t, roots);
    lemma_roots_run(t, roots, roots.len() as int);
    assert(roots.take(roots.len() as int) =~= roots);
    let end = rc.len() as int;
    match roots_values(t, roots) {
        Err(e) => {},
        Ok(vs) => {
            assert(mc[end] == opcode_byte(Opcode::Halt));
            assert(step(mc, end, vs) == Step::Halted(vs));
        },
    }
}

/// Running a module's chunk through its first `k` top-level expressions.
proof fn lemma_roots_run(t: Seq<crate::ast::Node>, roots: Seq<NodeId>, k: int)
    requires
        forall|i: int| 0 <= i < roots.len() ==> finite_depth(t, #[trigger] roots[i]),
        0 <= k <= roots.len(),
    ensures
        run_code(module_code(t, roots)) == match roots_values(t, roots.take(k)) {
            Ok(vs) => exec_from(module_code(t, roots), roots_code(t, roots.take(k)).len() as int, vs),
            Err(e) => Err(e),
        },
    decreases k,
{
    let mc = module_code(t, roots);
    let rc = roots_code(t, roots);
    if k == 0 {
        assert(roots.take(0) =~= Seq::<NodeId>::empty());
    } else {
        lemma_roots_run(t, roots, k - 1);
        let pre = roots.take(k - 1);
        let nxt = roots.take(k);
        assert(nxt.drop_last() =~= pre);
        assert(nxt.last() == roots[k - 1]);
        assert(finite_depth(t, roots[k - 1]));
        let id = roots[k - 1];
        let n = depth_bound(t, id);
        let p = roots_code(t, pre).len() as int;
        let c = code(t, id, n);
        assert(roots_code(t, nxt) == roots_code(t, pre) + c);
        lemma_roots_code_prefix(t, roots, k);
        assert(rc.subrange(0, p + c.len()) == roots_code(t, nxt));
        assert(mc.subrange(p, p + c.len()) =~= c) by {
            assert(mc.subrange(p, p + c.len()) =~= rc.subrange(0, p + c.len()).subrange(p, p + c.len()));
        }
        match roots_values(t, pre) {
            Err(e) => {},
            Ok(vs) => {
                lemma_exec_code(t, id, n, mc, p, vs);
            },
        }
    }
}

/// The code of a prefix of the roots is a prefix of the code of all roots.
proof fn lemma_roots_code_prefix(t: Seq<crate::ast::Node>, roots: Seq<NodeId>, k: int)
    requires
        0 <= k <= roots.len(),
    ensures
        roots_code(t, roots.take(k)).len() <= roots_code(t, roots).len(),
        roots_code(t, roots).subrange(0, roots_code(t, roots.take(k)).len() as int) == roots_code(
            t,
            roots.take(k),
        ),
    decreases roots.len() - k,
{
    if k == roots.len() {
        assert(roots.take(k) =~= roots);
        assert(roots_code(t, roots).subrange(0, roots_code(t, roots).len() as int) =~= roots_code(t, roots));
    } else {
        lemma_roots_code_prefix(t, roots, k + 1);
        let a = roots_code(t, roots.take(k));
        let b = roots_code(t, roots.take(k + 1));
        assert(roots.take(k + 1).drop_last() =~= roots.take(k));
        assert(b == a + expr_code(t, roots.take(k + 1).last()));
        assert(roots_code(t, roots).subrange(0, a.len() as int) =~= b.subrange(0, a.len() as int));
    }
}

} // verus!
