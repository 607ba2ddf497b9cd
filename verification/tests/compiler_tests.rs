use juan::ast::{Expr, Literal, ModuleDecl, Node, NodeId, Op, ParsedModule, UnaryOp};
use juan::compiler::{Compiler, SourceError};
use juan::parser::ParserError;
use juan::span::Span;
use juan::tokens::TokenKind;
use juan::value::Value;
use juan::vm::{VMError, VM};

fn node(expr: Expr) -> Node {
    Node { expr, span: Span::new(0, 0) }
}

fn lit(i: i64) -> Node {
    node(Expr::Literal(Literal::Int(i)))
}

/// A module declared as `module math` whose tree holds `nodes` and whose
/// top-level expressions are `roots`.
fn module(nodes: Vec<Node>, roots: Vec<u32>) -> ParsedModule {
    let mut tree = la_arena::Arena::new();
    for n in nodes {
        tree.alloc(n);
    }
    ParsedModule {
        tree,
        expr_roots: roots.into_iter().map(NodeId).collect(),
        decl: ModuleDecl { path_span: Span::new(7, 11) },
    }
}

/// Compiles `m` from the text `module math` and runs its chunk.
fn compile_and_run(m: &ParsedModule) -> (Vec<u8>, Result<Vec<Value>, VMError>) {
    let mut compiler = Compiler::new();
    compiler.read_module(m, String::from("module math"));
    let chunk = compiler.get_chunk(String::from("math")).unwrap().clone();
    let bytes = chunk.bytes().to_vec();
    let mut vm = VM::new();
    vm.load(String::from("math"), chunk).unwrap();
    (bytes, vm.run(String::from("math")))
}

#[test]
fn compiles_a_binary_expression() {
    // 1 + 2 * 3
    let m = module(
        vec![
            lit(1),
            lit(2),
            lit(3),
            node(Expr::BinaryOp { op: Op::Mul, left: NodeId(1), right: NodeId(2) }),
            node(Expr::BinaryOp { op: Op::Add, left: NodeId(0), right: NodeId(3) }),
        ],
        vec![4],
    );
    let (bytes, result) = compile_and_run(&m);
    assert_eq!(
        bytes,
        vec![0, 1, 0, 0, 0, 0, 2, 0, 0, 0, 0, 3, 0, 0, 0, 4, 1, 2]
    );
    assert_eq!(result.unwrap(), vec![Value::I32(7)]);
}

#[test]
fn every_top_level_expression_leaves_its_value() {
    let m = module(
        vec![
            lit(8),
            lit(3),
            node(Expr::BinaryOp { op: Op::Sub, left: NodeId(0), right: NodeId(1) }),
            node(Expr::BinaryOp { op: Op::Div, left: NodeId(0), right: NodeId(1) }),
            node(Expr::BinaryOp { op: Op::Rem, left: NodeId(0), right: NodeId(1) }),
        ],
        vec![2, 3, 4],
    );
    let (_, result) = compile_and_run(&m);
    assert_eq!(result.unwrap(), vec![Value::I32(5), Value::I32(2), Value::I32(2)]);
}

#[test]
fn compiles_negation() {
    let m = module(vec![lit(4), node(Expr::UnaryOp { op: UnaryOp::Neg, operand: NodeId(0) })], vec![1]);
    let (bytes, result) = compile_and_run(&m);
    assert_eq!(bytes, vec![0, 4, 0, 0, 0, 7, 2]);
    assert_eq!(result.unwrap(), vec![Value::I32(-4)]);
}

#[test]
fn a_block_discards_its_statements_and_keeps_its_tail() {
    let m = module(
        vec![lit(1), lit(2), node(Expr::Block { statements: vec![NodeId(0)], tail: Some(NodeId(1)) })],
        vec![2],
    );
    let (bytes, result) = compile_and_run(&m);
    assert_eq!(bytes, vec![0, 1, 0, 0, 0, 8, 0, 2, 0, 0, 0, 2]);
    assert_eq!(result.unwrap(), vec![Value::I32(2)]);
}

#[test]
fn a_block_without_tail_is_unit() {
    let m = module(
        vec![lit(1), node(Expr::Block { statements: vec![NodeId(0), NodeId(0)], tail: None })],
        vec![1],
    );
    let (bytes, result) = compile_and_run(&m);
    assert_eq!(bytes, vec![0, 1, 0, 0, 0, 8, 0, 1, 0, 0, 0, 8, 9, 2]);
    assert_eq!(result.unwrap(), vec![Value::Unit]);
}

#[test]
fn literals_are_cut_to_32_bits() {
    let m = module(vec![lit(0x1_0000_0005)], vec![0]);
    let (bytes, result) = compile_and_run(&m);
    assert_eq!(bytes, vec![0, 5, 0, 0, 0, 2]);
    assert_eq!(result.unwrap(), vec![Value::I32(5)]);
}

#[test]
fn a_trap_in_an_expression_stops_the_run() {
    let m = module(
        vec![
            lit(1),
            lit(0),
            node(Expr::BinaryOp { op: Op::Div, left: NodeId(0), right: NodeId(1) }),
        ],
        vec![0, 2, 0],
    );
    let (_, result) = compile_and_run(&m);
    assert!(matches!(result, Err(VMError::DivisionByZero)));
}

#[test]
fn a_module_without_expressions_only_halts() {
    let m = module(vec![], vec![]);
    let (bytes, result) = compile_and_run(&m);
    assert_eq!(bytes, vec![2]);
    assert_eq!(result.unwrap(), Vec::<Value>::new());
}

#[test]
fn compiling_again_replaces_the_chunk() {
    let mut compiler = Compiler::new();
    compiler.read_module(&module(vec![lit(1)], vec![0]), String::from("module math"));
    compiler.read_module(&module(vec![], vec![]), String::from("module math"));
    assert_eq!(compiler.get_chunk(String::from("math")).unwrap().bytes(), &[2u8][..]);
    assert_eq!(compiler.chunk_names(), vec![String::from("math")]);
}

#[test]
fn chunks_are_named_by_the_module_path() {
    let mut compiler = Compiler::new();
    let mut m = module(vec![], vec![]);
    m.decl.path_span = Span::new(7, 14);
    compiler.read_module(&m, String::from("module game.fx"));
    assert!(compiler.get_chunk(String::from("game.fx")).is_some());
    assert!(compiler.get_chunk(String::from("math")).is_none());
}

#[test]
fn a_new_compiler_has_no_chunks() {
    let compiler = Compiler::new();
    assert!(compiler.get_chunk(String::from("math")).is_none());
    assert!(compiler.chunk_names().is_empty());
}

#[test]
fn compiles_source_text() {
    let mut compiler = Compiler::new();
    let name = compiler.compile_source(String::from("module math\n")).unwrap();
    assert_eq!(name, "math");
    assert_eq!(compiler.get_chunk(name).unwrap().bytes(), &[2u8][..]);
}

#[test]
fn source_that_does_not_parse_compiles_nothing() {
    let mut compiler = Compiler::new();
    match compiler.compile_source(String::from("module")) {
        Err(SourceError::Parse(ParserError::TokenMismatch(found, expected))) => {
            assert_eq!(found, TokenKind::Eof);
            assert_eq!(expected, TokenKind::Identifier);
        }
        other => panic!("unexpected: {:?}", other),
    }
    assert!(compiler.chunk_names().is_empty());
}

/// Compiles `src` and runs the chunk of the module it declares.
fn run_source(src: &str) -> Result<Vec<Value>, VMError> {
    let mut compiler = Compiler::new();
    let name = compiler.compile_source(String::from(src)).unwrap();
    let chunk = compiler.get_chunk(name.clone()).unwrap().clone();
    let mut vm = VM::new();
    vm.load(name.clone(), chunk).unwrap();
    vm.run(name)
}

#[test]
fn source_runs_to_the_values_of_its_lines() {
    let result = run_source("module math\n1 + 2 * 3\n(1 + 2) * 3\n-7 / 2\n-7 % 2\n8 - 3 - 2\n");
    assert_eq!(
        result.unwrap(),
        vec![Value::I32(7), Value::I32(9), Value::I32(-3), Value::I32(-1), Value::I32(3)]
    );
}

#[test]
fn compiled_source_has_the_expected_bytes() {
    let mut compiler = Compiler::new();
    let name = compiler.compile_source(String::from("module calc.basic\n-(4 - 1)\n")).unwrap();
    assert_eq!(name, "calc.basic");
    assert_eq!(
        compiler.get_chunk(name).unwrap().bytes(),
        &[0u8, 4, 0, 0, 0, 0, 1, 0, 0, 0, 3, 7, 2][..]
    );
}

#[test]
fn a_literal_beyond_i32_wraps_when_compiled() {
    assert_eq!(run_source("module m\n2147483648\n").unwrap(), vec![Value::I32(i32::MIN)]);
}

#[test]
fn source_that_traps_reports_the_trap() {
    assert!(matches!(run_source("module m\n1\n1 / (2 - 2)\n"), Err(VMError::DivisionByZero)));
    assert!(matches!(
        run_source("module m\n2147483647 + 1\n"),
        Err(VMError::IntegerOverflow(2147483647, 1, '+'))
    ));
}

#[test]
fn source_beyond_the_limits_is_refused() {
    let mut compiler = Compiler::new();
    let long_literal = String::from("module m\n99999999999999999999\n");
    assert!(matches!(compiler.compile_source(long_literal), Err(SourceError::LimitExceeded)));

    let mut long_string = String::from("\"");
    long_string.push_str(&"a".repeat(5000));
    long_string.push('"');
    assert!(matches!(compiler.compile_source(long_string), Err(SourceError::LimitExceeded)));

    let mut long_expression = String::from("module m\n");
    long_expression.push_str(&"1+".repeat(2100));
    long_expression.push('1');
    assert!(matches!(compiler.compile_source(long_expression), Err(SourceError::LimitExceeded)));

    assert!(compiler.chunk_names().is_empty());
}

#[test]
fn chunk_names_keep_the_order_of_first_compilation() {
    let mut compiler = Compiler::new();
    compiler.compile_source(String::from("module b\n1\n")).unwrap();
    compiler.compile_source(String::from("module a\n")).unwrap();
    compiler.compile_source(String::from("module b\n2\n")).unwrap();
    assert_eq!(compiler.chunk_names(), vec![String::from("b"), String::from("a")]);
    assert_eq!(compiler.get_chunk(String::from("b")).unwrap().bytes(), &[0u8, 2, 0, 0, 0, 2][..]);
}
