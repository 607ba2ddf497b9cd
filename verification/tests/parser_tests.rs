use juan::ast::{Expr, Literal, Node, NodeId, Op, ParsedModule, UnaryOp};
use juan::lexer::Lexer;
use juan::span::Span;
use juan::parser::{Parser, ParserError};
use juan::tokens::TokenKind;

fn parse(src: &str) -> Result<ParsedModule, ParserError> {
    Parser::new(Lexer::new(src)).parse()
}

#[test]
fn parses_a_module_declaration() {
    let m = parse("module math").unwrap();
    assert_eq!(m.decl.path_span.unpack(), (7, 4));
    assert!(m.expr_roots.is_empty());
    assert_eq!(m.tree.len(), 0);
}

#[test]
fn a_dotted_path_spans_every_part() {
    let m = parse("module game.player.stats").unwrap();
    assert_eq!(m.decl.path_span.unpack(), (7, 17));
}

#[test]
fn blank_space_around_the_declaration_is_skipped() {
    let m = parse("  module  a \n\n").unwrap();
    assert_eq!(m.decl.path_span.unpack(), (10, 1));
}

#[test]
fn the_declaration_comes_before_any_line_break() {
    assert!(matches!(
        parse("\nmodule a"),
        Err(ParserError::TokenMismatch(TokenKind::Newline, TokenKind::Module))
    ));
}

#[test]
fn the_module_keyword_comes_first() {
    assert!(matches!(
        parse("math"),
        Err(ParserError::TokenMismatch(TokenKind::Identifier, TokenKind::Module))
    ));
    assert!(matches!(
        parse(""),
        Err(ParserError::TokenMismatch(TokenKind::Eof, TokenKind::Module))
    ));
}

#[test]
fn the_module_needs_a_name() {
    assert!(matches!(
        parse("module"),
        Err(ParserError::TokenMismatch(TokenKind::Eof, TokenKind::Identifier))
    ));
    assert!(matches!(
        parse("module 1"),
        Err(ParserError::TokenMismatch(TokenKind::Int, TokenKind::Identifier))
    ));
}

#[test]
fn a_dot_needs_a_name_after_it() {
    assert!(matches!(
        parse("module a."),
        Err(ParserError::TokenMismatch(TokenKind::Eof, TokenKind::Identifier))
    ));
    assert!(matches!(
        parse("module a..b"),
        Err(ParserError::TokenMismatch(TokenKind::Dot, TokenKind::Identifier))
    ));
}

#[test]
fn the_declaration_must_end_its_line() {
    match parse("module a 1 + 2") {
        Err(ParserError::ExpectedOneOf(found, expected)) => {
            assert_eq!(found, TokenKind::Int);
            assert_eq!(expected, vec![TokenKind::Newline, TokenKind::Eof]);
        }
        other => panic!("unexpected result: {:?}", other.map(|m| m.decl)),
    }
    assert!(matches!(
        parse("module a ("),
        Err(ParserError::ExpectedOneOf(TokenKind::LParen, _))
    ));
}

fn lit(i: i64, start: usize, len: usize) -> Node {
    Node { expr: Expr::Literal(Literal::Int(i)), span: Span::new(start, start + len) }
}

fn bin(op: Op, left: u32, right: u32, start: usize, end: usize) -> Node {
    Node { expr: Expr::BinaryOp { op, left: NodeId(left), right: NodeId(right) }, span: Span::new(start, end) }
}

fn nodes(m: &ParsedModule) -> Vec<&Node> {
    m.tree.values().collect()
}

#[test]
fn multiplication_binds_tighter_than_addition() {
    let m = parse("module math\n1 + 2 * 3\n").unwrap();
    assert_eq!(
        nodes(&m),
        vec![
            &lit(1, 12, 1),
            &lit(2, 16, 1),
            &lit(3, 20, 1),
            &bin(Op::Mul, 1, 2, 16, 21),
            &bin(Op::Add, 0, 3, 12, 21),
        ]
    );
    assert_eq!(m.expr_roots, vec![NodeId(4)]);
}

#[test]
fn operators_associate_to_the_left() {
    let m = parse("module m\n8 - 3 - 2").unwrap();
    assert_eq!(
        nodes(&m),
        vec![
            &lit(8, 9, 1),
            &lit(3, 13, 1),
            &bin(Op::Sub, 0, 1, 9, 14),
            &lit(2, 17, 1),
            &bin(Op::Sub, 2, 3, 9, 18),
        ]
    );
    assert_eq!(m.expr_roots, vec![NodeId(4)]);
}

#[test]
fn parentheses_group() {
    let m = parse("module m\n(1 + 2) % 4").unwrap();
    assert_eq!(
        nodes(&m),
        vec![
            &lit(1, 10, 1),
            &lit(2, 14, 1),
            &bin(Op::Add, 0, 1, 10, 15),
            &lit(4, 19, 1),
            &bin(Op::Rem, 2, 3, 10, 20),
        ]
    );
}

#[test]
fn negation_spans_its_operand() {
    let m = parse("module m\n--5 / 2").unwrap();
    assert_eq!(
        nodes(&m),
        vec![
            &lit(5, 11, 1),
            &Node { expr: Expr::UnaryOp { op: UnaryOp::Neg, operand: NodeId(0) }, span: Span::new(10, 12) },
            &Node { expr: Expr::UnaryOp { op: UnaryOp::Neg, operand: NodeId(1) }, span: Span::new(9, 12) },
            &lit(2, 15, 1),
            &bin(Op::Div, 2, 3, 9, 16),
        ]
    );
}

#[test]
fn each_line_is_a_top_level_expression() {
    let m = parse("module m\n\n1\n\n\n2\n").unwrap();
    assert_eq!(nodes(&m), vec![&lit(1, 10, 1), &lit(2, 14, 1)]);
    assert_eq!(m.expr_roots, vec![NodeId(0), NodeId(1)]);
}

#[test]
fn a_line_may_break_after_an_operator() {
    let m = parse("module m\n1 +\n\n2").unwrap();
    assert_eq!(m.expr_roots, vec![NodeId(2)]);
    assert_eq!(nodes(&m)[2], &bin(Op::Add, 0, 1, 9, 15));
}

#[test]
fn line_breaks_inside_parentheses_do_not_end_the_expression() {
    let m = parse("module m\n(1\n+ 2\n)\n3").unwrap();
    assert_eq!(m.expr_roots, vec![NodeId(2), NodeId(3)]);
}

#[test]
fn a_line_break_outside_parentheses_ends_the_expression() {
    match parse("module m\n1\n+ 2") {
        Err(ParserError::UnexpectedToken(k)) => assert_eq!(k, TokenKind::Plus),
        other => panic!("unexpected result: {:?}", other.map(|m| m.decl)),
    }
}

#[test]
fn large_literals_are_read_in_full() {
    let m = parse("module m\n9223372036854775807").unwrap();
    assert_eq!(nodes(&m), vec![&lit(i64::MAX, 9, 19)]);
}

#[test]
fn two_expressions_on_one_line_are_refused() {
    match parse("module m\n1 2") {
        Err(ParserError::ExpectedOneOf(found, expected)) => {
            assert_eq!(found, TokenKind::Int);
            assert_eq!(expected, vec![TokenKind::Newline, TokenKind::Eof]);
        }
        other => panic!("unexpected result: {:?}", other.map(|m| m.decl)),
    }
}

#[test]
fn tokens_that_cannot_start_an_expression_are_refused() {
    assert!(matches!(parse("module m\n+ 1"), Err(ParserError::UnexpectedToken(TokenKind::Plus))));
    assert!(matches!(parse("module m\nx"), Err(ParserError::UnexpectedToken(TokenKind::Identifier))));
    assert!(matches!(parse("module m\n1.5"), Err(ParserError::UnexpectedToken(TokenKind::Float))));
    assert!(matches!(parse("module m\n1 + )"), Err(ParserError::UnexpectedToken(TokenKind::RParen))));
    assert!(matches!(parse("module m\n2 * *"), Err(ParserError::UnexpectedToken(TokenKind::Star))));
}

#[test]
fn an_open_parenthesis_must_be_closed() {
    assert!(matches!(
        parse("module m\n(1 + 2"),
        Err(ParserError::TokenMismatch(TokenKind::Eof, TokenKind::RParen))
    ));
    assert!(matches!(
        parse("module m\n(1 2)"),
        Err(ParserError::TokenMismatch(TokenKind::Int, TokenKind::RParen))
    ));
}

#[test]
fn parse_checked_agrees_with_parse_within_the_limits() {
    let m = Parser::new(Lexer::new("module m\n1 + 2\n")).parse_checked().unwrap().unwrap();
    assert_eq!(m.expr_roots, vec![NodeId(2)]);
    assert!(matches!(
        Parser::new(Lexer::new("module m\n1 2")).parse_checked(),
        Some(Err(ParserError::ExpectedOneOf(TokenKind::Int, _)))
    ));
}

#[test]
fn a_literal_beyond_i64_is_beyond_the_limits() {
    assert!(Parser::new(Lexer::new("module m\n9223372036854775808")).parse_checked().is_none());
}

#[test]
fn a_path_longer_than_a_span_is_beyond_the_limits() {
    let mut src = String::from("module ");
    src.push_str(&"a.".repeat(2100));
    src.push('a');
    assert!(Parser::new(Lexer::new(&src)).parse_checked().is_none());
}

#[test]
fn an_expression_longer_than_a_span_is_beyond_the_limits() {
    let mut src = String::from("module m\n");
    src.push_str(&"1*".repeat(2100));
    src.push('1');
    assert!(Parser::new(Lexer::new(&src)).parse_checked().is_none());
}

#[test]
fn a_name_must_be_made_of_identifier_bytes() {
    assert!(matches!(
        parse("module a.*"),
        Err(ParserError::TokenMismatch(TokenKind::Star, TokenKind::Identifier))
    ));
    assert!(matches!(
        parse("module é"),
        Err(ParserError::TokenMismatch(TokenKind::Unknown, TokenKind::Identifier))
    ));
    assert!(matches!(
        parse("module m\n1 , 2"),
        Err(ParserError::ExpectedOneOf(TokenKind::Unknown, _))
    ));
}

#[test]
fn parentheses_make_a_looser_operand_and_a_right_nested_one() {
    let m = parse("module m\n2 * (3 * 4)").unwrap();
    assert_eq!(
        nodes(&m),
        vec![
            &lit(2, 9, 1),
            &lit(3, 14, 1),
            &lit(4, 18, 1),
            &bin(Op::Mul, 1, 2, 14, 19),
            &bin(Op::Mul, 0, 3, 9, 19),
        ]
    );
    let m = parse("module m\n-(1 - 2)").unwrap();
    assert_eq!(
        nodes(&m)[3],
        &Node { expr: Expr::UnaryOp { op: UnaryOp::Neg, operand: NodeId(2) }, span: Span::new(9, 16) }
    );
}
