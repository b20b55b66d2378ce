use kaleidoscope::ast::{BinaryOp, Expr, Function};
use kaleidoscope::error::Error;
use kaleidoscope::lexer::Lexer;
use kaleidoscope::parser::Parser;

fn parser_for(src: &str) -> Parser {
    Parser::new(Lexer::new(src.as_bytes().to_vec()))
}

fn num(text: &str) -> Expr {
    Expr::Number(text.to_string())
}

fn var(name: &str) -> Expr {
    Expr::Variable(name.to_string())
}

fn bin(op: BinaryOp, l: Expr, r: Expr) -> Expr {
    Expr::Binary(op, Box::new(l), Box::new(r))
}

fn toplevel_body(src: &str) -> Expr {
    let mut parser = parser_for(src);
    let Function { prototype, body } = parser.toplevel().expect("parse failed");
    assert!(prototype.parameters.is_empty());
    body
}

#[test]
fn multiplication_binds_tighter_on_the_right() {
    assert_eq!(
        toplevel_body("1 + 2 * 3"),
        bin(BinaryOp::Plus, num("1"), bin(BinaryOp::Times, num("2"), num("3")))
    );
}

#[test]
fn multiplication_binds_tighter_on_the_left() {
    assert_eq!(
        toplevel_body("1 * 2 + 3"),
        bin(BinaryOp::Plus, bin(BinaryOp::Times, num("1"), num("2")), num("3"))
    );
}

#[test]
fn equal_precedence_associates_left() {
    assert_eq!(
        toplevel_body("1 - 2 - 3"),
        bin(BinaryOp::Minus, bin(BinaryOp::Minus, num("1"), num("2")), num("3"))
    );
}

#[test]
fn comparison_binds_loosest() {
    assert_eq!(
        toplevel_body("1 < 2 + 3"),
        bin(BinaryOp::LessThan, num("1"), bin(BinaryOp::Plus, num("2"), num("3")))
    );
}

#[test]
fn parentheses_override_precedence() {
    assert_eq!(
        toplevel_body("(1 + 2) * 3"),
        bin(BinaryOp::Times, bin(BinaryOp::Plus, num("1"), num("2")), num("3"))
    );
}

#[test]
fn definition_with_two_parameters() {
    let mut parser = parser_for("def foo(a b) a + b");
    let f = parser.definition().expect("parse failed");
    assert_eq!(f.prototype.function_name, "foo");
    assert_eq!(f.prototype.parameters, vec!["a".to_string(), "b".to_string()]);
    assert_eq!(f.body, bin(BinaryOp::Plus, var("a"), var("b")));
}

#[test]
fn definition_requires_def_keyword() {
    let mut parser = parser_for("foo(a) a");
    assert_eq!(parser.definition(), Err(Error::Unexpected("token")));
}

#[test]
fn extern_parses_prototype_only() {
    let mut parser = parser_for("extern sin(x)");
    let p = parser.extern_().expect("parse failed");
    assert_eq!(p.function_name, "sin");
    assert_eq!(p.parameters, vec!["x".to_string()]);
}

#[test]
fn call_with_arguments() {
    assert_eq!(
        toplevel_body("foo(1, bar(), x)"),
        Expr::Call(
            "foo".to_string(),
            vec![num("1"), Expr::Call("bar".to_string(), vec![]), var("x")]
        )
    );
}

#[test]
fn identifier_without_parens_is_a_variable() {
    assert_eq!(toplevel_body("x"), var("x"));
}

#[test]
fn toplevel_names_count_up() {
    let mut parser = parser_for("1 ; 2");
    let f1 = parser.toplevel().expect("first parse failed");
    assert_eq!(f1.prototype.function_name, "__anon_1");
    assert!(f1.prototype.parameters.is_empty());
    parser.lexer.next_token().expect("separator");
    let f2 = parser.toplevel().expect("second parse failed");
    assert_eq!(f2.prototype.function_name, "__anon_2");
}

#[test]
fn unexpected_token_when_expression_expected() {
    let mut parser = parser_for("def foo(a) *");
    assert_eq!(
        parser.definition(),
        Err(Error::Unexpected("token when expecting an expression"))
    );
}

#[test]
fn missing_close_paren_is_unexpected_token() {
    let mut parser = parser_for("(1 + 2");
    assert_eq!(parser.toplevel(), Err(Error::Unexpected("token")));
}

#[test]
fn anonymous_names_carry_multi_digit_counters() {
    let mut parser = parser_for("1;1;1;1;1;1;1;1;1;1;1;1");
    for expected in 1..=12 {
        let f = parser.toplevel().expect("parse failed");
        assert_eq!(f.prototype.function_name, format!("__anon_{}", expected));
        if expected < 12 {
            parser.lexer.next_token().expect("separator");
        }
    }
}
