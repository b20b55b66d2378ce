use vstd::prelude::*;

verus! {

/// The binary operators of the surface language.
#[derive(Debug, Clone, Copy, PartialEq, Eq, Structural)]
pub enum BinaryOp {
    LessThan,
    Plus,
    Minus,
    Times,
}

/// An expression node.  Subexpressions are exclusively owned by their parent.
/// A literal carries its source text, exactly as the tokenizer produced it.
#[derive(Debug, PartialEq)]
pub enum Expr {
    Number(String),
    Variable(String),
    Binary(BinaryOp, Box<Expr>, Box<Expr>),
    Call(String, Vec<Expr>),
}

/// The mathematical model of an expression: the same shape, with each
/// carried string abstracted to its character sequence.
pub enum ExprView {
    Number(Seq<char>),
    Variable(Seq<char>),
    Binary(BinaryOp, Box<ExprView>, Box<ExprView>),
    Call(Seq<char>, Seq<ExprView>),
}

pub open spec fn expr_view(e: Expr) -> ExprView
    decreases e,
{
    match e {
        Expr::Number(text) => ExprView::Number(text@),
        Expr::Variable(name) => ExprView::Variable(name@),
        Expr::Binary(op, l, r) => ExprView::Binary(
            op,
            Box::new(expr_view(*l)),
            Box::new(expr_view(*r)),
        ),
        Expr::Call(name, args) => ExprView::Call(name@, exprs_view(args@)),
    }
}

pub open spec fn exprs_view(es: Seq<Expr>) -> Seq<ExprView>
    decreases es,
{
    if es.len() == 0 {
        Seq::empty()
    } else {
        exprs_view(es.drop_last()).push(expr_view(es.last()))
    }
}

impl View for Expr {
    type V = ExprView;

    open spec fn view(&self) -> ExprView {
        expr_view(*self)
    }
}

/// A function's name and parameter list, independent of whether a body is
/// attached.  Duplicate parameter names are accepted; a later one shadows an
/// earlier one when the body is lowered.
#[derive(Debug, PartialEq)]
pub struct Prototype {
    pub function_name: String,
    pub parameters: Vec<String>,
}

/// A prototype together with its single body expression.
#[derive(Debug, PartialEq)]
pub struct Function {
    pub prototype: Prototype,
    pub body: Expr,
}

} // verus!
