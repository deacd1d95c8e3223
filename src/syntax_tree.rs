//! The nodes that parsing produces, and their mathematical models.
use vstd::prelude::*;

use crate::lexer::TokenType;

verus! {

/// A name, copied out of the source buffer.
pub struct Name {
    pub contents: Vec<u8>,
}

/// A number literal, copied out of the source buffer and kept as text.
pub struct Number {
    pub contents: Vec<u8>,
}

pub enum Value {
    Parenthesized(Expression),
    Name(Name),
    Number(Number),
}

#[derive(Debug, Clone, Copy, PartialEq, Eq, Structural)]
pub enum BinaryOperator {
    Plus,
    Minus,
}

/// Left and right binding powers of `op`.
pub open spec fn binding_powers(op: BinaryOperator) -> (u8, u8) {
    match op {
        BinaryOperator::Plus | BinaryOperator::Minus => (1, 2),
    }
}

/// The binary operator that a token of category `t` stands for, if any.
pub open spec fn operator_of(t: TokenType) -> Option<BinaryOperator> {
    match t {
        TokenType::Plus => Some(BinaryOperator::Plus),
        TokenType::Minus => Some(BinaryOperator::Minus),
        _ => None,
    }
}

impl BinaryOperator {
    /// The pair (left, right) of binding powers used by precedence climbing.
    pub fn binding(self) -> (r: (u8, u8))
        ensures
            r == binding_powers(self),
    {
        match self {
            BinaryOperator::Plus | BinaryOperator::Minus => (1, 2),
        }
    }

    pub fn from_token_type(value: TokenType) -> (r: Option<BinaryOperator>)
        ensures
            r == operator_of(value),
    {
        match value {
            TokenType::Plus => Some(BinaryOperator::Plus),
            TokenType::Minus => Some(BinaryOperator::Minus),
            _ => None,
        }
    }
}

pub struct BinaryOperation {
    pub lhs: Expression,
    pub rhs: Expression,
    pub operator: BinaryOperator,
}

pub enum Expression {
    BinaryOperation(Box<BinaryOperation>),
    Value(Box<Value>),
}

pub struct Assignment {
    pub name: Name,
    pub expression: Expression,
}

pub struct Arguments {
    pub contents: Vec<Expression>,
}

pub struct Call {
    pub function: Expression,
    pub arguments: Arguments,
}

pub enum Statement {
    Assignment(Assignment),
    Call(Call),
}

pub struct Program {
    pub statements: Vec<Statement>,
}

/// Model of an expression: a tree whose leaves carry the source text.
pub enum ExprModel {
    Binary(Box<ExprModel>, BinaryOperator, Box<ExprModel>),
    Parenthesized(Box<ExprModel>),
    Name(Seq<u8>),
    Number(Seq<u8>),
}

/// Model of a statement.
pub enum StatementModel {
    Assignment(Seq<u8>, ExprModel),
    Call(ExprModel, Seq<ExprModel>),
}

pub open spec fn expr_model(e: Expression) -> ExprModel
    decreases e,
{
    match e {
        Expression::BinaryOperation(b) => ExprModel::Binary(
            Box::new(expr_model(b.lhs)),
            b.operator,
            Box::new(expr_model(b.rhs)),
        ),
        Expression::Value(v) => value_model(*v),
    }
}

pub open spec fn value_model(v: Value) -> ExprModel
    decreases v,
{
    match v {
        Value::Parenthesized(e) => ExprModel::Parenthesized(Box::new(expr_model(e))),
        Value::Name(n) => ExprModel::Name(n.contents@),
        Value::Number(n) => ExprModel::Number(n.contents@),
    }
}

pub open spec fn arguments_model(a: Arguments) -> Seq<ExprModel> {
    a.contents@.map_values(|e: Expression| expr_model(e))
}

pub open spec fn statement_model(s: Statement) -> StatementModel {
    match s {
        Statement::Assignment(a) => StatementModel::Assignment(
            a.name.contents@,
            expr_model(a.expression),
        ),
        Statement::Call(c) => StatementModel::Call(
            expr_model(c.function),
            arguments_model(c.arguments),
        ),
    }
}

pub open spec fn program_model(p: Program) -> Seq<StatementModel> {
    p.statements@.map_values(|s: Statement| statement_model(s))
}

} // verus!
