//! The syntax tree of a chunk.

use vstd::prelude::*;

use crate::operators::{BinaryOperator, UnaryOperator};

verus! {

/// A whole source file.
#[derive(Debug)]
pub struct Chunk {
    pub block: Block,
}

/// Statements in sequence, with a return at the end or without.
#[derive(Debug)]
pub struct Block {
    pub statements: Vec<Statement>,
    pub return_statement: Option<ReturnStatement>,
}

#[derive(Debug)]
pub enum Statement {
    LocalStatement(LocalStatement),
    LocalFunction(FunctionStatement),
    FunctionCall(FunctionCallStatement),
    Assignment(AssignmentStatement),
    /// A statement of any other kind. None of them can be compiled.
    Other,
}

#[derive(Debug)]
pub struct ReturnStatement {
    pub returns: Vec<Expression>,
}

#[derive(Debug)]
pub struct LocalStatement {
    pub names: Vec<Vec<u8>>,
    pub values: Vec<Expression>,
}

#[derive(Debug)]
pub struct FunctionCallStatement {
    pub head: SuffixedExpression,
    pub call: CallSuffix,
}

#[derive(Debug)]
pub struct AssignmentStatement {
    pub targets: Vec<AssignmentTarget>,
    pub values: Vec<Expression>,
}

#[derive(Debug)]
pub enum AssignmentTarget {
    Name(Vec<u8>),
    Field(SuffixedExpression, FieldSuffix),
}

#[derive(Debug)]
pub struct FunctionStatement {
    pub name: FunctionName,
    pub definition: FunctionDefinition,
}

#[derive(Debug)]
pub struct FunctionName {
    pub name: Vec<u8>,
    pub fields: Vec<Vec<u8>>,
    pub method: Option<Vec<u8>>,
}

#[derive(Debug)]
pub struct FunctionDefinition {
    pub parameters: Vec<Vec<u8>>,
    pub has_varargs: bool,
    pub body: Block,
}

/// A first operand, and the operators that follow it with their right operands. The operators are
/// applied from left to right.
#[derive(Debug)]
pub struct Expression {
    pub head: Box<HeadExpression>,
    pub tail: Vec<(BinaryOperator, Expression)>,
}

#[derive(Debug)]
pub enum HeadExpression {
    Simple(SimpleExpression),
    UnaryOperator(UnaryOperator, Box<Expression>),
}

#[derive(Debug)]
pub enum SimpleExpression {
    /// The bits of a double precision number.
    Float(u64),
    Integer(i64),
    String(Vec<u8>),
    Nil,
    True,
    False,
    Suffixed(SuffixedExpression),
    /// An expression of any other kind. None of them can be compiled.
    Other,
}

#[derive(Debug)]
pub struct SuffixedExpression {
    pub primary: PrimaryExpression,
    pub suffixes: Vec<SuffixPart>,
}

#[derive(Debug)]
pub enum PrimaryExpression {
    Name(Vec<u8>),
    GroupedExpression(Expression),
}

#[derive(Debug)]
pub enum SuffixPart {
    Field(FieldSuffix),
    Call(CallSuffix),
}

#[derive(Debug)]
pub enum FieldSuffix {
    Named(Vec<u8>),
    Indexed(Expression),
}

#[derive(Debug)]
pub enum CallSuffix {
    Function(Vec<Expression>),
    Method(Vec<u8>, Vec<Expression>),
}

} // verus!
