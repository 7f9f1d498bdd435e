//! Why a chunk cannot be compiled.

use vstd::prelude::*;

verus! {

/// A limit of the bytecode that a chunk is over.
#[derive(Debug, Clone, Copy, PartialEq, Eq, Structural)]
pub enum CompilerLimit {
    Registers,
    UpValues,
    Returns,
    FixedParameters,
    Functions,
    Constants,
}

/// A part of the language that cannot be compiled.
#[derive(Debug, Clone, Copy, PartialEq, Eq, Structural)]
pub enum Unsupported {
    Statement,
    MethodCall,
    GlobalAssignment,
    AssignmentTarget,
    VarArgs,
    FunctionNameFields,
    FunctionNameMethod,
    UnaryOperator,
    SimpleExpression,
    ExpressionSuffixes,
    GlobalVariable,
    BinaryOperator,
}

#[derive(Debug, Clone, Copy, PartialEq, Eq, Structural)]
pub enum CompilerError {
    Limit(CompilerLimit),
    Unsupported(Unsupported),
}

impl CompilerLimit {
    /// The limit in words.
    pub open spec fn text(self) -> Seq<char> {
        match self {
            CompilerLimit::Registers => "insufficient available registers"@,
            CompilerLimit::UpValues => "too many upvalues"@,
            CompilerLimit::Returns => "too many returns"@,
            CompilerLimit::FixedParameters => "too many fixed parameters"@,
            CompilerLimit::Functions => "too many inner functions"@,
            CompilerLimit::Constants => "too many constants"@,
        }
    }

    /// The limit in words.
    pub fn message(&self) -> (message: &'static str)
        ensures
            message@ == self.text(),
    {
        match self {
            CompilerLimit::Registers => "insufficient available registers",
            CompilerLimit::UpValues => "too many upvalues",
            CompilerLimit::Returns => "too many returns",
            CompilerLimit::FixedParameters => "too many fixed parameters",
            CompilerLimit::Functions => "too many inner functions",
            CompilerLimit::Constants => "too many constants",
        }
    }
}

impl Unsupported {
    /// What is not supported, in words.
    pub open spec fn text(self) -> Seq<char> {
        match self {
            Unsupported::Statement => "unsupported statement type"@,
            Unsupported::MethodCall => "method unsupported"@,
            Unsupported::GlobalAssignment => "global variables unsupported"@,
            Unsupported::AssignmentTarget => "unimplemented assignment target"@,
            Unsupported::VarArgs => "no varargs support"@,
            Unsupported::FunctionNameFields => "no function name fields support"@,
            Unsupported::FunctionNameMethod => "no method support"@,
            Unsupported::UnaryOperator => "no unary operator support yet"@,
            Unsupported::SimpleExpression => "unsupported simple expression"@,
            Unsupported::ExpressionSuffixes => "no support for expression suffixes yet"@,
            Unsupported::GlobalVariable => "no support for globals"@,
            Unsupported::BinaryOperator => "unsupported binary operator"@,
        }
    }

    /// What is not supported, in words.
    pub fn message(&self) -> (message: &'static str)
        ensures
            message@ == self.text(),
    {
        match self {
            Unsupported::Statement => "unsupported statement type",
            Unsupported::MethodCall => "method unsupported",
            Unsupported::GlobalAssignment => "global variables unsupported",
            Unsupported::AssignmentTarget => "unimplemented assignment target",
            Unsupported::VarArgs => "no varargs support",
            Unsupported::FunctionNameFields => "no function name fields support",
            Unsupported::FunctionNameMethod => "no method support",
            Unsupported::UnaryOperator => "no unary operator support yet",
            Unsupported::SimpleExpression => "unsupported simple expression",
            Unsupported::ExpressionSuffixes => "no support for expression suffixes yet",
            Unsupported::GlobalVariable => "no support for globals",
            Unsupported::BinaryOperator => "unsupported binary operator",
        }
    }
}

impl CompilerError {
    /// The error in words.
    pub open spec fn text(self) -> Seq<char> {
        match self {
            CompilerError::Limit(limit) => limit.text(),
            CompilerError::Unsupported(unsupported) => unsupported.text(),
        }
    }

    /// The error in words.
    pub fn message(&self) -> (message: &'static str)
        ensures
            message@ == self.text(),
    {
        match self {
            CompilerError::Limit(limit) => limit.message(),
            CompilerError::Unsupported(unsupported) => unsupported.message(),
        }
    }
}

} // verus!
