//! Which limits a chunk can exceed.

use vstd::prelude::*;

use crate::ast::{
    AssignmentStatement, AssignmentTarget, Block, CallSuffix, Expression, FunctionCallStatement,
    FunctionStatement, HeadExpression, LocalStatement, PrimaryExpression, ReturnStatement,
    SimpleExpression, Statement, SuffixedExpression,
};
use crate::error::{CompilerError, CompilerLimit};
use crate::model::{self, Folding, FunctionModel, Operand};
use crate::operators::BinaryOperator;
use crate::soundness;
use crate::validity;

verus! {

/// Not the limit of functions inside one was exceeded.
pub open spec fn fits_functions<T>(result: Result<T, CompilerError>) -> bool {
    result != Err::<T, CompilerError>(CompilerError::Limit(CompilerLimit::Functions))
}

/// To resolve a name does not exceed the limit of functions.
pub proof fn lemma_resolve(functions: Seq<FunctionModel>, name: Seq<u8>)
    requires
        functions.len() > 0,
    ensures
        fits_functions(model::resolve(functions, name)),
    decreases functions.len(),
{
    if functions.len() > 1 {
        lemma_resolve(functions.drop_last(), name);
    }
}

/// An operator does not exceed the limit of functions.
pub proof fn lemma_binop(
    folding: Folding,
    f: FunctionModel,
    left: Operand,
    operator: BinaryOperator,
    right: Operand,
)
    ensures
        fits_functions(f.binop(folding, left, operator, right)),
{
    reveal(FunctionModel::sum);
}

/// An expression does not exceed the limit of functions.
pub proof fn lemma_expression(folding: Folding, functions: Seq<FunctionModel>, e: Expression)
    requires
        soundness::sound(functions),
    ensures
        fits_functions(model::expression(folding, functions, e)),
    decreases e, e.tail@.len() + 1,
{
    lemma_expression_upto(folding, functions, e, e.tail@.len());
}

/// Some operators of an expression do not exceed the limit of functions.
pub proof fn lemma_expression_upto(
    folding: Folding,
    functions: Seq<FunctionModel>,
    e: Expression,
    count: nat,
)
    requires
        soundness::sound(functions),
        count <= e.tail@.len(),
    ensures
        fits_functions(model::expression_upto(folding, functions, e, count)),
    decreases e, count,
{
    if count == 0 {
        lemma_head(folding, functions, *e.head);
    } else {
        let less = (count - 1) as nat;
        lemma_expression_upto(folding, functions, e, less);
        soundness::lemma_expression_upto(folding, functions, e, less);
        if let Ok((left_done, left)) = model::expression_upto(folding, functions, e, less) {
            let (operator, right_expression) = e.tail@[count - 1];
            lemma_expression(folding, left_done, right_expression);
            if let Ok((right_done, right)) = model::expression(
                folding,
                left_done,
                right_expression,
            ) {
                lemma_binop(folding, right_done.last(), left, operator, right);
            }
        }
    }
}

/// The first operand of an expression does not exceed the limit of functions.
pub proof fn lemma_head(folding: Folding, functions: Seq<FunctionModel>, head: HeadExpression)
    requires
        soundness::sound(functions),
    ensures
        fits_functions(model::head_expression(folding, functions, head)),
    decreases head, 0nat,
{
    if let HeadExpression::Simple(SimpleExpression::Suffixed(suffixed)) = head {
        lemma_suffixed(folding, functions, suffixed);
    }
}

/// A name or an expression in brackets does not exceed the limit of functions.
pub proof fn lemma_suffixed(
    folding: Folding,
    functions: Seq<FunctionModel>,
    suffixed: SuffixedExpression,
)
    requires
        soundness::sound(functions),
    ensures
        fits_functions(model::suffixed_expression(folding, functions, suffixed)),
    decreases suffixed, 0nat,
{
    match suffixed.primary {
        PrimaryExpression::Name(name) => {
            lemma_resolve(functions, name@);
        },
        PrimaryExpression::GroupedExpression(e) => {
            lemma_expression(folding, functions, e);
        },
    }
}

/// Expressions in registers of their own do not exceed the limit of functions.
pub proof fn lemma_push_upto(
    folding: Folding,
    functions: Seq<FunctionModel>,
    expressions: Seq<Expression>,
    count: nat,
)
    requires
        soundness::sound(functions),
    ensures
        fits_functions(model::push_upto(folding, functions, expressions, count)),
    decreases count,
{
    if count > 0 {
        let less = (count - 1) as nat;
        lemma_push_upto(folding, functions, expressions, less);
        soundness::lemma_push_upto(folding, functions, expressions, less);
        if let Ok(some) = model::push_upto(folding, functions, expressions, less) {
            lemma_expression(folding, some, expressions[count - 1]);
        }
    }
}

/// A return does not exceed the limit of functions.
pub proof fn lemma_return_statement(
    folding: Folding,
    functions: Seq<FunctionModel>,
    statement: ReturnStatement,
)
    requires
        soundness::sound(functions),
    ensures
        fits_functions(model::return_statement(folding, functions, statement)),
{
    let values = statement.returns@;
    if values.len() == 1 {
        lemma_expression(folding, functions, values[0]);
    } else {
        lemma_push_upto(folding, functions, values, values.len());
    }
}

/// The values of a local statement do not exceed the limit of functions.
pub proof fn lemma_local_values_upto(
    folding: Folding,
    functions: Seq<FunctionModel>,
    statement: LocalStatement,
    count: nat,
)
    requires
        soundness::sound(functions),
        functions.last().temporaries == 0,
        count <= statement.values@.len(),
    ensures
        fits_functions(model::local_values_upto(folding, functions, statement, count)),
    decreases count,
{
    if count > 0 {
        let less = (count - 1) as nat;
        lemma_local_values_upto(folding, functions, statement, less);
        soundness::lemma_local_values_upto(folding, functions, statement, less);
        if let Ok(some) = model::local_values_upto(folding, functions, statement, less) {
            lemma_expression(folding, some, statement.values@[count - 1]);
        }
    }
}

/// Locals that hold nil do not exceed the limit of functions.
pub proof fn lemma_local_nils_upto(f: FunctionModel, statement: LocalStatement, count: nat)
    ensures
        fits_functions(model::local_nils_upto(f, statement, count)),
    decreases count,
{
    if count > statement.values@.len() {
        lemma_local_nils_upto(f, statement, (count - 1) as nat);
    }
}

/// A call does not exceed the limit of functions.
pub proof fn lemma_function_call(
    folding: Folding,
    functions: Seq<FunctionModel>,
    statement: FunctionCallStatement,
)
    requires
        soundness::sound(functions),
    ensures
        fits_functions(model::function_call(folding, functions, statement)),
{
    lemma_suffixed(folding, functions, statement.head);
    soundness::lemma_suffixed_expression(folding, functions, statement.head);
    if let Ok((headed, operand)) = model::suffixed_expression(folding, functions, statement.head) {
        soundness::lemma_in_new_register(headed, operand);
        if let Ok((top, func)) = headed.last().in_new_register(operand) {
            if let CallSuffix::Function(arguments) = statement.call {
                let ready = model::with_top(headed, top);
                lemma_push_upto(folding, ready, arguments@, arguments@.len());
            }
        }
    }
}

/// An assignment does not exceed the limit of functions.
pub proof fn lemma_assignment_upto(
    folding: Folding,
    functions: Seq<FunctionModel>,
    statement: AssignmentStatement,
    count: nat,
)
    requires
        soundness::sound(functions),
        count <= statement.targets@.len(),
    ensures
        fits_functions(model::assignment_upto(folding, functions, statement, count)),
    decreases count,
{
    if count > 0 {
        let less = (count - 1) as nat;
        lemma_assignment_upto(folding, functions, statement, less);
        soundness::lemma_assignment_upto(folding, functions, statement, less);
        if let Ok(some) = model::assignment_upto(folding, functions, statement, less) {
            if count - 1 < statement.values@.len() {
                lemma_expression(folding, some, statement.values@[count - 1]);
                soundness::lemma_expression(folding, some, statement.values@[count - 1]);
            }
            if let Ok((done, operand)) = model::assigned_value(
                folding,
                some,
                statement,
                count - 1,
            ) {
                if let AssignmentTarget::Name(name) = statement.targets@[count - 1] {
                    lemma_resolve(done, name@);
                }
            }
        }
    }
}

/// A function inside others does not exceed the limit of functions: the registers for the locals
/// that functions are bound to end first.
pub proof fn lemma_local_function(
    folding: Folding,
    functions: Seq<FunctionModel>,
    statement: FunctionStatement,
)
    requires
        soundness::sound(functions),
        functions.last().temporaries == 0,
    ensures
        fits_functions(model::local_function(folding, functions, statement)),
    decreases statement, 0nat,
{
    let parameters = model::names(statement.definition.parameters@);
    if parameters.len() <= u8::MAX {
        let started = functions.push(FunctionModel::start(parameters));
        soundness::lemma_begin(functions, parameters);
        lemma_block(folding, started, statement.definition.body);
        soundness::lemma_block(folding, started, statement.definition.body);
        if let Ok(compiled) = model::block(folding, started, statement.definition.body) {
            assert(validity::valid_function(compiled[compiled.len() - 2]));
        }
    }
}

/// A statement does not exceed the limit of functions.
pub proof fn lemma_statement(
    folding: Folding,
    functions: Seq<FunctionModel>,
    statement: Statement,
)
    requires
        soundness::sound(functions),
        functions.last().temporaries == 0,
    ensures
        fits_functions(model::statement(folding, functions, statement)),
    decreases statement, 0nat,
{
    match statement {
        Statement::LocalStatement(s) => {
            let values = s.values@.len();
            lemma_local_values_upto(folding, functions, s, values);
            if let Ok(done) = model::local_values_upto(folding, functions, s, values) {
                lemma_local_nils_upto(done.last(), s, s.names@.len());
            }
        },
        Statement::LocalFunction(s) => {
            lemma_local_function(folding, functions, s);
        },
        Statement::FunctionCall(s) => {
            lemma_function_call(folding, functions, s);
        },
        Statement::Assignment(s) => {
            lemma_assignment_upto(folding, functions, s, s.targets@.len());
        },
        Statement::Other => {},
    }
}

/// Statements do not exceed the limit of functions.
pub proof fn lemma_statements_upto(
    folding: Folding,
    functions: Seq<FunctionModel>,
    block: Block,
    count: nat,
)
    requires
        soundness::sound(functions),
        functions.last().temporaries == 0,
        count <= block.statements@.len(),
    ensures
        fits_functions(model::statements_upto(folding, functions, block, count)),
    decreases block, count,
{
    if count > 0 {
        let less = (count - 1) as nat;
        lemma_statements_upto(folding, functions, block, less);
        soundness::lemma_statements_upto(folding, functions, block, less);
        if let Ok(some) = model::statements_upto(folding, functions, block, less) {
            lemma_statement(folding, some, block.statements@[count - 1]);
        }
    }
}

/// The body of a function does not exceed the limit of functions.
pub proof fn lemma_block(folding: Folding, functions: Seq<FunctionModel>, block: Block)
    requires
        soundness::sound(functions),
        functions.last().temporaries == 0,
    ensures
        fits_functions(model::block(folding, functions, block)),
    decreases block, block.statements@.len() + 1,
{
    let count = block.statements@.len();
    lemma_statements_upto(folding, functions, block, count);
    soundness::lemma_statements_upto(folding, functions, block, count);
    if let Ok(done) = model::statements_upto(folding, functions, block, count) {
        if let Some(statement) = block.return_statement {
            lemma_return_statement(folding, done, statement);
        }
    }
}

} // verus!
