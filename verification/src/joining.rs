//! Nil is loaded by as few instructions as can be.

use vstd::prelude::*;

use crate::ast::{
    AssignmentStatement, AssignmentTarget, Block, CallSuffix, Expression, FunctionCallStatement,
    HeadExpression, LocalStatement, PrimaryExpression, ReturnStatement, SimpleExpression,
    Statement, SuffixedExpression,
};
use crate::model::{self, Folding, FunctionModel, Operand, Variable};
use crate::opcode::OpCode;
use crate::registers::Register;
use crate::soundness;
use crate::source;
use crate::value::ValueView;

verus! {

/// The code of the innermost function loads nil by as few instructions as can be.
pub open spec fn tidy(functions: Seq<FunctionModel>) -> bool {
    &&& functions.len() > 0
    &&& source::joined(functions.last().opcodes)
}

/// An instruction of another kind joins nothing.
pub proof fn lemma_emit(f: FunctionModel, opcode: OpCode)
    requires
        source::joined(f.opcodes),
        !(opcode is LoadNil),
    ensures
        source::joined(f.emit(opcode).opcodes),
{
}

/// A value is loaded.
pub proof fn lemma_load(f: FunctionModel, operand: Operand, dest: Register)
    requires
        source::joined(f.opcodes),
    ensures
        f.load(operand, dest) matches Ok(g) ==> source::joined(g.opcodes),
{
    if operand == Operand::Value(ValueView::Nil) {
        let g = f.load_nil(dest);
        assert forall|i: int| 0 < i < g.opcodes.len() implies !source::joins(
            g.opcodes[i - 1],
            #[trigger] g.opcodes[i],
        ) by {
            if i < f.opcodes.len() {
                assert(!source::joins(f.opcodes[i - 1], f.opcodes[i]));
            }
        }
    }
}

/// A value is brought into a register.
pub proof fn lemma_in_register(f: FunctionModel, operand: Operand)
    requires
        source::joined(f.opcodes),
    ensures
        f.load_next(operand) matches Ok((g, _)) ==> source::joined(g.opcodes),
        f.in_any_register(operand) matches Ok((g, _, _)) ==> source::joined(g.opcodes),
        f.in_new_register(operand) matches Ok((g, _)) ==> source::joined(g.opcodes),
{
    if let Ok(taken) = f.take_register() {
        lemma_load(taken, operand, f.used() as Register);
    }
}

/// Two values are added.
pub proof fn lemma_sum(f: FunctionModel, left: Operand, right: Operand)
    requires
        source::joined(f.opcodes),
    ensures
        f.sum(left, right) matches Ok((g, _)) ==> source::joined(g.opcodes),
{
    reveal(FunctionModel::sum);
    lemma_in_register(f, left);
    match (left, right) {
        (_, Operand::Value(_)) => {},
        (Operand::Value(value), _) => {
            if let Ok((g, _)) = f.constant(value) {
                lemma_in_register(g, right);
            }
        },
        (_, _) => {
            if let Ok((g, _, _)) = f.in_any_register(left) {
                lemma_in_register(g, right);
            }
        },
    }
}

/// An expression is computed.
pub proof fn lemma_expression(folding: Folding, functions: Seq<FunctionModel>, e: Expression)
    requires
        tidy(functions),
    ensures
        model::expression(folding, functions, e) matches Ok((after, _)) ==> tidy(after),
    decreases e, e.tail@.len() + 2,
{
    lemma_expression_upto(folding, functions, e, e.tail@.len());
}

/// Some operators of an expression are computed.
pub proof fn lemma_expression_upto(
    folding: Folding,
    functions: Seq<FunctionModel>,
    e: Expression,
    count: nat,
)
    requires
        tidy(functions),
        count <= e.tail@.len(),
    ensures
        model::expression_upto(folding, functions, e, count) matches Ok((after, _)) ==> tidy(after),
    decreases e, count + 1,
{
    if count == 0 {
        if let HeadExpression::Simple(SimpleExpression::Suffixed(s)) = *e.head {
            lemma_suffixed(folding, functions, s);
            assert(model::head_expression(folding, functions, *e.head)
                == model::suffixed_expression(folding, functions, s));
        }
    } else {
        let less = (count - 1) as nat;
        let (_, right_expression) = e.tail@[count - 1];
        lemma_expression_upto(folding, functions, e, less);
        if let Ok((left_done, left)) = model::expression_upto(folding, functions, e, less) {
            lemma_expression(folding, left_done, right_expression);
            if let Ok((right_done, right)) = model::expression(
                folding,
                left_done,
                right_expression,
            ) {
                lemma_sum(right_done.last(), left, right);
            }
        }
    }
}

/// A name or an expression in brackets is computed.
pub proof fn lemma_suffixed(
    folding: Folding,
    functions: Seq<FunctionModel>,
    suffixed: SuffixedExpression,
)
    requires
        tidy(functions),
    ensures
        model::suffixed_expression(folding, functions, suffixed) matches Ok((after, _)) ==> tidy(
            after,
        ),
    decreases suffixed, 0nat,
{
    if let PrimaryExpression::GroupedExpression(e) = suffixed.primary {
        lemma_expression(folding, functions, e);
        assert(model::primary_expression(folding, functions, suffixed.primary)
            == model::expression(folding, functions, e));
    }
}

/// Expressions are computed in registers of their own.
pub proof fn lemma_push_upto(
    folding: Folding,
    functions: Seq<FunctionModel>,
    expressions: Seq<Expression>,
    count: nat,
)
    requires
        tidy(functions),
    ensures
        model::push_upto(folding, functions, expressions, count) matches Ok(after) ==> tidy(after),
    decreases count,
{
    if count > 0 {
        let less = (count - 1) as nat;
        lemma_push_upto(folding, functions, expressions, less);
        if let Ok(some) = model::push_upto(folding, functions, expressions, less) {
            lemma_expression(folding, some, expressions[count - 1]);
            if let Ok((done, operand)) = model::expression(folding, some, expressions[count - 1]) {
                lemma_in_register(done.last(), operand);
            }
        }
    }
}

/// A return is compiled.
pub proof fn lemma_return(
    folding: Folding,
    functions: Seq<FunctionModel>,
    statement: ReturnStatement,
)
    requires
        tidy(functions),
    ensures
        model::return_statement(folding, functions, statement) matches Ok(after) ==> tidy(after),
{
    let values = statement.returns@;
    lemma_push_upto(folding, functions, values, values.len());
    if values.len() == 1 {
        lemma_expression(folding, functions, values[0]);
        if let Ok((done, operand)) = model::expression(folding, functions, values[0]) {
            lemma_in_register(done.last(), operand);
        }
    }
}

/// The values of a local statement are compiled.
pub proof fn lemma_values(
    folding: Folding,
    functions: Seq<FunctionModel>,
    statement: LocalStatement,
    count: nat,
)
    requires
        tidy(functions),
    ensures
        model::local_values_upto(folding, functions, statement, count) matches Ok(after) ==> tidy(
            after,
        ),
    decreases count,
{
    if count > 0 {
        let less = (count - 1) as nat;
        let e = statement.values@[count - 1];
        lemma_values(folding, functions, statement, less);
        if let Ok(some) = model::local_values_upto(folding, functions, statement, less) {
            lemma_expression(folding, some, e);
            if let Ok((done, operand)) = model::expression(folding, some, e) {
                lemma_in_register(done.last(), operand);
            }
        }
    }
}

/// Locals that hold nil are compiled.
pub proof fn lemma_nils(f: FunctionModel, statement: LocalStatement, count: nat)
    requires
        source::joined(f.opcodes),
    ensures
        model::local_nils_upto(f, statement, count) matches Ok(g) ==> source::joined(g.opcodes),
    decreases count,
{
    if count > statement.values@.len() {
        let less = (count - 1) as nat;
        lemma_nils(f, statement, less);
        if let Ok(g) = model::local_nils_upto(f, statement, less) {
            if let Ok(taken) = g.take_register() {
                let nil = Operand::Value(ValueView::Nil);
                lemma_load(taken, nil, g.used() as Register);
            }
        }
    }
}

/// A call is compiled.
pub proof fn lemma_call(
    folding: Folding,
    functions: Seq<FunctionModel>,
    statement: FunctionCallStatement,
)
    requires
        tidy(functions),
    ensures
        model::function_call(folding, functions, statement) matches Ok(after) ==> tidy(after),
{
    lemma_suffixed(folding, functions, statement.head);
    if let Ok((headed, operand)) = model::suffixed_expression(folding, functions, statement.head) {
        lemma_in_register(headed.last(), operand);
        if let Ok((top, _)) = headed.last().in_new_register(operand) {
            if let CallSuffix::Function(arguments) = statement.call {
                let ready = model::with_top(headed, top);
                lemma_push_upto(folding, ready, arguments@, arguments@.len());
            }
        }
    }
}

/// An assignment to a target is compiled.
pub proof fn lemma_assign(
    functions: Seq<FunctionModel>,
    target: AssignmentTarget,
    operand: Operand,
)
    requires
        tidy(functions),
    ensures
        model::assign(functions, target, operand) matches Ok(after) ==> tidy(after),
{
    if let AssignmentTarget::Name(name) = target {
        if let Ok((found, variable)) = model::resolve(functions, name@) {
            let f = found.last();
            assert(f.opcodes == functions.last().opcodes);
            lemma_in_register(f, operand);
            if let Variable::Local(dest) = variable {
                lemma_load(f, operand, dest);
            }
        }
    }
}

/// An assignment is compiled.
pub proof fn lemma_assignment(
    folding: Folding,
    functions: Seq<FunctionModel>,
    statement: AssignmentStatement,
    count: nat,
)
    requires
        tidy(functions),
    ensures
        model::assignment_upto(folding, functions, statement, count) matches Ok(after) ==> tidy(
            after,
        ),
    decreases count,
{
    if count > 0 {
        let less = (count - 1) as nat;
        lemma_assignment(folding, functions, statement, less);
        if let Ok(some) = model::assignment_upto(folding, functions, statement, less) {
            if count <= statement.values@.len() {
                lemma_expression(folding, some, statement.values@[count - 1]);
            }
            if let Ok((done, operand)) = model::assigned_value(
                folding,
                some,
                statement,
                count - 1,
            ) {
                lemma_assign(done, statement.targets@[count - 1], operand);
            }
        }
    }
}

/// A statement is compiled.
pub proof fn lemma_statement(folding: Folding, functions: Seq<FunctionModel>, statement: Statement)
    requires
        soundness::sound(functions),
        functions.last().temporaries == 0,
        tidy(functions),
    ensures
        model::statement(folding, functions, statement) matches Ok(after) ==> tidy(after),
{
    match statement {
        Statement::LocalStatement(s) => {
            lemma_values(folding, functions, s, s.values@.len());
            if let Ok(done) = model::local_values_upto(folding, functions, s, s.values@.len()) {
                lemma_nils(done.last(), s, s.names@.len());
            }
        },
        Statement::LocalFunction(s) => {
            let parameters = model::names(s.definition.parameters@);
            let begun = functions.push(FunctionModel::start(parameters));
            if parameters.len() <= u8::MAX {
                soundness::lemma_begin(functions, parameters);
                soundness::lemma_block(folding, begun, s.definition.body);
                if let Ok(compiled) = model::block(folding, begun, s.definition.body) {
                    let last = functions.len() - 1;
                    assert(soundness::captured_more(begun[last], compiled[last]));
                }
            }
        },
        Statement::FunctionCall(s) => {
            lemma_call(folding, functions, s);
        },
        Statement::Assignment(s) => {
            lemma_assignment(folding, functions, s, s.targets@.len());
        },
        Statement::Other => {},
    }
}

/// Statements are compiled.
pub proof fn lemma_statements_upto(
    folding: Folding,
    functions: Seq<FunctionModel>,
    body: Block,
    count: nat,
)
    requires
        soundness::sound(functions),
        functions.last().temporaries == 0,
        tidy(functions),
        count <= body.statements@.len(),
    ensures
        model::statements_upto(folding, functions, body, count) matches Ok(after) ==> tidy(after),
    decreases count,
{
    if count > 0 {
        let less = (count - 1) as nat;
        lemma_statements_upto(folding, functions, body, less);
        soundness::lemma_statements_upto(folding, functions, body, less);
        if let Ok(some) = model::statements_upto(folding, functions, body, less) {
            lemma_statement(folding, some, body.statements@[count - 1]);
        }
    }
}

/// A body is compiled.
pub proof fn lemma_block(folding: Folding, functions: Seq<FunctionModel>, body: Block)
    requires
        soundness::sound(functions),
        functions.last().temporaries == 0,
        tidy(functions),
    ensures
        model::block(folding, functions, body) matches Ok(after) ==> tidy(after),
{
    let count = body.statements@.len();
    lemma_statements_upto(folding, functions, body, count);
    if let Ok(some) = model::statements_upto(folding, functions, body, count) {
        if let Some(statement) = body.return_statement {
            lemma_return(folding, some, statement);
        }
    }
}

} // verus!
