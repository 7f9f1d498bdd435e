//! Compiled functions hold what the chunk says.

use vstd::prelude::*;

use crate::ast::{Block, FunctionStatement, LocalStatement, Statement};
use crate::model::{self, Folding, FunctionModel, Operand};
use crate::soundness;
use crate::source;

verus! {

/// A function that is compiled to its end has all that it had when it was under compilation, in the
/// same order.
pub proof fn lemma_finished(f: FunctionModel)
    ensures
        f.proto().fixed_params == f.fixed_params,
        !f.proto().has_varargs,
        f.proto().stack_size == f.stack_size,
        f.proto().constants == f.constants,
        f.proto().opcodes == f.opcodes,
        f.proto().prototypes == f.prototypes,
        f.proto().upvalues.len() == f.upvalues.len(),
        forall|i: int|
            0 <= i < f.upvalues.len() ==> #[trigger] f.proto().upvalues[i] == f.upvalues[i].1,
{
}

/// A value in a new register declares nothing.
pub proof fn lemma_in_new_register(f: FunctionModel, operand: Operand)
    ensures
        f.in_new_register(operand) matches Ok((g, _)) ==> {
            &&& g.locals == f.locals
            &&& g.prototypes == f.prototypes
        },
{
}

/// The values of a local statement become the first locals that it declares.
pub proof fn lemma_local_values_upto(
    folding: Folding,
    functions: Seq<FunctionModel>,
    statement: LocalStatement,
    count: nat,
)
    requires
        soundness::sound(functions),
        functions.last().temporaries == 0,
        count <= statement.values@.len(),
    ensures
        model::local_values_upto(folding, functions, statement, count) matches Ok(after) ==> {
            let names = source::names(statement.names@);
            let some = if count <= names.len() {
                names.take(count as int)
            } else {
                names
            };
            &&& after.last().locals == functions.last().locals + some
            &&& after.last().prototypes == functions.last().prototypes
        },
    decreases count,
{
    let names = source::names(statement.names@);
    if count == 0 {
        assert(functions.last().locals + names.take(0) =~= functions.last().locals);
    } else {
        let less = (count - 1) as nat;
        lemma_local_values_upto(folding, functions, statement, less);
        soundness::lemma_local_values_upto(folding, functions, statement, less);
        if let Ok(some) = model::local_values_upto(folding, functions, statement, less) {
            let e = statement.values@[count - 1];
            soundness::lemma_expression(folding, some, e);
            if let Ok((done, operand)) = model::expression(folding, some, e) {
                lemma_in_new_register(done.last(), operand);
                if count <= names.len() {
                    assert(names.take(count as int) =~= names.take(less as int).push(
                        names[count - 1],
                    ));
                    assert((functions.last().locals + names.take(less as int)).push(
                        names[count - 1],
                    ) =~= functions.last().locals + names.take(count as int));
                } else if less == names.len() {
                    assert(names.take(less as int) =~= names);
                }
            }
        }
    }
}

/// The names of a local statement that have no value become its last locals.
pub proof fn lemma_local_nils_upto(
    f: FunctionModel,
    locals: Seq<Seq<u8>>,
    statement: LocalStatement,
    count: nat,
)
    requires
        count <= statement.names@.len(),
        f.locals == locals + source::names(statement.names@).take(
            if statement.values@.len() <= count {
                statement.values@.len() as int
            } else {
                count as int
            },
        ),
    ensures
        model::local_nils_upto(f, statement, count) matches Ok(g) ==> {
            &&& g.locals == locals + source::names(statement.names@).take(count as int)
            &&& g.prototypes == f.prototypes
        },
    decreases count,
{
    let names = source::names(statement.names@);
    if count > statement.values@.len() {
        lemma_local_nils_upto(f, locals, statement, (count - 1) as nat);
        assert(names.take(count as int) =~= names.take(count - 1).push(names[count - 1]));
        assert((locals + names.take(count - 1)).push(names[count - 1]) =~= locals + names.take(
            count as int,
        ));
    }
}

/// A local statement declares its names.
pub proof fn lemma_local_statement(
    folding: Folding,
    functions: Seq<FunctionModel>,
    statement: LocalStatement,
)
    requires
        soundness::sound(functions),
        functions.last().temporaries == 0,
    ensures
        model::local_statement(folding, functions, statement) matches Ok(after) ==> {
            &&& after.last().locals == functions.last().locals + source::names(statement.names@)
            &&& after.last().prototypes == functions.last().prototypes
        },
{
    let names = source::names(statement.names@);
    let values = statement.values@.len();
    lemma_local_values_upto(folding, functions, statement, values);
    soundness::lemma_local_values_upto(folding, functions, statement, values);
    if let Ok(done) = model::local_values_upto(folding, functions, statement, values) {
        assert(names.take(names.len() as int) =~= names);
        if names.len() > values {
            lemma_local_nils_upto(done.last(), functions.last().locals, statement, names.len());
        }
    }
}

/// A function statement compiles the function, and binds it to the last local and the last
/// prototype.
pub proof fn lemma_local_function(
    folding: Folding,
    functions: Seq<FunctionModel>,
    statement: FunctionStatement,
)
    requires
        soundness::sound(functions),
        functions.last().temporaries == 0,
    ensures
        model::local_function(folding, functions, statement) matches Ok(after) ==> {
            let parameters = source::names(statement.definition.parameters@);
            let begun = functions.push(FunctionModel::start(parameters));
            &&& parameters.len() <= u8::MAX
            &&& soundness::sound(begun)
            &&& model::block(folding, begun, statement.definition.body) matches Ok(compiled)
            &&& soundness::sound(compiled)
            &&& compiled.len() == functions.len() + 1
            &&& soundness::captured_more(functions.last(), compiled[functions.len() - 1])
            &&& after.last().upvalues == compiled[functions.len() - 1].upvalues
            &&& after.last().locals == functions.last().locals.push(statement.name.name@)
            &&& after.last().prototypes == functions.last().prototypes.push(
                compiled.last().proto(),
            )
        },
{
    let parameters = model::names(statement.definition.parameters@);
    assert(parameters =~= source::names(statement.definition.parameters@));
    if let Ok(after) = model::local_function(folding, functions, statement) {
        let begun = functions.push(FunctionModel::start(parameters));
        soundness::lemma_begin(functions, parameters);
        soundness::lemma_block(folding, begun, statement.definition.body);
        if let Ok(compiled) = model::block(folding, begun, statement.definition.body) {
            let last = functions.len() - 1;
            assert(soundness::captured_more(begun[last], compiled[last]));
        }
    }
}

/// A statement declares the locals that it says, and makes a function where it is one.
pub proof fn lemma_declares(folding: Folding, functions: Seq<FunctionModel>, statement: Statement)
    requires
        soundness::sound(functions),
        functions.last().temporaries == 0,
    ensures
        model::statement(folding, functions, statement) matches Ok(after) ==> {
            &&& after.last().locals == functions.last().locals + source::declared(statement)
            &&& after.last().prototypes.len() == functions.last().prototypes.len() + if statement
                is LocalFunction {
                1nat
            } else {
                0nat
            }
        },
{
    let locals = functions.last().locals;
    match statement {
        Statement::LocalStatement(s) => {
            lemma_local_statement(folding, functions, s);
        },
        Statement::LocalFunction(s) => {
            lemma_local_function(folding, functions, s);
            assert(locals.push(s.name.name@) =~= locals + source::declared(statement));
        },
        Statement::FunctionCall(s) => {
            soundness::lemma_call_declares_nothing(folding, functions, s);
            assert(locals + source::declared(statement) =~= locals);
        },
        Statement::Assignment(s) => {
            soundness::lemma_assignment_upto(folding, functions, s, s.targets@.len());
            assert(locals + source::declared(statement) =~= locals);
        },
        Statement::Other => {},
    }
}

/// Statements declare the locals that they say, and make the functions among them.
pub proof fn lemma_declares_upto(
    folding: Folding,
    functions: Seq<FunctionModel>,
    parameters: Seq<Seq<u8>>,
    block: Block,
    count: nat,
)
    requires
        soundness::sound(functions),
        functions.last() == FunctionModel::start(parameters),
        count <= block.statements@.len(),
    ensures
        model::statements_upto(folding, functions, block, count) matches Ok(after) ==> {
            &&& after.last().locals == source::locals_after(parameters, block.statements@, count)
            &&& after.last().prototypes.len() == source::functions_before(block.statements@, count)
        },
    decreases count,
{
    if count > 0 {
        let less = (count - 1) as nat;
        lemma_declares_upto(folding, functions, parameters, block, less);
        soundness::lemma_statements_upto(folding, functions, block, less);
        if let Ok(some) = model::statements_upto(folding, functions, block, less) {
            lemma_declares(folding, some, block.statements@[count - 1]);
        }
    }
}

} // verus!
