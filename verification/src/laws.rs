//! What holds of every chunk that is compiled.

use vstd::prelude::*;

use crate::accounting;
use crate::ast::{
    AssignmentStatement, AssignmentTarget, Block, CallSuffix, Chunk, Expression,
    FunctionCallStatement, FunctionStatement, HeadExpression, LocalStatement, PrimaryExpression,
    ReturnStatement, SimpleExpression, Statement,
};
use crate::error::{CompilerError, CompilerLimit, Unsupported};
use crate::execution;
use crate::fidelity;
use crate::function::{self, FunctionProto, ProtoView, UpValueDescriptor};
use crate::limits;
use crate::machine::{self, Environment, Frame, Machine};
use crate::meaning;
use crate::model::{self, Folding, FunctionModel, Operand, Variable};
use crate::opcode::{Constant, OpCode};
use crate::operators::BinaryOperator;
use crate::registers::{Register, REGISTER_COUNT};
use crate::soundness;
use crate::source;
use crate::validity;
use crate::value::{Value, ValueView};

verus! {

/// The functions under compilation at the begin of a chunk.
pub open spec fn begun() -> Seq<FunctionModel> {
    seq![FunctionModel::start(seq![])]
}

/// The functions at the begin of a chunk are sound.
pub proof fn lemma_begun()
    ensures
        soundness::sound(begun()),
        begun().last().temporaries == 0,
{
}

/// A chunk that compiles is a function without parameters and upvalues that can be run: no
/// instruction of it, or of a function inside it, refers to a register, a constant, an upvalue or a
/// function that is not there, and each of these functions ends with a return.
pub proof fn law_chunk_is_valid(folding: Folding, chunk: Chunk)
    ensures
        model::chunk(folding, chunk) matches Ok(proto) ==> validity::valid_chunk(proto),
{
    lemma_begun();
    soundness::lemma_block(folding, begun(), chunk.block);
    if let Ok(after) = model::block(folding, begun(), chunk.block) {
        soundness::lemma_chunk(after);
    }
}

/// The code of an expression computes its value when it is run, and changes no upvalue and no
/// register that was in use, for every meaning of the operators that agrees with what was computed
/// when it was compiled.
pub proof fn law_expression_runs(
    folding: Folding,
    functions: Seq<FunctionModel>,
    expression: Expression,
    machine: Machine,
    names: Environment,
    frame: Frame,
)
    requires
        soundness::sound(functions),
        machine.agrees_with(folding),
        machine.holds(names, functions.last().locals, machine.run(functions.last().opcodes, frame)),
        model::expression(folding, functions, expression) matches Ok((after, _)) ==> machine.has(
            after.last(),
        ),
    ensures
        model::expression(folding, functions, expression) matches Ok((after, operand)) ==> {
            let before = machine.run(functions.last().opcodes, frame);
            let done = machine.run(after.last().opcodes, frame);
            &&& done.value(operand) == machine.eval(names, expression)
            &&& done.keeps(before, functions.last().used() as int)
        },
{
    machine::lemma_run_expression(machine, names, folding, functions, expression, frame);
}

/// A chunk does what it says when it is run, whatever the functions that it calls do to its
/// variables, and for every meaning of the operators that agrees with what was computed when it was
/// compiled: declarations and assignments do what they say to the variables, functions are bound to
/// their names, calls are made with the values of their arguments, and the values of the
/// expressions of the return are those of the variables that are there at the end.
pub proof fn law_chunk_runs(
    folding: Folding,
    chunk: Chunk,
    machine: Machine,
    names: Environment,
    frame: Frame,
)
    requires
        machine.agrees_with(folding),
        machine.calls_fit(),
        model::chunk(folding, chunk) matches Ok(proto) ==> {
            &&& machine.registers == proto.stack_size
            &&& machine.constants == proto.constants
            &&& machine.captures.len() == 0
        },
        machine.fits(frame),
    ensures
        model::chunk(folding, chunk) matches Ok(proto) ==> machine.performs(
            proto.opcodes,
            names,
            seq![],
            chunk.block,
            frame,
        ),
        model::block(folding, begun(), chunk.block) matches Ok(after) ==> {
            &&& model::chunk(folding, chunk) matches Ok(proto)
            &&& proto.opcodes == after.last().opcodes
        },
        model::chunk(folding, chunk) is Ok ==> model::block(folding, begun(), chunk.block) is Ok,
{
    lemma_begun();
    soundness::lemma_block(folding, begun(), chunk.block);
    if let Ok(after) = model::block(folding, begun(), chunk.block) {
        assert(machine.run(begun().last().opcodes, frame) == frame);
        let history = execution::lemma_run_block(
            machine,
            names,
            folding,
            begun(),
            seq![],
            chunk.block,
            frame,
        );
    }
}

/// A chunk that only declares locals and assigns to them returns exactly what it says when it is
/// run.
pub proof fn law_plain_chunk_runs(
    folding: Folding,
    chunk: Chunk,
    machine: Machine,
    names: Environment,
    frame: Frame,
)
    requires
        machine.agrees_with(folding),
        forall|i: int|
            0 <= i < chunk.block.statements@.len() ==> execution::plain(
                #[trigger] chunk.block.statements@[i],
            ),
        model::chunk(folding, chunk) matches Ok(proto) ==> {
            &&& machine.registers == proto.stack_size
            &&& machine.constants == proto.constants
            &&& machine.captures.len() == 0
        },
        machine.fits(frame),
    ensures
        model::chunk(folding, chunk) matches Ok(proto) ==> machine.returned(proto.opcodes, frame)
            == machine.results(
            machine.execute_upto(
                names,
                chunk.block.statements@,
                chunk.block.statements@.len(),
            ),
            chunk.block,
        ),
{
    let statements = chunk.block.statements@;
    lemma_begun();
    soundness::lemma_block(folding, begun(), chunk.block);
    if let Ok(after) = model::block(folding, begun(), chunk.block) {
        assert(machine.run(begun().last().opcodes, frame) == frame);
        let history = execution::lemma_run_block(
            machine,
            names,
            folding,
            begun(),
            seq![],
            chunk.block,
            frame,
        );
        if statements.len() > 0 {
            let count = statements.len();
            execution::lemma_plain_history(machine, names, seq![], statements, history, count);
        }
    }
}

/// A function inside others does what it says when it is run with the registers and constants of
/// its compiled form, whatever its parameters and the variables that it captured hold.
pub proof fn law_function_runs(
    folding: Folding,
    functions: Seq<FunctionModel>,
    parameters: Seq<Seq<u8>>,
    body: Block,
    machine: Machine,
    names: Environment,
    frame: Frame,
)
    requires
        soundness::sound(functions),
        parameters.len() <= u8::MAX,
        machine.agrees_with(folding),
        machine.calls_fit(),
        machine.holds(names, parameters, frame),
        model::block(folding, functions.push(FunctionModel::start(parameters)), body) matches Ok(
            after,
        ) ==> {
            let proto = after.last().proto();
            &&& machine.registers == proto.stack_size
            &&& machine.constants == proto.constants
            &&& machine.captures == machine::captured_names(after.last())
        },
    ensures
        model::block(folding, functions.push(FunctionModel::start(parameters)), body) matches Ok(
            after,
        ) ==> machine.performs(after.last().proto().opcodes, names, parameters, body, frame),
{
    let begun = functions.push(FunctionModel::start(parameters));
    soundness::lemma_begin(functions, parameters);
    soundness::lemma_block(folding, begun, body);
    if let Ok(after) = model::block(folding, begun, body) {
        execution::lemma_captures_once(machine, after);
        assert(machine.run(begun.last().opcodes, frame) == frame);
        let history = execution::lemma_run_block(
            machine,
            names,
            folding,
            begun,
            parameters,
            body,
            frame,
        );
    }
}

/// When a call is run, the value of the called expression and those of the arguments are in
/// registers one above the other, and the variables are what they were.
pub proof fn law_call_runs(
    folding: Folding,
    functions: Seq<FunctionModel>,
    statement: FunctionCallStatement,
    machine: Machine,
    names: Environment,
    frame: Frame,
)
    requires
        soundness::sound(functions),
        functions.last().temporaries == 0,
        machine.agrees_with(folding),
        machine.holds(names, functions.last().locals, machine.run(functions.last().opcodes, frame)),
        model::function_call(folding, functions, statement) matches Ok(after) ==> machine.has(
            after.last(),
        ),
    ensures
        model::function_call(folding, functions, statement) matches Ok(after) ==> {
            let opcodes = after.last().opcodes;
            let ready = machine.run(opcodes.drop_last(), frame);
            &&& statement.call matches CallSuffix::Function(arguments)
            &&& opcodes.last() matches OpCode::Call { func, args, returns: results }
            &&& args.0 == arguments@.len()
            &&& results.0 == 0
            &&& ready.registers[func as int] == machine.eval_suffixed(names, statement.head)
            &&& forall|i: int|
                0 <= i < arguments@.len() ==> #[trigger] ready.registers[func + 1 + i]
                    == machine.eval(names, arguments@[i])
            &&& machine.holds(names, functions.last().locals, ready)
        },
{
    execution::lemma_run_function_call(machine, names, folding, functions, statement, frame);
}

/// A function statement makes a closure of the function that was compiled from its definition, and
/// its name stands for the register of that closure from then on.
pub proof fn law_function_statement(
    folding: Folding,
    functions: Seq<FunctionModel>,
    statement: FunctionStatement,
)
    requires
        soundness::sound(functions),
        functions.last().temporaries == 0,
    ensures
        model::local_function(folding, functions, statement) matches Ok(after) ==> {
            let parameters = model::names(statement.definition.parameters@);
            let begun = functions.push(FunctionModel::start(parameters));
            let top = after.last();
            &&& model::block(folding, begun, statement.definition.body) matches Ok(compiled)
            &&& top.opcodes.last() matches OpCode::Closure { proto, dest }
            &&& top.prototypes[proto as int] == compiled.last().proto()
            &&& dest == functions.last().locals.len()
            &&& model::resolve(after, statement.name.name@) == Ok::<_, CompilerError>(
                (after, Variable::Local(dest)),
            )
        },
{
    soundness::lemma_local_function(folding, functions, statement);
    if let Ok(after) = model::local_function(folding, functions, statement) {
        let parameters = model::names(statement.definition.parameters@);
        let begun = functions.push(FunctionModel::start(parameters));
        soundness::lemma_begin(functions, parameters);
        soundness::lemma_block(folding, begun, statement.definition.body);
        if let Ok(compiled) = model::block(folding, begun, statement.definition.body) {
            let last = functions.len() - 1;
            assert(soundness::captured_more(begun[last], compiled[last]));
            assert(validity::valid_function(compiled[last]));
        }
    }
}

/// The body of a function leaves no register in use but those of its locals, and every local lives
/// in the register of its position.
pub proof fn law_block_leaks_no_registers(
    folding: Folding,
    functions: Seq<FunctionModel>,
    block: Block,
)
    requires
        soundness::sound(functions),
        functions.last().temporaries == 0,
    ensures
        model::block(folding, functions, block) matches Ok(after) ==> after.last().used()
            == after.last().locals.len(),
{
    soundness::lemma_block(folding, functions, block);
}

/// An expression takes at most one register, which is the one above those that were in use.
pub proof fn law_expression_takes_one_register(
    folding: Folding,
    functions: Seq<FunctionModel>,
    expression: Expression,
)
    requires
        soundness::sound(functions),
    ensures
        model::expression(folding, functions, expression) matches Ok((after, operand)) ==> {
            let before = functions.last().used();
            &&& after.last().locals == functions.last().locals
            &&& match operand {
                Operand::Temporary(register) => {
                    &&& register == before
                    &&& after.last().used() == before + 1
                },
                _ => after.last().used() == before,
            }
        },
{
    soundness::lemma_expression(folding, functions, expression);
}

/// To compile the body of a function changes the functions around it only in that they may capture
/// more variables.
pub proof fn law_enclosing_functions_only_capture(
    folding: Folding,
    functions: Seq<FunctionModel>,
    block: Block,
)
    requires
        soundness::sound(functions),
        functions.last().temporaries == 0,
    ensures
        model::block(folding, functions, block) matches Ok(after) ==> {
            &&& soundness::sound(after)
            &&& after.len() == functions.len()
            &&& forall|k: int|
                0 <= k < functions.len() - 1 ==> soundness::captured_more(
                    functions[k],
                    #[trigger] after[k],
                )
        },
{
    soundness::lemma_block(folding, functions, block);
}

/// A name stands for the local of that name that was declared last.
pub proof fn law_last_declaration_counts(functions: Seq<FunctionModel>, name: Seq<u8>)
    requires
        functions.len() > 0,
    ensures
        model::resolve(
            model::with_top(functions, functions.last().declare(name)),
            name,
        ) == Ok::<_, CompilerError>(
            (
                model::with_top(functions, functions.last().declare(name)),
                Variable::Local(functions.last().locals.len() as Register),
            ),
        ),
{
}

/// A declaration hides no local of another name.
pub proof fn law_declaration_hides_only_its_name(
    functions: Seq<FunctionModel>,
    name: Seq<u8>,
    other: Seq<u8>,
    position: int,
)
    requires
        functions.len() > 0,
        other != name,
        source::latest(functions.last().locals, other, position),
    ensures
        model::resolve(
            model::with_top(functions, functions.last().declare(name)),
            other,
        ) == Ok::<_, CompilerError>(
            (
                model::with_top(functions, functions.last().declare(name)),
                Variable::Local(position as Register),
            ),
        ),
{
    let locals = functions.last().locals;
    execution::lemma_last_position_push(locals, name, other, locals.len());
    soundness::lemma_last_position(locals, other, locals.len());
    let found = model::last_position(locals, other, locals.len());
    assert(locals[position] == other);
    assert(found == Some(position as nat));
}

/// A name that was resolved once stands for the same variable from then on, and is not captured
/// again.
pub proof fn law_name_is_captured_once(functions: Seq<FunctionModel>, name: Seq<u8>)
    requires
        soundness::sound(functions),
    ensures
        model::resolve(functions, name) matches Ok((after, variable)) ==> model::resolve(
            after,
            name,
        ) == Ok::<_, CompilerError>((after, variable)),
{
    soundness::lemma_resolve(functions, name);
    if let Ok((after, variable)) = model::resolve(functions, name) {
        if variable != Variable::Global(name) || after != functions {
            soundness::lemma_resolves_to(after, name, variable);
        }
    }
}

/// Every upvalue of a function is the variable that its name stands for in the function around, and
/// no two upvalues of a function have one name.
pub proof fn law_upvalue_is_outer_variable(functions: Seq<FunctionModel>, i: int, j: int)
    requires
        soundness::sound(functions),
        0 <= i < functions.last().upvalues.len(),
        0 <= j < functions.last().upvalues.len(),
    ensures
        functions.len() > 1,
        model::resolve(functions.drop_last(), functions.last().upvalues[i].0) == Ok::<
            _,
            CompilerError,
        >((functions.drop_last(), soundness::source(functions.last().upvalues[i].1))),
        functions.last().upvalues[i].0 == functions.last().upvalues[j].0 ==> i == j,
{
    let last = functions.len() - 1;
    let (name, descriptor) = functions.last().upvalues[i];
    assert(last > 0);
    assert(soundness::scoped(functions[last - 1], functions[last]));
    assert(functions[last].upvalues[i].0 == name);
    assert(functions[last].upvalues[j].0 == functions.last().upvalues[j].0);
    soundness::lemma_resolves_to(functions.drop_last(), name, soundness::source(descriptor));
}

/// The function whose local an upvalue of the function at `level` is in the end, and the register of
/// that local.
pub open spec fn origin(functions: Seq<FunctionModel>, level: int, index: int) -> (int, Register)
    decreases level,
{
    match functions[level].upvalues[index].1 {
        UpValueDescriptor::ParentLocal(register) => (level - 1, register),
        UpValueDescriptor::Outer(outer) => if level <= 0 {
            arbitrary()
        } else {
            origin(functions, level - 1, outer as int)
        },
    }
}

/// An upvalue leads through upvalues of the same name, one function after the other, to a local of
/// the nearest function around that declares its name: the one that was declared last there.
pub proof fn law_upvalue_leads_to_local(functions: Seq<FunctionModel>, level: int, index: int)
    requires
        soundness::sound(functions),
        0 <= level < functions.len(),
        0 <= index < functions[level].upvalues.len(),
    ensures
        ({
            let name = functions[level].upvalues[index].0;
            let (home, register) = origin(functions, level, index);
            &&& 0 <= home < level
            &&& model::last_position(
                functions[home].locals,
                name,
                functions[home].locals.len(),
            ) == Some(register as nat)
            &&& forall|k: int|
                home < k < level ==> {
                    let f = #[trigger] functions[k];
                    &&& model::last_position(f.locals, name, f.locals.len()) is None
                    &&& model::first_position(f.upvalues, name, 0) is Some
                }
        }),
    decreases level,
{
    assert(level > 0);
    assert(soundness::scoped(functions[level - 1], functions[level]));
    let (name, descriptor) = functions[level].upvalues[index];
    assert(functions[level].upvalues[index].0 == name);
    let around = functions[level - 1];
    soundness::lemma_first_position(around.upvalues, name, 0);
    if let UpValueDescriptor::Outer(outer) = descriptor {
        law_upvalue_leads_to_local(functions, level - 1, outer as int);
    }
}

/// A constant is in the table of a function once: its index is that of the value, and to look it up
/// again gives the same index and changes nothing.
pub proof fn law_constant_is_there_once(f: FunctionModel, value: ValueView)
    requires
        validity::valid_function(f),
    ensures
        f.constant(value) matches Ok((g, index)) ==> {
            &&& g.constants.no_duplicates()
            &&& g.constants[index as int] == value
            &&& g.constant(value) == Ok::<_, CompilerError>((g, index))
        },
{
    validity::lemma_constant(f, value);
    if let Ok((g, index)) = f.constant(value) {
        model::lemma_constant_position(g.constants, value, 0);
        assert(g.constants[index as int] == value);
    }
}

/// The values of an assignment beyond its last target are not compiled: without them, the
/// assignment compiles to the same.
pub proof fn law_values_beyond_targets_are_left_out(
    folding: Folding,
    functions: Seq<FunctionModel>,
    statement: AssignmentStatement,
    shorter: AssignmentStatement,
    count: nat,
)
    requires
        count <= statement.targets@.len(),
        shorter.targets@ == statement.targets@,
        shorter.values@ == statement.values@.take(statement.targets@.len() as int),
        statement.targets@.len() <= statement.values@.len(),
    ensures
        model::assignment_upto(folding, functions, shorter, count) == model::assignment_upto(
            folding,
            functions,
            statement,
            count,
        ),
    decreases count,
{
    if count > 0 {
        law_values_beyond_targets_are_left_out(
            folding,
            functions,
            statement,
            shorter,
            (count - 1) as nat,
        );
    }
}

/// To load nil into a register sets that register and no other when it is run, and takes no
/// instruction of its own if the one before loads nil into the register below.
pub proof fn law_load_nil(machine: Machine, f: FunctionModel, dest: Register, frame: Frame)
    requires
        dest < machine.run(f.opcodes, frame).registers.len(),
    ensures
        machine.run(f.load_nil(dest).opcodes, frame) == machine.run(f.opcodes, frame).set(
            dest as int,
            ValueView::Nil,
        ),
        f.opcodes.len() > 0 ==> (f.opcodes.last() matches OpCode::LoadNil { dest: first, count }
            ==> first + count == dest && count < 255 ==> f.load_nil(dest).opcodes.len()
            == f.opcodes.len()),
{
    machine::lemma_run_load_nil(machine, f, dest, frame);
}

/// A name that no function declares is not supported, neither as a value nor as a target.
pub proof fn law_globals_are_rejected(
    folding: Folding,
    functions: Seq<FunctionModel>,
    name: Vec<u8>,
    operand: Operand,
)
    requires
        functions.len() > 0,
        forall|i: int| 0 <= i < functions.len() ==> model::foreign(#[trigger] functions[i], name@),
    ensures
        model::primary_expression(folding, functions, PrimaryExpression::Name(name))
            == model::unsupported::<(Seq<FunctionModel>, Operand)>(Unsupported::GlobalVariable),
        model::assign(functions, AssignmentTarget::Name(name), operand) == model::unsupported::<
            Seq<FunctionModel>,
        >(Unsupported::GlobalAssignment),
{
    model::lemma_resolve_global(functions, name@);
}

/// The first statement that cannot be compiled decides the error of the chunk.
pub proof fn law_first_error_counts(folding: Folding, chunk: Chunk, count: nat, e: CompilerError)
    requires
        count <= chunk.block.statements@.len(),
        model::statements_upto(folding, begun(), chunk.block, count) == Err::<
            Seq<FunctionModel>,
            CompilerError,
        >(e),
    ensures
        model::chunk(folding, chunk) == Err::<ProtoView, CompilerError>(e),
{
    model::lemma_statements_fail(
        folding,
        begun(),
        chunk.block,
        count,
        chunk.block.statements@.len(),
    );
}

/// Statements are compiled one after the other: a body of which the first statements alone do not
/// compile fails for the same reason as these.
pub proof fn law_statements_fail_in_order(
    folding: Folding,
    functions: Seq<FunctionModel>,
    body: Block,
    shorter: Block,
    e: CompilerError,
)
    requires
        shorter.statements@.len() <= body.statements@.len(),
        shorter.statements@ == body.statements@.take(shorter.statements@.len() as int),
        shorter.return_statement is None,
        model::block(folding, functions, shorter) == Err::<Seq<FunctionModel>, CompilerError>(e),
    ensures
        model::block(folding, functions, body) == Err::<Seq<FunctionModel>, CompilerError>(e),
{
    let count = shorter.statements@.len();
    lemma_same_statements(folding, functions, body, shorter, count);
    model::lemma_statements_fail(folding, functions, body, count, body.statements@.len());
}

/// What statements compile to depends on no statement after them.
pub proof fn lemma_same_statements(
    folding: Folding,
    functions: Seq<FunctionModel>,
    body: Block,
    shorter: Block,
    count: nat,
)
    requires
        count <= shorter.statements@.len() <= body.statements@.len(),
        shorter.statements@ == body.statements@.take(shorter.statements@.len() as int),
    ensures
        model::statements_upto(folding, functions, body, count) == model::statements_upto(
            folding,
            functions,
            shorter,
            count,
        ),
    decreases count,
{
    if count > 0 {
        lemma_same_statements(folding, functions, body, shorter, (count - 1) as nat);
        assert(shorter.statements@[count - 1] == body.statements@[count - 1]);
    }
}

/// A chunk with a statement that is not supported does not compile.
pub proof fn law_unsupported_statements_are_rejected(folding: Folding, chunk: Chunk, i: int)
    requires
        0 <= i < chunk.block.statements@.len(),
        chunk.block.statements@[i] is Other,
    ensures
        model::chunk(folding, chunk) is Err,
{
    let count = (i + 1) as nat;
    let failed = model::statements_upto(folding, begun(), chunk.block, count);
    if let Ok(functions) = model::statements_upto(folding, begun(), chunk.block, i as nat) {
        assert(model::statement(folding, functions, chunk.block.statements@[i]) is Err);
    }
    law_first_error_counts(folding, chunk, count, failed->Err_0);
}

/// The limit of functions inside a function is never exceeded: each of them is bound to a local, and
/// there are no more registers for locals than functions that can be counted.
pub proof fn law_functions_always_fit(folding: Folding, chunk: Chunk)
    ensures
        model::chunk(folding, chunk) != Err::<ProtoView, CompilerError>(
            CompilerError::Limit(CompilerLimit::Functions),
        ),
{
    lemma_begun();
    limits::lemma_block(folding, begun(), chunk.block);
}

/// A chunk is compiled exactly if all its parts are supported where they stand, its names are
/// visible, and it exceeds no limit.
pub proof fn law_chunk_compiles(folding: Folding, chunk: Chunk)
    ensures
        model::chunk(folding, chunk) is Ok <==> {
            &&& source::fault_body(folding, seq![], chunk.block) is None
            &&& forall|limit: CompilerLimit|
                !(#[trigger] source::exceeds(folding, limit, seq![], chunk.block))
        },
{
    meaning::lemma_chunk(folding, chunk);
}

/// A chunk that is refused is refused for its first fault, or for a limit that it exceeds.
pub proof fn law_chunk_is_refused_for_a_reason(folding: Folding, chunk: Chunk)
    ensures
        match model::chunk(folding, chunk) {
            Err(CompilerError::Unsupported(part)) => source::fault_body(
                folding,
                seq![],
                chunk.block,
            ) == Some(part),
            Err(CompilerError::Limit(limit)) => source::exceeds(
                folding,
                limit,
                seq![],
                chunk.block,
            ),
            Ok(_) => true,
        },
{
    meaning::lemma_chunk(folding, chunk);
}

/// A chunk that compiles is a function that takes nothing, has the registers and constants that the
/// chunk needs, does what the chunk says, and holds the functions of the chunk in their order, each
/// of which is in the same way what its definition says.
pub proof fn law_chunk_is_implemented(folding: Folding, chunk: Chunk)
    ensures
        model::chunk(folding, chunk) matches Ok(proto) ==> meaning::implements(
            folding,
            proto,
            seq![],
            chunk.block,
        ),
{
    meaning::lemma_chunk(folding, chunk);
}

/// In a compiled function, the function that a statement of its body defines stands after those of
/// the statements before. It takes as many arguments as it has parameters, it has the registers and
/// the constants that it needs, each of its upvalues leads to the variable of the function around
/// that the captured name stands for, and its code does what its body says.
pub proof fn law_functions_are_in_order(
    folding: Folding,
    proto: ProtoView,
    parameters: Seq<Seq<u8>>,
    body: Block,
    i: int,
    statement: FunctionStatement,
)
    requires
        meaning::implements(folding, proto, parameters, body),
        0 <= i < body.statements@.len(),
        body.statements@[i] == Statement::LocalFunction(statement),
    ensures
        ({
            let position = source::functions_before(body.statements@, i as nat);
            let inner = proto.prototypes[position as int];
            let names = source::names(statement.definition.parameters@);
            let needs = source::account(folding, names, statement.definition.body);
            &&& position < proto.prototypes.len()
            &&& inner.fixed_params == statement.definition.parameters@.len()
            &&& inner.stack_size == needs.registers
            &&& inner.constants == needs.constants
            &&& meaning::leads(
                inner.upvalues,
                needs.captures,
                source::locals_after(parameters, body.statements@, i as nat),
                source::account(folding, parameters, body).captures,
            )
            &&& meaning::code_performs(
                folding,
                inner,
                needs.captures,
                names,
                statement.definition.body,
            )
            &&& meaning::implements(folding, inner, names, statement.definition.body)
        }),
{
    let position = source::functions_before(body.statements@, i as nat);
    assert(meaning::implemented(
        folding,
        proto.prototypes,
        position,
        source::locals_after(parameters, body.statements@, i as nat),
        source::account(folding, parameters, body).captures,
        body.statements@[i],
    ));
}

/// Two operands of any kinds can be added. This fails only where there is no register or no constant
/// left for what has to be loaded, and the sum is in a register of its own.
pub proof fn law_operands_are_added(f: FunctionModel, left: Operand, right: Operand)
    requires
        validity::valid_function(f),
        validity::valid_operand(left, f),
        validity::valid_operand(right, f),
        f.holds_two(left, right),
    ensures
        match f.sum(left, right) {
            Ok((g, operand)) => {
                &&& operand is Temporary
                &&& g.locals == f.locals
            },
            Err(e) => {
                ||| e == CompilerError::Limit(CompilerLimit::Registers) && f.used() + 2
                    > REGISTER_COUNT
                ||| e == CompilerError::Limit(CompilerLimit::Constants) && f.constants.len() + 2
                    > Constant::MAX + 1
            },
        },
{
    let l = accounting::place_of(left);
    let r = accounting::place_of(right);
    accounting::lemma_sum(
        f,
        left,
        right,
        l,
        r,
        (f.temporaries - l.held() - r.held()) as nat,
    );
}

/// What a compiled function is says all that it holds.
pub proof fn law_function_is_what_it_holds(proto: FunctionProto<'_>)
    ensures
        proto@.fixed_params == proto.fixed_params,
        proto@.has_varargs == proto.has_varargs,
        proto@.stack_size == proto.stack_size,
        proto@.opcodes == proto.opcodes@,
        proto@.upvalues == proto.upvalues@,
        proto@.constants.len() == proto.constants@.len(),
        forall|i: int|
            0 <= i < proto.constants@.len() ==> #[trigger] proto@.constants[i]
                == proto.constants@[i]@,
        proto@.prototypes.len() == proto.prototypes@.len(),
        forall|i: int|
            0 <= i < proto.prototypes@.len() ==> #[trigger] proto@.prototypes[i]
                == proto.prototypes@[i]@,
{
    assert(proto@.prototypes == function::proto_views(proto.prototypes@));
    assert forall|i: int| 0 <= i < proto.prototypes@.len() implies #[trigger] proto@.prototypes[i]
        == proto.prototypes@[i]@ by {
        assert(function::proto_views(proto.prototypes@)[i] == function::proto_view(
            proto.prototypes@[i],
        ));
    }
}

/// Two values are the same exactly if they are of one kind and hold the same bits.
pub proof fn law_value_is_what_it_holds(a: Value<'_>, b: Value<'_>)
    ensures
        a@ == b@ <==> match (a, b) {
            (Value::Nil, Value::Nil) => true,
            (Value::Boolean(x), Value::Boolean(y)) => x == y,
            (Value::Integer(x), Value::Integer(y)) => x == y,
            (Value::Number(x), Value::Number(y)) => x == y,
            (Value::String(x), Value::String(y)) => x@ == y@,
            (Value::Table(x), Value::Table(y)) => x == y,
            (Value::Closure(x), Value::Closure(y)) => x == y,
            _ => false,
        },
{
}

/// Operators are compiled from left to right: an expression of which the first operators alone do
/// not compile fails for the same reason as these.
pub proof fn law_operators_fail_in_order(
    folding: Folding,
    functions: Seq<FunctionModel>,
    e: Expression,
    shorter: Expression,
    error: CompilerError,
)
    requires
        shorter.head == e.head,
        shorter.tail@.len() <= e.tail@.len(),
        shorter.tail@ == e.tail@.take(shorter.tail@.len() as int),
        model::expression(folding, functions, shorter) == Err::<
            (Seq<FunctionModel>, Operand),
            CompilerError,
        >(error),
    ensures
        model::expression(folding, functions, e) == Err::<
            (Seq<FunctionModel>, Operand),
            CompilerError,
        >(error),
{
    let count = shorter.tail@.len();
    lemma_same_operators(folding, functions, e, shorter, count);
    model::lemma_expression_fails(folding, functions, e, count, e.tail@.len());
}

/// What operators compile to depends on no operator after them.
pub proof fn lemma_same_operators(
    folding: Folding,
    functions: Seq<FunctionModel>,
    e: Expression,
    shorter: Expression,
    count: nat,
)
    requires
        shorter.head == e.head,
        count <= shorter.tail@.len() <= e.tail@.len(),
        shorter.tail@ == e.tail@.take(shorter.tail@.len() as int),
    ensures
        model::expression_upto(folding, functions, e, count) == model::expression_upto(
            folding,
            functions,
            shorter,
            count,
        ),
    decreases count,
{
    if count > 0 {
        lemma_same_operators(folding, functions, e, shorter, (count - 1) as nat);
        assert(shorter.tail@[count - 1] == e.tail@[count - 1]);
    }
}

/// Both operands of an operator are compiled before the operator itself: the error of the right one
/// is that of the expression, and only an operator between operands that compile is refused.
pub proof fn law_operands_come_before_operators(
    folding: Folding,
    functions: Seq<FunctionModel>,
    e: Expression,
    left: Seq<FunctionModel>,
    operand: Operand,
)
    requires
        e.tail@.len() > 0,
        model::expression_upto(folding, functions, e, (e.tail@.len() - 1) as nat) == Ok::<
            (Seq<FunctionModel>, Operand),
            CompilerError,
        >((left, operand)),
    ensures
        match model::expression(folding, left, e.tail@.last().1) {
            Err(error) => model::expression(folding, functions, e) == Err::<
                (Seq<FunctionModel>, Operand),
                CompilerError,
            >(error),
            Ok((_, right)) => e.tail@.last().0 == BinaryOperator::Add || (operand is Value && right
                is Value) || model::expression(folding, functions, e) == model::unsupported::<
                (Seq<FunctionModel>, Operand),
            >(Unsupported::BinaryOperator),
        },
{
}

/// The values that are returned are compiled from left to right.
pub proof fn law_returned_values_fail_in_order(
    folding: Folding,
    functions: Seq<FunctionModel>,
    statement: ReturnStatement,
    shorter: ReturnStatement,
    e: CompilerError,
)
    requires
        1 < shorter.returns@.len() <= statement.returns@.len() < 255,
        shorter.returns@ == statement.returns@.take(shorter.returns@.len() as int),
        model::return_statement(folding, functions, shorter) == Err::<
            Seq<FunctionModel>,
            CompilerError,
        >(e),
    ensures
        model::return_statement(folding, functions, statement) == Err::<
            Seq<FunctionModel>,
            CompilerError,
        >(e),
{
    let count = shorter.returns@.len();
    let values = statement.returns@;
    lemma_same_values(folding, functions, values, shorter.returns@, count);
    model::lemma_push_fails(folding, functions, values, count, values.len());
}

/// What values compile to depends on no value after them.
pub proof fn lemma_same_values(
    folding: Folding,
    functions: Seq<FunctionModel>,
    values: Seq<Expression>,
    shorter: Seq<Expression>,
    count: nat,
)
    requires
        count <= shorter.len() <= values.len(),
        shorter == values.take(shorter.len() as int),
    ensures
        model::push_upto(folding, functions, values, count) == model::push_upto(
            folding,
            functions,
            shorter,
            count,
        ),
    decreases count,
{
    if count > 0 {
        lemma_same_values(folding, functions, values, shorter, (count - 1) as nat);
        assert(shorter[count - 1] == values[count - 1]);
    }
}

/// The first value that is returned is compiled first: its error is that of the return.
pub proof fn law_first_returned_value_comes_first(
    folding: Folding,
    functions: Seq<FunctionModel>,
    statement: ReturnStatement,
    e: CompilerError,
)
    requires
        0 < statement.returns@.len() < 255,
        model::expression(folding, functions, statement.returns@[0]) == Err::<
            (Seq<FunctionModel>, Operand),
            CompilerError,
        >(e),
    ensures
        model::return_statement(folding, functions, statement) == Err::<
            Seq<FunctionModel>,
            CompilerError,
        >(e),
{
    let values = statement.returns@;
    assert(model::push_upto(folding, functions, values, 0) == Ok::<
        Seq<FunctionModel>,
        CompilerError,
    >(functions));
    assert(model::push_upto(folding, functions, values, 1) is Err);
    model::lemma_push_fails(folding, functions, values, 1, values.len());
}

/// Too many values to return are refused before any of them is compiled.
pub proof fn law_returns_are_counted_first(
    folding: Folding,
    functions: Seq<FunctionModel>,
    statement: ReturnStatement,
)
    requires
        statement.returns@.len() >= 255,
    ensures
        model::return_statement(folding, functions, statement) == model::limit::<
            Seq<FunctionModel>,
        >(CompilerLimit::Returns),
{
}

/// The called expression is compiled first, into a register of its own: a call fails as a local with
/// that expression as its value would, whatever it is called with.
pub proof fn law_call_fails_as_what_is_called(
    folding: Folding,
    functions: Seq<FunctionModel>,
    statement: FunctionCallStatement,
    local: LocalStatement,
    e: CompilerError,
)
    requires
        local.names@.len() == 1,
        local.values@.len() == 1,
        *local.values@[0].head == HeadExpression::Simple(
            SimpleExpression::Suffixed(statement.head),
        ),
        local.values@[0].tail@.len() == 0,
        model::local_statement(folding, functions, local) == Err::<
            Seq<FunctionModel>,
            CompilerError,
        >(e),
    ensures
        model::function_call(folding, functions, statement) == Err::<
            Seq<FunctionModel>,
            CompilerError,
        >(e),
{
    let value = local.values@[0];
    let simple = SimpleExpression::Suffixed(statement.head);
    assert(model::expression(folding, functions, value) == model::expression_upto(
        folding,
        functions,
        value,
        0,
    ));
    assert(model::expression_upto(folding, functions, value, 0) == model::head_expression(
        folding,
        functions,
        *value.head,
    ));
    assert(model::head_expression(folding, functions, *value.head) == model::simple_expression(
        folding,
        functions,
        simple,
    ));
    assert(model::simple_expression(folding, functions, simple) == model::suffixed_expression(
        folding,
        functions,
        statement.head,
    ));
    assert(model::local_values_upto(folding, functions, local, 0) == Ok::<
        Seq<FunctionModel>,
        CompilerError,
    >(functions));
    assert(model::local_values_upto(folding, functions, local, 1) == model::local_value(
        folding,
        functions,
        local,
        0,
    ));
    if let Ok(done) = model::local_values_upto(folding, functions, local, 1) {
        assert(model::local_nils_upto(done.last(), local, 1) == Ok::<FunctionModel, CompilerError>(
            done.last(),
        ));
    }
}

/// The arguments of a call are compiled from left to right.
pub proof fn law_arguments_fail_in_order(
    folding: Folding,
    functions: Seq<FunctionModel>,
    statement: FunctionCallStatement,
    shorter: FunctionCallStatement,
    arguments: Seq<Expression>,
    fewer: Seq<Expression>,
    e: CompilerError,
)
    requires
        statement.head == shorter.head,
        statement.call matches CallSuffix::Function(all) && all@ == arguments,
        shorter.call matches CallSuffix::Function(some) && some@ == fewer,
        fewer.len() < 255,
        fewer.len() <= arguments.len() <= 255,
        fewer == arguments.take(fewer.len() as int),
        model::function_call(folding, functions, shorter) == Err::<
            Seq<FunctionModel>,
            CompilerError,
        >(e),
    ensures
        model::function_call(folding, functions, statement) == Err::<
            Seq<FunctionModel>,
            CompilerError,
        >(e),
{
    if let Ok((headed, operand)) = model::suffixed_expression(folding, functions, statement.head) {
        if let Ok((top, _)) = headed.last().in_new_register(operand) {
            let ready = model::with_top(headed, top);
            lemma_same_values(folding, ready, arguments, fewer, fewer.len());
            model::lemma_push_fails(folding, ready, arguments, fewer.len(), arguments.len());
        }
    }
}

/// The values of a local statement are compiled from left to right, each with its name.
pub proof fn law_local_values_fail_in_order(
    folding: Folding,
    functions: Seq<FunctionModel>,
    statement: LocalStatement,
    shorter: LocalStatement,
    e: CompilerError,
)
    requires
        shorter.names@.len() <= shorter.values@.len() <= statement.values@.len(),
        shorter.names@.len() <= statement.names@.len(),
        shorter.names@.len() < shorter.values@.len() ==> shorter.names@.len()
            == statement.names@.len(),
        shorter.values@ == statement.values@.take(shorter.values@.len() as int),
        shorter.names@ == statement.names@.take(shorter.names@.len() as int),
        model::local_statement(folding, functions, shorter) == Err::<
            Seq<FunctionModel>,
            CompilerError,
        >(e),
    ensures
        model::local_statement(folding, functions, statement) == Err::<
            Seq<FunctionModel>,
            CompilerError,
        >(e),
{
    let count = shorter.values@.len();
    lemma_same_locals(folding, functions, statement, shorter, count);
    model::lemma_local_values_fail(
        folding,
        functions,
        statement,
        count,
        statement.values@.len(),
    );
}

/// What the values of a local statement compile to depends on no value after them.
pub proof fn lemma_same_locals(
    folding: Folding,
    functions: Seq<FunctionModel>,
    statement: LocalStatement,
    shorter: LocalStatement,
    count: nat,
)
    requires
        count <= shorter.values@.len() <= statement.values@.len(),
        shorter.names@.len() <= shorter.values@.len(),
        shorter.names@.len() <= statement.names@.len(),
        shorter.names@.len() < shorter.values@.len() ==> shorter.names@.len()
            == statement.names@.len(),
        shorter.values@ == statement.values@.take(shorter.values@.len() as int),
        shorter.names@ == statement.names@.take(shorter.names@.len() as int),
    ensures
        model::local_values_upto(folding, functions, statement, count)
            == model::local_values_upto(folding, functions, shorter, count),
    decreases count,
{
    if count > 0 {
        lemma_same_locals(folding, functions, statement, shorter, (count - 1) as nat);
        assert(shorter.values@[count - 1] == statement.values@[count - 1]);
        if count <= shorter.names@.len() {
            assert(shorter.names@[count - 1] == statement.names@[count - 1]);
        }
    }
}

/// The targets of an assignment are compiled from left to right, each after its value.
pub proof fn law_targets_fail_in_order(
    folding: Folding,
    functions: Seq<FunctionModel>,
    statement: AssignmentStatement,
    shorter: AssignmentStatement,
    e: CompilerError,
)
    requires
        shorter.targets@.len() <= statement.targets@.len(),
        shorter.targets@ == statement.targets@.take(shorter.targets@.len() as int),
        shorter.values@ == statement.values@,
        model::statement(folding, functions, Statement::Assignment(shorter)) == Err::<
            Seq<FunctionModel>,
            CompilerError,
        >(e),
    ensures
        model::statement(folding, functions, Statement::Assignment(statement)) == Err::<
            Seq<FunctionModel>,
            CompilerError,
        >(e),
{
    let count = shorter.targets@.len();
    lemma_same_targets(folding, functions, statement, shorter, count);
    model::lemma_assignment_fails(folding, functions, statement, count, statement.targets@.len());
}

/// What targets compile to depends on no target after them.
pub proof fn lemma_same_targets(
    folding: Folding,
    functions: Seq<FunctionModel>,
    statement: AssignmentStatement,
    shorter: AssignmentStatement,
    count: nat,
)
    requires
        count <= shorter.targets@.len() <= statement.targets@.len(),
        shorter.targets@ == statement.targets@.take(shorter.targets@.len() as int),
        shorter.values@ == statement.values@,
    ensures
        model::assignment_upto(folding, functions, statement, count) == model::assignment_upto(
            folding,
            functions,
            shorter,
            count,
        ),
    decreases count,
{
    if count > 0 {
        lemma_same_targets(folding, functions, statement, shorter, (count - 1) as nat);
        assert(shorter.targets@[count - 1] == statement.targets@[count - 1]);
    }
}

/// What is assigned is compiled before its target: its error is that of the assignment.
pub proof fn law_value_comes_before_target(
    folding: Folding,
    functions: Seq<FunctionModel>,
    statement: AssignmentStatement,
    e: CompilerError,
)
    requires
        statement.targets@.len() > 0,
        statement.values@.len() > 0,
        model::expression(folding, functions, statement.values@[0]) == Err::<
            (Seq<FunctionModel>, Operand),
            CompilerError,
        >(e),
    ensures
        model::statement(folding, functions, Statement::Assignment(statement)) == Err::<
            Seq<FunctionModel>,
            CompilerError,
        >(e),
{
    assert(model::assignment_upto(folding, functions, statement, 0) == Ok::<
        Seq<FunctionModel>,
        CompilerError,
    >(functions));
    assert(model::assignment_upto(folding, functions, statement, 1) == Err::<
        Seq<FunctionModel>,
        CompilerError,
    >(e));
    model::lemma_assignment_fails(folding, functions, statement, 1, statement.targets@.len());
}

/// The parameters of a function are counted before its body is compiled, and a function fails as its
/// body does.
pub proof fn law_function_fails_as_its_body(
    folding: Folding,
    functions: Seq<FunctionModel>,
    statement: FunctionStatement,
)
    requires
        !statement.definition.has_varargs,
        statement.name.fields@.len() == 0,
        statement.name.method is None,
    ensures
        ({
            let parameters = source::names(statement.definition.parameters@);
            let begun = functions.push(FunctionModel::start(parameters));
            let result = model::local_function(folding, functions, statement);
            if parameters.len() > 255 {
                result == model::limit::<Seq<FunctionModel>>(CompilerLimit::FixedParameters)
            } else {
                model::block(folding, begun, statement.definition.body) matches Err(e) ==> result
                    == Err::<Seq<FunctionModel>, CompilerError>(e)
            }
        }),
{
    assert(model::names(statement.definition.parameters@) =~= source::names(
        statement.definition.parameters@,
    ));
}

/// Where no register is left, a value that has to be loaded fails for want of a register, whether it
/// would take a constant or not.
pub proof fn law_register_comes_before_constant(f: FunctionModel, operand: Operand)
    requires
        f.used() >= REGISTER_COUNT,
    ensures
        f.load_next(operand) == model::limit::<(FunctionModel, Register)>(
            CompilerLimit::Registers,
        ),
{
}

/// To add operands, a known left one becomes a constant first where the right one is not known. Else
/// the left one is brought into a register first.
pub proof fn law_operands_are_brought_in_order(
    f: FunctionModel,
    left: Operand,
    right: Operand,
    e: CompilerError,
)
    requires
        match left {
            Operand::Value(value) => if right is Value {
                f.load_next(left) == Err::<(FunctionModel, Register), CompilerError>(e)
            } else {
                f.constant(value) == Err::<(FunctionModel, Constant), CompilerError>(e)
            },
            _ => f.in_any_register(left) == Err::<
                (FunctionModel, Operand, Register),
                CompilerError,
            >(e),
        },
    ensures
        f.sum(left, right) == Err::<(FunctionModel, Operand), CompilerError>(e),
{
    reveal(FunctionModel::sum);
}

/// The register of an operand that is in one, or else the one into which it is brought next.
pub open spec fn register_of(operand: Operand, next: nat) -> int {
    match operand {
        Operand::Temporary(register) => register as int,
        Operand::Local(register) => register as int,
        _ => next as int,
    }
}

/// Two operands are added by one instruction, whose operands are theirs in their order and whose
/// result takes the first register that is free once they were used. A known right operand is a
/// constant of the instruction, and so is a known left one beside a right one that is not known. The
/// variables of other functions are brought into registers before, the left one first.
pub proof fn law_sum_is_one_instruction(f: FunctionModel, left: Operand, right: Operand)
    requires
        validity::valid_function(f),
        validity::valid_operand(left, f),
        validity::valid_operand(right, f),
        f.holds_two(left, right),
    ensures
        f.sum(left, right) matches Ok((g, operand)) ==> {
            let before = f.opcodes.len() as int;
            let last = g.opcodes.len() - 1;
            let free = f.free(right).free(left).used();
            let beside = if left is UpValue {
                f.used() + 1
            } else {
                f.used()
            };
            &&& g.opcodes.len() > f.opcodes.len()
            &&& operand is Temporary
            &&& operand->Temporary_0 == free
            &&& match g.opcodes[last] {
                OpCode::AddRC { dest, left: a, right: b } => {
                    &&& dest == free
                    &&& a == register_of(left, f.used())
                    &&& right == Operand::Value(g.constants[b as int])
                },
                OpCode::AddCR { dest, left: a, right: b } => {
                    &&& dest == free
                    &&& !(right is Value)
                    &&& left == Operand::Value(g.constants[a as int])
                    &&& b == register_of(right, f.used())
                },
                OpCode::AddRR { dest, left: a, right: b } => {
                    &&& dest == free
                    &&& !(left is Value)
                    &&& !(right is Value)
                    &&& a == register_of(left, f.used())
                    &&& b == register_of(right, beside)
                },
                _ => false,
            }
            &&& left matches Operand::UpValue(source) ==> g.opcodes[before] == (
            OpCode::GetUpValue { source, dest: f.used() as Register })
            &&& right matches Operand::UpValue(source) ==> g.opcodes[last - 1] == (
            OpCode::GetUpValue { source, dest: beside as Register })
        },
{
    reveal(FunctionModel::sum);
    match (left, right) {
        (_, Operand::Value(value)) => {
            validity::lemma_in_any_register(f, left);
            if let Ok((g, _, _)) = f.in_any_register(left) {
                validity::lemma_constant(g, value);
            }
        },
        (Operand::Value(value), _) => {
            validity::lemma_constant(f, value);
        },
        (_, _) => {},
    }
}

/// A value is loaded by one instruction, from where it is. Nil and booleans take no constant, and
/// the instruction that loads nil may load it into registers right below too.
pub proof fn law_load_is_one_instruction(f: FunctionModel, operand: Operand, dest: Register)
    requires
        validity::valid_function(f),
    ensures
        f.load(operand, dest) matches Ok(g) ==> {
            let last = g.opcodes.last();
            &&& g.opcodes.len() > 0
            &&& match operand {
                Operand::Temporary(source) => last == (OpCode::Move { dest, source }),
                Operand::Local(source) => last == (OpCode::Move { dest, source }),
                Operand::UpValue(source) => last == (OpCode::GetUpValue { source, dest }),
                Operand::Value(ValueView::Nil) => {
                    &&& last matches OpCode::LoadNil { dest: first, count }
                    &&& first + count == dest + 1
                    &&& count > 0
                },
                Operand::Value(ValueView::Boolean(value)) => last == (OpCode::LoadBool {
                    dest,
                    value,
                    skip_next: false,
                }),
                Operand::Value(value) => {
                    &&& last matches OpCode::LoadConstant { dest: register, constant }
                    &&& register == dest
                    &&& constant < g.constants.len()
                    &&& g.constants[constant as int] == value
                },
            }
        },
{
    if let Operand::Value(value) = operand {
        validity::lemma_constant(f, value);
    }
}

/// A function that is compiled to its end has the parameters, registers, constants, instructions,
/// upvalues and functions that it had when it was under compilation, each in its place.
pub proof fn law_finished_function_keeps_all(f: FunctionModel)
    ensures
        f.proto().fixed_params == f.fixed_params,
        f.proto().stack_size == f.stack_size,
        f.proto().constants == f.constants,
        f.proto().opcodes == f.opcodes,
        f.proto().prototypes == f.prototypes,
        f.proto().upvalues.len() == f.upvalues.len(),
        forall|i: int|
            0 <= i < f.upvalues.len() ==> #[trigger] f.proto().upvalues[i] == f.upvalues[i].1,
{
    fidelity::lemma_finished(f);
}

} // verus!
