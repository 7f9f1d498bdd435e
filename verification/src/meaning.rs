//! What a compiled function is to do.

use vstd::prelude::*;

use crate::accounting;
use crate::ast::{Block, Chunk, FunctionStatement, Statement};
use crate::error::{CompilerError, CompilerLimit};
use crate::execution;
use crate::fidelity;
use crate::function::{ProtoView, UpValueDescriptor};
use crate::joining;
use crate::ledger;
use crate::machine::{self, Environment, Frame, Machine};
use crate::model::{self, Folding, FunctionModel};
use crate::opcode::{OpCode, VarCount};
use crate::soundness;
use crate::source;
use crate::support;
use crate::validity;

verus! {

/// Upvalues lead to the variables of the function around that the captured names stand for there: to
/// the last of its locals of that name, or else to what it captured itself under that name.
pub open spec fn leads(
    upvalues: Seq<UpValueDescriptor>,
    captures: Seq<Seq<u8>>,
    locals: Seq<Seq<u8>>,
    around: Seq<Seq<u8>>,
) -> bool {
    &&& upvalues.len() == captures.len()
    &&& forall|j: int|
        0 <= j < upvalues.len() ==> match #[trigger] upvalues[j] {
            UpValueDescriptor::ParentLocal(register) => source::latest(
                locals,
                captures[j],
                register as int,
            ),
            UpValueDescriptor::Outer(index) => {
                &&& !locals.contains(captures[j])
                &&& index < around.len()
                &&& around[index as int] == captures[j]
            },
        }
}

/// Run with the registers and constants that a compiled function asks for and the variables that it
/// captured, its code does what its body says, whatever the names stand for.
pub open spec fn code_performs(
    folding: Folding,
    proto: ProtoView,
    captures: Seq<Seq<u8>>,
    parameters: Seq<Seq<u8>>,
    body: Block,
) -> bool {
    forall|machine: Machine, names: Environment, frame: Frame|
        {
            &&& machine.agrees_with(folding)
            &&& machine.calls_fit()
            &&& machine.registers == proto.stack_size
            &&& machine.constants == proto.constants
            &&& machine.captures == captures
            &&& #[trigger] machine.holds(names, parameters, frame)
        } ==> machine.performs(proto.opcodes, names, parameters, body, frame)
}

/// Code ends with a return of as many values as a body returns. Where it returns none, they start at
/// the first register.
pub open spec fn gives_back(opcodes: Seq<OpCode>, body: Block) -> bool {
    let values = match body.return_statement {
        Some(statement) => statement.returns@.len(),
        None => 0,
    };
    &&& opcodes.len() > 0
    &&& opcodes.last() matches OpCode::Return { start, count }
    &&& count.count() == Some(values)
    &&& values == 0 ==> start == 0
}

/// A compiled function is the one that parameters and a body say. It takes as many arguments as
/// there are parameters, it has the registers, the constants and the upvalues that it needs and no
/// others, its code does what the body says and nothing else, and the functions in it are those of
/// the body, in their order.
pub open spec fn implements(
    folding: Folding,
    proto: ProtoView,
    parameters: Seq<Seq<u8>>,
    body: Block,
) -> bool
    decreases body, 1nat,
{
    let needs = source::account(folding, parameters, body);
    let statements = body.statements@;
    &&& proto.fixed_params == parameters.len()
    &&& !proto.has_varargs
    &&& proto.stack_size == needs.registers
    &&& proto.constants == needs.constants
    &&& source::length(proto.opcodes) == needs.code
    &&& source::joined(proto.opcodes)
    &&& gives_back(proto.opcodes, body)
    &&& proto.upvalues.len() == needs.captures.len()
    &&& proto.prototypes.len() == source::functions_before(statements, statements.len())
    &&& code_performs(folding, proto, needs.captures, parameters, body)
    &&& forall|i: int|
        if 0 <= i < statements.len() {
            implemented(
                folding,
                proto.prototypes,
                source::functions_before(statements, i as nat),
                source::locals_after(parameters, statements, i as nat),
                needs.captures,
                #[trigger] body.statements@[i],
            )
        } else {
            true
        }
}

/// Where a statement is a function, it is the compiled function at a position, and its upvalues lead
/// to the variables of the function around, which has some locals before the statement and captured
/// some names.
pub open spec fn implemented(
    folding: Folding,
    prototypes: Seq<ProtoView>,
    position: nat,
    locals: Seq<Seq<u8>>,
    around: Seq<Seq<u8>>,
    statement: Statement,
) -> bool
    decreases statement, 0nat,
{
    match statement {
        Statement::LocalFunction(s) => {
            let parameters = source::names(s.definition.parameters@);
            let proto = prototypes[position as int];
            &&& position < prototypes.len()
            &&& implements(folding, proto, parameters, s.definition.body)
            &&& leads(
                proto.upvalues,
                source::account(folding, parameters, s.definition.body).captures,
                locals,
                around,
            )
        },
        _ => true,
    }
}

/// The upvalues of a function lead to variables of the function around.
pub proof fn lemma_leads(around: FunctionModel, f: FunctionModel)
    requires
        soundness::scoped(around, f),
    ensures
        leads(
            f.proto().upvalues,
            machine::captured_names(f),
            around.locals,
            machine::captured_names(around),
        ),
{
    let upvalues = f.proto().upvalues;
    let captures = machine::captured_names(f);
    assert forall|j: int| 0 <= j < upvalues.len() implies match #[trigger] upvalues[j] {
        UpValueDescriptor::ParentLocal(register) => source::latest(
            around.locals,
            captures[j],
            register as int,
        ),
        UpValueDescriptor::Outer(index) => {
            let names = machine::captured_names(around);
            &&& !around.locals.contains(captures[j])
            &&& index < names.len()
            &&& names[index as int] == captures[j]
        },
    } by {
        assert(soundness::stands_for(
            around,
            f.upvalues[j].0,
            soundness::source(f.upvalues[j].1),
        ));
        soundness::lemma_last_position(around.locals, captures[j], around.locals.len());
        soundness::lemma_first_position(around.upvalues, captures[j], 0);
    }
}

/// Upvalues still lead to where they did when the function around has captured more.
pub proof fn lemma_leads_more(
    upvalues: Seq<UpValueDescriptor>,
    captures: Seq<Seq<u8>>,
    locals: Seq<Seq<u8>>,
    around: Seq<Seq<u8>>,
    more: Seq<Seq<u8>>,
)
    requires
        leads(upvalues, captures, locals, around),
        validity::begins_with(more, around),
    ensures
        leads(upvalues, captures, locals, more),
{
}

/// The functions among the first statements of a body are compiled.
pub open spec fn implemented_upto(
    folding: Folding,
    f: FunctionModel,
    parameters: Seq<Seq<u8>>,
    body: Block,
    count: nat,
) -> bool {
    forall|i: int|
        0 <= i < count ==> implemented(
            folding,
            f.prototypes,
            source::functions_before(body.statements@, i as nat),
            source::locals_after(parameters, body.statements@, i as nat),
            machine::captured_names(f),
            #[trigger] body.statements@[i],
        )
}

/// What was compiled is still there in a function that has more.
pub proof fn lemma_implemented_grown(
    folding: Folding,
    f: FunctionModel,
    g: FunctionModel,
    parameters: Seq<Seq<u8>>,
    body: Block,
    count: nat,
)
    requires
        implemented_upto(folding, f, parameters, body, count),
        validity::grown(f, g),
    ensures
        implemented_upto(folding, g, parameters, body, count),
{
    let around = machine::captured_names(f);
    let more = machine::captured_names(g);
    assert(validity::begins_with(more, around));
    assert forall|i: int| 0 <= i < count implies implemented(
        folding,
        g.prototypes,
        source::functions_before(body.statements@, i as nat),
        source::locals_after(parameters, body.statements@, i as nat),
        more,
        #[trigger] body.statements@[i],
    ) by {
        let position = source::functions_before(body.statements@, i as nat);
        let locals = source::locals_after(parameters, body.statements@, i as nat);
        assert(implemented(
            folding,
            f.prototypes,
            position,
            locals,
            around,
            body.statements@[i],
        ));
        if let Statement::LocalFunction(s) = body.statements@[i] {
            let inner = source::account(
                folding,
                source::names(s.definition.parameters@),
                s.definition.body,
            );
            assert(g.prototypes[position as int] == f.prototypes[position as int]);
            lemma_leads_more(
                f.prototypes[position as int].upvalues,
                inner.captures,
                locals,
                around,
                more,
            );
        }
    }
}

/// A function statement is compiled to a function that is the one it says.
pub proof fn lemma_function(
    folding: Folding,
    functions: Seq<FunctionModel>,
    statement: FunctionStatement,
)
    requires
        soundness::sound(functions),
        functions.last().temporaries == 0,
    ensures
        model::local_function(folding, functions, statement) matches Ok(after) ==> implemented(
            folding,
            after.last().prototypes,
            functions.last().prototypes.len(),
            functions.last().locals,
            machine::captured_names(after.last()),
            Statement::LocalFunction(statement),
        ),
    decreases statement, 0nat,
{
    fidelity::lemma_local_function(folding, functions, statement);
    if let Ok(after) = model::local_function(folding, functions, statement) {
        let body = statement.definition.body;
        let parameters = source::names(statement.definition.parameters@);
        let begun = functions.push(FunctionModel::start(parameters));
        lemma_body(folding, begun, parameters, body);
        ledger::lemma_block(folding, begun, parameters, body);
        if let Ok(compiled) = model::block(folding, begun, body) {
            let last = functions.len() as int;
            assert(soundness::scoped(compiled[last - 1], compiled[last]));
            lemma_leads(compiled[last - 1], compiled[last]);
            assert(machine::captured_names(after.last()) =~= machine::captured_names(
                compiled[last - 1],
            ));
        }
    }
}

/// The function that one more statement may be is compiled too.
pub proof fn lemma_implemented_next(
    folding: Folding,
    f: FunctionModel,
    parameters: Seq<Seq<u8>>,
    body: Block,
    count: nat,
)
    requires
        implemented_upto(folding, f, parameters, body, count),
        implemented(
            folding,
            f.prototypes,
            source::functions_before(body.statements@, count),
            source::locals_after(parameters, body.statements@, count),
            machine::captured_names(f),
            body.statements@[count as int],
        ),
    ensures
        implemented_upto(folding, f, parameters, body, count + 1),
{
}

/// The functions among the first statements of a body are those that they say.
pub proof fn lemma_functions_upto(
    folding: Folding,
    functions: Seq<FunctionModel>,
    parameters: Seq<Seq<u8>>,
    body: Block,
    count: nat,
)
    requires
        soundness::sound(functions),
        functions.last() == FunctionModel::start(parameters),
        count <= body.statements@.len(),
    ensures
        model::statements_upto(folding, functions, body, count) matches Ok(after)
            ==> implemented_upto(folding, after.last(), parameters, body, count),
    decreases body, count,
{
    if count > 0 {
        let less = (count - 1) as nat;
        let last = body.statements@[count - 1];
        lemma_functions_upto(folding, functions, parameters, body, less);
        soundness::lemma_statements_upto(folding, functions, body, less);
        fidelity::lemma_declares_upto(folding, functions, parameters, body, less);
        if let Ok(some) = model::statements_upto(folding, functions, body, less) {
            soundness::lemma_statement(folding, some, last);
            if let Ok(after) = model::statement(folding, some, last) {
                let f = after.last();
                lemma_implemented_grown(folding, some.last(), f, parameters, body, less);
                if let Statement::LocalFunction(s) = last {
                    assert(model::local_function(folding, some, s) == Ok::<
                        Seq<FunctionModel>,
                        CompilerError,
                    >(after));
                    lemma_function(folding, some, s);
                }
                lemma_implemented_next(folding, f, parameters, body, less);
            }
        }
    }
}

/// A body is compiled to a function that is the one it says.
pub proof fn lemma_body(
    folding: Folding,
    functions: Seq<FunctionModel>,
    parameters: Seq<Seq<u8>>,
    body: Block,
)
    requires
        soundness::sound(functions),
        functions.last() == FunctionModel::start(parameters),
        parameters.len() <= u8::MAX,
    ensures
        model::block(folding, functions, body) matches Ok(after) ==> implements(
            folding,
            after.last().proto(),
            parameters,
            body,
        ),
    decreases body, body.statements@.len() + 1,
{
    let count = body.statements@.len();
    let needs = source::account(folding, parameters, body);
    lemma_functions_upto(folding, functions, parameters, body, count);
    soundness::lemma_statements_upto(folding, functions, body, count);
    soundness::lemma_block(folding, functions, body);
    ledger::lemma_block(folding, functions, parameters, body);
    fidelity::lemma_declares_upto(folding, functions, parameters, body, count);
    if let Ok(some) = model::statements_upto(folding, functions, body, count) {
        if let Ok(after) = model::block(folding, functions, body) {
            let f = after.last();
            let proto = f.proto();
            lemma_return_grows(folding, some, body);
            lemma_implemented_grown(folding, some.last(), f, parameters, body, count);
            fidelity::lemma_finished(f);
            assert(proto.fixed_params == parameters.len());
            assert(proto.stack_size == needs.registers);
            assert(proto.constants == needs.constants);
            assert(source::length(proto.opcodes) == needs.code);
            joining::lemma_block(folding, functions, body);
            lemma_gives_back(folding, functions, body);
            assert(proto.upvalues.len() == machine::captured_names(f).len());
            assert(proto.prototypes == f.prototypes);
            lemma_code(folding, functions, parameters, body);
            assert(implemented_upto(folding, f, parameters, body, count));
        }
    }
}

/// Compiled code ends with the return of its body.
pub proof fn lemma_gives_back(folding: Folding, functions: Seq<FunctionModel>, body: Block)
    requires
        soundness::sound(functions),
        functions.last().temporaries == 0,
    ensures
        model::block(folding, functions, body) matches Ok(after) ==> gives_back(
            after.last().opcodes,
            body,
        ),
{
    let count = body.statements@.len();
    soundness::lemma_statements_upto(folding, functions, body, count);
    if let Ok(some) = model::statements_upto(folding, functions, body, count) {
        if let Some(statement) = body.return_statement {
            let values = statement.returns@;
            if values.len() == 1 {
                soundness::lemma_expression(folding, some, values[0]);
            } else {
                soundness::lemma_push_upto(folding, some, values, values.len());
            }
        }
    }
}

/// A return makes no function.
pub proof fn lemma_return_grows(folding: Folding, functions: Seq<FunctionModel>, body: Block)
    requires
        soundness::sound(functions),
        functions.last().temporaries == 0,
    ensures
        body.return_statement matches Some(statement) ==> (model::return_statement(
            folding,
            functions,
            statement,
        ) matches Ok(after) ==> {
            &&& validity::grown(functions.last(), after.last())
            &&& after.last().prototypes == functions.last().prototypes
        }),
        body.return_statement is None ==> {
            let f = functions.last();
            let opcode = OpCode::Return {
                start: 0,
                count: VarCount(0),
            };
            validity::grown(f, f.emit(opcode))
        },
{
    if let Some(statement) = body.return_statement {
        let values = statement.returns@;
        soundness::lemma_return_statement(folding, functions, statement);
        if values.len() == 1 {
            soundness::lemma_expression(folding, functions, values[0]);
        } else if values.len() > 1 {
            soundness::lemma_push_upto(folding, functions, values, values.len());
        }
    }
}

/// The code of a compiled function does what its body says.
pub proof fn lemma_code(
    folding: Folding,
    functions: Seq<FunctionModel>,
    parameters: Seq<Seq<u8>>,
    body: Block,
)
    requires
        soundness::sound(functions),
        functions.last() == FunctionModel::start(parameters),
    ensures
        model::block(folding, functions, body) matches Ok(after) ==> code_performs(
            folding,
            after.last().proto(),
            machine::captured_names(after.last()),
            parameters,
            body,
        ),
{
    if let Ok(after) = model::block(folding, functions, body) {
        let proto = after.last().proto();
        let captures = machine::captured_names(after.last());
        soundness::lemma_block(folding, functions, body);
        assert forall|machine: Machine, names: Environment, frame: Frame|
            {
                &&& machine.agrees_with(folding)
                &&& machine.calls_fit()
                &&& machine.registers == proto.stack_size
                &&& machine.constants == proto.constants
                &&& machine.captures == captures
                &&& #[trigger] machine.holds(names, parameters, frame)
            } implies machine.performs(proto.opcodes, names, parameters, body, frame) by {
            execution::lemma_captures_once(machine, after);
            assert(machine.run(functions.last().opcodes, frame) == frame);
            let history = execution::lemma_run_block(
                machine,
                names,
                folding,
                functions,
                parameters,
                body,
                frame,
            );
        }
    }
}

/// The outcome of compiling a chunk is what the chunk says. It is compiled exactly if it has no
/// fault and exceeds no limit, and then the compiled function is the one that it says. The error of
/// a chunk that is refused is its first fault, or a limit that it exceeds.
pub open spec fn outcome(
    folding: Folding,
    chunk: Chunk,
    result: Result<ProtoView, CompilerError>,
) -> bool {
    let fault = source::fault_body(folding, seq![], chunk.block);
    match result {
        Ok(proto) => {
            &&& implements(folding, proto, seq![], chunk.block)
            &&& fault is None
            &&& forall|limit: CompilerLimit|
                !(#[trigger] source::exceeds(folding, limit, seq![], chunk.block))
        },
        Err(CompilerError::Unsupported(part)) => fault == Some(part),
        Err(CompilerError::Limit(limit)) => source::exceeds(folding, limit, seq![], chunk.block),
    }
}

/// A chunk is compiled as it says.
pub proof fn lemma_chunk(folding: Folding, chunk: Chunk)
    ensures
        outcome(folding, chunk, model::chunk(folding, chunk)),
{
    let nothing = Seq::<Seq<u8>>::empty();
    let begun = seq![FunctionModel::start(nothing)];
    let needs = source::account(folding, nothing, chunk.block);
    assert(soundness::sound(begun));
    lemma_body(folding, begun, nothing, chunk.block);
    ledger::lemma_block(folding, begun, nothing, chunk.block);
    support::lemma_body(folding, begun, nothing, chunk.block);
    assert(begun.drop_last() =~= seq![]);
    assert(support::visible(begun.drop_last()) =~= nothing);
    assert(support::visible(begun) =~= nothing);
    if let Err(CompilerError::Limit(limit)) = model::block(folding, begun, chunk.block) {
        if !source::exceeds(folding, limit, nothing, chunk.block) {
            let outer = accounting::names_of(begun.drop_last());
            assert(outer =~= seq![]);
            assert(!accounting::overflows(accounting::spread(outer, needs.captures.skip(0))));
        }
    }
}

} // verus!
