//! Statements and functions need what their source says.

use vstd::prelude::*;

use crate::accounting;
use crate::ast::{
    AssignmentStatement, AssignmentTarget, Block, CallSuffix, Expression, FunctionCallStatement,
    FunctionStatement, LocalStatement, ReturnStatement, Statement, SuffixedExpression,
};
use crate::error::{CompilerError, CompilerLimit};
use crate::machine;
use crate::model::{self, Folding, FunctionModel, Operand, Variable};
use crate::opcode::{OpCode, UpValueIndex, VarCount};
use crate::registers::{Register, REGISTER_COUNT};
use crate::soundness;
use crate::source::{self, Account, Place};
use crate::validity;
use crate::value::ValueView;

verus! {

/// Something more may be needed.
pub proof fn lemma_more_twice(a: Account, b: Account, c: Account)
    requires
        accounting::more(a, b),
        accounting::more(b, c),
    ensures
        accounting::more(a, c),
{
}

/// The functions after the innermost one made a step.
pub open spec fn stepped<T>(
    functions: Seq<FunctionModel>,
    step: Result<(FunctionModel, T), CompilerError>,
) -> Result<Seq<FunctionModel>, CompilerError> {
    match step {
        Ok((top, _)) => Ok(model::with_top(functions, top)),
        Err(e) => Err(e),
    }
}

/// A step of the innermost function needs nothing.
pub proof fn lemma_free_step(functions: Seq<FunctionModel>, top: FunctionModel)
    requires
        functions.len() > 0,
        accounting::account_of(top) == accounting::account_of(functions.last()),
        top.upvalues == functions.last().upvalues,
    ensures
        accounting::accounted(
            functions,
            accounting::account_of(functions.last()),
            Ok(model::with_top(functions, top)),
        ),
{
    accounting::lemma_tied_step(functions, top);
}

/// An instruction of the innermost function needs nothing but itself.
pub proof fn lemma_emit_step(functions: Seq<FunctionModel>, opcode: OpCode, top: FunctionModel)
    requires
        functions.len() > 0,
        source::weight(opcode) == 1,
        top.opcodes == functions.last().opcodes.push(opcode),
        top.locals == functions.last().locals,
        top.constants == functions.last().constants,
        top.stack_size == functions.last().stack_size,
        top.upvalues == functions.last().upvalues,
    ensures
        accounting::accounted(
            functions,
            accounting::account_of(functions.last()).spend(1),
            Ok(model::with_top(functions, top)),
        ),
{
    accounting::lemma_tied_step(functions, top);
    accounting::lemma_length(functions.last().opcodes, opcode);
}

/// A value in a register of its own needs what it should.
pub proof fn lemma_push_step(
    functions: Seq<FunctionModel>,
    operand: Operand,
    place: Place,
    busy: nat,
)
    requires
        soundness::sound(functions),
        accounting::placed(operand, place),
        functions.last().temporaries == busy + place.held(),
    ensures
        ({
            let f = functions.last();
            let needs = accounting::account_of(f).push(busy, place);
            &&& accounting::more(accounting::account_of(f), needs)
            &&& accounting::accounted(
                functions,
                needs,
                stepped(functions, f.in_new_register(operand)),
            )
        }),
{
    let f = functions.last();
    assert(validity::valid_function(functions[functions.len() - 1]));
    accounting::lemma_load_next(f, operand, place);
    if let Ok((top, _)) = f.in_new_register(operand) {
        accounting::lemma_tied_step(functions, top);
        assert(machine::captured_names(top) =~= machine::captured_names(f));
    }
}

/// A value in some register needs what it should.
pub proof fn lemma_bring_step(
    functions: Seq<FunctionModel>,
    operand: Operand,
    place: Place,
    busy: nat,
    opcode: OpCode,
)
    requires
        soundness::sound(functions),
        accounting::placed(operand, place),
        functions.last().temporaries == busy + place.held(),
        source::weight(opcode) == 1,
    ensures
        ({
            let f = functions.last();
            let needs = accounting::account_of(f).bring(busy, place).spend(1);
            &&& accounting::more(accounting::account_of(f), needs)
            &&& accounting::accounted(
                functions,
                needs,
                match f.in_any_register(operand) {
                    Ok((top, there, _)) => Ok(
                        model::with_top(functions, top.emit(opcode).free(there)),
                    ),
                    Err(e) => Err(e),
                },
            )
        }),
{
    let f = functions.last();
    assert(validity::valid_function(functions[functions.len() - 1]));
    accounting::lemma_in_any_register(f, operand, place);
    if let Ok((top, there, _)) = f.in_any_register(operand) {
        let used = top.emit(opcode).free(there);
        accounting::lemma_length(top.opcodes, opcode);
        accounting::lemma_tied_step(functions, used);
        assert(machine::captured_names(used) =~= machine::captured_names(f));
    }
}

/// An expression in a register of its own needs what it should.
pub proof fn lemma_push_one(folding: Folding, functions: Seq<FunctionModel>, e: Expression)
    requires
        soundness::sound(functions),
    ensures
        ({
            let f = functions.last();
            let a = accounting::account_of(f);
            let needs = a.compute(folding, f.temporaries, e).push(
                f.temporaries,
                source::place(folding, f.locals, e),
            );
            &&& accounting::more(a, needs)
            &&& accounting::accounted(
                functions,
                needs,
                match model::expression(folding, functions, e) {
                    Ok((done, operand)) => stepped(done, done.last().in_new_register(operand)),
                    Err(e) => Err(e),
                },
            )
        }),
{
    let f = functions.last();
    let a = accounting::account_of(f);
    let busy = f.temporaries;
    let computed = a.compute(folding, busy, e);
    let place = source::place(folding, f.locals, e);
    let needs = computed.push(busy, place);
    accounting::lemma_compute_more(a, folding, busy, e);
    accounting::lemma_expression(folding, functions, e);
    soundness::lemma_expression(folding, functions, e);
    match model::expression(folding, functions, e) {
        Ok((done, operand)) => {
            lemma_push_step(done, operand, place, busy);
            accounting::lemma_then(
                functions,
                done,
                needs,
                stepped(done, done.last().in_new_register(operand)),
            );
        },
        Err(error) => {
            accounting::lemma_fails(functions, computed, needs, Err(error));
        },
    }
}

/// Expressions in registers of their own need what they should.
pub proof fn lemma_push_all(
    folding: Folding,
    functions: Seq<FunctionModel>,
    expressions: Seq<Expression>,
    count: nat,
)
    requires
        soundness::sound(functions),
    ensures
        ({
            let f = functions.last();
            let a = accounting::account_of(f);
            let needs = a.push_all(folding, f.temporaries, expressions, count);
            &&& accounting::more(a, needs)
            &&& needs.locals == a.locals
            &&& accounting::accounted(
                functions,
                needs,
                model::push_upto(folding, functions, expressions, count),
            )
        }),
    decreases count,
{
    let f = functions.last();
    let a = accounting::account_of(f);
    if count == 0 {
        accounting::lemma_tied_step(functions, f);
        assert(model::with_top(functions, f) =~= functions);
    } else {
        let less = (count - 1) as nat;
        let e = expressions[count - 1];
        let before = a.push_all(folding, f.temporaries, expressions, less);
        let needs = a.push_all(folding, f.temporaries, expressions, count);
        lemma_push_all(folding, functions, expressions, less);
        soundness::lemma_push_upto(folding, functions, expressions, less);
        let taken = (f.temporaries + count - 1) as nat;
        accounting::lemma_compute_more(before, folding, taken, e);
        lemma_push_more(before.compute(folding, taken, e), taken, source::place(
            folding,
            a.locals,
            e,
        ));
        match model::push_upto(folding, functions, expressions, less) {
            Ok(some) => {
                assert(some.last().temporaries == taken);
                lemma_push_one(folding, some, e);
                accounting::lemma_then(
                    functions,
                    some,
                    needs,
                    model::push_upto(folding, functions, expressions, count),
                );
            },
            Err(_) => {
                accounting::lemma_fails(
                    functions,
                    before,
                    needs,
                    model::push_upto(folding, functions, expressions, count),
                );
            },
        }
    }
}

/// A value in a register needs something.
pub proof fn lemma_push_more(a: Account, busy: nat, place: Place)
    ensures
        accounting::more(a, a.push(busy, place)),
        accounting::more(a, a.bring(busy, place)),
        accounting::more(a, a.load(place)),
{
}

/// A return needs what it should.
pub proof fn lemma_return(
    folding: Folding,
    functions: Seq<FunctionModel>,
    statement: ReturnStatement,
)
    requires
        soundness::sound(functions),
        functions.last().temporaries == 0,
    ensures
        ({
            let a = accounting::account_of(functions.last());
            let needs = a.give(folding, statement);
            let result = model::return_statement(folding, functions, statement);
            &&& accounting::more(a, needs)
            &&& if statement.returns@.len() < 255 {
                accounting::accounted(functions, needs, result)
            } else {
                result == model::limit::<Seq<FunctionModel>>(CompilerLimit::Returns)
            }
        }),
{
    let f = functions.last();
    let a = accounting::account_of(f);
    let values = statement.returns@;
    let needs = a.give(folding, statement);
    let result = model::return_statement(folding, functions, statement);
    if values.len() == 1 {
        let e = values[0];
        let place = source::place(folding, f.locals, e);
        let computed = a.compute(folding, 0, e);
        accounting::lemma_compute_more(a, folding, 0, e);
        lemma_push_more(computed, 0, place);
        accounting::lemma_expression(folding, functions, e);
        soundness::lemma_expression(folding, functions, e);
        match model::expression(folding, functions, e) {
            Ok((done, operand)) => {
                if let Ok((_, _, start)) = done.last().in_any_register(operand) {
                    let opcode = OpCode::Return { start, count: VarCount(1) };
                    lemma_bring_step(done, operand, place, 0, opcode);
                } else {
                    let opcode = OpCode::Return { start: 0, count: VarCount(1) };
                    lemma_bring_step(done, operand, place, 0, opcode);
                }
                accounting::lemma_then(functions, done, needs, result);
            },
            Err(_) => {
                accounting::lemma_fails(functions, computed, needs, result);
            },
        }
    } else {
        lemma_push_all(folding, functions, values, values.len());
        if values.len() < 255 {
            if let Ok(done) = model::push_upto(folding, functions, values, values.len()) {
                let count = VarCount(values.len() as u8);
                let start = if values.len() == 0 {
                    0
                } else {
                    f.used() as Register
                };
                let top = if values.len() == 0 {
                    done.last().emit(OpCode::Return { start, count })
                } else {
                    done.last().emit(OpCode::Return { start, count }).release(values.len())
                };
                lemma_emit_step(done, OpCode::Return { start, count }, top);
                accounting::lemma_then(functions, done, needs, result);
            }
        }
    }
}

/// The values of a local statement need what they should.
pub proof fn lemma_values(
    folding: Folding,
    functions: Seq<FunctionModel>,
    statement: LocalStatement,
    count: nat,
)
    requires
        soundness::sound(functions),
        functions.last().temporaries == 0,
        count <= statement.values@.len(),
    ensures
        ({
            let a = accounting::account_of(functions.last());
            let needs = a.values(folding, statement, count);
            &&& accounting::more(a, needs)
            &&& accounting::accounted(
                functions,
                needs,
                model::local_values_upto(folding, functions, statement, count),
            )
        }),
    decreases count,
{
    let f = functions.last();
    let a = accounting::account_of(f);
    if count == 0 {
        accounting::lemma_tied_step(functions, f);
        assert(model::with_top(functions, f) =~= functions);
    } else {
        let less = (count - 1) as nat;
        let e = statement.values@[count - 1];
        let before = a.values(folding, statement, less);
        let computed = before.compute(folding, 0, e);
        let place = source::place(folding, before.locals, e);
        let needs = a.values(folding, statement, count);
        let result = model::local_values_upto(folding, functions, statement, count);
        lemma_values(folding, functions, statement, less);
        soundness::lemma_local_values_upto(folding, functions, statement, less);
        accounting::lemma_compute_more(before, folding, 0, e);
        lemma_push_more(computed, 0, place);
        match model::local_values_upto(folding, functions, statement, less) {
            Ok(some) => {
                if count <= statement.names@.len() {
                    let name = statement.names@[count - 1]@;
                    let pushed = computed.push(0, place);
                    lemma_push_one(folding, some, e);
                    soundness::lemma_expression(folding, some, e);
                    match model::expression(folding, some, e) {
                        Ok((done, operand)) => {
                            let step = stepped(done, done.last().in_new_register(operand));
                            accounting::lemma_then(functions, some, pushed, step);
                            match done.last().in_new_register(operand) {
                                Ok((top, _)) => {
                                    let taken = model::with_top(done, top);
                                    accounting::lemma_tied_step(taken, top.declare(name));
                                    assert(model::with_top(taken, top.declare(name))
                                        =~= model::with_top(done, top.declare(name)));
                                    assert(machine::captured_names(top.declare(name))
                                        =~= machine::captured_names(top));
                                    accounting::lemma_then(functions, taken, needs, result);
                                },
                                Err(_) => {
                                    accounting::lemma_fails(functions, pushed, needs, result);
                                },
                            }
                        },
                        Err(_) => {
                            accounting::lemma_then(functions, some, pushed, result);
                            accounting::lemma_fails(functions, pushed, needs, result);
                        },
                    }
                } else {
                    accounting::lemma_expression(folding, some, e);
                    match model::expression(folding, some, e) {
                        Ok((done, operand)) => {
                            accounting::lemma_then(functions, some, needs, Ok(done));
                            lemma_free_step(done, done.last().free(operand));
                            accounting::lemma_then(functions, done, needs, result);
                        },
                        Err(_) => {
                            accounting::lemma_then(functions, some, needs, result);
                        },
                    }
                }
            },
            Err(_) => {
                accounting::lemma_fails(functions, before, needs, result);
            },
        }
    }
}

/// Locals that hold nil need what they should.
pub proof fn lemma_nils(f: FunctionModel, statement: LocalStatement, count: nat)
    requires
        validity::valid_function(f),
        f.temporaries == 0,
    ensures
        ({
            let a = accounting::account_of(f);
            let needs = a.nils(statement, count);
            &&& accounting::more(a, needs)
            &&& match model::local_nils_upto(f, statement, count) {
                Ok(g) => {
                    &&& accounting::account_of(g) == needs
                    &&& g.upvalues == f.upvalues
                },
                Err(e) => {
                    &&& e == CompilerError::Limit(CompilerLimit::Registers)
                    &&& needs.registers > REGISTER_COUNT
                },
            }
        }),
    decreases count,
{
    if count > statement.values@.len() {
        let less = (count - 1) as nat;
        lemma_nils(f, statement, less);
        soundness::lemma_local_nils_upto(f, statement, less);
        if let Ok(g) = model::local_nils_upto(f, statement, less) {
            if let Ok(taken) = g.take_register() {
                let nil = ValueView::Nil;
                let dest = g.used() as Register;
                accounting::lemma_load(taken, Operand::Value(nil), Place::Known(nil), dest);
            }
        }
    }
}

/// A local statement needs what it should.
pub proof fn lemma_local_statement(
    folding: Folding,
    functions: Seq<FunctionModel>,
    statement: LocalStatement,
)
    requires
        soundness::sound(functions),
        functions.last().temporaries == 0,
    ensures
        ({
            let a = accounting::account_of(functions.last());
            let needs = a.values(folding, statement, statement.values@.len()).nils(
                statement,
                statement.names@.len(),
            );
            &&& accounting::more(a, needs)
            &&& accounting::accounted(
                functions,
                needs,
                model::local_statement(folding, functions, statement),
            )
        }),
{
    let a = accounting::account_of(functions.last());
    let values = statement.values@.len();
    let count = statement.names@.len();
    let valued = a.values(folding, statement, values);
    let needs = valued.nils(statement, count);
    let result = model::local_statement(folding, functions, statement);
    lemma_values(folding, functions, statement, values);
    soundness::lemma_local_values_upto(folding, functions, statement, values);
    lemma_nils_more(valued, statement, count);
    match model::local_values_upto(folding, functions, statement, values) {
        Ok(done) => {
            assert(validity::valid_function(done[done.len() - 1]));
            lemma_nils(done.last(), statement, count);
            if let Ok(top) = model::local_nils_upto(done.last(), statement, count) {
                accounting::lemma_tied_step(done, top);
            }
            accounting::lemma_then(functions, done, needs, result);
        },
        Err(_) => {
            accounting::lemma_fails(functions, valued, needs, result);
        },
    }
}

/// Locals that hold nil need something.
pub proof fn lemma_nils_more(a: Account, statement: LocalStatement, count: nat)
    ensures
        accounting::more(a, a.nils(statement, count)),
    decreases count,
{
    if count > statement.values@.len() {
        lemma_nils_more(a, statement, (count - 1) as nat);
    }
}

/// A called expression needs something.
pub proof fn lemma_compute_suffixed_more(
    a: Account,
    folding: Folding,
    busy: nat,
    suffixed: SuffixedExpression,
)
    ensures
        accounting::more(a, a.compute_suffixed(folding, busy, suffixed)),
{
    accounting::lemma_constants_grow_suffixed(folding, a.constants, suffixed);
    accounting::lemma_captured_grows(a.locals, a.captures, source::uses_suffixed(suffixed));
}

/// Expressions in registers of their own need something.
pub proof fn lemma_push_all_more(
    a: Account,
    folding: Folding,
    busy: nat,
    expressions: Seq<Expression>,
    count: nat,
)
    ensures
        accounting::more(a, a.push_all(folding, busy, expressions, count)),
    decreases count,
{
    if count > 0 {
        let less = (count - 1) as nat;
        let e = expressions[count - 1];
        let taken = (busy + count - 1) as nat;
        let before = a.push_all(folding, busy, expressions, less);
        lemma_push_all_more(a, folding, busy, expressions, less);
        accounting::lemma_compute_more(before, folding, taken, e);
        lemma_push_more(
            before.compute(folding, taken, e),
            taken,
            source::place(folding, a.locals, e),
        );
    }
}

/// A call needs what it should.
pub proof fn lemma_call(
    folding: Folding,
    functions: Seq<FunctionModel>,
    statement: FunctionCallStatement,
)
    requires
        soundness::sound(functions),
        functions.last().temporaries == 0,
    ensures
        ({
            let a = accounting::account_of(functions.last());
            let needs = a.call(folding, statement);
            let result = model::function_call(folding, functions, statement);
            let fits = statement.call matches CallSuffix::Function(arguments) ==> arguments@.len()
                < 255;
            &&& accounting::more(a, needs)
            &&& accounting::accounted(functions, needs, result) || (!fits && result
                == model::limit::<Seq<FunctionModel>>(CompilerLimit::FixedParameters))
            &&& result is Ok ==> fits
        }),
{
    let f = functions.last();
    let a = accounting::account_of(f);
    let head = statement.head;
    let place = source::place_suffixed(folding, f.locals, head);
    let computed = a.compute_suffixed(folding, 0, head);
    let called = computed.push(0, place);
    let needs = a.call(folding, statement);
    let result = model::function_call(folding, functions, statement);
    lemma_compute_suffixed_more(a, folding, 0, head);
    lemma_push_more(computed, 0, place);
    if let CallSuffix::Function(arguments) = statement.call {
        lemma_push_all_more(called, folding, 1, arguments@, arguments@.len());
    }
    accounting::lemma_suffixed(folding, functions, head);
    soundness::lemma_suffixed_expression(folding, functions, head);
    match model::suffixed_expression(folding, functions, head) {
        Ok((headed, operand)) => {
            let step = stepped(headed, headed.last().in_new_register(operand));
            lemma_push_step(headed, operand, place, 0);
            soundness::lemma_in_new_register(headed, operand);
            accounting::lemma_then(functions, headed, called, step);
            match headed.last().in_new_register(operand) {
                Ok((top, func)) => {
                    let ready = model::with_top(headed, top);
                    if let CallSuffix::Function(arguments) = statement.call {
                        let count = arguments@.len();
                        lemma_push_all(folding, ready, arguments@, count);
                        let pushed = model::push_upto(folding, ready, arguments@, count);
                        let all = called.push_all(folding, 1, arguments@, count);
                        accounting::lemma_then(functions, ready, all, pushed);
                        if let Ok(done) = pushed {
                            if count < 255 {
                                let args = VarCount(count as u8);
                                let opcode = OpCode::Call { func, args, returns: VarCount(0) };
                                let top = done.last().emit(opcode).release(count + 1);
                                lemma_emit_step(done, opcode, top);
                                accounting::lemma_then(functions, done, needs, result);
                            }
                        } else {
                            accounting::lemma_fails(functions, all, needs, pushed);
                        }
                    }
                },
                Err(_) => {
                    accounting::lemma_fails(functions, called, needs, result);
                },
            }
        },
        Err(_) => {
            accounting::lemma_fails(functions, computed, needs, result);
        },
    }
}

/// An assignment to a target needs what it should.
pub proof fn lemma_assign(
    functions: Seq<FunctionModel>,
    target: AssignmentTarget,
    operand: Operand,
    place: Place,
)
    requires
        soundness::sound(functions),
        accounting::placed(operand, place),
        functions.last().temporaries == place.held(),
    ensures
        ({
            let f = functions.last();
            let a = accounting::account_of(f);
            let needs = match target {
                AssignmentTarget::Name(name) => if f.locals.contains(name@) {
                    a.load(place).spend(1)
                } else {
                    a.with_names(seq![name@]).bring(0, place).spend(1)
                },
                AssignmentTarget::Field(_, _) => a,
            };
            &&& accounting::more(a, needs)
            &&& accounting::accounted(
                functions,
                needs,
                model::assign(functions, target, operand),
            )
        }),
{
    let f = functions.last();
    let a = accounting::account_of(f);
    lemma_push_more(a, 0, place);
    if let AssignmentTarget::Name(name) = target {
        let named = a.with_names(seq![name@]);
        accounting::lemma_captured_grows(a.locals, a.captures, seq![name@]);
        lemma_push_more(named, 0, place);
        accounting::lemma_name(functions, name@);
        soundness::lemma_name(functions, name@);
        let result = model::assign(functions, target, operand);
        match model::resolve(functions, name@) {
            Ok((found, variable)) => {
                let g = found.last();
                assert(found.len() > 0);
                assert(validity::valid_function(found[found.len() - 1]));
                match variable {
                    Variable::Local(dest) => {
                        assert(source::captured(a.locals, a.captures, seq![name@].drop_last())
                            == a.captures);
                        assert(named == a);
                        accounting::lemma_load(g, operand, place, dest);
                        if let Ok(loaded) = g.load(operand, dest) {
                            accounting::lemma_tied_step(found, loaded.free(operand));
                            assert(machine::captured_names(loaded.free(operand))
                                =~= machine::captured_names(g));
                        }
                        accounting::lemma_then(functions, found, a.load(place).spend(1), result);
                    },
                    Variable::UpValue(dest) => {
                        if let Ok((_, _, source)) = g.in_any_register(operand) {
                            let opcode = OpCode::SetUpValue { source, dest };
                            lemma_bring_step(found, operand, place, 0, opcode);
                        } else {
                            let opcode = OpCode::SetUpValue { source: 0, dest };
                            lemma_bring_step(found, operand, place, 0, opcode);
                        }
                        accounting::lemma_then(
                            functions,
                            found,
                            named.bring(0, place).spend(1),
                            result,
                        );
                    },
                    Variable::Global(_) => {},
                }
            },
            Err(_) => {
                if f.locals.contains(name@) {
                    let i = choose|i: int| 0 <= i < f.locals.len() && f.locals[i] == name@;
                    soundness::lemma_last_position(f.locals, name@, f.locals.len());
                    assert(f.locals[i] == name@);
                }
                accounting::lemma_fails(
                    functions,
                    named,
                    named.bring(0, place).spend(1),
                    result,
                );
            },
        }
    }
}

/// An assignment needs what it should.
pub proof fn lemma_assignment(
    folding: Folding,
    functions: Seq<FunctionModel>,
    statement: AssignmentStatement,
    count: nat,
)
    requires
        soundness::sound(functions),
        functions.last().temporaries == 0,
        count <= statement.targets@.len(),
    ensures
        ({
            let a = accounting::account_of(functions.last());
            let needs = a.assign(folding, statement, count);
            &&& accounting::more(a, needs)
            &&& needs.locals == a.locals
            &&& accounting::accounted(
                functions,
                needs,
                model::assignment_upto(folding, functions, statement, count),
            )
        }),
    decreases count,
{
    let f = functions.last();
    let a = accounting::account_of(f);
    if count == 0 {
        accounting::lemma_tied_step(functions, f);
        assert(model::with_top(functions, f) =~= functions);
    } else {
        let less = (count - 1) as nat;
        let before = a.assign(folding, statement, less);
        let needs = a.assign(folding, statement, count);
        let result = model::assignment_upto(folding, functions, statement, count);
        let target = statement.targets@[count - 1];
        let given = count <= statement.values@.len();
        let e = statement.values@[count - 1];
        let computed = if given {
            before.compute(folding, 0, e)
        } else {
            before
        };
        let place = if given {
            source::place(folding, before.locals, e)
        } else {
            Place::Known(ValueView::Nil)
        };
        lemma_assignment(folding, functions, statement, less);
        soundness::lemma_assignment_upto(folding, functions, statement, less);
        accounting::lemma_compute_more(before, folding, 0, e);
        lemma_assign_more(computed, target, place);
        match model::assignment_upto(folding, functions, statement, less) {
            Ok(some) => {
                let value = model::assigned_value(folding, some, statement, count - 1);
                if given {
                    accounting::lemma_expression(folding, some, e);
                    soundness::lemma_expression(folding, some, e);
                } else {
                    accounting::lemma_tied_step(some, some.last());
                    assert(model::with_top(some, some.last()) =~= some);
                }
                accounting::lemma_then(
                    functions,
                    some,
                    computed,
                    accounting::functions_of(value),
                );
                match value {
                    Ok((done, operand)) => {
                        lemma_assign(done, target, operand, place);
                        accounting::lemma_then(functions, done, needs, result);
                    },
                    Err(_) => {
                        accounting::lemma_fails(functions, computed, needs, result);
                    },
                }
            },
            Err(_) => {
                accounting::lemma_fails(functions, before, needs, result);
            },
        }
    }
}

/// An assignment to a target needs something.
pub proof fn lemma_assign_more(a: Account, target: AssignmentTarget, place: Place)
    ensures
        accounting::more(
            a,
            match target {
                AssignmentTarget::Name(name) => if a.locals.contains(name@) {
                    a.load(place).spend(1)
                } else {
                    a.with_names(seq![name@]).bring(0, place).spend(1)
                },
                AssignmentTarget::Field(_, _) => a,
            },
        ),
{
    if let AssignmentTarget::Name(name) = target {
        accounting::lemma_captured_grows(a.locals, a.captures, seq![name@]);
    }
}

/// The values of a local statement need something.
pub proof fn lemma_values_more(
    a: Account,
    folding: Folding,
    statement: LocalStatement,
    count: nat,
)
    ensures
        accounting::more(a, a.values(folding, statement, count)),
    decreases count,
{
    if count > 0 {
        let less = (count - 1) as nat;
        let e = statement.values@[count - 1];
        let before = a.values(folding, statement, less);
        let computed = before.compute(folding, 0, e);
        let place = source::place(folding, before.locals, e);
        lemma_values_more(a, folding, statement, less);
        accounting::lemma_compute_more(before, folding, 0, e);
        lemma_push_more(computed, 0, place);
        lemma_more_twice(a, before, computed);
        lemma_more_twice(a, computed, computed.push(0, place));
    }
}

/// A call needs something.
pub proof fn lemma_call_more(a: Account, folding: Folding, statement: FunctionCallStatement)
    ensures
        accounting::more(a, a.call(folding, statement)),
{
    let head = statement.head;
    let computed = a.compute_suffixed(folding, 0, head);
    let place = source::place_suffixed(folding, a.locals, head);
    let called = computed.push(0, place);
    lemma_compute_suffixed_more(a, folding, 0, head);
    lemma_push_more(computed, 0, place);
    lemma_more_twice(a, computed, called);
    if let CallSuffix::Function(arguments) = statement.call {
        lemma_push_all_more(called, folding, 1, arguments@, arguments@.len());
    }
}

/// An assignment needs something.
pub proof fn lemma_assignment_more(
    a: Account,
    folding: Folding,
    statement: AssignmentStatement,
    count: nat,
)
    ensures
        accounting::more(a, a.assign(folding, statement, count)),
        a.assign(folding, statement, count).locals == a.locals,
    decreases count,
{
    if count > 0 {
        let less = (count - 1) as nat;
        let e = statement.values@[count - 1];
        let before = a.assign(folding, statement, less);
        let given = count <= statement.values@.len();
        let computed = if given {
            before.compute(folding, 0, e)
        } else {
            before
        };
        let place = if given {
            source::place(folding, before.locals, e)
        } else {
            Place::Known(ValueView::Nil)
        };
        lemma_assignment_more(a, folding, statement, less);
        accounting::lemma_compute_more(before, folding, 0, e);
        lemma_more_twice(a, before, computed);
        lemma_assign_more(computed, statement.targets@[count - 1], place);
    }
}

/// A return needs something.
pub proof fn lemma_give_more(a: Account, folding: Folding, statement: ReturnStatement)
    ensures
        accounting::more(a, a.give(folding, statement)),
{
    let values = statement.returns@;
    if values.len() == 1 {
        let place = source::place(folding, a.locals, values[0]);
        accounting::lemma_compute_more(a, folding, 0, values[0]);
        lemma_push_more(a.compute(folding, 0, values[0]), 0, place);
    } else {
        lemma_push_all_more(a, folding, 0, values, values.len());
    }
}

/// A statement needs something.
pub proof fn lemma_statement_more(a: Account, folding: Folding, statement: Statement)
    ensures
        accounting::more(a, source::after_statement(folding, a, statement)),
{
    match statement {
        Statement::LocalStatement(s) => {
            let valued = a.values(folding, s, s.values@.len());
            lemma_values_more(a, folding, s, s.values@.len());
            lemma_nils_more(valued, s, s.names@.len());
        },
        Statement::LocalFunction(s) => {
            let inner = source::account(
                folding,
                source::names(s.definition.parameters@),
                s.definition.body,
            );
            accounting::lemma_captured_grows(a.locals, a.captures, inner.captures);
        },
        Statement::FunctionCall(s) => {
            lemma_call_more(a, folding, s);
        },
        Statement::Assignment(s) => {
            lemma_assignment_more(a, folding, s, s.targets@.len());
        },
        Statement::Other => {},
    }
}

/// A statement needs what it should and exceeds no limit, or it exceeds the limit that was hit.
pub open spec fn statement_within(
    functions: Seq<FunctionModel>,
    folding: Folding,
    statement: Statement,
    result: Result<Seq<FunctionModel>, CompilerError>,
) -> bool {
    let needs = source::after_statement(
        folding,
        accounting::account_of(functions.last()),
        statement,
    );
    match result {
        Ok(_) => {
            &&& accounting::accounted(functions, needs, result)
            &&& forall|limit: CompilerLimit| !(#[trigger] source::statement_exceeds(folding, limit, statement))
        },
        Err(CompilerError::Limit(limit)) => accounting::accounted(functions, needs, result)
            || source::statement_exceeds(folding, limit, statement),
        Err(CompilerError::Unsupported(_)) => true,
    }
}

/// Statements need what they should and exceed no limit, or exceed the limit that was hit.
pub open spec fn statements_within(
    functions: Seq<FunctionModel>,
    folding: Folding,
    parameters: Seq<Seq<u8>>,
    body: Block,
    count: nat,
    result: Result<Seq<FunctionModel>, CompilerError>,
) -> bool {
    let needs = source::account_upto(folding, parameters, body, count);
    match result {
        Ok(_) => {
            &&& accounting::accounted(functions, needs, result)
            &&& forall|limit: CompilerLimit| !(#[trigger] some_exceeds(folding, limit, body, count))
        },
        Err(CompilerError::Limit(limit)) => accounting::accounted(functions, needs, result)
            || some_exceeds(folding, limit, body, count),
        Err(CompilerError::Unsupported(_)) => true,
    }
}

/// A body needs what it should and exceeds no limit, or it exceeds the limit that was hit.
pub open spec fn block_within(
    functions: Seq<FunctionModel>,
    folding: Folding,
    parameters: Seq<Seq<u8>>,
    body: Block,
    result: Result<Seq<FunctionModel>, CompilerError>,
) -> bool {
    let needs = source::account(folding, parameters, body);
    match result {
        Ok(_) => {
            &&& accounting::accounted(functions, needs, result)
            &&& forall|limit: CompilerLimit| !(#[trigger] source::exceeds(folding, limit, parameters, body))
        },
        Err(CompilerError::Limit(limit)) => accounting::accounted(functions, needs, result)
            || source::exceeds(folding, limit, parameters, body),
        Err(CompilerError::Unsupported(_)) => true,
    }
}

/// After an inner function was compiled, the functions around have captured what it captures.
pub proof fn lemma_inner(
    functions: Seq<FunctionModel>,
    parameters: Seq<Seq<u8>>,
    needs: Account,
    compiled: Seq<FunctionModel>,
)
    requires
        soundness::sound(functions),
        soundness::kept(functions.push(FunctionModel::start(parameters)), compiled),
        accounting::accounted(
            functions.push(FunctionModel::start(parameters)),
            needs,
            Ok(compiled),
        ),
    ensures
        accounting::accounted(
            functions,
            accounting::account_of(functions.last()).with_names(needs.captures),
            Ok(compiled.drop_last()),
        ),
{
    let f = functions.last();
    let begun = functions.push(FunctionModel::start(parameters));
    let around = compiled.drop_last();
    let g = around.last();
    let none = machine::captured_names(FunctionModel::start(parameters));
    let had = machine::captured_names(f);
    let has = source::captured(f.locals, had, needs.captures);
    assert(begun.drop_last() =~= functions);
    assert(none =~= seq![]);
    assert(needs.captures.skip(0) =~= needs.captures);
    let scopes = accounting::names_of(functions);
    assert(accounting::names_of(around) == accounting::spread(scopes, needs.captures));
    assert(scopes.last() == (accounting::Names { locals: f.locals, captures: had }));
    assert(scopes.drop_last() =~= accounting::names_of(functions.drop_last()));
    let outer = accounting::spread(scopes.drop_last(), has.skip(had.len() as int));
    assert(accounting::names_of(around) == outer.push(
        accounting::Names { captures: has, ..scopes.last() },
    ));
    assert(accounting::names_of(around).last() == accounting::names_of(around)[around.len() - 1]);
    assert(machine::captured_names(g) == has);
    assert(accounting::names_of(around.drop_last()) =~= accounting::names_of(around).drop_last());
    assert(outer.push(accounting::Names { captures: has, ..scopes.last() }).drop_last() =~= outer);
    accounting::lemma_captured_grows(f.locals, had, needs.captures);
    let last = functions.len() - 1;
    assert(soundness::captured_more(begun[last], compiled[last]));
}

/// A limit that an inner function hits is exceeded by it or by a function around.
pub proof fn lemma_inner_fails(
    functions: Seq<FunctionModel>,
    parameters: Seq<Seq<u8>>,
    needs: Account,
    limit: CompilerLimit,
)
    requires
        functions.len() > 0,
        accounting::accounted(
            functions.push(FunctionModel::start(parameters)),
            needs,
            Err(CompilerError::Limit(limit)),
        ),
    ensures
        source::too_large(needs, limit) || accounting::accounted(
            functions,
            accounting::account_of(functions.last()).with_names(needs.captures),
            Err(CompilerError::Limit(limit)),
        ),
{
    let f = functions.last();
    let begun = functions.push(FunctionModel::start(parameters));
    let had = machine::captured_names(f);
    let has = source::captured(f.locals, had, needs.captures);
    let scopes = accounting::names_of(functions);
    assert(begun.drop_last() =~= functions);
    assert(machine::captured_names(FunctionModel::start(parameters)) =~= seq![]);
    assert(needs.captures.skip(0) =~= needs.captures);
    assert(scopes.last() == (accounting::Names { locals: f.locals, captures: had }));
    assert(scopes.drop_last() =~= accounting::names_of(functions.drop_last()));
    if limit == CompilerLimit::UpValues && !source::too_large(needs, limit) {
        let outer = accounting::spread(scopes.drop_last(), has.skip(had.len() as int));
        let all = accounting::spread(scopes, needs.captures);
        let i = choose|i: int|
            0 <= i < all.len() && (#[trigger] all[i]).captures.len() > UpValueIndex::MAX + 1;
        assert(all == outer.push(accounting::Names { captures: has, ..scopes.last() }));
        if i < outer.len() {
            assert(all[i] == outer[i]);
        }
    }
}

/// A function statement needs what it should.
pub proof fn lemma_local_function(
    folding: Folding,
    functions: Seq<FunctionModel>,
    statement: FunctionStatement,
)
    requires
        soundness::sound(functions),
        functions.last().temporaries == 0,
    ensures
        ({
            let result = model::local_function(folding, functions, statement);
            statement_within(functions, folding, Statement::LocalFunction(statement), result)
        }),
    decreases statement, 0nat,
{
    let f = functions.last();
    let a = accounting::account_of(f);
    let body = statement.definition.body;
    let parameters = model::names(statement.definition.parameters@);
    assert(parameters =~= source::names(statement.definition.parameters@));
    let begun = functions.push(FunctionModel::start(parameters));
    let inner = source::account(folding, parameters, body);
    let named = a.with_names(inner.captures);
    let needs = named.reach(1).spend(1).declare(statement.name.name@);
    let result = model::local_function(folding, functions, statement);
    let whole = Statement::LocalFunction(statement);
    assert(needs == source::after_statement(folding, a, whole));
    accounting::lemma_captured_grows(a.locals, a.captures, inner.captures);
    if parameters.len() <= u8::MAX {
        soundness::lemma_begin(functions, parameters);
        soundness::lemma_block(folding, begun, body);
        lemma_block(folding, begun, parameters, body);
        match model::block(folding, begun, body) {
            Ok(compiled) => {
                let around = compiled.drop_last();
                let g = around.last();
                lemma_inner(functions, parameters, inner, compiled);
                let last = functions.len() - 1;
                assert(soundness::captured_more(begun[last], compiled[last]));
                assert(begun[last] == f);
                assert(validity::valid_function(compiled[last]));
                match model::closure(g, compiled.last().proto(), statement.name.name@) {
                    Ok(top) => {
                        accounting::lemma_tied_step(around, top);
                        accounting::lemma_length(g.opcodes, top.opcodes.last());
                        assert(machine::captured_names(top) =~= machine::captured_names(g));
                    },
                    Err(_) => {},
                }
                accounting::lemma_then(functions, around, needs, result);
                assert forall|limit: CompilerLimit|
                    result is Ok implies !source::statement_exceeds(folding, limit, whole) by {
                    assert(!source::exceeds(folding, limit, parameters, body));
                }
            },
            Err(CompilerError::Limit(limit)) => {
                if !source::exceeds(folding, limit, parameters, body) {
                    lemma_inner_fails(functions, parameters, inner, limit);
                    if result is Err && result->Err_0 == CompilerError::Limit(limit) {
                        accounting::lemma_fails(functions, named, needs, result);
                    }
                }
            },
            Err(CompilerError::Unsupported(_)) => {},
        }
    }
}

/// A statement needs what it should.
pub proof fn lemma_statement(folding: Folding, functions: Seq<FunctionModel>, statement: Statement)
    requires
        soundness::sound(functions),
        functions.last().temporaries == 0,
    ensures
        ({
            let result = model::statement(folding, functions, statement);
            statement_within(functions, folding, statement, result)
        }),
    decreases statement, 1nat,
{
    match statement {
        Statement::LocalStatement(s) => {
            lemma_local_statement(folding, functions, s);
        },
        Statement::LocalFunction(s) => {
            lemma_local_function(folding, functions, s);
        },
        Statement::FunctionCall(s) => {
            lemma_call(folding, functions, s);
        },
        Statement::Assignment(s) => {
            lemma_assignment(folding, functions, s, s.targets@.len());
        },
        Statement::Other => {},
    }
}

/// One of the first statements of a body exceeds a limit.
pub open spec fn some_exceeds(
    folding: Folding,
    limit: CompilerLimit,
    body: Block,
    count: nat,
) -> bool {
    exists|i: int|
        0 <= i < count && source::statement_exceeds(
            folding,
            limit,
            #[trigger] body.statements@[i],
        )
}

/// The first statements of a body need what they should.
pub proof fn lemma_statements_upto(
    folding: Folding,
    functions: Seq<FunctionModel>,
    parameters: Seq<Seq<u8>>,
    body: Block,
    count: nat,
)
    requires
        soundness::sound(functions),
        functions.last() == FunctionModel::start(parameters),
        count <= body.statements@.len(),
    ensures
        ({
            let needs = source::account_upto(folding, parameters, body, count);
            let result = model::statements_upto(folding, functions, body, count);
            &&& accounting::more(accounting::account_of(functions.last()), needs)
            &&& statements_within(functions, folding, parameters, body, count, result)
        }),
    decreases body, count,
{
    let a = accounting::account_of(functions.last());
    if count == 0 {
        accounting::lemma_tied_step(functions, functions.last());
        assert(model::with_top(functions, functions.last()) =~= functions);
        assert(a.captures =~= seq![]);
    } else {
        let less = (count - 1) as nat;
        let before = source::account_upto(folding, parameters, body, less);
        let needs = source::account_upto(folding, parameters, body, count);
        let last = body.statements@[count - 1];
        let result = model::statements_upto(folding, functions, body, count);
        lemma_statements_upto(folding, functions, parameters, body, less);
        soundness::lemma_statements_upto(folding, functions, body, less);
        lemma_statement_more(before, folding, last);
        lemma_more_twice(a, before, needs);
        match model::statements_upto(folding, functions, body, less) {
            Ok(some) => {
                lemma_statement(folding, some, last);
                if accounting::accounted(some, needs, result) {
                    accounting::lemma_then(functions, some, needs, result);
                }
                if let Err(CompilerError::Limit(limit)) = result {
                    if source::statement_exceeds(folding, limit, last) {
                        assert(some_exceeds(folding, limit, body, count));
                    }
                }
                assert forall|limit: CompilerLimit| result is Ok implies !some_exceeds(
                    folding,
                    limit,
                    body,
                    count,
                ) by {
                    assert(!some_exceeds(folding, limit, body, less));
                    assert(!source::statement_exceeds(folding, limit, last));
                }
            },
            Err(CompilerError::Limit(limit)) => {
                if accounting::accounted(functions, before, result) {
                    accounting::lemma_fails(functions, before, needs, result);
                } else {
                    let i = choose|i: int|
                        0 <= i < less && source::statement_exceeds(
                            folding,
                            limit,
                            #[trigger] body.statements@[i],
                        );
                    assert(0 <= i < count && source::statement_exceeds(
                        folding,
                        limit,
                        body.statements@[i],
                    ));
                }
            },
            Err(_) => {},
        }
    }
}

/// A function needs what it should, and is compiled only where it exceeds no limit.
pub proof fn lemma_block(
    folding: Folding,
    functions: Seq<FunctionModel>,
    parameters: Seq<Seq<u8>>,
    body: Block,
)
    requires
        soundness::sound(functions),
        functions.last() == FunctionModel::start(parameters),
    ensures
        ({
            let result = model::block(folding, functions, body);
            block_within(functions, folding, parameters, body, result)
        }),
    decreases body, body.statements@.len() + 1,
{
    let count = body.statements@.len();
    let before = source::account_upto(folding, parameters, body, count);
    let needs = source::account(folding, parameters, body);
    let result = model::block(folding, functions, body);
    lemma_statements_upto(folding, functions, parameters, body, count);
    soundness::lemma_statements_upto(folding, functions, body, count);
    soundness::lemma_block(folding, functions, body);
    if let Some(statement) = body.return_statement {
        lemma_give_more(before, folding, statement);
    }
    match model::statements_upto(folding, functions, body, count) {
        Ok(some) => {
            match body.return_statement {
                Some(statement) => {
                    lemma_return(folding, some, statement);
                    if accounting::accounted(some, needs, result) {
                        accounting::lemma_then(functions, some, needs, result);
                    }
                },
                None => {
                    let opcode = OpCode::Return { start: 0, count: VarCount(0) };
                    lemma_emit_step(some, opcode, some.last().emit(opcode));
                    accounting::lemma_then(functions, some, needs, result);
                },
            }
            if let Ok(after) = result {
                assert(validity::valid_function(after[after.len() - 1]));
                assert forall|limit: CompilerLimit| !source::exceeds(
                    folding,
                    limit,
                    parameters,
                    body,
                ) by {
                    assert(!some_exceeds(folding, limit, body, count));
                    assert(machine::captured_names(after.last()).len()
                        == after.last().upvalues.len());
                    assert(!source::too_large(needs, limit));
                }
            }
        },
        Err(CompilerError::Limit(limit)) => {
            if accounting::accounted(functions, before, result) {
                accounting::lemma_fails(functions, before, needs, result);
            } else {
                assert(some_exceeds(folding, limit, body, count));
                let i = choose|i: int|
                    0 <= i < count && source::statement_exceeds(
                        folding,
                        limit,
                        #[trigger] body.statements@[i],
                    );
                assert(source::statement_exceeds(folding, limit, body.statements@[i]));
            }
        },
        Err(_) => {},
    }
}

} // verus!
