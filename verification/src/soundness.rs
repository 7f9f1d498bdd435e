//! What holds of the functions under compilation at all times.

use vstd::prelude::*;

use crate::ast::{
    AssignmentStatement, AssignmentTarget, Block, CallSuffix, Expression, FunctionCallStatement,
    FunctionStatement, HeadExpression, LocalStatement, PrimaryExpression, ReturnStatement,
    SimpleExpression, Statement, SuffixedExpression,
};
use crate::error::CompilerError;
use crate::function::{ProtoView, UpValueDescriptor};
use crate::model::{self, Folding, FunctionModel, Operand, Scope, Variable};
use crate::opcode::{OpCode, VarCount};
use crate::operators::BinaryOperator;
use crate::registers::Register;
use crate::validity;
use crate::value::ValueView;

verus! {

/// A name stands for a variable in a function by itself: for the local of that name that was
/// declared last, or else for the upvalue of that name.
pub open spec fn stands_for(f: FunctionModel, name: Seq<u8>, variable: Variable) -> bool {
    match variable {
        Variable::Local(register) => model::last_position(f.locals, name, f.locals.len()) == Some(
            register as nat,
        ),
        Variable::UpValue(index) => {
            &&& model::last_position(f.locals, name, f.locals.len()) is None
            &&& model::first_position(f.upvalues, name, 0) == Some(index as nat)
        },
        Variable::Global(_) => false,
    }
}

/// The variable of the function around that an upvalue is.
pub open spec fn source(descriptor: UpValueDescriptor) -> Variable {
    match descriptor {
        UpValueDescriptor::ParentLocal(register) => Variable::Local(register),
        UpValueDescriptor::Outer(index) => Variable::UpValue(index),
    }
}

/// Every upvalue of a function is what its name stands for in the function around, and no name is
/// captured twice.
pub open spec fn scoped(around: FunctionModel, f: FunctionModel) -> bool {
    forall|i: int|
        0 <= i < f.upvalues.len() ==> {
            &&& stands_for(around, (#[trigger] f.upvalues[i]).0, source(f.upvalues[i].1))
            &&& model::first_position(f.upvalues, f.upvalues[i].0, 0) == Some(i as nat)
        }
}

/// What holds of the functions under compilation at all times: each refers only to what it has,
/// each finds its upvalues in the one around it, and the outermost one has none.
pub open spec fn sound(functions: Seq<FunctionModel>) -> bool {
    &&& functions.len() > 0
    &&& functions[0].upvalues.len() == 0
    &&& forall|k: int|
        0 <= k < functions.len() ==> validity::valid_function(#[trigger] functions[k])
    &&& forall|k: int|
        0 < k < functions.len() ==> scoped(functions[k - 1], #[trigger] functions[k])
}

/// Nothing of a function is changed but that it may have captured more.
pub open spec fn captured_more(before: FunctionModel, after: FunctionModel) -> bool {
    &&& after == (FunctionModel { upvalues: after.upvalues, ..before })
    &&& validity::begins_with(after.upvalues, before.upvalues)
}

/// Only the innermost function is compiled: the others may have captured more, but are the same
/// otherwise.
pub open spec fn kept(before: Seq<FunctionModel>, after: Seq<FunctionModel>) -> bool {
    &&& after.len() == before.len() > 0
    &&& forall|k: int|
        0 <= k < before.len() - 1 ==> captured_more(before[k], #[trigger] after[k])
    &&& validity::grown(before.last(), after.last())
}

/// The position that is found is the last one.
pub proof fn lemma_last_position(names: Seq<Seq<u8>>, name: Seq<u8>, count: nat)
    requires
        count <= names.len(),
    ensures
        match model::last_position(names, name, count) {
            Some(position) => {
                &&& position < count
                &&& names[position as int] == name
                &&& forall|i: int| position < i < count ==> names[i] != name
            },
            None => forall|i: int| 0 <= i < count ==> names[i] != name,
        },
    decreases count,
{
    if count > 0 && names[count - 1] != name {
        lemma_last_position(names, name, (count - 1) as nat);
    }
}

/// The position that is found is the first one.
pub proof fn lemma_first_position(
    upvalues: Seq<(Seq<u8>, UpValueDescriptor)>,
    name: Seq<u8>,
    start: nat,
)
    ensures
        match model::first_position(upvalues, name, start) {
            Some(position) => {
                &&& start <= position < upvalues.len()
                &&& upvalues[position as int].0 == name
                &&& forall|i: int| start <= i < position ==> upvalues[i].0 != name
            },
            None => forall|i: int| start <= i < upvalues.len() ==> upvalues[i].0 != name,
        },
    decreases upvalues.len() - start,
{
    if start < upvalues.len() && upvalues[start as int].0 != name {
        lemma_first_position(upvalues, name, start + 1);
    }
}

/// A position that has the name and none before it is the one that is found.
pub proof fn lemma_is_first_position(
    upvalues: Seq<(Seq<u8>, UpValueDescriptor)>,
    name: Seq<u8>,
    start: nat,
    position: nat,
)
    requires
        start <= position < upvalues.len(),
        upvalues[position as int].0 == name,
        forall|i: int| start <= i < position ==> upvalues[i].0 != name,
    ensures
        model::first_position(upvalues, name, start) == Some(position),
    decreases position - start,
{
    if start < position {
        lemma_is_first_position(upvalues, name, start + 1, position);
    }
}

/// What a name stands for in a function does not change when the function captures more.
pub proof fn lemma_stands_for_kept(
    before: FunctionModel,
    after: FunctionModel,
    name: Seq<u8>,
    variable: Variable,
)
    requires
        captured_more(before, after),
        stands_for(before, name, variable),
    ensures
        stands_for(after, name, variable),
{
    if let Variable::UpValue(index) = variable {
        lemma_first_position(before.upvalues, name, 0);
        lemma_is_first_position(after.upvalues, name, 0, index as nat);
    }
}

/// A function stays scoped when the one around it captures more.
pub proof fn lemma_scoped_kept(around: FunctionModel, after: FunctionModel, f: FunctionModel)
    requires
        captured_more(around, after),
        scoped(around, f),
    ensures
        scoped(after, f),
{
    assert forall|i: int| 0 <= i < f.upvalues.len() implies {
        &&& stands_for(after, (#[trigger] f.upvalues[i]).0, source(f.upvalues[i].1))
        &&& model::first_position(f.upvalues, f.upvalues[i].0, 0) == Some(i as nat)
    } by {
        lemma_stands_for_kept(around, after, f.upvalues[i].0, source(f.upvalues[i].1));
    }
}

/// A name that stands for a variable in the innermost function resolves to it, and nothing changes.
pub proof fn lemma_resolves_to(
    functions: Seq<FunctionModel>,
    name: Seq<u8>,
    variable: Variable,
)
    requires
        functions.len() > 0,
        stands_for(functions.last(), name, variable),
    ensures
        model::resolve(functions, name) == Ok::<_, CompilerError>(
            (functions, variable),
        ),
{
}

/// To resolve a name keeps all functions sound, and the name stands by itself for what it resolved
/// to after that.
pub proof fn lemma_resolve(functions: Seq<FunctionModel>, name: Seq<u8>)
    requires
        sound(functions),
    ensures
        model::resolve(functions, name) matches Ok((after, variable)) ==> {
            &&& sound(after)
            &&& after.len() == functions.len()
            &&& forall|k: int|
                0 <= k < functions.len() ==> captured_more(functions[k], #[trigger] after[k])
            &&& stands_for(after.last(), name, variable) || (variable == Variable::Global(name)
                && after == functions)
        },
    decreases functions.len(),
{
    let top = functions.last();
    lemma_last_position(top.locals, name, top.locals.len());
    lemma_first_position(top.upvalues, name, 0);
    assert(validity::valid_function(functions[functions.len() - 1]));
    if functions.len() > 1 && model::foreign(top, name) {
        let outer = functions.drop_last();
        assert forall|k: int| 0 < k < outer.len() implies scoped(
            outer[k - 1],
            #[trigger] outer[k],
        ) by {
            assert(scoped(functions[k - 1], functions[k]));
        }
        assert forall|k: int| 0 <= k < outer.len() implies validity::valid_function(
            #[trigger] outer[k],
        ) by {
            assert(validity::valid_function(functions[k]));
        }
        lemma_resolve(outer, name);
        if let Ok((outer_after, variable)) = model::resolve(outer, name) {
            assert(scoped(functions[functions.len() - 2], functions[functions.len() - 1]));
            assert(captured_more(outer.last(), outer_after.last())) by {
                assert(captured_more(outer[outer.len() - 1], outer_after[outer.len() - 1]));
            }
            lemma_scoped_kept(outer.last(), outer_after.last(), top);
            if let Ok((after, found)) = model::resolve(functions, name) {
                let inner = after.last();
                if !(variable is Global) {
                    lemma_is_first_position(inner.upvalues, name, 0, top.upvalues.len());
                    assert forall|i: int| 0 <= i < inner.upvalues.len() implies {
                        &&& stands_for(
                            outer_after.last(),
                            (#[trigger] inner.upvalues[i]).0,
                            source(inner.upvalues[i].1),
                        )
                        &&& model::first_position(inner.upvalues, inner.upvalues[i].0, 0) == Some(
                            i as nat,
                        )
                    } by {
                        if i < top.upvalues.len() {
                            assert(top.upvalues[i] == inner.upvalues[i]);
                            lemma_first_position(top.upvalues, top.upvalues[i].0, 0);
                            lemma_is_first_position(
                                inner.upvalues,
                                inner.upvalues[i].0,
                                0,
                                i as nat,
                            );
                        }
                    }
                    validity::lemma_grown_valid(top, inner);
                }
                assert(after =~= outer_after.push(inner));
                assert forall|k: int| 0 < k < after.len() implies scoped(
                    after[k - 1],
                    #[trigger] after[k],
                ) by {
                    if k < outer_after.len() {
                        assert(scoped(outer_after[k - 1], outer_after[k]));
                    }
                }
                assert forall|k: int| 0 <= k < functions.len() implies captured_more(
                    functions[k],
                    #[trigger] after[k],
                ) by {
                    if k < outer.len() {
                        assert(captured_more(outer[k], outer_after[k]));
                    }
                }
                assert forall|k: int| 0 <= k < after.len() implies validity::valid_function(
                    #[trigger] after[k],
                ) by {
                    if k < outer_after.len() {
                        assert(validity::valid_function(outer_after[k]));
                    }
                }
                if variable is Global {
                    assert(after =~= functions);
                }
            }
        }
    }
}

/// A name that was looked up once stands for the same variable from then on, and nothing is captured
/// for it again.
pub proof fn lemma_lookup_again(scopes: Seq<Scope>, name: Seq<u8>)
    requires
        scopes.len() > 0,
    ensures
        model::lookup(scopes, name) matches Ok((after, variable)) ==> {
            &&& after.len() == scopes.len()
            &&& variable is Global ==> after == scopes
            &&& model::lookup(after, name) == Ok::<_, CompilerError>((after, variable))
        },
    decreases scopes.len(),
{
    let top = scopes.last();
    lemma_first_position(top.upvalues, name, 0);
    if scopes.len() > 1 && top.foreign(name) {
        lemma_lookup_again(scopes.drop_last(), name);
        if let Ok((after, variable)) = model::lookup(scopes, name) {
            if variable is Global {
                assert(after =~= scopes);
            } else {
                lemma_is_first_position(after.last().upvalues, name, 0, top.upvalues.len());
            }
        }
    }
}

/// A step of the innermost function that captures nothing keeps all functions sound.
pub proof fn lemma_step(functions: Seq<FunctionModel>, top: FunctionModel)
    requires
        sound(functions),
        validity::valid_function(top),
        top.upvalues == functions.last().upvalues,
        validity::grown(functions.last(), top),
    ensures
        sound(model::with_top(functions, top)),
        kept(functions, model::with_top(functions, top)),
        model::with_top(functions, top).last() == top,
{
    let after = model::with_top(functions, top);
    assert forall|k: int| 0 < k < after.len() implies scoped(after[k - 1], #[trigger] after[k]) by {
        assert(scoped(functions[k - 1], functions[k]));
    }
    assert forall|k: int| 0 <= k < after.len() implies validity::valid_function(
        #[trigger] after[k],
    ) by {
        if k < after.len() - 1 {
            assert(validity::valid_function(functions[k]));
        }
    }
}

/// What is not changed is kept.
pub proof fn lemma_kept_same(functions: Seq<FunctionModel>)
    requires
        functions.len() > 0,
    ensures
        kept(functions, functions),
{
}

/// What is kept when a function is compiled inside others is kept of those.
pub proof fn lemma_kept_around(
    functions: Seq<FunctionModel>,
    parameters: Seq<Seq<u8>>,
    compiled: Seq<FunctionModel>,
)
    requires
        functions.len() > 0,
        kept(functions.push(FunctionModel::start(parameters)), compiled),
    ensures
        kept(functions, compiled.drop_last()),
{
    let started = functions.push(FunctionModel::start(parameters));
    let outer = compiled.drop_last();
    let last = functions.len() - 1;
    assert(captured_more(started[last], compiled[last]));
    assert forall|k: int| 0 <= k < functions.len() - 1 implies captured_more(
        functions[k],
        #[trigger] outer[k],
    ) by {
        assert(captured_more(started[k], compiled[k]));
    }
}

/// What is kept twice is kept.
pub proof fn lemma_kept_twice(
    a: Seq<FunctionModel>,
    b: Seq<FunctionModel>,
    c: Seq<FunctionModel>,
)
    requires
        kept(a, b),
        kept(b, c),
    ensures
        kept(a, c),
{
    assert forall|k: int| 0 <= k < a.len() - 1 implies captured_more(a[k], #[trigger] c[k]) by {
        assert(captured_more(a[k], b[k]));
    }
}

/// An operator keeps all functions sound.
pub proof fn lemma_binop(
    folding: Folding,
    functions: Seq<FunctionModel>,
    left: Operand,
    operator: BinaryOperator,
    right: Operand,
)
    requires
        sound(functions),
        functions.last().holds_two(left, right),
        validity::valid_operand(left, functions.last()),
        validity::valid_operand(right, functions.last()),
    ensures
        functions.last().binop(folding, left, operator, right) matches Ok((top, operand)) ==> {
            let base = functions.last().free(right).free(left);
            &&& sound(model::with_top(functions, top))
            &&& kept(functions, model::with_top(functions, top))
            &&& validity::valid_operand(operand, top)
            &&& top.locals == functions.last().locals
            &&& top.prototypes == functions.last().prototypes
            &&& top.temporaries == base.temporaries + if operand is Temporary {
                1nat
            } else {
                0nat
            }
            &&& operand matches Operand::Temporary(register) ==> register == base.used()
        },
{
    let f = functions.last();
    assert(validity::valid_function(functions[functions.len() - 1]));
    validity::lemma_sum(f, left, right);
    model::lemma_sum(f, left, right);
    if let Ok((top, operand)) = f.binop(folding, left, operator, right) {
        lemma_step(functions, top);
    }
}

/// To compile an expression keeps all functions sound.
pub proof fn lemma_expression(folding: Folding, functions: Seq<FunctionModel>, e: Expression)
    requires
        sound(functions),
    ensures
        model::expression(folding, functions, e) matches Ok((after, operand)) ==> {
            &&& sound(after)
            &&& kept(functions, after)
            &&& model::evaluated(functions, after, operand)
            &&& validity::valid_operand(operand, after.last())
        },
    decreases e, e.tail@.len() + 1,
{
    lemma_expression_upto(folding, functions, e, e.tail@.len());
}

/// To compile some operators of an expression keeps all functions sound.
pub proof fn lemma_expression_upto(
    folding: Folding,
    functions: Seq<FunctionModel>,
    e: Expression,
    count: nat,
)
    requires
        sound(functions),
        count <= e.tail@.len(),
    ensures
        model::expression_upto(folding, functions, e, count) matches Ok((after, operand)) ==> {
            &&& sound(after)
            &&& kept(functions, after)
            &&& model::evaluated(functions, after, operand)
            &&& validity::valid_operand(operand, after.last())
        },
    decreases e, count,
{
    if count == 0 {
        lemma_head_expression(folding, functions, *e.head);
    } else {
        lemma_expression_upto(folding, functions, e, (count - 1) as nat);
        if let Ok((left_done, left)) = model::expression_upto(
            folding,
            functions,
            e,
            (count - 1) as nat,
        ) {
            let (operator, right_expression) = e.tail@[count - 1];
            lemma_expression(folding, left_done, right_expression);
            if let Ok((right_done, right)) = model::expression(
                folding,
                left_done,
                right_expression,
            ) {
                lemma_kept_twice(functions, left_done, right_done);
                lemma_binop(folding, right_done, left, operator, right);
                if let Ok((top, operand)) = right_done.last().binop(
                    folding,
                    left,
                    operator,
                    right,
                ) {
                    lemma_kept_twice(functions, right_done, model::with_top(right_done, top));
                }
            }
        }
    }
}

/// To compile the first operand of an expression keeps all functions sound.
pub proof fn lemma_head_expression(
    folding: Folding,
    functions: Seq<FunctionModel>,
    head: HeadExpression,
)
    requires
        sound(functions),
    ensures
        model::head_expression(folding, functions, head) matches Ok((after, operand)) ==> {
            &&& sound(after)
            &&& kept(functions, after)
            &&& model::evaluated(functions, after, operand)
            &&& validity::valid_operand(operand, after.last())
        },
    decreases head, 0nat,
{
    if let HeadExpression::Simple(SimpleExpression::Suffixed(suffixed)) = head {
        lemma_suffixed_expression(folding, functions, suffixed);
    }
}

/// To resolve a name keeps all functions sound, and what it stands for is there.
pub proof fn lemma_name(functions: Seq<FunctionModel>, name: Seq<u8>)
    requires
        sound(functions),
    ensures
        model::resolve(functions, name) matches Ok((after, variable)) ==> {
            &&& sound(after)
            &&& kept(functions, after)
            &&& match variable {
                Variable::Local(register) => register < after.last().locals.len(),
                Variable::UpValue(index) => index < after.last().upvalues.len(),
                Variable::Global(_) => true,
            }
        },
{
    lemma_resolve(functions, name);
    if let Ok((after, variable)) = model::resolve(functions, name) {
        assert(captured_more(functions.last(), after.last())) by {
            let last = functions.len() - 1;
            assert(captured_more(functions[last], after[last]));
        }
        lemma_last_position(after.last().locals, name, after.last().locals.len());
        lemma_first_position(after.last().upvalues, name, 0);
    }
}

/// To compile a name or an expression in brackets keeps all functions sound.
pub proof fn lemma_suffixed_expression(
    folding: Folding,
    functions: Seq<FunctionModel>,
    suffixed: SuffixedExpression,
)
    requires
        sound(functions),
    ensures
        model::suffixed_expression(folding, functions, suffixed) matches Ok((after, operand)) ==> {
            &&& sound(after)
            &&& kept(functions, after)
            &&& model::evaluated(functions, after, operand)
            &&& validity::valid_operand(operand, after.last())
        },
    decreases suffixed, 0nat,
{
    match suffixed.primary {
        PrimaryExpression::Name(name) => {
            lemma_name(functions, name@);
            model::lemma_resolve_steady(functions, name@);
        },
        PrimaryExpression::GroupedExpression(e) => {
            lemma_expression(folding, functions, e);
        },
    }
}

/// A value in a new register keeps all functions sound.
pub proof fn lemma_in_new_register(functions: Seq<FunctionModel>, operand: Operand)
    requires
        sound(functions),
        functions.last().holds(operand),
        validity::valid_operand(operand, functions.last()),
    ensures
        functions.last().in_new_register(operand) matches Ok((top, register)) ==> {
            &&& validity::valid_function(top)
            &&& validity::grown(functions.last(), top)
            &&& sound(model::with_top(functions, top))
            &&& kept(functions, model::with_top(functions, top))
            &&& top.locals == functions.last().locals
            &&& top.temporaries == functions.last().temporaries + if operand is Temporary {
                0nat
            } else {
                1nat
            }
            &&& register + 1 == top.used()
        },
{
    let f = functions.last();
    assert(validity::valid_function(functions[functions.len() - 1]));
    validity::lemma_load_next(f, operand);
    if let Ok((top, _)) = f.in_new_register(operand) {
        lemma_step(functions, top);
    }
}

/// A value in some register keeps all functions sound, and so does to use it in an instruction and
/// to free it then.
pub proof fn lemma_use_register(functions: Seq<FunctionModel>, operand: Operand, opcode: OpCode)
    requires
        sound(functions),
        functions.last().holds(operand),
        validity::valid_operand(operand, functions.last()),
        functions.last().in_any_register(operand) matches Ok((top, _, register))
            ==> validity::valid_opcode(opcode, validity::sizes(top)),
    ensures
        functions.last().in_any_register(operand) matches Ok((top, there, register)) ==> {
            let used = top.emit(opcode).free(there);
            &&& sound(model::with_top(functions, used))
            &&& kept(functions, model::with_top(functions, used))
            &&& used.locals == functions.last().locals
            &&& used.temporaries == functions.last().free(operand).temporaries
        },
{
    let f = functions.last();
    assert(validity::valid_function(functions[functions.len() - 1]));
    validity::lemma_in_any_register(f, operand);
    if let Ok((top, there, register)) = f.in_any_register(operand) {
        validity::lemma_emit(top, opcode);
        validity::lemma_grown_twice(f, top, top.emit(opcode));
        validity::lemma_free(top.emit(opcode), there);
        validity::lemma_grown_twice(f, top.emit(opcode), top.emit(opcode).free(there));
        lemma_step(functions, top.emit(opcode).free(there));
    }
}

/// An instruction keeps all functions sound.
pub proof fn lemma_emit(functions: Seq<FunctionModel>, opcode: OpCode)
    requires
        sound(functions),
        validity::valid_opcode(opcode, validity::sizes(functions.last())),
    ensures
        sound(model::with_top(functions, functions.last().emit(opcode))),
        kept(functions, model::with_top(functions, functions.last().emit(opcode))),
{
    assert(validity::valid_function(functions[functions.len() - 1]));
    validity::lemma_emit(functions.last(), opcode);
    lemma_step(functions, functions.last().emit(opcode));
}

/// To compile expressions into registers of their own keeps all functions sound.
pub proof fn lemma_push_upto(
    folding: Folding,
    functions: Seq<FunctionModel>,
    expressions: Seq<Expression>,
    count: nat,
)
    requires
        sound(functions),
    ensures
        model::push_upto(folding, functions, expressions, count) matches Ok(after) ==> {
            &&& sound(after)
            &&& kept(functions, after)
            &&& model::pushed(functions, after, count)
        },
    decreases count,
{
    if count > 0 {
        lemma_push_upto(folding, functions, expressions, (count - 1) as nat);
        if let Ok(some) = model::push_upto(folding, functions, expressions, (count - 1) as nat) {
            lemma_expression(folding, some, expressions[count - 1]);
            if let Ok((done, operand)) = model::expression(folding, some, expressions[count - 1]) {
                lemma_kept_twice(functions, some, done);
                lemma_in_new_register(done, operand);
                if let Ok((top, _)) = done.last().in_new_register(operand) {
                    lemma_kept_twice(functions, done, model::with_top(done, top));
                }
            }
        }
    }
}

/// A last instruction that uses registers which are then given back keeps all functions sound.
pub proof fn lemma_emit_and_release(functions: Seq<FunctionModel>, opcode: OpCode, count: nat)
    requires
        sound(functions),
        validity::valid_opcode(opcode, validity::sizes(functions.last())),
        count <= functions.last().temporaries,
    ensures
        sound(model::with_top(functions, functions.last().emit(opcode).release(count))),
        kept(functions, model::with_top(functions, functions.last().emit(opcode).release(count))),
{
    let f = functions.last();
    assert(validity::valid_function(functions[functions.len() - 1]));
    validity::lemma_emit(f, opcode);
    let released = f.emit(opcode).release(count);
    assert(validity::valid_opcodes(released.opcodes, validity::sizes(released)));
    lemma_step(functions, released);
}

/// A return of one value keeps all functions sound.
pub proof fn lemma_return_register(
    functions: Seq<FunctionModel>,
    operand: Operand,
    count: VarCount,
)
    requires
        sound(functions),
        functions.last().holds(operand),
        validity::valid_operand(operand, functions.last()),
        count.0 == 1,
    ensures
        functions.last().in_any_register(operand) matches Ok((top, there, start)) ==> {
            let used = top.emit(OpCode::Return { start, count }).free(there);
            &&& sound(model::with_top(functions, used))
            &&& kept(functions, model::with_top(functions, used))
            &&& used.locals == functions.last().locals
            &&& used.temporaries == functions.last().free(operand).temporaries
        },
{
    assert(validity::valid_function(functions[functions.len() - 1]));
    validity::lemma_in_any_register(functions.last(), operand);
    if let Ok((top, there, start)) = functions.last().in_any_register(operand) {
        lemma_use_register(functions, operand, OpCode::Return { start, count });
    }
}

/// To compile a return keeps all functions sound.
pub proof fn lemma_return_statement(
    folding: Folding,
    functions: Seq<FunctionModel>,
    statement: ReturnStatement,
)
    requires
        sound(functions),
    ensures
        model::return_statement(folding, functions, statement) matches Ok(after) ==> {
            &&& sound(after)
            &&& kept(functions, after)
            &&& model::settled(functions, after)
            &&& validity::ends_with_return(after.last().opcodes)
        },
{
    let values = statement.returns@;
    if let Some(count) = VarCount::of(values.len() as int) {
        if values.len() == 0 {
            lemma_emit(functions, OpCode::Return { start: 0, count });
        } else if values.len() == 1 {
            lemma_expression(folding, functions, values[0]);
            if let Ok((done, operand)) = model::expression(folding, functions, values[0]) {
                lemma_return_register(done, operand, count);
                if let Ok((top, there, start)) = done.last().in_any_register(operand) {
                    let used = top.emit(OpCode::Return { start, count }).free(there);
                    lemma_kept_twice(functions, done, model::with_top(done, used));
                }
            }
        } else {
            lemma_push_upto(folding, functions, values, values.len());
            if let Ok(done) = model::push_upto(folding, functions, values, values.len()) {
                assert(validity::valid_function(done[done.len() - 1]));
                let start = functions.last().used() as Register;
                let opcode = OpCode::Return { start, count };
                lemma_emit_and_release(done, opcode, values.len());
                let released = done.last().emit(opcode).release(values.len());
                lemma_kept_twice(functions, done, model::with_top(done, released));
            }
        }
    }
}

/// To declare a local keeps all functions sound.
pub proof fn lemma_declare(functions: Seq<FunctionModel>, f: FunctionModel, name: Seq<u8>)
    requires
        sound(functions),
        validity::valid_function(f),
        f.temporaries > 0,
        f.upvalues == functions.last().upvalues,
        validity::grown(functions.last(), f),
    ensures
        validity::valid_function(f.declare(name)),
        validity::grown(functions.last(), f.declare(name)),
        sound(model::with_top(functions, f.declare(name))),
        kept(functions, model::with_top(functions, f.declare(name))),
{
    let declared = f.declare(name);
    assert(validity::valid_opcodes(declared.opcodes, validity::sizes(declared)));
    lemma_step(functions, declared);
}

/// To make a local of a value keeps all functions sound.
pub proof fn lemma_declare_operand(
    functions: Seq<FunctionModel>,
    operand: Operand,
    name: Seq<u8>,
)
    requires
        sound(functions),
        functions.last().holds(operand),
        validity::valid_operand(operand, functions.last()),
    ensures
        functions.last().in_new_register(operand) matches Ok((top, _)) ==> {
            &&& sound(model::with_top(functions, top.declare(name)))
            &&& kept(functions, model::with_top(functions, top.declare(name)))
        },
{
    lemma_in_new_register(functions, operand);
    if let Ok((top, _)) = functions.last().in_new_register(operand) {
        assert(validity::valid_function(functions[functions.len() - 1]));
        validity::lemma_load_next(functions.last(), operand);
        lemma_declare(functions, top, name);
    }
}

/// To free a value keeps all functions sound.
pub proof fn lemma_free(functions: Seq<FunctionModel>, operand: Operand)
    requires
        sound(functions),
        functions.last().holds(operand),
    ensures
        sound(model::with_top(functions, functions.last().free(operand))),
        kept(functions, model::with_top(functions, functions.last().free(operand))),
{
    assert(validity::valid_function(functions[functions.len() - 1]));
    validity::lemma_free(functions.last(), operand);
    lemma_step(functions, functions.last().free(operand));
}

/// To compile values of a local statement keeps all functions sound.
pub proof fn lemma_local_values_upto(
    folding: Folding,
    functions: Seq<FunctionModel>,
    statement: LocalStatement,
    count: nat,
)
    requires
        sound(functions),
        functions.last().temporaries == 0,
        count <= statement.values@.len(),
    ensures
        model::local_values_upto(folding, functions, statement, count) matches Ok(after) ==> {
            &&& sound(after)
            &&& kept(functions, after)
            &&& model::settled(functions, after)
        },
    decreases count,
{
    if count > 0 {
        lemma_local_values_upto(folding, functions, statement, (count - 1) as nat);
        if let Ok(some) = model::local_values_upto(
            folding,
            functions,
            statement,
            (count - 1) as nat,
        ) {
            let e = statement.values@[count - 1];
            lemma_expression(folding, some, e);
            if let Ok((done, operand)) = model::expression(folding, some, e) {
                lemma_kept_twice(functions, some, done);
                if count <= statement.names@.len() {
                    let name = statement.names@[count - 1]@;
                    lemma_in_new_register(done, operand);
                    lemma_declare_operand(done, operand, name);
                    if let Ok((top, _)) = done.last().in_new_register(operand) {
                        lemma_kept_twice(
                            functions,
                            done,
                            model::with_top(done, top.declare(name)),
                        );
                    }
                } else {
                    lemma_free(done, operand);
                    lemma_kept_twice(
                        functions,
                        done,
                        model::with_top(done, done.last().free(operand)),
                    );
                }
            }
        }
    }
}

/// To declare locals that hold nil keeps a function valid.
pub proof fn lemma_local_nils_upto(f: FunctionModel, statement: LocalStatement, count: nat)
    requires
        validity::valid_function(f),
        f.temporaries == 0,
    ensures
        model::local_nils_upto(f, statement, count) matches Ok(g) ==> {
            &&& validity::valid_function(g)
            &&& validity::grown(f, g)
            &&& g.upvalues == f.upvalues
            &&& g.temporaries == 0
        },
    decreases count,
{
    if count > statement.values@.len() {
        lemma_local_nils_upto(f, statement, (count - 1) as nat);
        if let Ok(g) = model::local_nils_upto(f, statement, (count - 1) as nat) {
            validity::lemma_take(g);
            if let Ok(taken) = g.take_register() {
                let nil = Operand::Value(ValueView::Nil);
                let dest = g.used() as Register;
                validity::lemma_load(taken, nil, dest);
                validity::lemma_grown_twice(f, g, taken);
                let loaded = taken.load_nil(dest);
                validity::lemma_grown_twice(f, taken, loaded);
                let declared = loaded.declare(statement.names@[count - 1]@);
                assert(validity::valid_opcodes(declared.opcodes, validity::sizes(declared)));
                validity::lemma_grown_twice(f, loaded, declared);
            }
        }
    }
}

/// To declare locals that hold nil keeps all functions sound.
pub proof fn lemma_local_nils(
    functions: Seq<FunctionModel>,
    statement: LocalStatement,
    count: nat,
)
    requires
        sound(functions),
        functions.last().temporaries == 0,
    ensures
        model::local_nils_upto(functions.last(), statement, count) matches Ok(top) ==> {
            &&& sound(model::with_top(functions, top))
            &&& kept(functions, model::with_top(functions, top))
            &&& top.temporaries == 0
        },
{
    assert(validity::valid_function(functions[functions.len() - 1]));
    lemma_local_nils_upto(functions.last(), statement, count);
    if let Ok(top) = model::local_nils_upto(functions.last(), statement, count) {
        lemma_step(functions, top);
    }
}

/// To compile a declaration of locals keeps all functions sound.
pub proof fn lemma_local_statement(
    folding: Folding,
    functions: Seq<FunctionModel>,
    statement: LocalStatement,
)
    requires
        sound(functions),
        functions.last().temporaries == 0,
    ensures
        model::local_statement(folding, functions, statement) matches Ok(after) ==> {
            &&& sound(after)
            &&& kept(functions, after)
            &&& model::settled(functions, after)
        },
{
    let count = statement.values@.len();
    lemma_local_values_upto(folding, functions, statement, count);
    if let Ok(done) = model::local_values_upto(folding, functions, statement, count) {
        lemma_local_nils(done, statement, statement.names@.len());
        if let Ok(top) = model::local_nils_upto(done.last(), statement, statement.names@.len()) {
            lemma_kept_twice(functions, done, model::with_top(done, top));
        }
    }
}

/// To compile a call keeps all functions sound.
pub proof fn lemma_function_call(
    folding: Folding,
    functions: Seq<FunctionModel>,
    statement: FunctionCallStatement,
)
    requires
        sound(functions),
        functions.last().temporaries == 0,
    ensures
        model::function_call(folding, functions, statement) matches Ok(after) ==> {
            &&& sound(after)
            &&& kept(functions, after)
            &&& model::settled(functions, after)
        },
{
    lemma_suffixed_expression(folding, functions, statement.head);
    if let Ok((headed, operand)) = model::suffixed_expression(folding, functions, statement.head) {
        lemma_in_new_register(headed, operand);
        if let Ok((top, func)) = headed.last().in_new_register(operand) {
            let ready = model::with_top(headed, top);
            lemma_kept_twice(functions, headed, ready);
            if let CallSuffix::Function(arguments) = statement.call {
                let count = arguments@.len();
                lemma_push_upto(folding, ready, arguments@, count);
                if let Ok(done) = model::push_upto(folding, ready, arguments@, count) {
                    lemma_kept_twice(functions, ready, done);
                    if let Some(args) = VarCount::of(count as int) {
                        assert(validity::valid_function(done[done.len() - 1]));
                        let opcode = OpCode::Call { func, args, returns: VarCount(0) };
                        lemma_emit_and_release(done, opcode, count + 1);
                        let released = done.last().emit(opcode).release(count + 1);
                        lemma_kept_twice(functions, done, model::with_top(done, released));
                    }
                }
            }
        }
    }
}

/// A call declares no locals and makes no functions.
pub proof fn lemma_call_declares_nothing(
    folding: Folding,
    functions: Seq<FunctionModel>,
    statement: FunctionCallStatement,
)
    requires
        sound(functions),
    ensures
        model::function_call(folding, functions, statement) matches Ok(after) ==> {
            &&& after.last().locals == functions.last().locals
            &&& after.last().prototypes == functions.last().prototypes
        },
{
    lemma_suffixed_expression(folding, functions, statement.head);
    if let Ok((headed, operand)) = model::suffixed_expression(folding, functions, statement.head) {
        lemma_in_new_register(headed, operand);
        if let Ok((top, func)) = headed.last().in_new_register(operand) {
            if let CallSuffix::Function(arguments) = statement.call {
                let ready = model::with_top(headed, top);
                lemma_push_upto(folding, ready, arguments@, arguments@.len());
            }
        }
    }
}

/// To assign to a target keeps all functions sound.
pub proof fn lemma_assign(
    functions: Seq<FunctionModel>,
    target: AssignmentTarget,
    operand: Operand,
)
    requires
        sound(functions),
        functions.last().holds(operand),
        validity::valid_operand(operand, functions.last()),
    ensures
        model::assign(functions, target, operand) matches Ok(after) ==> {
            &&& sound(after)
            &&& kept(functions, after)
            &&& model::steady(
                model::with_top(functions, functions.last().free(operand)),
                after,
            )
        },
{
    if let AssignmentTarget::Name(name) = target {
        lemma_resolve(functions, name@);
        model::lemma_resolve_steady(functions, name@);
        if let Ok((found, variable)) = model::resolve(functions, name@) {
            let last = functions.len() - 1;
            assert(captured_more(functions[last], found[last]));
            assert(kept(functions, found));
            assert(validity::valid_function(found[last]));
            let f = found.last();
            lemma_last_position(f.locals, name@, f.locals.len());
            lemma_first_position(f.upvalues, name@, 0);
            match variable {
                Variable::Local(dest) => {
                    validity::lemma_load(f, operand, dest);
                    if let Ok(loaded) = f.load(operand, dest) {
                        validity::lemma_free(loaded, operand);
                        validity::lemma_grown_twice(f, loaded, loaded.free(operand));
                        lemma_step(found, loaded.free(operand));
                        lemma_kept_twice(
                            functions,
                            found,
                            model::with_top(found, loaded.free(operand)),
                        );
                    }
                },
                Variable::UpValue(dest) => {
                    validity::lemma_in_any_register(f, operand);
                    if let Ok((top, there, source)) = f.in_any_register(operand) {
                        let opcode = OpCode::SetUpValue { source, dest };
                        lemma_use_register(found, operand, opcode);
                        let used = top.emit(opcode).free(there);
                        lemma_kept_twice(functions, found, model::with_top(found, used));
                    }
                },
                Variable::Global(_) => {},
            }
        }
    }
}

/// To compile an assignment keeps all functions sound.
pub proof fn lemma_assignment_upto(
    folding: Folding,
    functions: Seq<FunctionModel>,
    statement: AssignmentStatement,
    count: nat,
)
    requires
        sound(functions),
        count <= statement.targets@.len(),
    ensures
        model::assignment_upto(folding, functions, statement, count) matches Ok(after) ==> {
            &&& sound(after)
            &&& kept(functions, after)
            &&& model::steady(functions, after)
        },
    decreases count,
{
    if count > 0 {
        lemma_assignment_upto(folding, functions, statement, (count - 1) as nat);
        if let Ok(some) = model::assignment_upto(
            folding,
            functions,
            statement,
            (count - 1) as nat,
        ) {
            if count - 1 < statement.values@.len() {
                lemma_expression(folding, some, statement.values@[count - 1]);
            }
            if let Ok((done, operand)) = model::assigned_value(
                folding,
                some,
                statement,
                count - 1,
            ) {
                assert(kept(some, done));
                lemma_kept_twice(functions, some, done);
                let target = statement.targets@[count - 1];
                lemma_assign(done, target, operand);
                if let Ok(after) = model::assign(done, target, operand) {
                    lemma_kept_twice(functions, done, after);
                }
            }
        }
    }
}

/// The functions around a sound one are sound.
pub proof fn lemma_drop_last(functions: Seq<FunctionModel>)
    requires
        sound(functions),
        functions.len() > 1,
    ensures
        sound(functions.drop_last()),
{
    let outer = functions.drop_last();
    assert forall|k: int| 0 < k < outer.len() implies scoped(outer[k - 1], #[trigger] outer[k]) by {
        assert(scoped(functions[k - 1], functions[k]));
    }
    assert forall|k: int| 0 <= k < outer.len() implies validity::valid_function(
        #[trigger] outer[k],
    ) by {
        assert(validity::valid_function(functions[k]));
    }
}

/// To begin a function inside sound ones keeps them sound.
pub proof fn lemma_begin(functions: Seq<FunctionModel>, parameters: Seq<Seq<u8>>)
    requires
        sound(functions),
        parameters.len() <= u8::MAX,
    ensures
        sound(functions.push(FunctionModel::start(parameters))),
{
    let after = functions.push(FunctionModel::start(parameters));
    assert forall|k: int| 0 < k < after.len() implies scoped(after[k - 1], #[trigger] after[k]) by {
        if k < functions.len() {
            assert(scoped(functions[k - 1], functions[k]));
        }
    }
    assert forall|k: int| 0 <= k < after.len() implies validity::valid_function(
        #[trigger] after[k],
    ) by {
        if k < functions.len() {
            assert(validity::valid_function(functions[k]));
        }
    }
}

/// A function that was compiled to its end can be run.
pub proof fn lemma_proto(around: FunctionModel, f: FunctionModel)
    requires
        validity::valid_function(around),
        validity::valid_function(f),
        scoped(around, f),
        validity::ends_with_return(f.opcodes),
    ensures
        validity::valid_proto(f.proto(), validity::sizes(around)),
{
    let proto = f.proto();
    assert(validity::proto_sizes(proto) == validity::sizes(f));
    assert forall|i: int| 0 <= i < proto.upvalues.len() implies validity::valid_upvalue(
        #[trigger] proto.upvalues[i],
        validity::sizes(around),
    ) by {
        let (name, descriptor) = f.upvalues[i];
        assert(stands_for(around, f.upvalues[i].0, source(f.upvalues[i].1)));
        lemma_last_position(around.locals, name, around.locals.len());
        lemma_first_position(around.upvalues, name, 0);
    }
}

/// To make a closure keeps a function valid.
pub proof fn lemma_closure(f: FunctionModel, proto: ProtoView, name: Seq<u8>)
    requires
        validity::valid_function(f),
        validity::valid_proto(proto, validity::sizes(f)),
        f.temporaries == 0,
    ensures
        model::closure(f, proto, name) matches Ok(g) ==> {
            &&& validity::valid_function(g)
            &&& validity::grown(f, g)
            &&& g.upvalues == f.upvalues
            &&& g.temporaries == 0
        },
{
    validity::lemma_take(f);
    if let Ok(g) = model::closure(f, proto, name) {
        validity::lemma_grown_valid(f, g);
        validity::lemma_valid_proto_covers(proto, validity::sizes(f), validity::sizes(g));
        let last = f.opcodes.len() as int;
        assert(g.opcodes =~= f.opcodes.push(g.opcodes[last]));
        assert forall|i: int| 0 <= i < g.prototypes.len() implies validity::valid_proto(
            #[trigger] g.prototypes[i],
            validity::sizes(g),
        ) by {
            if i < f.prototypes.len() {
                assert(validity::valid_proto(f.prototypes[i], validity::sizes(g)));
            }
        }
    }
}

/// To make a closure of a function that was compiled to its end keeps the functions around it
/// sound.
pub proof fn lemma_enclosed(compiled: Seq<FunctionModel>, name: Seq<u8>)
    requires
        sound(compiled),
        compiled.len() > 1,
        compiled.drop_last().last().temporaries == 0,
        validity::ends_with_return(compiled.last().opcodes),
    ensures
        sound(compiled.drop_last()),
        model::closure(
            compiled.drop_last().last(),
            compiled.last().proto(),
            name,
        ) matches Ok(top) ==> {
            &&& sound(model::with_top(compiled.drop_last(), top))
            &&& kept(compiled.drop_last(), model::with_top(compiled.drop_last(), top))
            &&& top.temporaries == 0
        },
{
    let outer = compiled.drop_last();
    let last = outer.len() - 1;
    lemma_drop_last(compiled);
    assert(validity::valid_function(compiled[last]));
    assert(validity::valid_function(compiled[last + 1]));
    assert(scoped(compiled[last + 1 - 1], compiled[last + 1]));
    lemma_proto(outer.last(), compiled.last());
    lemma_closure(outer.last(), compiled.last().proto(), name);
    if let Ok(top) = model::closure(outer.last(), compiled.last().proto(), name) {
        lemma_step(outer, top);
    }
}

/// A function that is inside no other one and was compiled to its end can be run.
pub proof fn lemma_chunk(functions: Seq<FunctionModel>)
    requires
        sound(functions),
        functions.len() == 1,
        functions.last().fixed_params == 0,
        validity::ends_with_return(functions.last().opcodes),
    ensures
        validity::valid_chunk(functions.last().proto()),
{
    let proto = functions.last().proto();
    assert(validity::valid_function(functions[0]));
    assert(validity::proto_sizes(proto) == validity::sizes(functions.last()));
}

/// To compile a function inside others keeps all of them sound.
pub proof fn lemma_local_function(
    folding: Folding,
    functions: Seq<FunctionModel>,
    statement: FunctionStatement,
)
    requires
        sound(functions),
        functions.last().temporaries == 0,
    ensures
        model::local_function(folding, functions, statement) matches Ok(after) ==> {
            &&& sound(after)
            &&& kept(functions, after)
            &&& model::settled(functions, after)
        },
    decreases statement, 0nat,
{
    if model::local_function(folding, functions, statement) is Ok {
        let parameters = model::names(statement.definition.parameters@);
        let started = functions.push(FunctionModel::start(parameters));
        let name = statement.name.name@;
        lemma_begin(functions, parameters);
        lemma_block(folding, started, statement.definition.body);
        if let Ok(compiled) = model::block(folding, started, statement.definition.body) {
            let outer = compiled.drop_last();
            let last = functions.len() - 1;
            assert(captured_more(started[last], compiled[last]));
            lemma_kept_around(functions, parameters, compiled);
            lemma_enclosed(compiled, name);
            if let Ok(top) = model::closure(outer.last(), compiled.last().proto(), name) {
                lemma_kept_twice(functions, outer, model::with_top(outer, top));
            }
        }
    }
}

/// To compile a statement keeps all functions sound.
pub proof fn lemma_statement(
    folding: Folding,
    functions: Seq<FunctionModel>,
    statement: Statement,
)
    requires
        sound(functions),
        functions.last().temporaries == 0,
    ensures
        model::statement(folding, functions, statement) matches Ok(after) ==> {
            &&& sound(after)
            &&& kept(functions, after)
            &&& model::settled(functions, after)
        },
    decreases statement, 0nat,
{
    match statement {
        Statement::LocalStatement(s) => {
            lemma_local_statement(folding, functions, s);
        },
        Statement::LocalFunction(s) => {
            lemma_local_function(folding, functions, s);
        },
        Statement::FunctionCall(s) => {
            lemma_function_call(folding, functions, s);
        },
        Statement::Assignment(s) => {
            lemma_assignment_upto(folding, functions, s, s.targets@.len());
        },
        Statement::Other => {},
    }
}

/// To compile statements keeps all functions sound.
pub proof fn lemma_statements_upto(
    folding: Folding,
    functions: Seq<FunctionModel>,
    block: Block,
    count: nat,
)
    requires
        sound(functions),
        functions.last().temporaries == 0,
        count <= block.statements@.len(),
    ensures
        model::statements_upto(folding, functions, block, count) matches Ok(after) ==> {
            &&& sound(after)
            &&& kept(functions, after)
            &&& model::settled(functions, after)
        },
    decreases block, count,
{
    if count > 0 {
        lemma_statements_upto(folding, functions, block, (count - 1) as nat);
        if let Ok(some) = model::statements_upto(folding, functions, block, (count - 1) as nat) {
            let statement = block.statements@[count - 1];
            lemma_statement(folding, some, statement);
            if let Ok(after) = model::statement(folding, some, statement) {
                lemma_kept_twice(functions, some, after);
            }
        }
    }
}

/// To compile the body of a function keeps all functions sound.
pub proof fn lemma_block(folding: Folding, functions: Seq<FunctionModel>, block: Block)
    requires
        sound(functions),
        functions.last().temporaries == 0,
    ensures
        model::block(folding, functions, block) matches Ok(after) ==> {
            &&& sound(after)
            &&& kept(functions, after)
            &&& model::settled(functions, after)
            &&& validity::ends_with_return(after.last().opcodes)
        },
    decreases block, block.statements@.len() + 1,
{
    let count = block.statements@.len();
    lemma_statements_upto(folding, functions, block, count);
    if let Ok(done) = model::statements_upto(folding, functions, block, count) {
        match block.return_statement {
            Some(statement) => {
                lemma_return_statement(folding, done, statement);
                if let Ok(after) = model::return_statement(folding, done, statement) {
                    lemma_kept_twice(functions, done, after);
                }
            },
            None => {
                let opcode = OpCode::Return { start: 0, count: VarCount(0) };
                lemma_emit(done, opcode);
                lemma_kept_twice(
                    functions,
                    done,
                    model::with_top(done, done.last().emit(opcode)),
                );
            },
        }
    }
}

} // verus!
