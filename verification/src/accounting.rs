//! Functions under compilation need what their source says.

use vstd::prelude::*;

use crate::ast::{
    Expression, HeadExpression, PrimaryExpression, SimpleExpression, SuffixedExpression,
};
use crate::error::{CompilerError, CompilerLimit};
use crate::machine;
use crate::model::{self, Folding, FunctionModel, Operand};
use crate::opcode::{Constant, OpCode, UpValueIndex};
use crate::operators::BinaryOperator;
use crate::registers::{Register, REGISTER_COUNT};
use crate::soundness;
use crate::source::{self, Account, Place};
use crate::validity;
use crate::value::ValueView;

verus! {

/// What a function under compilation needs so far.
pub open spec fn account_of(f: FunctionModel) -> Account {
    Account {
        locals: f.locals,
        captures: machine::captured_names(f),
        constants: f.constants,
        registers: f.stack_size,
        code: source::length(f.opcodes),
    }
}

/// One more instruction does what it does.
pub proof fn lemma_length(opcodes: Seq<OpCode>, opcode: OpCode)
    ensures
        source::length(opcodes.push(opcode)) == source::length(opcodes) + source::weight(opcode),
{
    assert(opcodes.push(opcode).drop_last() =~= opcodes);
}

/// An operand is where the source says.
pub open spec fn placed(operand: Operand, place: Place) -> bool {
    match (operand, place) {
        (Operand::Temporary(_), Place::Temporary) => true,
        (Operand::Local(_), Place::Local) => true,
        (Operand::UpValue(_), Place::Outer) => true,
        (Operand::Value(a), Place::Known(b)) => a == b,
        _ => false,
    }
}

/// Where an operand is.
pub open spec fn place_of(operand: Operand) -> Place {
    match operand {
        Operand::Temporary(_) => Place::Temporary,
        Operand::Local(_) => Place::Local,
        Operand::UpValue(_) => Place::Outer,
        Operand::Value(value) => Place::Known(value),
    }
}

/// The names of a function.
pub struct Names {
    pub locals: Seq<Seq<u8>>,
    pub captures: Seq<Seq<u8>>,
}

/// The names of some functions.
pub open spec fn names_of(functions: Seq<FunctionModel>) -> Seq<Names> {
    Seq::new(
        functions.len(),
        |i: int|
            Names {
                locals: functions[i].locals,
                captures: machine::captured_names(functions[i]),
            },
    )
}

/// The innermost of some functions uses names. What it captures, the function around uses.
pub open spec fn spread(scopes: Seq<Names>, used: Seq<Seq<u8>>) -> Seq<Names>
    decreases scopes.len(),
{
    if scopes.len() == 0 {
        scopes
    } else {
        let top = scopes.last();
        let captures = source::captured(top.locals, top.captures, used);
        spread(scopes.drop_last(), captures.skip(top.captures.len() as int)).push(
            Names { captures, ..top },
        )
    }
}

/// Some function captures more than can be counted.
pub open spec fn overflows(scopes: Seq<Names>) -> bool {
    exists|i: int|
        0 <= i < scopes.len() && (#[trigger] scopes[i]).captures.len() > UpValueIndex::MAX + 1
}

/// What is captured begins with what was captured.
pub proof fn lemma_captured_grows(
    locals: Seq<Seq<u8>>,
    captures: Seq<Seq<u8>>,
    used: Seq<Seq<u8>>,
)
    ensures
        validity::begins_with(source::captured(locals, captures, used), captures),
    decreases used.len(),
{
    if used.len() > 0 {
        lemma_captured_grows(locals, captures, used.drop_last());
    }
}

/// To use names one after the other is to use all of them.
pub proof fn lemma_captured_twice(
    locals: Seq<Seq<u8>>,
    captures: Seq<Seq<u8>>,
    first: Seq<Seq<u8>>,
    second: Seq<Seq<u8>>,
)
    ensures
        source::captured(locals, source::captured(locals, captures, first), second)
            == source::captured(locals, captures, first + second),
    decreases second.len(),
{
    if second.len() == 0 {
        assert(first + second =~= first);
    } else {
        assert((first + second).drop_last() =~= first + second.drop_last());
        lemma_captured_twice(locals, captures, first, second.drop_last());
    }
}

/// To use no names changes nothing.
pub proof fn lemma_spread_nothing(scopes: Seq<Names>)
    ensures
        spread(scopes, seq![]) == scopes,
    decreases scopes.len(),
{
    if scopes.len() > 0 {
        let top = scopes.last();
        assert(top.captures.skip(top.captures.len() as int) =~= seq![]);
        lemma_spread_nothing(scopes.drop_last());
        assert(scopes.drop_last().push(top) =~= scopes);
    }
}

/// To use names one after the other is to use all of them.
pub proof fn lemma_spread_twice(
    scopes: Seq<Names>,
    first: Seq<Seq<u8>>,
    second: Seq<Seq<u8>>,
)
    ensures
        spread(spread(scopes, first), second) == spread(scopes, first + second),
    decreases scopes.len(),
{
    if scopes.len() > 0 {
        let top = scopes.last();
        let one = source::captured(top.locals, top.captures, first);
        let two = source::captured(top.locals, one, second);
        lemma_captured_twice(top.locals, top.captures, first, second);
        lemma_captured_grows(top.locals, top.captures, first);
        lemma_captured_grows(top.locals, one, second);
        let len = top.captures.len() as int;
        lemma_spread_twice(scopes.drop_last(), one.skip(len), two.skip(one.len() as int));
        assert(one.skip(len) + two.skip(one.len() as int) =~= two.skip(len));
        let after = spread(scopes, first);
        assert(after.drop_last() =~= spread(scopes.drop_last(), one.skip(len)));
    }
}

/// What overflows does so when more names are used.
pub proof fn lemma_overflows(scopes: Seq<Names>, used: Seq<Seq<u8>>)
    requires
        overflows(scopes),
    ensures
        overflows(spread(scopes, used)),
    decreases scopes.len(),
{
    let i = choose|i: int|
        0 <= i < scopes.len() && (#[trigger] scopes[i]).captures.len() > UpValueIndex::MAX + 1;
    let top = scopes.last();
    let captures = source::captured(top.locals, top.captures, used);
    let more = captures.skip(top.captures.len() as int);
    let after = spread(scopes, used);
    lemma_captured_grows(top.locals, top.captures, used);
    lemma_spread_len(scopes.drop_last(), more);
    if i == scopes.len() - 1 {
        assert(after[scopes.len() - 1].captures == captures);
    } else {
        assert(scopes.drop_last()[i] == scopes[i]);
        lemma_overflows(scopes.drop_last(), more);
        let outer = spread(scopes.drop_last(), more);
        let j = choose|j: int|
            0 <= j < outer.len() && (#[trigger] outer[j]).captures.len() > UpValueIndex::MAX + 1;
        assert(after[j] == outer[j]);
    }
}

/// There are as many functions as before.
pub proof fn lemma_spread_len(scopes: Seq<Names>, used: Seq<Seq<u8>>)
    ensures
        spread(scopes, used).len() == scopes.len(),
    decreases scopes.len(),
{
    if scopes.len() > 0 {
        let top = scopes.last();
        let captures = source::captured(top.locals, top.captures, used);
        lemma_spread_len(scopes.drop_last(), captures.skip(top.captures.len() as int));
    }
}

/// The functions around the innermost one use what that one captured.
pub open spec fn tied(before: Seq<FunctionModel>, after: Seq<FunctionModel>) -> bool {
    let had = machine::captured_names(before.last());
    let has = machine::captured_names(after.last());
    &&& after.len() == before.len() > 0
    &&& validity::begins_with(has, had)
    &&& names_of(after.drop_last()) == spread(
        names_of(before.drop_last()),
        has.skip(had.len() as int),
    )
}

/// What captures nothing ties nothing.
pub proof fn lemma_tied_step(functions: Seq<FunctionModel>, top: FunctionModel)
    requires
        functions.len() > 0,
        top.upvalues == functions.last().upvalues,
    ensures
        tied(functions, model::with_top(functions, top)),
{
    let after = model::with_top(functions, top);
    let had = machine::captured_names(functions.last());
    assert(had.skip(had.len() as int) =~= seq![]);
    lemma_spread_nothing(names_of(functions.drop_last()));
    assert(after.drop_last() =~= functions.drop_last());
}

/// To be tied twice is to be tied.
pub proof fn lemma_tied_twice(
    a: Seq<FunctionModel>,
    b: Seq<FunctionModel>,
    c: Seq<FunctionModel>,
)
    requires
        tied(a, b),
        tied(b, c),
    ensures
        tied(a, c),
{
    let one = machine::captured_names(a.last());
    let two = machine::captured_names(b.last());
    let three = machine::captured_names(c.last());
    lemma_spread_twice(
        names_of(a.drop_last()),
        two.skip(one.len() as int),
        three.skip(two.len() as int),
    );
    assert(two.skip(one.len() as int) + three.skip(two.len() as int) =~= three.skip(
        one.len() as int,
    ));
}

/// Resolving a name uses it.
pub proof fn lemma_resolve(functions: Seq<FunctionModel>, name: Seq<u8>)
    requires
        functions.len() > 0,
    ensures
        match model::resolve(functions, name) {
            Ok((after, variable)) => variable is Global || {
                &&& names_of(after) == spread(names_of(functions), seq![name])
                &&& after.len() == functions.len()
                &&& after.last() == (FunctionModel {
                    upvalues: after.last().upvalues,
                    ..functions.last()
                })
                &&& variable is Local <==> functions.last().locals.contains(name)
            },
            Err(e) => {
                &&& e == CompilerError::Limit(CompilerLimit::UpValues)
                &&& overflows(spread(names_of(functions), seq![name]))
            },
        },
    decreases functions.len(),
{
    let top = functions.last();
    let scopes = names_of(functions);
    let outer = functions.drop_last();
    let captures = machine::captured_names(top);
    let used = seq![name];
    soundness::lemma_last_position(top.locals, name, top.locals.len());
    soundness::lemma_first_position(top.upvalues, name, 0);
    assert(scopes.last() == (Names { locals: top.locals, captures }));
    assert(scopes.drop_last() =~= names_of(outer));
    assert(used.drop_last() =~= seq![]);
    assert(source::captured(top.locals, captures, used.drop_last()) == captures);
    let after_captures = source::captured(top.locals, captures, used);
    match model::last_position(top.locals, name, top.locals.len()) {
        Some(position) => {
            assert(top.locals[position as int] == name);
            assert(after_captures == captures);
            assert(captures.skip(captures.len() as int) =~= seq![]);
            lemma_spread_nothing(names_of(outer));
            assert(names_of(outer).push(scopes.last()) =~= scopes);
        },
        None => match model::first_position(top.upvalues, name, 0) {
            Some(position) => {
                assert(captures[position as int] == name);
                assert(after_captures == captures);
                assert(captures.skip(captures.len() as int) =~= seq![]);
                lemma_spread_nothing(names_of(outer));
                assert(names_of(outer).push(scopes.last()) =~= scopes);
                assert(!top.locals.contains(name));
            },
            None => {
                assert(!top.locals.contains(name));
                assert(!captures.contains(name)) by {
                    if captures.contains(name) {
                        let i = choose|i: int| 0 <= i < captures.len() && captures[i] == name;
                        assert(top.upvalues[i].0 == name);
                    }
                }
                assert(after_captures =~= captures.push(name));
                assert(after_captures.skip(captures.len() as int) =~= used);
                if functions.len() > 1 {
                    lemma_resolve(outer, name);
                    let spread_outer = spread(names_of(outer), used);
                    let all = spread(scopes, used);
                    assert(all == spread_outer.push(
                        Names { locals: top.locals, captures: after_captures },
                    ));
                    match model::resolve(outer, name) {
                        Ok((outer_after, variable)) => {
                            if let Ok((after, found)) = model::resolve(functions, name) {
                                if !(variable is Global) {
                                    assert(machine::captured_names(after.last())
                                        =~= after_captures);
                                    assert(names_of(after) =~= names_of(outer_after).push(
                                        Names { locals: top.locals, captures: after_captures },
                                    ));
                                }
                            } else {
                                assert(all[all.len() - 1].captures == after_captures);
                            }
                        },
                        Err(_) => {
                            let j = choose|j: int|
                                0 <= j < spread_outer.len() && (
                                #[trigger] spread_outer[j]).captures.len() > UpValueIndex::MAX + 1;
                            assert(all[j] == spread_outer[j]);
                        },
                    }
                }
            },
        },
    }
}

/// At least as much is needed.
pub open spec fn more(a: Account, b: Account) -> bool {
    &&& a.registers <= b.registers
    &&& validity::begins_with(b.constants, a.constants)
    &&& validity::begins_with(b.captures, a.captures)
}

/// What is needed in the end is more than there can be, in a function that needed some before, or in
/// the functions around it.
pub open spec fn exceeded(
    outer: Seq<Names>,
    before: Account,
    after: Account,
    limit: CompilerLimit,
) -> bool {
    match limit {
        CompilerLimit::Registers => after.registers > REGISTER_COUNT,
        CompilerLimit::Constants => after.constants.len() > Constant::MAX + 1,
        CompilerLimit::UpValues => {
            ||| after.captures.len() > UpValueIndex::MAX + 1
            ||| overflows(spread(outer, after.captures.skip(before.captures.len() as int)))
        },
        _ => false,
    }
}

/// The innermost of some functions needs what it should after something was compiled, or it needs
/// more than there can be.
pub open spec fn accounted(
    functions: Seq<FunctionModel>,
    needs: Account,
    result: Result<Seq<FunctionModel>, CompilerError>,
) -> bool {
    match result {
        Ok(after) => {
            &&& account_of(after.last()) == needs
            &&& tied(functions, after)
        },
        Err(CompilerError::Limit(limit)) => exceeded(
            names_of(functions.drop_last()),
            account_of(functions.last()),
            needs,
            limit,
        ),
        Err(CompilerError::Unsupported(_)) => true,
    }
}

/// The functions of a result.
pub open spec fn functions_of<T>(result: Result<(Seq<FunctionModel>, T), CompilerError>) -> Result<
    Seq<FunctionModel>,
    CompilerError,
> {
    match result {
        Ok((after, _)) => Ok(after),
        Err(e) => Err(e),
    }
}

/// What exceeds a limit does so with more.
pub proof fn lemma_fails(
    functions: Seq<FunctionModel>,
    mid: Account,
    end: Account,
    result: Result<Seq<FunctionModel>, CompilerError>,
)
    requires
        result is Err,
        accounted(functions, mid, result),
        more(account_of(functions.last()), mid),
        more(mid, end),
    ensures
        accounted(functions, end, result),
{
    let before = account_of(functions.last());
    let outer = names_of(functions.drop_last());
    let one = mid.captures.skip(before.captures.len() as int);
    let two = end.captures.skip(mid.captures.len() as int);
    if overflows(spread(outer, one)) {
        lemma_overflows(spread(outer, one), two);
        lemma_spread_twice(outer, one, two);
        assert(one + two =~= end.captures.skip(before.captures.len() as int));
    }
}

/// What comes after something that was compiled needs more.
pub proof fn lemma_then(
    functions: Seq<FunctionModel>,
    some: Seq<FunctionModel>,
    end: Account,
    result: Result<Seq<FunctionModel>, CompilerError>,
)
    requires
        accounted(functions, account_of(some.last()), Ok(some)),
        more(account_of(some.last()), end),
        accounted(some, end, result),
    ensures
        accounted(functions, end, result),
{
    match result {
        Ok(after) => {
            lemma_tied_twice(functions, some, after);
        },
        Err(_) => {
            let before = account_of(functions.last());
            let mid = account_of(some.last());
            let outer = names_of(functions.drop_last());
            let one = mid.captures.skip(before.captures.len() as int);
            let two = end.captures.skip(mid.captures.len() as int);
            lemma_spread_twice(outer, one, two);
            assert(one + two =~= end.captures.skip(before.captures.len() as int));
        },
    }
}

/// A constant of a function is among its constants.
pub proof fn lemma_constant(f: FunctionModel, value: ValueView)
    requires
        f.constants.len() <= Constant::MAX + 1,
    ensures
        match f.constant(value) {
            Ok((g, _)) => g == (FunctionModel {
                constants: source::with_constant(f.constants, value),
                ..f
            }),
            Err(e) => {
                &&& e == CompilerError::Limit(CompilerLimit::Constants)
                &&& source::with_constant(f.constants, value).len() > Constant::MAX + 1
            },
        },
{
    model::lemma_constant_position(f.constants, value, 0);
    match model::constant_position(f.constants, value, 0) {
        Some(position) => {
            assert(f.constants[position as int] == value);
        },
        None => {
            assert(!f.constants.contains(value));
        },
    }
}

/// The constants after a value was loaded from where it is.
pub open spec fn loaded(constants: Seq<ValueView>, place: Place) -> Seq<ValueView> {
    match place {
        Place::Known(value) => source::with_loaded(constants, value),
        _ => constants,
    }
}

/// A value is loaded into a register.
pub proof fn lemma_load(f: FunctionModel, operand: Operand, place: Place, dest: Register)
    requires
        f.constants.len() <= Constant::MAX + 1,
        placed(operand, place),
    ensures
        match f.load(operand, dest) {
            Ok(g) => {
                &&& g == (FunctionModel {
                    constants: loaded(f.constants, place),
                    opcodes: g.opcodes,
                    ..f
                })
                &&& source::length(g.opcodes) == source::length(f.opcodes) + 1
            },
            Err(e) => {
                &&& e == CompilerError::Limit(CompilerLimit::Constants)
                &&& loaded(f.constants, place).len() > Constant::MAX + 1
            },
        },
{
    if let Ok(g) = f.load(operand, dest) {
        if operand == Operand::Value(ValueView::Nil) && f.opcodes.len() > 0 && g.opcodes.len()
            == f.opcodes.len() {
            lemma_length(f.opcodes.drop_last(), g.opcodes.last());
            assert(g.opcodes =~= f.opcodes.drop_last().push(g.opcodes.last()));
        } else {
            lemma_length(f.opcodes, g.opcodes.last());
            assert(g.opcodes =~= f.opcodes.push(g.opcodes.last()));
        }
    }
    if let Operand::Value(value) = operand {
        lemma_constant(f, value);
    }
}

/// A value is loaded into the next register.
pub proof fn lemma_load_next(f: FunctionModel, operand: Operand, place: Place)
    requires
        validity::valid_function(f),
        placed(operand, place),
    ensures
        match f.load_next(operand) {
            Ok((g, _)) => {
                &&& g == (FunctionModel {
                    constants: loaded(f.constants, place),
                    temporaries: f.temporaries + 1,
                    stack_size: source::greater(f.stack_size, f.used() + 1),
                    opcodes: g.opcodes,
                    ..f
                })
                &&& source::length(g.opcodes) == source::length(f.opcodes) + 1
            },
            Err(e) => {
                ||| e == CompilerError::Limit(CompilerLimit::Registers) && f.used() + 1
                    > REGISTER_COUNT
                ||| e == CompilerError::Limit(CompilerLimit::Constants) && loaded(
                    f.constants,
                    place,
                ).len() > Constant::MAX + 1
            },
        },
{
    if let Ok(taken) = f.take_register() {
        lemma_load(taken, operand, place, f.used() as Register);
    }
}

/// The constants after two values were added.
pub open spec fn summed(constants: Seq<ValueView>, left: Place, right: Place) -> Seq<ValueView> {
    match (left, right) {
        (Place::Known(a), Place::Known(b)) => source::with_constant(
            source::with_loaded(constants, a),
            b,
        ),
        (_, Place::Known(b)) => source::with_constant(constants, b),
        (Place::Known(a), _) => source::with_constant(constants, a),
        _ => constants,
    }
}

/// A value is brought into some register.
pub proof fn lemma_in_any_register(f: FunctionModel, operand: Operand, place: Place)
    requires
        validity::valid_function(f),
        placed(operand, place),
    ensures
        match f.in_any_register(operand) {
            Ok((g, there, _)) => {
                &&& g == (FunctionModel {
                    constants: loaded(f.constants, place),
                    temporaries: f.temporaries + place.to_load(),
                    stack_size: source::greater(f.stack_size, f.used() + place.to_load()),
                    opcodes: g.opcodes,
                    ..f
                })
                &&& source::length(g.opcodes) == source::length(f.opcodes) + place.to_load()
                &&& there is Temporary <==> !(place is Local)
                &&& there is Temporary || there is Local
            },
            Err(e) => {
                ||| e == CompilerError::Limit(CompilerLimit::Registers) && f.used()
                    + place.to_load() > REGISTER_COUNT
                ||| e == CompilerError::Limit(CompilerLimit::Constants) && loaded(
                    f.constants,
                    place,
                ).len() > Constant::MAX + 1
            },
        },
{
    lemma_load_next(f, operand, place);
}

/// The sum of two values needs the registers and constants that it should.
pub proof fn lemma_sum(
    f: FunctionModel,
    left: Operand,
    right: Operand,
    l: Place,
    r: Place,
    busy: nat,
)
    requires
        validity::valid_function(f),
        validity::valid_operand(left, f),
        validity::valid_operand(right, f),
        placed(left, l),
        placed(right, r),
        f.temporaries == busy + l.held() + r.held(),
    ensures
        match f.sum(left, right) {
            Ok((g, operand)) => {
                &&& operand is Temporary
                &&& g == (FunctionModel {
                    constants: summed(f.constants, l, r),
                    temporaries: busy + 1,
                    stack_size: source::greater(
                        f.stack_size,
                        f.locals.len() + busy + source::sum_registers(l, r),
                    ),
                    opcodes: g.opcodes,
                    ..f
                })
                &&& source::length(g.opcodes) == source::length(f.opcodes) + source::sum_code(l, r)
            },
            Err(e) => {
                ||| e == CompilerError::Limit(CompilerLimit::Registers) && f.locals.len() + busy
                    + source::sum_registers(l, r) > REGISTER_COUNT
                ||| e == CompilerError::Limit(CompilerLimit::Constants) && summed(
                    f.constants,
                    l,
                    r,
                ).len() > Constant::MAX + 1
            },
        },
{
    reveal(FunctionModel::sum);
    match (left, right) {
        (_, Operand::Value(value)) => {
            lemma_in_any_register(f, left, l);
            validity::lemma_in_any_register(f, left);
            if let Ok((g, _, _)) = f.in_any_register(left) {
                lemma_constant(g, value);
                lemma_summed(f, left, right, g.opcodes);
            }
        },
        (Operand::Value(value), _) => {
            lemma_constant(f, value);
            validity::lemma_constant(f, value);
            if let Ok((g, _)) = f.constant(value) {
                lemma_in_any_register(g, right, r);
                if let Ok((h, _, _)) = g.in_any_register(right) {
                    lemma_summed(f, left, right, h.opcodes);
                }
            }
        },
        (_, _) => {
            lemma_in_any_register(f, left, l);
            validity::lemma_in_any_register(f, left);
            if let Ok((g, _, _)) = f.in_any_register(left) {
                lemma_in_any_register(g, right, r);
                if let Ok((h, _, _)) = g.in_any_register(right) {
                    lemma_summed(f, left, right, h.opcodes);
                }
            }
        },
    }
}

/// A sum takes one instruction when its operands are where they should be.
pub proof fn lemma_summed(
    f: FunctionModel,
    left: Operand,
    right: Operand,
    opcodes: Seq<OpCode>,
)
    requires
        f.sum(left, right) matches Ok((g, _)) ==> {
            &&& g.opcodes.len() > 0
            &&& g.opcodes == opcodes.push(g.opcodes.last())
            &&& !(g.opcodes.last() is LoadNil)
        },
    ensures
        f.sum(left, right) matches Ok((g, _)) ==> source::length(g.opcodes) == source::length(
            opcodes,
        ) + 1,
{
    if let Ok((g, _)) = f.sum(left, right) {
        lemma_length(opcodes, g.opcodes.last());
    }
}

/// The constants begin with those before an expression.
pub proof fn lemma_constants_grow(folding: Folding, before: Seq<ValueView>, e: Expression)
    ensures
        validity::begins_with(source::constants(folding, before, e), before),
    decreases e, e.tail@.len() + 1,
{
    lemma_constants_grow_upto(folding, before, e, e.tail@.len());
}

/// The constants begin with those before some operators of an expression.
pub proof fn lemma_constants_grow_upto(
    folding: Folding,
    before: Seq<ValueView>,
    e: Expression,
    count: nat,
)
    ensures
        validity::begins_with(source::constants_upto(folding, before, e, count), before),
    decreases e, count,
{
    if count == 0 {
        if let HeadExpression::Simple(SimpleExpression::Suffixed(s)) = *e.head {
            lemma_constants_grow_suffixed(folding, before, s);
        }
    } else if count <= e.tail@.len() {
        let less = (count - 1) as nat;
        lemma_constants_grow_upto(folding, before, e, less);
        lemma_constants_grow(
            folding,
            source::constants_upto(folding, before, e, less),
            e.tail@[count - 1].1,
        );
    }
}

/// The constants begin with those before an expression in brackets.
pub proof fn lemma_constants_grow_suffixed(
    folding: Folding,
    before: Seq<ValueView>,
    suffixed: SuffixedExpression,
)
    ensures
        validity::begins_with(source::constants_suffixed(folding, before, suffixed), before),
    decreases suffixed, 0nat,
{
    if let PrimaryExpression::GroupedExpression(e) = suffixed.primary {
        lemma_constants_grow(folding, before, e);
    }
}

/// What is needed after the head of an expression and the first `count` operators after it.
pub open spec fn partly(
    a: Account,
    folding: Folding,
    busy: nat,
    e: Expression,
    count: nat,
) -> Account {
    Account { constants: source::constants_upto(folding, a.constants, e, count), ..a }.with_names(
        source::uses_upto(e, count),
    ).reach(busy + source::registers_upto(folding, a.locals, e, count)).spend(
        source::code_upto(folding, a.locals, e, count),
    )
}

/// Something is needed after an expression.
pub proof fn lemma_compute_more(a: Account, folding: Folding, busy: nat, e: Expression)
    ensures
        more(a, a.compute(folding, busy, e)),
{
    lemma_constants_grow(folding, a.constants, e);
    lemma_captured_grows(a.locals, a.captures, source::uses(e));
}

/// A value is in no place exactly if it is known.
pub proof fn lemma_place(folding: Folding, locals: Seq<Seq<u8>>, e: Expression)
    ensures
        match source::known(folding, e) {
            Some(value) => source::place(folding, locals, e) == Place::Known(value),
            None => !(source::place(folding, locals, e) is Known),
        },
    decreases e, e.tail@.len() + 1,
{
    lemma_place_upto(folding, locals, e, e.tail@.len());
}

/// The value of some operators is in no place exactly if it is known.
pub proof fn lemma_place_upto(
    folding: Folding,
    locals: Seq<Seq<u8>>,
    e: Expression,
    count: nat,
)
    ensures
        match source::known_upto(folding, e, count) {
            Some(value) => source::place_upto(folding, locals, e, count) == Place::Known(value),
            None => !(source::place_upto(folding, locals, e, count) is Known),
        },
    decreases e, count,
{
    if count == 0 {
        if let HeadExpression::Simple(SimpleExpression::Suffixed(s)) = *e.head {
            assert(source::known_head(folding, *e.head) == source::known_suffixed(folding, s));
            if let PrimaryExpression::GroupedExpression(inner) = s.primary {
                lemma_place(folding, locals, inner);
                assert(source::place_suffixed(folding, locals, s) == source::place(
                    folding,
                    locals,
                    inner,
                ));
            }
        }
    }
}

/// What is needed after one more operator.
pub proof fn lemma_partly(a: Account, folding: Folding, busy: nat, e: Expression, count: nat)
    requires
        0 < count <= e.tail@.len(),
        a.locals.len() + busy <= a.registers,
    ensures
        ({
            let less = (count - 1) as nat;
            let right = e.tail@[count - 1].1;
            let l = source::place_upto(folding, a.locals, e, less);
            let r = source::place(folding, a.locals, right);
            let left_done = partly(a, folding, busy, e, less);
            let right_done = left_done.compute(folding, busy + l.held(), right);
            let end = partly(a, folding, busy, e, count);
            &&& more(a, left_done)
            &&& more(left_done, right_done)
            &&& more(right_done, end)
            &&& end == if source::known_upto(folding, e, count) is Some {
                right_done
            } else {
                Account {
                    constants: summed(right_done.constants, l, r),
                    ..right_done
                }.reach(busy + source::sum_registers(l, r)).spend(source::sum_code(l, r))
            }
        }),
{
    let less = (count - 1) as nat;
    let right = e.tail@[count - 1].1;
    lemma_place_upto(folding, a.locals, e, less);
    lemma_place(folding, a.locals, right);
    lemma_captured_twice(a.locals, a.captures, source::uses_upto(e, less), source::uses(right));
    lemma_captured_grows(a.locals, a.captures, source::uses_upto(e, less));
    lemma_captured_grows(
        a.locals,
        source::captured(a.locals, a.captures, source::uses_upto(e, less)),
        source::uses(right),
    );
    lemma_constants_grow_upto(folding, a.constants, e, less);
    lemma_constants_grow(folding, source::constants_upto(folding, a.constants, e, less), right);
}

/// An expression needs what it should.
pub proof fn lemma_expression(folding: Folding, functions: Seq<FunctionModel>, e: Expression)
    requires
        soundness::sound(functions),
    ensures
        ({
            let f = functions.last();
            let result = model::expression(folding, functions, e);
            let needs = account_of(f).compute(folding, f.temporaries, e);
            &&& accounted(functions, needs, functions_of(result))
            &&& result matches Ok((_, operand)) ==> placed(
                operand,
                source::place(folding, f.locals, e),
            )
        }),
    decreases e, e.tail@.len() + 2,
{
    lemma_expression_upto(folding, functions, e, e.tail@.len());
}

/// Some operators of an expression need what they should.
pub proof fn lemma_expression_upto(
    folding: Folding,
    functions: Seq<FunctionModel>,
    e: Expression,
    count: nat,
)
    requires
        soundness::sound(functions),
        count <= e.tail@.len(),
    ensures
        ({
            let f = functions.last();
            let result = model::expression_upto(folding, functions, e, count);
            let needs = partly(account_of(f), folding, f.temporaries, e, count);
            &&& accounted(functions, needs, functions_of(result))
            &&& result matches Ok((_, operand)) ==> placed(
                operand,
                source::place_upto(folding, f.locals, e, count),
            )
        }),
    decreases e, count + 1,
{
    let f = functions.last();
    let a = account_of(f);
    let busy = f.temporaries;
    assert(validity::valid_function(functions[functions.len() - 1]));
    if count == 0 {
        lemma_head(folding, functions, e);
    } else {
        let less = (count - 1) as nat;
        let (operator, right_expression) = e.tail@[count - 1];
        let result = functions_of(model::expression_upto(folding, functions, e, count));
        let end = partly(a, folding, busy, e, count);
        let left_needs = partly(a, folding, busy, e, less);
        lemma_partly(a, folding, busy, e, count);
        lemma_expression_upto(folding, functions, e, less);
        soundness::lemma_expression_upto(folding, functions, e, less);
        match model::expression_upto(folding, functions, e, less) {
            Ok((left_done, left)) => {
                let l = source::place_upto(folding, f.locals, e, less);
                let r = source::place(folding, f.locals, right_expression);
                let right_needs = left_needs.compute(folding, busy + l.held(), right_expression);
                assert(left_done.last().temporaries == busy + l.held());
                lemma_expression(folding, left_done, right_expression);
                soundness::lemma_expression(folding, left_done, right_expression);
                let right_result = model::expression(folding, left_done, right_expression);
                lemma_then(functions, left_done, right_needs, functions_of(right_result));
                match right_result {
                    Ok((right_done, right)) => {
                        lemma_place_upto(folding, f.locals, e, less);
                        lemma_place(folding, f.locals, right_expression);
                        lemma_binop(
                            folding,
                            right_done,
                            left,
                            operator,
                            right,
                            l,
                            r,
                            busy,
                        );
                        lemma_then(functions, right_done, end, result);
                    },
                    Err(_) => {
                        lemma_fails(functions, right_needs, end, result);
                    },
                }
            },
            Err(_) => {
                lemma_fails(functions, left_needs, end, result);
            },
        }
    }
}

/// An operator needs what it should.
pub proof fn lemma_binop(
    folding: Folding,
    functions: Seq<FunctionModel>,
    left: Operand,
    operator: BinaryOperator,
    right: Operand,
    l: Place,
    r: Place,
    busy: nat,
)
    requires
        soundness::sound(functions),
        validity::valid_operand(left, functions.last()),
        validity::valid_operand(right, functions.last()),
        placed(left, l),
        placed(right, r),
        functions.last().temporaries == busy + l.held() + r.held(),
    ensures
        ({
            let f = functions.last();
            let step = f.binop(folding, left, operator, right);
            let known = match (l, r) {
                (Place::Known(a), Place::Known(b)) => folding(operator, a, b),
                _ => None,
            };
            let needs = if known is Some {
                account_of(f)
            } else {
                Account { constants: summed(f.constants, l, r), ..account_of(f) }.reach(
                    busy + source::sum_registers(l, r),
                ).spend(source::sum_code(l, r))
            };
            &&& accounted(functions, needs, functions_of(model::step(functions, step)))
            &&& step matches Ok((_, operand)) ==> match known {
                Some(value) => operand == Operand::Value(value),
                None => operand is Temporary,
            }
        }),
{
    let f = functions.last();
    assert(validity::valid_function(functions[functions.len() - 1]));
    lemma_sum(f, left, right, l, r, busy);
    if let Ok((top, _)) = f.binop(folding, left, operator, right) {
        lemma_tied_step(functions, top);
    }
}

/// The first operand of an expression needs what it should.
pub proof fn lemma_head(folding: Folding, functions: Seq<FunctionModel>, e: Expression)
    requires
        soundness::sound(functions),
    ensures
        ({
            let f = functions.last();
            let result = model::head_expression(folding, functions, *e.head);
            let needs = partly(account_of(f), folding, f.temporaries, e, 0);
            &&& accounted(functions, needs, functions_of(result))
            &&& result matches Ok((_, operand)) ==> placed(
                operand,
                source::place_upto(folding, f.locals, e, 0),
            )
        }),
    decreases e, 0nat,
{
    let f = functions.last();
    assert(validity::valid_function(functions[functions.len() - 1]));
    lemma_tied_step(functions, f);
    assert(model::with_top(functions, f) =~= functions);
    lemma_place_upto(folding, f.locals, e, 0);
    if let HeadExpression::Simple(SimpleExpression::Suffixed(s)) = *e.head {
        lemma_suffixed(folding, functions, s);
        let a = account_of(f);
        assert(source::known_head(folding, *e.head) == source::known_suffixed(folding, s));
        assert(source::uses_upto(e, 0) == source::uses_suffixed(s));
        assert(source::constants_upto(folding, a.constants, e, 0) == source::constants_suffixed(
            folding,
            a.constants,
            s,
        ));
        assert(source::registers_upto(folding, a.locals, e, 0) == source::registers_suffixed(
            folding,
            a.locals,
            s,
        ));
        assert(source::code_upto(folding, a.locals, e, 0) == source::code_suffixed(
            folding,
            a.locals,
            s,
        ));
        if let PrimaryExpression::GroupedExpression(inner) = s.primary {
            lemma_place(folding, f.locals, inner);
        }
    } else {
        assert(source::captured(f.locals, account_of(f).captures, seq![])
            == account_of(f).captures);
    }
}

/// A name or an expression in brackets needs what it should.
pub proof fn lemma_suffixed(
    folding: Folding,
    functions: Seq<FunctionModel>,
    suffixed: SuffixedExpression,
)
    requires
        soundness::sound(functions),
    ensures
        ({
            let f = functions.last();
            let result = model::suffixed_expression(folding, functions, suffixed);
            let needs = account_of(f).compute_suffixed(folding, f.temporaries, suffixed);
            &&& accounted(functions, needs, functions_of(result))
            &&& result matches Ok((_, operand)) ==> placed(
                operand,
                source::place_suffixed(folding, f.locals, suffixed),
            )
        }),
    decreases suffixed, 0nat,
{
    let f = functions.last();
    assert(validity::valid_function(functions[functions.len() - 1]));
    match suffixed.primary {
        PrimaryExpression::Name(name) => {
            lemma_name(functions, name@);
        },
        PrimaryExpression::GroupedExpression(e) => {
            lemma_expression(folding, functions, e);
        },
    }
}

/// To use a name needs what it should.
pub proof fn lemma_name(functions: Seq<FunctionModel>, name: Seq<u8>)
    requires
        functions.len() > 0,
    ensures
        ({
            let f = functions.last();
            let result = model::resolve(functions, name);
            &&& (result is Ok && result->Ok_0.1 is Global) || accounted(
                functions,
                account_of(f).with_names(seq![name]),
                functions_of(result),
            )
            &&& result matches Ok((after, variable)) ==> variable is Global || {
                &&& variable is Local <==> f.locals.contains(name)
                &&& after.last() == (FunctionModel { upvalues: after.last().upvalues, ..f })
            }
        }),
{
    let f = functions.last();
    let captures = machine::captured_names(f);
    let used = seq![name];
    let new_captures = source::captured(f.locals, captures, used);
    let outer = names_of(functions.drop_last());
    let all = spread(names_of(functions), used);
    lemma_resolve(functions, name);
    lemma_captured_grows(f.locals, captures, used);
    assert(names_of(functions).drop_last() =~= outer);
    let more_outer = spread(outer, new_captures.skip(captures.len() as int));
    assert(all == more_outer.push(Names { locals: f.locals, captures: new_captures }));
    match model::resolve(functions, name) {
        Ok((after, variable)) => {
            if !(variable is Global) {
                assert(names_of(after).last() == all.last());
                assert(names_of(after.drop_last()) =~= names_of(after).drop_last());
                assert(all.drop_last() =~= more_outer);
            }
        },
        Err(_) => {
            let i = choose|i: int|
                0 <= i < all.len() && (#[trigger] all[i]).captures.len() > UpValueIndex::MAX + 1;
            if i < more_outer.len() {
                assert(more_outer[i] == all[i]);
            }
        },
    }
}

} // verus!
