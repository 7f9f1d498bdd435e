//! What a chunk compiles to.
//!
//! A function under compilation is a [`FunctionModel`]. Its locals live in the registers from the
//! first one on, in the order in which they were declared, and the temporaries that are in use live
//! in the registers right above them. The functions that enclose one another are a sequence of
//! models from the outermost to the innermost one.

use vstd::prelude::*;

use crate::ast::{
    AssignmentStatement, AssignmentTarget, Block, CallSuffix, Chunk, Expression,
    FunctionCallStatement, FunctionStatement, HeadExpression, LocalStatement, PrimaryExpression,
    ReturnStatement, SimpleExpression, Statement, SuffixedExpression,
};
use crate::error::{CompilerError, CompilerLimit, Unsupported};
use crate::function::{ProtoView, UpValueDescriptor};
use crate::opcode::{Constant, OpCode, UpValueIndex, VarCount};
use crate::operators::BinaryOperator;
use crate::registers::{Register, REGISTER_COUNT};
use crate::value::ValueView;

verus! {

/// What an operator gives for two values that are known when a chunk is compiled, if it can be
/// applied to them at that time.
pub type Folding = spec_fn(BinaryOperator, ValueView, ValueView) -> Option<ValueView>;

/// Where the value of an expression is to be found.
pub enum Operand {
    /// In a register of its own, which is free once the value was used.
    Temporary(Register),
    Local(Register),
    UpValue(UpValueIndex),
    /// The value is known.
    Value(ValueView),
}

/// What a name stands for.
pub enum Variable {
    Local(Register),
    UpValue(UpValueIndex),
    Global(Seq<u8>),
}

/// A function under compilation.
pub struct FunctionModel {
    pub constants: Seq<ValueView>,
    /// The variables of enclosing functions that were captured, by name.
    pub upvalues: Seq<(Seq<u8>, UpValueDescriptor)>,
    pub prototypes: Seq<ProtoView>,
    pub fixed_params: u8,
    /// The names of the locals. The register of a local is its position.
    pub locals: Seq<Seq<u8>>,
    /// The number of registers that are in use above those of the locals.
    pub temporaries: nat,
    /// The largest number of registers that were ever in use.
    pub stack_size: nat,
    pub opcodes: Seq<OpCode>,
}

/// The position of the last occurrence of a name among the first `count` ones.
pub open spec fn last_position(names: Seq<Seq<u8>>, name: Seq<u8>, count: nat) -> Option<nat>
    decreases count,
{
    if count == 0 {
        None
    } else if names[count - 1] == name {
        Some((count - 1) as nat)
    } else {
        last_position(names, name, (count - 1) as nat)
    }
}

/// The position of the first upvalue of a name from position `start` on.
pub open spec fn first_position(
    upvalues: Seq<(Seq<u8>, UpValueDescriptor)>,
    name: Seq<u8>,
    start: nat,
) -> Option<nat>
    decreases upvalues.len() - start,
{
    if start >= upvalues.len() {
        None
    } else if upvalues[start as int].0 == name {
        Some(start)
    } else {
        first_position(upvalues, name, start + 1)
    }
}

/// The position of the first occurrence of a constant from position `start` on.
pub open spec fn constant_position(
    constants: Seq<ValueView>,
    value: ValueView,
    start: nat,
) -> Option<nat>
    decreases constants.len() - start,
{
    if start >= constants.len() {
        None
    } else if constants[start as int] == value {
        Some(start)
    } else {
        constant_position(constants, value, start + 1)
    }
}

/// The position that is found is the first one.
pub proof fn lemma_constant_position(constants: Seq<ValueView>, value: ValueView, start: nat)
    ensures
        match constant_position(constants, value, start) {
            Some(position) => {
                &&& start <= position < constants.len()
                &&& constants[position as int] == value
                &&& forall|i: int| start <= i < position ==> constants[i] != value
            },
            None => forall|i: int| start <= i < constants.len() ==> constants[i] != value,
        },
    decreases constants.len() - start,
{
    if start < constants.len() && constants[start as int] != value {
        lemma_constant_position(constants, value, start + 1);
    }
}

/// The error of a limit.
pub open spec fn limit<T>(limit: CompilerLimit) -> Result<T, CompilerError> {
    Err(CompilerError::Limit(limit))
}

/// The error of a part of the language that is not supported.
pub open spec fn unsupported<T>(unsupported: Unsupported) -> Result<T, CompilerError> {
    Err(CompilerError::Unsupported(unsupported))
}

impl FunctionModel {
    /// A function of which nothing is compiled yet.
    pub open spec fn start(parameters: Seq<Seq<u8>>) -> FunctionModel {
        FunctionModel {
            constants: seq![],
            upvalues: seq![],
            prototypes: seq![],
            fixed_params: parameters.len() as u8,
            locals: parameters,
            temporaries: 0,
            stack_size: parameters.len(),
            opcodes: seq![],
        }
    }

    /// The compiled function.
    pub open spec fn proto(self) -> ProtoView {
        ProtoView {
            fixed_params: self.fixed_params,
            has_varargs: false,
            stack_size: self.stack_size,
            constants: self.constants,
            opcodes: self.opcodes,
            upvalues: Seq::new(self.upvalues.len(), |i: int| self.upvalues[i].1),
            prototypes: self.prototypes,
        }
    }

    /// The number of registers in use, which is the register that is taken next.
    pub open spec fn used(self) -> nat {
        self.locals.len() + self.temporaries
    }

    /// A temporary operand is in the last register in use.
    pub open spec fn holds(self, operand: Operand) -> bool {
        operand matches Operand::Temporary(register) ==> {
            &&& self.temporaries > 0
            &&& register + 1 == self.used()
        }
    }

    /// The temporary ones of two operands are in the last registers in use, the right one above the
    /// left one.
    pub open spec fn holds_two(self, left: Operand, right: Operand) -> bool {
        &&& self.holds(right)
        &&& self.free(right).holds(left)
    }

    /// One more instruction.
    pub open spec fn emit(self, opcode: OpCode) -> FunctionModel {
        FunctionModel { opcodes: self.opcodes.push(opcode), ..self }
    }

    /// The next register is taken.
    pub open spec fn take_register(self) -> Result<FunctionModel, CompilerError> {
        if self.used() < REGISTER_COUNT {
            Ok(
                FunctionModel {
                    temporaries: self.temporaries + 1,
                    stack_size: if self.stack_size > self.used() {
                        self.stack_size
                    } else {
                        self.used() + 1
                    },
                    ..self
                },
            )
        } else {
            limit(CompilerLimit::Registers)
        }
    }

    /// The last `count` temporaries are given back.
    pub open spec fn release(self, count: nat) -> FunctionModel {
        FunctionModel { temporaries: (self.temporaries - count) as nat, ..self }
    }

    /// The value of an operand was used.
    pub open spec fn free(self, operand: Operand) -> FunctionModel {
        match operand {
            Operand::Temporary(_) => self.release(1),
            _ => self,
        }
    }

    /// The first temporary becomes a local.
    pub open spec fn declare(self, name: Seq<u8>) -> FunctionModel {
        FunctionModel { locals: self.locals.push(name), ..self }.release(1)
    }

    /// The index of a constant. Each constant is there once.
    pub open spec fn constant(self, value: ValueView) -> Result<
        (FunctionModel, Constant),
        CompilerError,
    > {
        match constant_position(self.constants, value, 0) {
            Some(index) => Ok((self, index as Constant)),
            None => if self.constants.len() <= Constant::MAX {
                Ok(
                    (
                        FunctionModel { constants: self.constants.push(value), ..self },
                        self.constants.len() as Constant,
                    ),
                )
            } else {
                limit(CompilerLimit::Constants)
            },
        }
    }

    /// Nil is loaded into a register, by the instruction that loads nil into the registers right
    /// below it if that is the last one and can count one more.
    pub open spec fn load_nil(self, dest: Register) -> FunctionModel {
        if self.opcodes.len() == 0 {
            self.emit(OpCode::LoadNil { dest, count: 1 })
        } else {
            match self.opcodes.last() {
                OpCode::LoadNil { dest: first, count } => if first + count == dest && count < 255 {
                    FunctionModel { opcodes: self.opcodes.drop_last(), ..self }.emit(
                        OpCode::LoadNil { dest: first, count: (count + 1) as u8 },
                    )
                } else {
                    self.emit(OpCode::LoadNil { dest, count: 1 })
                },
                _ => self.emit(OpCode::LoadNil { dest, count: 1 }),
            }
        }
    }

    /// The value of an operand is loaded into a register.
    pub open spec fn load(self, operand: Operand, dest: Register) -> Result<
        FunctionModel,
        CompilerError,
    > {
        match operand {
            Operand::Temporary(source) => Ok(self.emit(OpCode::Move { dest, source })),
            Operand::Local(source) => Ok(self.emit(OpCode::Move { dest, source })),
            Operand::UpValue(source) => Ok(self.emit(OpCode::GetUpValue { source, dest })),
            Operand::Value(ValueView::Nil) => Ok(self.load_nil(dest)),
            Operand::Value(ValueView::Boolean(value)) => Ok(
                self.emit(OpCode::LoadBool { dest, value, skip_next: false }),
            ),
            Operand::Value(value) => match self.constant(value) {
                Ok((f, constant)) => Ok(f.emit(OpCode::LoadConstant { dest, constant })),
                Err(e) => Err(e),
            },
        }
    }

    /// The value of an operand is loaded into the next register.
    pub open spec fn load_next(self, operand: Operand) -> Result<
        (FunctionModel, Register),
        CompilerError,
    > {
        match self.take_register() {
            Ok(f) => match f.load(operand, self.used() as Register) {
                Ok(f) => Ok((f, self.used() as Register)),
                Err(e) => Err(e),
            },
            Err(e) => Err(e),
        }
    }

    /// The value of an operand is brought into some register, unless it is in one.
    pub open spec fn in_any_register(self, operand: Operand) -> Result<
        (FunctionModel, Operand, Register),
        CompilerError,
    > {
        match operand {
            Operand::Temporary(register) => Ok((self, operand, register)),
            Operand::Local(register) => Ok((self, operand, register)),
            _ => match self.load_next(operand) {
                Ok((f, register)) => Ok((f, Operand::Temporary(register), register)),
                Err(e) => Err(e),
            },
        }
    }

    /// The value of an operand is brought into the last register in use, unless it is there.
    pub open spec fn in_new_register(self, operand: Operand) -> Result<
        (FunctionModel, Register),
        CompilerError,
    > {
        match operand {
            Operand::Temporary(register) => Ok((self, register)),
            _ => self.load_next(operand),
        }
    }

    /// The value of an operand is stored in a given register.
    pub open spec fn in_register(self, operand: Operand, dest: Register) -> Result<
        FunctionModel,
        CompilerError,
    > {
        match self.load(operand, dest) {
            Ok(f) => Ok(f.free(operand)),
            Err(e) => Err(e),
        }
    }

    /// The next register is the result of an instruction.
    pub open spec fn emit_to_next(self, opcode: spec_fn(Register) -> OpCode) -> Result<
        (FunctionModel, Operand),
        CompilerError,
    > {
        let dest = self.used() as Register;
        match self.take_register() {
            Ok(f) => Ok((f.emit(opcode(dest)), Operand::Temporary(dest))),
            Err(e) => Err(e),
        }
    }

    /// Two operands are added. The sum takes the first register that is free once they were used.
    #[verifier::opaque]
    pub open spec fn sum(self, left: Operand, right: Operand) -> Result<
        (FunctionModel, Operand),
        CompilerError,
    > {
        match (left, right) {
            (_, Operand::Value(value)) => match self.in_any_register(left) {
                Ok((f, left, register)) => match f.constant(value) {
                    Ok((f, constant)) => f.free(left).emit_to_next(
                        |dest: Register|
                            OpCode::AddRC { dest, left: register, right: constant },
                    ),
                    Err(e) => Err(e),
                },
                Err(e) => Err(e),
            },
            (Operand::Value(value), _) => match self.constant(value) {
                Ok((f, constant)) => match f.in_any_register(right) {
                    Ok((f, right, register)) => f.free(right).emit_to_next(
                        |dest: Register|
                            OpCode::AddCR { dest, left: constant, right: register },
                    ),
                    Err(e) => Err(e),
                },
                Err(e) => Err(e),
            },
            (_, _) => match self.in_any_register(left) {
                Ok((f, left, left_register)) => match f.in_any_register(right) {
                    Ok((f, right, right_register)) => f.free(right).free(left).emit_to_next(
                        |dest: Register|
                            OpCode::AddRR { dest, left: left_register, right: right_register },
                    ),
                    Err(e) => Err(e),
                },
                Err(e) => Err(e),
            },
        }
    }

    /// An operator is applied to two operands.
    pub open spec fn binop(
        self,
        folding: Folding,
        left: Operand,
        operator: BinaryOperator,
        right: Operand,
    ) -> Result<(FunctionModel, Operand), CompilerError> {
        match folded(folding, left, operator, right) {
            Some(value) => Ok((self, Operand::Value(value))),
            None => if operator == BinaryOperator::Add {
                self.sum(left, right)
            } else {
                unsupported(Unsupported::BinaryOperator)
            },
        }
    }

    /// A name of an enclosing function becomes an upvalue.
    pub open spec fn capture(self, name: Seq<u8>, descriptor: UpValueDescriptor) -> Result<
        (FunctionModel, UpValueIndex),
        CompilerError,
    > {
        if self.upvalues.len() <= UpValueIndex::MAX {
            Ok(
                (
                    FunctionModel { upvalues: self.upvalues.push((name, descriptor)), ..self },
                    self.upvalues.len() as UpValueIndex,
                ),
            )
        } else {
            limit(CompilerLimit::UpValues)
        }
    }
}

/// The value of an operator between two operands, if it is known.
pub open spec fn folded(
    folding: Folding,
    left: Operand,
    operator: BinaryOperator,
    right: Operand,
) -> Option<ValueView> {
    match (left, right) {
        (Operand::Value(a), Operand::Value(b)) => folding(operator, a, b),
        _ => None,
    }
}

/// The functions with the innermost one replaced.
pub open spec fn with_top(functions: Seq<FunctionModel>, top: FunctionModel) -> Seq<FunctionModel> {
    functions.update(functions.len() - 1, top)
}

/// The functions after a step of the innermost one.
pub open spec fn step<T>(
    functions: Seq<FunctionModel>,
    step: Result<(FunctionModel, T), CompilerError>,
) -> Result<(Seq<FunctionModel>, T), CompilerError> {
    match step {
        Ok((top, t)) => Ok((with_top(functions, top), t)),
        Err(e) => Err(e),
    }
}

/// What a name stands for in the innermost function: the local of that name that was declared last;
/// else what it was captured as; else what it stands for in the function around, of which it is then
/// captured, unless it is global there.
pub open spec fn resolve(functions: Seq<FunctionModel>, name: Seq<u8>) -> Result<
    (Seq<FunctionModel>, Variable),
    CompilerError,
>
    decreases functions.len(),
{
    let top = functions.last();
    match last_position(top.locals, name, top.locals.len()) {
        Some(position) => Ok((functions, Variable::Local(position as Register))),
        None => match first_position(top.upvalues, name, 0) {
            Some(position) => Ok((functions, Variable::UpValue(position as UpValueIndex))),
            None => if functions.len() <= 1 {
                Ok((functions, Variable::Global(name)))
            } else {
                match resolve(functions.drop_last(), name) {
                    Ok((outer, Variable::Local(register))) => captured(
                        outer,
                        top,
                        name,
                        UpValueDescriptor::ParentLocal(register),
                    ),
                    Ok((outer, Variable::UpValue(index))) => captured(
                        outer,
                        top,
                        name,
                        UpValueDescriptor::Outer(index),
                    ),
                    Ok((outer, Variable::Global(_))) => Ok(
                        (outer.push(top), Variable::Global(name)),
                    ),
                    Err(e) => Err(e),
                }
            },
        },
    }
}

/// The innermost function captures a name.
pub open spec fn captured(
    outer: Seq<FunctionModel>,
    top: FunctionModel,
    name: Seq<u8>,
    descriptor: UpValueDescriptor,
) -> Result<(Seq<FunctionModel>, Variable), CompilerError> {
    match top.capture(name, descriptor) {
        Ok((top, index)) => Ok((outer.push(top), Variable::UpValue(index))),
        Err(e) => Err(e),
    }
}

/// The functions have the registers in use that they had before, and the functions inside them.
pub open spec fn steady(before: Seq<FunctionModel>, after: Seq<FunctionModel>) -> bool {
    &&& after.len() == before.len()
    &&& forall|i: int|
        0 <= i < before.len() ==> {
            &&& (#[trigger] after[i]).locals == before[i].locals
            &&& after[i].temporaries == before[i].temporaries
            &&& after[i].prototypes == before[i].prototypes
        }
}

/// An expression was compiled: no registers are in use but those that were before, and one more on
/// top of them if the operand is a temporary one.
pub open spec fn evaluated(
    before: Seq<FunctionModel>,
    after: Seq<FunctionModel>,
    operand: Operand,
) -> bool {
    let top = FunctionModel {
        temporaries: before.last().temporaries + if operand is Temporary {
            1nat
        } else {
            0nat
        },
        ..before.last()
    };
    &&& before.len() > 0
    &&& steady(with_top(before, top), after)
    &&& operand matches Operand::Temporary(register) ==> register == before.last().used()
}

/// A number of values were brought into registers on top of those that were in use before.
pub open spec fn pushed(
    before: Seq<FunctionModel>,
    after: Seq<FunctionModel>,
    count: nat,
) -> bool {
    let top = FunctionModel {
        temporaries: before.last().temporaries + count,
        ..before.last()
    };
    &&& before.len() > 0
    &&& steady(with_top(before, top), after)
}

/// A statement was compiled: no registers are in use but those that were before, and those of the
/// locals that it declared.
pub open spec fn settled(before: Seq<FunctionModel>, after: Seq<FunctionModel>) -> bool {
    &&& after.len() == before.len() > 0
    &&& after.last().temporaries == before.last().temporaries
    &&& forall|i: int|
        0 <= i < before.len() - 1 ==> {
            &&& (#[trigger] after[i]).locals == before[i].locals
            &&& after[i].temporaries == before[i].temporaries
            &&& after[i].prototypes == before[i].prototypes
        }
}

/// Where a sum is and what registers are in use then.
pub proof fn lemma_sum(f: FunctionModel, left: Operand, right: Operand)
    requires
        f.holds_two(left, right),
    ensures
        f.sum(left, right) matches Ok((g, operand)) ==> {
            let base = f.free(right).free(left);
            &&& g.locals == f.locals
            &&& g.prototypes == f.prototypes
            &&& g.temporaries == base.temporaries + 1
            &&& base.used() < REGISTER_COUNT
            &&& operand == Operand::Temporary(base.used() as Register)
        },
{
    reveal(FunctionModel::sum);
}

/// To resolve a name takes no registers.
pub proof fn lemma_resolve_steady(functions: Seq<FunctionModel>, name: Seq<u8>)
    requires
        functions.len() > 0,
    ensures
        resolve(functions, name) matches Ok((after, _)) ==> steady(functions, after),
    decreases functions.len(),
{
    if functions.len() > 1 {
        lemma_resolve_steady(functions.drop_last(), name);
        if let Ok((outer, _)) = resolve(functions.drop_last(), name) {
            assert forall|i: int| 0 <= i < functions.len() - 1 implies {
                &&& (#[trigger] outer[i]).locals == functions[i].locals
                &&& outer[i].temporaries == functions[i].temporaries
                &&& outer[i].prototypes == functions[i].prototypes
            } by {
                assert(functions.drop_last()[i] == functions[i]);
            }
        }
    }
}

/// A name has no meaning of its own in a function.
pub open spec fn foreign(f: FunctionModel, name: Seq<u8>) -> bool {
    &&& last_position(f.locals, name, f.locals.len()) is None
    &&& first_position(f.upvalues, name, 0) is None
}

/// A name that is foreign to all functions is global.
pub proof fn lemma_resolve_global(functions: Seq<FunctionModel>, name: Seq<u8>)
    requires
        functions.len() > 0,
        forall|i: int| 0 <= i < functions.len() ==> foreign(#[trigger] functions[i], name),
    ensures
        resolve(functions, name) == Ok::<_, CompilerError>((functions, Variable::Global(name))),
    decreases functions.len(),
{
    assert(foreign(functions[functions.len() - 1], name));
    if functions.len() > 1 {
        lemma_resolve_global(functions.drop_last(), name);
        assert(functions.drop_last().push(functions.last()) =~= functions);
    }
}

/// The names of a function: its locals with the registers in which they live, and its upvalues.
pub struct Scope {
    pub locals: Seq<(Seq<u8>, Register)>,
    pub upvalues: Seq<(Seq<u8>, UpValueDescriptor)>,
}

/// The register of the last local of a name among the first `count` ones.
pub open spec fn last_local(
    locals: Seq<(Seq<u8>, Register)>,
    name: Seq<u8>,
    count: nat,
) -> Option<Register>
    decreases count,
{
    if count == 0 {
        None
    } else if locals[count - 1].0 == name {
        Some(locals[count - 1].1)
    } else {
        last_local(locals, name, (count - 1) as nat)
    }
}

impl Scope {
    /// A name has no meaning of its own in the function.
    pub open spec fn foreign(self, name: Seq<u8>) -> bool {
        &&& last_local(self.locals, name, self.locals.len()) is None
        &&& first_position(self.upvalues, name, 0) is None
    }
}

/// What a name stands for in the innermost of some functions, wherever their locals live, and what
/// they capture for it.
pub open spec fn lookup(scopes: Seq<Scope>, name: Seq<u8>) -> Result<
    (Seq<Scope>, Variable),
    CompilerError,
>
    decreases scopes.len(),
{
    let top = scopes.last();
    match last_local(top.locals, name, top.locals.len()) {
        Some(register) => Ok((scopes, Variable::Local(register))),
        None => match first_position(top.upvalues, name, 0) {
            Some(position) => Ok((scopes, Variable::UpValue(position as UpValueIndex))),
            None => if scopes.len() <= 1 {
                Ok((scopes, Variable::Global(name)))
            } else {
                match lookup(scopes.drop_last(), name) {
                    Ok((outer, Variable::Local(register))) => scope_captured(
                        outer,
                        top,
                        name,
                        UpValueDescriptor::ParentLocal(register),
                    ),
                    Ok((outer, Variable::UpValue(index))) => scope_captured(
                        outer,
                        top,
                        name,
                        UpValueDescriptor::Outer(index),
                    ),
                    Ok((outer, Variable::Global(_))) => Ok(
                        (outer.push(top), Variable::Global(name)),
                    ),
                    Err(e) => Err(e),
                }
            },
        },
    }
}

/// The innermost of some functions captures a name.
pub open spec fn scope_captured(
    outer: Seq<Scope>,
    top: Scope,
    name: Seq<u8>,
    descriptor: UpValueDescriptor,
) -> Result<(Seq<Scope>, Variable), CompilerError> {
    if top.upvalues.len() <= UpValueIndex::MAX {
        Ok(
            (
                outer.push(Scope { upvalues: top.upvalues.push((name, descriptor)), ..top }),
                Variable::UpValue(top.upvalues.len() as UpValueIndex),
            ),
        )
    } else {
        limit(CompilerLimit::UpValues)
    }
}

/// A name that is foreign to all functions is global.
pub proof fn lemma_lookup_global(scopes: Seq<Scope>, name: Seq<u8>)
    requires
        scopes.len() > 0,
        forall|i: int| 0 <= i < scopes.len() ==> (#[trigger] scopes[i]).foreign(name),
    ensures
        lookup(scopes, name) == Ok::<_, CompilerError>((scopes, Variable::Global(name))),
    decreases scopes.len(),
{
    assert(scopes[scopes.len() - 1].foreign(name));
    if scopes.len() > 1 {
        lemma_lookup_global(scopes.drop_last(), name);
        assert(scopes.drop_last().push(scopes.last()) =~= scopes);
    }
}

/// Where a name cannot be captured by a function, it cannot be in the functions inside that one to
/// which it is foreign.
pub proof fn lemma_lookup_limit(scopes: Seq<Scope>, name: Seq<u8>, count: int, e: CompilerError)
    requires
        0 < count <= scopes.len(),
        forall|i: int| count <= i < scopes.len() ==> (#[trigger] scopes[i]).foreign(name),
        lookup(scopes.take(count), name) == Err::<(Seq<Scope>, Variable), _>(e),
    ensures
        lookup(scopes, name) == Err::<(Seq<Scope>, Variable), _>(e),
    decreases scopes.len(),
{
    if count == scopes.len() {
        assert(scopes.take(count) =~= scopes);
    } else {
        assert(scopes[scopes.len() - 1].foreign(name));
        assert(scopes.drop_last().take(count) =~= scopes.take(count));
        lemma_lookup_limit(scopes.drop_last(), name, count, e);
    }
}

/// The names of a function whose locals live in the registers of their positions.
pub open spec fn scope(f: FunctionModel) -> Scope {
    Scope {
        locals: Seq::new(f.locals.len(), |i: int| (f.locals[i], i as Register)),
        upvalues: f.upvalues,
    }
}

/// The names of some functions.
pub open spec fn scopes(functions: Seq<FunctionModel>) -> Seq<Scope> {
    Seq::new(functions.len(), |i: int| scope(functions[i]))
}

/// A local in the register of its position is found by its position.
pub proof fn lemma_last_local(f: FunctionModel, name: Seq<u8>, count: nat)
    requires
        count <= f.locals.len(),
    ensures
        last_local(scope(f).locals, name, count) == match last_position(f.locals, name, count) {
            Some(position) => Some(position as Register),
            None => None,
        },
    decreases count,
{
    if count > 0 {
        lemma_last_local(f, name, (count - 1) as nat);
    }
}

/// Where locals live in the registers of their positions, a name is looked up by these.
pub proof fn lemma_lookup(functions: Seq<FunctionModel>, name: Seq<u8>)
    requires
        functions.len() > 0,
    ensures
        lookup(scopes(functions), name) == match resolve(functions, name) {
            Ok((after, variable)) => Ok::<_, CompilerError>((scopes(after), variable)),
            Err(e) => Err(e),
        },
    decreases functions.len(),
{
    let top = functions.last();
    lemma_last_local(top, name, top.locals.len());
    if functions.len() > 1 {
        lemma_lookup(functions.drop_last(), name);
        assert(scopes(functions).drop_last() =~= scopes(functions.drop_last()));
        if let Ok((outer, _)) = resolve(functions.drop_last(), name) {
            if let Ok((after, _)) = resolve(functions, name) {
                if foreign(top, name) {
                    assert(scopes(after) =~= scopes(outer).push(scope(after.last())));
                }
            }
        }
    }
}

/// An expression.
pub open spec fn expression(
    folding: Folding,
    functions: Seq<FunctionModel>,
    expression: Expression,
) -> Result<(Seq<FunctionModel>, Operand), CompilerError>
    decreases expression, expression.tail@.len() + 1,
{
    expression_upto(folding, functions, expression, expression.tail@.len())
}

/// The head of an expression and the first `count` operators after it.
pub open spec fn expression_upto(
    folding: Folding,
    functions: Seq<FunctionModel>,
    e: Expression,
    count: nat,
) -> Result<(Seq<FunctionModel>, Operand), CompilerError>
    decreases e, count,
{
    if count == 0 {
        head_expression(folding, functions, *e.head)
    } else if count > e.tail@.len() {
        arbitrary()
    } else {
        match expression_upto(folding, functions, e, (count - 1) as nat) {
            Ok((functions, left)) => {
                let (operator, right) = e.tail@[count - 1];
                match expression(folding, functions, right) {
                    Ok((functions, right)) => step(
                        functions,
                        functions.last().binop(folding, left, operator, right),
                    ),
                    Err(e) => Err(e),
                }
            },
            Err(e) => Err(e),
        }
    }
}

/// The first operand of an expression.
pub open spec fn head_expression(
    folding: Folding,
    functions: Seq<FunctionModel>,
    head: HeadExpression,
) -> Result<(Seq<FunctionModel>, Operand), CompilerError>
    decreases head, 0nat,
{
    match head {
        HeadExpression::Simple(simple) => simple_expression(folding, functions, simple),
        HeadExpression::UnaryOperator(_, _) => unsupported(Unsupported::UnaryOperator),
    }
}

/// An expression without operators.
pub open spec fn simple_expression(
    folding: Folding,
    functions: Seq<FunctionModel>,
    simple: SimpleExpression,
) -> Result<(Seq<FunctionModel>, Operand), CompilerError>
    decreases simple, 0nat,
{
    match simple {
        SimpleExpression::Float(bits) => Ok((functions, Operand::Value(ValueView::Number(bits)))),
        SimpleExpression::Integer(i) => Ok((functions, Operand::Value(ValueView::Integer(i)))),
        SimpleExpression::String(s) => Ok((functions, Operand::Value(ValueView::String(s@)))),
        SimpleExpression::Nil => Ok((functions, Operand::Value(ValueView::Nil))),
        SimpleExpression::True => Ok((functions, Operand::Value(ValueView::Boolean(true)))),
        SimpleExpression::False => Ok((functions, Operand::Value(ValueView::Boolean(false)))),
        SimpleExpression::Suffixed(suffixed) => suffixed_expression(folding, functions, suffixed),
        SimpleExpression::Other => unsupported(Unsupported::SimpleExpression),
    }
}

/// A name or an expression in brackets.
pub open spec fn suffixed_expression(
    folding: Folding,
    functions: Seq<FunctionModel>,
    suffixed: SuffixedExpression,
) -> Result<(Seq<FunctionModel>, Operand), CompilerError>
    decreases suffixed, 0nat,
{
    if suffixed.suffixes@.len() > 0 {
        unsupported(Unsupported::ExpressionSuffixes)
    } else {
        primary_expression(folding, functions, suffixed.primary)
    }
}

/// A name or an expression in brackets.
pub open spec fn primary_expression(
    folding: Folding,
    functions: Seq<FunctionModel>,
    primary: PrimaryExpression,
) -> Result<(Seq<FunctionModel>, Operand), CompilerError>
    decreases primary, 0nat,
{
    match primary {
        PrimaryExpression::Name(name) => match resolve(functions, name@) {
            Ok((functions, Variable::Local(register))) => Ok((functions, Operand::Local(register))),
            Ok((functions, Variable::UpValue(index))) => Ok((functions, Operand::UpValue(index))),
            Ok((_, Variable::Global(_))) => unsupported(Unsupported::GlobalVariable),
            Err(e) => Err(e),
        },
        PrimaryExpression::GroupedExpression(e) => expression(folding, functions, e),
    }
}

/// Where some operators of an expression cannot be compiled, all of it cannot.
pub proof fn lemma_expression_fails(
    folding: Folding,
    functions: Seq<FunctionModel>,
    e: Expression,
    count: nat,
    total: nat,
)
    requires
        count <= total <= e.tail@.len(),
        expression_upto(folding, functions, e, count) is Err,
    ensures
        expression_upto(folding, functions, e, total) == expression_upto(
            folding,
            functions,
            e,
            count,
        ),
    decreases total,
{
    if count < total {
        lemma_expression_fails(folding, functions, e, count, (total - 1) as nat);
    }
}

/// The first `count` expressions of a list, each in a register of its own, one above the other.
pub open spec fn push_upto(
    folding: Folding,
    functions: Seq<FunctionModel>,
    expressions: Seq<Expression>,
    count: nat,
) -> Result<Seq<FunctionModel>, CompilerError>
    decreases count,
{
    if count == 0 {
        Ok(functions)
    } else {
        match push_upto(folding, functions, expressions, (count - 1) as nat) {
            Ok(functions) => match expression(folding, functions, expressions[count - 1]) {
                Ok((functions, operand)) => match functions.last().in_new_register(operand) {
                    Ok((top, _)) => Ok(with_top(functions, top)),
                    Err(e) => Err(e),
                },
                Err(e) => Err(e),
            },
            Err(e) => Err(e),
        }
    }
}

/// Where some expressions of a list cannot be compiled, all of them cannot.
pub proof fn lemma_push_fails(
    folding: Folding,
    functions: Seq<FunctionModel>,
    expressions: Seq<Expression>,
    count: nat,
    total: nat,
)
    requires
        count <= total,
        push_upto(folding, functions, expressions, count) is Err,
    ensures
        push_upto(folding, functions, expressions, total) == push_upto(
            folding,
            functions,
            expressions,
            count,
        ),
    decreases total,
{
    if count < total {
        lemma_push_fails(folding, functions, expressions, count, (total - 1) as nat);
    }
}

/// A return with the values of some expressions.
pub open spec fn return_statement(
    folding: Folding,
    functions: Seq<FunctionModel>,
    statement: ReturnStatement,
) -> Result<Seq<FunctionModel>, CompilerError> {
    let values = statement.returns@;
    match VarCount::of(values.len() as int) {
        None => limit(CompilerLimit::Returns),
        Some(count) => if values.len() == 0 {
            Ok(with_top(functions, functions.last().emit(OpCode::Return { start: 0, count })))
        } else if values.len() == 1 {
            match expression(folding, functions, values[0]) {
                Ok((functions, operand)) => match functions.last().in_any_register(operand) {
                    Ok((top, operand, start)) => Ok(
                        with_top(
                            functions,
                            top.emit(OpCode::Return { start, count }).free(operand),
                        ),
                    ),
                    Err(e) => Err(e),
                },
                Err(e) => Err(e),
            }
        } else {
            let start = functions.last().used() as Register;
            match push_upto(folding, functions, values, values.len()) {
                Ok(functions) => Ok(
                    with_top(
                        functions,
                        functions.last().emit(OpCode::Return { start, count }).release(
                            values.len(),
                        ),
                    ),
                ),
                Err(e) => Err(e),
            }
        },
    }
}

/// The value of a local statement at a position. If it has a name, it becomes a local.
pub open spec fn local_value(
    folding: Folding,
    functions: Seq<FunctionModel>,
    statement: LocalStatement,
    position: int,
) -> Result<Seq<FunctionModel>, CompilerError> {
    match expression(folding, functions, statement.values@[position]) {
        Ok((functions, operand)) => if position < statement.names@.len() {
            match functions.last().in_new_register(operand) {
                Ok((top, _)) => Ok(
                    with_top(functions, top.declare(statement.names@[position]@)),
                ),
                Err(e) => Err(e),
            }
        } else {
            Ok(with_top(functions, functions.last().free(operand)))
        },
        Err(e) => Err(e),
    }
}

/// The first `count` values of a local statement. Those that have a name become locals.
pub open spec fn local_values_upto(
    folding: Folding,
    functions: Seq<FunctionModel>,
    statement: LocalStatement,
    count: nat,
) -> Result<Seq<FunctionModel>, CompilerError>
    decreases count,
{
    if count == 0 {
        Ok(functions)
    } else {
        match local_values_upto(folding, functions, statement, (count - 1) as nat) {
            Ok(functions) => local_value(folding, functions, statement, count - 1),
            Err(e) => Err(e),
        }
    }
}

/// Those of the first `count` names of a local statement that have no value become locals that hold
/// nil.
pub open spec fn local_nils_upto(
    f: FunctionModel,
    statement: LocalStatement,
    count: nat,
) -> Result<FunctionModel, CompilerError>
    decreases count,
{
    if count <= statement.values@.len() {
        Ok(f)
    } else {
        match local_nils_upto(f, statement, (count - 1) as nat) {
            Ok(f) => match f.take_register() {
                Ok(taken) => Ok(
                    taken.load_nil(f.used() as Register).declare(statement.names@[count - 1]@),
                ),
                Err(e) => Err(e),
            },
            Err(e) => Err(e),
        }
    }
}

/// Where some values of a local statement cannot be compiled, all of them cannot.
pub proof fn lemma_local_values_fail(
    folding: Folding,
    functions: Seq<FunctionModel>,
    statement: LocalStatement,
    count: nat,
    total: nat,
)
    requires
        count <= total,
        local_values_upto(folding, functions, statement, count) is Err,
    ensures
        local_values_upto(folding, functions, statement, total) == local_values_upto(
            folding,
            functions,
            statement,
            count,
        ),
    decreases total,
{
    if count < total {
        lemma_local_values_fail(folding, functions, statement, count, (total - 1) as nat);
    }
}

/// Where some names of a local statement cannot be declared, all of them cannot.
pub proof fn lemma_local_nils_fail(
    f: FunctionModel,
    statement: LocalStatement,
    count: nat,
    total: nat,
)
    requires
        count <= total,
        local_nils_upto(f, statement, count) is Err,
    ensures
        local_nils_upto(f, statement, total) == local_nils_upto(f, statement, count),
    decreases total,
{
    if count < total {
        lemma_local_nils_fail(f, statement, count, (total - 1) as nat);
    }
}

/// A declaration of locals.
pub open spec fn local_statement(
    folding: Folding,
    functions: Seq<FunctionModel>,
    statement: LocalStatement,
) -> Result<Seq<FunctionModel>, CompilerError> {
    match local_values_upto(folding, functions, statement, statement.values@.len()) {
        Ok(functions) => match local_nils_upto(
            functions.last(),
            statement,
            statement.names@.len(),
        ) {
            Ok(top) => Ok(with_top(functions, top)),
            Err(e) => Err(e),
        },
        Err(e) => Err(e),
    }
}

/// A call of which nothing is returned. The function and its arguments are in registers one above
/// the other.
pub open spec fn function_call(
    folding: Folding,
    functions: Seq<FunctionModel>,
    statement: FunctionCallStatement,
) -> Result<Seq<FunctionModel>, CompilerError> {
    match suffixed_expression(folding, functions, statement.head) {
        Ok((functions, operand)) => match functions.last().in_new_register(operand) {
            Ok((top, func)) => match statement.call {
                CallSuffix::Function(arguments) => call(
                    folding,
                    with_top(functions, top),
                    func,
                    arguments@,
                ),
                CallSuffix::Method(_, _) => unsupported(Unsupported::MethodCall),
            },
            Err(e) => Err(e),
        },
        Err(e) => Err(e),
    }
}

/// A call of the function in the last register in use.
pub open spec fn call(
    folding: Folding,
    functions: Seq<FunctionModel>,
    func: Register,
    arguments: Seq<Expression>,
) -> Result<Seq<FunctionModel>, CompilerError> {
    if arguments.len() > u8::MAX {
        limit(CompilerLimit::FixedParameters)
    } else {
        match push_upto(folding, functions, arguments, arguments.len()) {
            Ok(functions) => match VarCount::of(arguments.len() as int) {
                Some(args) => Ok(
                    with_top(
                        functions,
                        functions.last().emit(
                            OpCode::Call { func, args, returns: VarCount(0) },
                        ).release(arguments.len() + 1),
                    ),
                ),
                None => limit(CompilerLimit::FixedParameters),
            },
            Err(e) => Err(e),
        }
    }
}

/// The value that an assignment has for its target at a position.
pub open spec fn assigned_value(
    folding: Folding,
    functions: Seq<FunctionModel>,
    statement: AssignmentStatement,
    position: int,
) -> Result<(Seq<FunctionModel>, Operand), CompilerError> {
    if position < statement.values@.len() {
        expression(folding, functions, statement.values@[position])
    } else {
        Ok((functions, Operand::Value(ValueView::Nil)))
    }
}

/// A value is assigned to a target.
pub open spec fn assign(
    functions: Seq<FunctionModel>,
    target: AssignmentTarget,
    operand: Operand,
) -> Result<Seq<FunctionModel>, CompilerError> {
    match target {
        AssignmentTarget::Name(name) => match resolve(functions, name@) {
            Ok((functions, Variable::Local(dest))) => match functions.last().in_register(
                operand,
                dest,
            ) {
                Ok(top) => Ok(with_top(functions, top)),
                Err(e) => Err(e),
            },
            Ok((functions, Variable::UpValue(dest))) => match functions.last().in_any_register(
                operand,
            ) {
                Ok((top, operand, source)) => Ok(
                    with_top(functions, top.emit(OpCode::SetUpValue { source, dest }).free(operand)),
                ),
                Err(e) => Err(e),
            },
            Ok((_, Variable::Global(_))) => unsupported(Unsupported::GlobalAssignment),
            Err(e) => Err(e),
        },
        AssignmentTarget::Field(_, _) => unsupported(Unsupported::AssignmentTarget),
    }
}

/// The first `count` targets of an assignment, one after the other. A target without a value is
/// assigned nil, and a value without a target is left out.
pub open spec fn assignment_upto(
    folding: Folding,
    functions: Seq<FunctionModel>,
    statement: AssignmentStatement,
    count: nat,
) -> Result<Seq<FunctionModel>, CompilerError>
    decreases count,
{
    if count == 0 {
        Ok(functions)
    } else {
        match assignment_upto(folding, functions, statement, (count - 1) as nat) {
            Ok(functions) => match assigned_value(folding, functions, statement, count - 1) {
                Ok((functions, operand)) => assign(
                    functions,
                    statement.targets@[count - 1],
                    operand,
                ),
                Err(e) => Err(e),
            },
            Err(e) => Err(e),
        }
    }
}

/// Where some targets of an assignment cannot be compiled, all of them cannot.
pub proof fn lemma_assignment_fails(
    folding: Folding,
    functions: Seq<FunctionModel>,
    statement: AssignmentStatement,
    count: nat,
    total: nat,
)
    requires
        count <= total,
        assignment_upto(folding, functions, statement, count) is Err,
    ensures
        assignment_upto(folding, functions, statement, total) == assignment_upto(
            folding,
            functions,
            statement,
            count,
        ),
    decreases total,
{
    if count < total {
        lemma_assignment_fails(folding, functions, statement, count, (total - 1) as nat);
    }
}

/// The names of some byte strings.
pub open spec fn names(names: Seq<Vec<u8>>) -> Seq<Seq<u8>> {
    Seq::new(names.len(), |i: int| names[i]@)
}

/// A function that is bound to a local. The local is not visible in the function.
pub open spec fn local_function(
    folding: Folding,
    functions: Seq<FunctionModel>,
    statement: FunctionStatement,
) -> Result<Seq<FunctionModel>, CompilerError>
    decreases statement, 0nat,
{
    if statement.definition.has_varargs {
        unsupported(Unsupported::VarArgs)
    } else if statement.name.fields@.len() > 0 {
        unsupported(Unsupported::FunctionNameFields)
    } else if statement.name.method is Some {
        unsupported(Unsupported::FunctionNameMethod)
    } else if statement.definition.parameters@.len() > u8::MAX {
        limit(CompilerLimit::FixedParameters)
    } else {
        let inner = FunctionModel::start(names(statement.definition.parameters@));
        match block(folding, functions.push(inner), statement.definition.body) {
            Ok(compiled) => match closure(
                compiled.drop_last().last(),
                compiled.last().proto(),
                statement.name.name@,
            ) {
                Ok(top) => Ok(with_top(compiled.drop_last(), top)),
                Err(e) => Err(e),
            },
            Err(e) => Err(e),
        }
    }
}

/// A closure of a function is made and bound to a local.
pub open spec fn closure(f: FunctionModel, proto: ProtoView, name: Seq<u8>) -> Result<
    FunctionModel,
    CompilerError,
> {
    match f.take_register() {
        Ok(taken) => if f.prototypes.len() <= u8::MAX {
            Ok(
                FunctionModel { prototypes: f.prototypes.push(proto), ..taken }.emit(
                    OpCode::Closure { proto: f.prototypes.len() as u8, dest: f.used() as Register },
                ).declare(name),
            )
        } else {
            limit(CompilerLimit::Functions)
        },
        Err(e) => Err(e),
    }
}

/// A statement.
pub open spec fn statement(
    folding: Folding,
    functions: Seq<FunctionModel>,
    statement: Statement,
) -> Result<Seq<FunctionModel>, CompilerError>
    decreases statement, 0nat,
{
    match statement {
        Statement::LocalStatement(s) => local_statement(folding, functions, s),
        Statement::LocalFunction(s) => local_function(folding, functions, s),
        Statement::FunctionCall(s) => function_call(folding, functions, s),
        Statement::Assignment(s) => assignment_upto(folding, functions, s, s.targets@.len()),
        Statement::Other => unsupported(Unsupported::Statement),
    }
}

/// The first `count` statements of a block.
pub open spec fn statements_upto(
    folding: Folding,
    functions: Seq<FunctionModel>,
    block: Block,
    count: nat,
) -> Result<Seq<FunctionModel>, CompilerError>
    decreases block, count,
{
    if count == 0 {
        Ok(functions)
    } else if count > block.statements@.len() {
        arbitrary()
    } else {
        match statements_upto(folding, functions, block, (count - 1) as nat) {
            Ok(functions) => statement(folding, functions, block.statements@[count - 1]),
            Err(e) => Err(e),
        }
    }
}

/// Where some statements of a block cannot be compiled, all of them cannot.
pub proof fn lemma_statements_fail(
    folding: Folding,
    functions: Seq<FunctionModel>,
    block: Block,
    count: nat,
    total: nat,
)
    requires
        count <= total <= block.statements@.len(),
        statements_upto(folding, functions, block, count) is Err,
    ensures
        statements_upto(folding, functions, block, total) == statements_upto(
            folding,
            functions,
            block,
            count,
        ),
    decreases total,
{
    if count < total {
        lemma_statements_fail(folding, functions, block, count, (total - 1) as nat);
    }
}

/// The body of a function. It returns nothing where it does not say what it returns.
pub open spec fn block(
    folding: Folding,
    functions: Seq<FunctionModel>,
    block: Block,
) -> Result<Seq<FunctionModel>, CompilerError>
    decreases block, block.statements@.len() + 1,
{
    match statements_upto(folding, functions, block, block.statements@.len()) {
        Ok(functions) => match block.return_statement {
            Some(statement) => return_statement(folding, functions, statement),
            None => Ok(
                with_top(
                    functions,
                    functions.last().emit(OpCode::Return { start: 0, count: VarCount(0) }),
                ),
            ),
        },
        Err(e) => Err(e),
    }
}

/// A chunk.
pub open spec fn chunk(folding: Folding, chunk: Chunk) -> Result<ProtoView, CompilerError> {
    match block(folding, seq![FunctionModel::start(seq![])], chunk.block) {
        Ok(functions) => Ok(functions.last().proto()),
        Err(e) => Err(e),
    }
}

} // verus!
