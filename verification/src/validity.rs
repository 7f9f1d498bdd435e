//! Compiled functions refer only to registers, constants, upvalues and functions that they have.

use vstd::prelude::*;

use crate::function::{ProtoView, UpValueDescriptor};
use crate::model::{self, FunctionModel, Operand};
use crate::opcode::{Constant, OpCode, UpValueIndex};
use crate::registers::{Register, REGISTER_COUNT};
use crate::value::ValueView;

verus! {

/// What a function has that its instructions can refer to.
pub struct Sizes {
    pub registers: nat,
    pub constants: nat,
    pub upvalues: nat,
    pub prototypes: nat,
}

impl Sizes {
    /// At least as much of everything.
    pub open spec fn covers(self, other: Sizes) -> bool {
        &&& other.registers <= self.registers
        &&& other.constants <= self.constants
        &&& other.upvalues <= self.upvalues
        &&& other.prototypes <= self.prototypes
    }
}

/// A number of registers from `start` on, of which there are `registers`.
pub open spec fn valid_range(start: int, count: Option<nat>, registers: nat) -> bool {
    match count {
        Some(count) => count == 0 || start + count <= registers,
        None => start <= registers,
    }
}

/// An instruction refers only to what its function has.
pub open spec fn valid_opcode(opcode: OpCode, sizes: Sizes) -> bool {
    match opcode {
        OpCode::Move { dest, source } => dest < sizes.registers && source < sizes.registers,
        OpCode::LoadConstant { dest, constant } => dest < sizes.registers && constant
            < sizes.constants,
        OpCode::LoadBool { dest, value, skip_next } => dest < sizes.registers && !skip_next,
        OpCode::LoadNil { dest, count } => count > 0 && dest + count <= sizes.registers,
        OpCode::GetUpValue { source, dest } => dest < sizes.registers && source < sizes.upvalues,
        OpCode::SetUpValue { source, dest } => source < sizes.registers && dest < sizes.upvalues,
        OpCode::Closure { proto, dest } => dest < sizes.registers && proto < sizes.prototypes,
        OpCode::Call { func, args, returns: results } => {
            &&& func < sizes.registers
            &&& valid_range(func + 1, args.count(), sizes.registers)
            &&& valid_range(func as int, results.count(), sizes.registers)
        },
        OpCode::Return { start, count } => valid_range(
            start as int,
            count.count(),
            sizes.registers,
        ),
        OpCode::AddRR { dest, left, right } => {
            &&& dest < sizes.registers
            &&& left < sizes.registers
            &&& right < sizes.registers
        },
        OpCode::AddRC { dest, left, right } => {
            &&& dest < sizes.registers
            &&& left < sizes.registers
            &&& right < sizes.constants
        },
        OpCode::AddCR { dest, left, right } => {
            &&& dest < sizes.registers
            &&& left < sizes.constants
            &&& right < sizes.registers
        },
    }
}

/// All instructions refer only to what their function has.
pub open spec fn valid_opcodes(opcodes: Seq<OpCode>, sizes: Sizes) -> bool {
    forall|i: int| 0 <= i < opcodes.len() ==> valid_opcode(#[trigger] opcodes[i], sizes)
}

/// An upvalue is found in the function around, which has some registers and upvalues.
pub open spec fn valid_upvalue(descriptor: UpValueDescriptor, around: Sizes) -> bool {
    match descriptor {
        UpValueDescriptor::ParentLocal(register) => register < around.registers,
        UpValueDescriptor::Outer(index) => index < around.upvalues,
    }
}

/// What a compiled function has.
pub open spec fn proto_sizes(proto: ProtoView) -> Sizes {
    Sizes {
        registers: proto.stack_size,
        constants: proto.constants.len(),
        upvalues: proto.upvalues.len(),
        prototypes: proto.prototypes.len(),
    }
}

/// The last instruction is a return.
pub open spec fn ends_with_return(opcodes: Seq<OpCode>) -> bool {
    opcodes.len() > 0 && opcodes.last() is Return
}

/// A compiled function inside one that has `around` can be run: its frame fits the machine and its
/// parameters fit its frame, it ends with a return, no constant is there twice, its instructions
/// refer only to what it has, its upvalues are found in the function around it, and the functions
/// inside it can be run.
pub open spec fn valid_proto(proto: ProtoView, around: Sizes) -> bool
    decreases proto,
{
    &&& proto.stack_size <= REGISTER_COUNT
    &&& proto.fixed_params <= proto.stack_size
    &&& ends_with_return(proto.opcodes)
    &&& proto.constants.no_duplicates()
    &&& valid_opcodes(proto.opcodes, proto_sizes(proto))
    &&& forall|i: int|
        0 <= i < proto.upvalues.len() ==> valid_upvalue(#[trigger] proto.upvalues[i], around)
    &&& forall|i: int|
        0 <= i < proto.prototypes.len() ==> valid_proto(
            #[trigger] proto.prototypes[i],
            proto_sizes(proto),
        )
}

/// A compiled function that is inside no other one can be run. It has neither parameters nor
/// upvalues, so that it needs nothing around it.
pub open spec fn valid_chunk(proto: ProtoView) -> bool {
    let nothing = Sizes { registers: 0, constants: 0, upvalues: 0, prototypes: 0 };
    &&& valid_proto(proto, nothing)
    &&& proto.upvalues.len() == 0
    &&& proto.fixed_params == 0
    &&& !proto.has_varargs
}

/// What a function under compilation has.
pub open spec fn sizes(f: FunctionModel) -> Sizes {
    Sizes {
        registers: f.stack_size,
        constants: f.constants.len(),
        upvalues: f.upvalues.len(),
        prototypes: f.prototypes.len(),
    }
}

/// A function under compilation refers only to what it has. Each function inside it is bound to a
/// local.
pub open spec fn valid_function(f: FunctionModel) -> bool {
    &&& f.used() <= f.stack_size <= REGISTER_COUNT
    &&& f.prototypes.len() <= f.locals.len()
    &&& f.fixed_params <= f.stack_size
    &&& f.constants.no_duplicates()
    &&& f.constants.len() <= Constant::MAX + 1
    &&& f.upvalues.len() <= UpValueIndex::MAX + 1
    &&& valid_opcodes(f.opcodes, sizes(f))
    &&& forall|i: int|
        0 <= i < f.prototypes.len() ==> valid_proto(#[trigger] f.prototypes[i], sizes(f))
}

/// An operand is in a function.
pub open spec fn valid_operand(operand: Operand, f: FunctionModel) -> bool {
    match operand {
        Operand::Temporary(register) => register < f.used(),
        Operand::Local(register) => register < f.locals.len(),
        Operand::UpValue(index) => index < f.upvalues.len(),
        Operand::Value(_) => true,
    }
}

/// A sequence begins with another one.
pub open spec fn begins_with<T>(s: Seq<T>, prefix: Seq<T>) -> bool {
    &&& prefix.len() <= s.len()
    &&& forall|i: int| 0 <= i < prefix.len() ==> #[trigger] s[i] == prefix[i]
}

/// Nothing that a function had is gone.
pub open spec fn grown(before: FunctionModel, after: FunctionModel) -> bool {
    &&& begins_with(after.constants, before.constants)
    &&& begins_with(after.upvalues, before.upvalues)
    &&& begins_with(after.prototypes, before.prototypes)
    &&& begins_with(after.locals, before.locals)
    &&& before.stack_size <= after.stack_size
    &&& before.fixed_params == after.fixed_params
}

/// What is valid in a function is valid in one that has more.
pub proof fn lemma_valid_proto_covers(proto: ProtoView, around: Sizes, more: Sizes)
    requires
        valid_proto(proto, around),
        more.covers(around),
    ensures
        valid_proto(proto, more),
{
    assert forall|i: int| 0 <= i < proto.upvalues.len() implies valid_upvalue(
        #[trigger] proto.upvalues[i],
        more,
    ) by {
        assert(valid_upvalue(proto.upvalues[i], around));
    }
}

/// What a function refers to is still there when it has grown.
pub proof fn lemma_grown_valid(f: FunctionModel, g: FunctionModel)
    requires
        valid_function(f),
        grown(f, g),
    ensures
        valid_opcodes(f.opcodes, sizes(g)),
        forall|i: int|
            0 <= i < f.prototypes.len() ==> valid_proto(#[trigger] f.prototypes[i], sizes(g)),
        sizes(g).covers(sizes(f)),
{
    assert forall|i: int| 0 <= i < f.opcodes.len() implies valid_opcode(
        #[trigger] f.opcodes[i],
        sizes(g),
    ) by {
        assert(valid_opcode(f.opcodes[i], sizes(f)));
    }
    assert forall|i: int| 0 <= i < f.prototypes.len() implies valid_proto(
        #[trigger] f.prototypes[i],
        sizes(g),
    ) by {
        lemma_valid_proto_covers(f.prototypes[i], sizes(f), sizes(g));
    }
}

/// An instruction is added to a function.
pub proof fn lemma_emit(f: FunctionModel, opcode: OpCode)
    requires
        valid_function(f),
        valid_opcode(opcode, sizes(f)),
    ensures
        valid_function(f.emit(opcode)),
        grown(f, f.emit(opcode)),
{
}

/// A register is taken.
pub proof fn lemma_take(f: FunctionModel)
    requires
        valid_function(f),
    ensures
        f.take_register() matches Ok(g) ==> {
            &&& valid_function(g)
            &&& grown(f, g)
            &&& f.used() < g.stack_size
        },
{
    if let Ok(g) = f.take_register() {
        lemma_grown_valid(f, g);
    }
}

/// A constant is looked up.
pub proof fn lemma_constant(f: FunctionModel, value: ValueView)
    requires
        valid_function(f),
    ensures
        f.constant(value) matches Ok((g, index)) ==> {
            &&& valid_function(g)
            &&& grown(f, g)
            &&& g == (FunctionModel { constants: g.constants, ..f })
            &&& index < g.constants.len()
            &&& g.constants[index as int] == value
        },
{
    model::lemma_constant_position(f.constants, value, 0);
    if let Ok((g, _)) = f.constant(value) {
        lemma_grown_valid(f, g);
        assert(g.constants.no_duplicates());
    }
}

/// A value is loaded into a register.
pub proof fn lemma_load(f: FunctionModel, operand: Operand, dest: Register)
    requires
        valid_function(f),
        valid_operand(operand, f),
        dest < f.stack_size,
    ensures
        f.load(operand, dest) matches Ok(g) ==> {
            &&& valid_function(g)
            &&& grown(f, g)
            &&& g == (FunctionModel { constants: g.constants, opcodes: g.opcodes, ..f })
        },
{
    if let Operand::Value(value) = operand {
        lemma_constant(f, value);
    }
}

/// A value is loaded into the next register.
pub proof fn lemma_load_next(f: FunctionModel, operand: Operand)
    requires
        valid_function(f),
        valid_operand(operand, f),
    ensures
        f.load_next(operand) matches Ok((g, register)) ==> {
            &&& valid_function(g)
            &&& grown(f, g)
            &&& register == f.used()
            &&& g.locals == f.locals
            &&& g.upvalues == f.upvalues
            &&& g.temporaries == f.temporaries + 1
        },
{
    lemma_take(f);
    if let Ok(g) = f.take_register() {
        lemma_load(g, operand, f.used() as Register);
    }
}

/// A value is brought into some register.
pub proof fn lemma_in_any_register(f: FunctionModel, operand: Operand)
    requires
        valid_function(f),
        valid_operand(operand, f),
    ensures
        f.in_any_register(operand) matches Ok((g, there, register)) ==> {
            &&& valid_function(g)
            &&& grown(f, g)
            &&& register < g.used()
            &&& g.locals == f.locals
            &&& g.upvalues == f.upvalues
        },
{
    lemma_load_next(f, operand);
}

/// To grow twice is to grow.
pub proof fn lemma_grown_twice(f: FunctionModel, g: FunctionModel, h: FunctionModel)
    requires
        grown(f, g),
        grown(g, h),
    ensures
        grown(f, h),
{
}

/// Temporaries are given back.
pub proof fn lemma_free(f: FunctionModel, operand: Operand)
    requires
        valid_function(f),
        operand is Temporary ==> f.temporaries > 0,
    ensures
        valid_function(f.free(operand)),
        grown(f, f.free(operand)),
        f.free(operand) == (FunctionModel { temporaries: f.free(operand).temporaries, ..f }),
        f.free(operand).temporaries <= f.temporaries,
{
}

/// The next register is the result of an instruction.
pub proof fn lemma_emit_to_next(f: FunctionModel, opcode: spec_fn(Register) -> OpCode)
    requires
        valid_function(f),
        forall|dest: Register, more: Sizes|
            dest < more.registers && more.covers(sizes(f)) ==> #[trigger] valid_opcode(
                opcode(dest),
                more,
            ),
    ensures
        f.emit_to_next(opcode) matches Ok((g, operand)) ==> {
            &&& valid_function(g)
            &&& grown(f, g)
            &&& valid_operand(operand, g)
        },
{
    lemma_take(f);
    if let Ok(g) = f.take_register() {
        lemma_emit(g, opcode(f.used() as Register));
        lemma_grown_twice(f, g, g.emit(opcode(f.used() as Register)));
    }
}

/// Two values are added.
pub proof fn lemma_sum(f: FunctionModel, left: Operand, right: Operand)
    requires
        valid_function(f),
        valid_operand(left, f),
        valid_operand(right, f),
        f.holds_two(left, right),
    ensures
        f.sum(left, right) matches Ok((g, operand)) ==> {
            &&& valid_function(g)
            &&& grown(f, g)
            &&& valid_operand(operand, g)
            &&& g.upvalues == f.upvalues
        },
{
    reveal(FunctionModel::sum);
    match (left, right) {
        (_, Operand::Value(value)) => {
            lemma_in_any_register(f, left);
            if let Ok((g, l, register)) = f.in_any_register(left) {
                lemma_constant(g, value);
                if let Ok((h, constant)) = g.constant(value) {
                    lemma_free(h, l);
                    lemma_emit_to_next(
                        h.free(l),
                        |dest: Register| OpCode::AddRC { dest, left: register, right: constant },
                    );
                    lemma_grown_twice(f, g, h);
                    lemma_grown_twice(f, h, h.free(l));
                    if let Ok((end, _)) = f.sum(left, right) {
                        lemma_grown_twice(f, h.free(l), end);
                    }
                }
            }
        },
        (Operand::Value(value), _) => {
            lemma_constant(f, value);
            if let Ok((g, constant)) = f.constant(value) {
                lemma_in_any_register(g, right);
                if let Ok((h, r, register)) = g.in_any_register(right) {
                    lemma_free(h, r);
                    lemma_emit_to_next(
                        h.free(r),
                        |dest: Register| OpCode::AddCR { dest, left: constant, right: register },
                    );
                    lemma_grown_twice(f, g, h);
                    lemma_grown_twice(f, h, h.free(r));
                    if let Ok((end, _)) = f.sum(left, right) {
                        lemma_grown_twice(f, h.free(r), end);
                    }
                }
            }
        },
        (_, _) => {
            lemma_in_any_register(f, left);
            if let Ok((g, l, left_register)) = f.in_any_register(left) {
                lemma_in_any_register(g, right);
                if let Ok((h, r, right_register)) = g.in_any_register(right) {
                    lemma_free(h, r);
                    lemma_free(h.free(r), l);
                    let freed = h.free(r).free(l);
                    lemma_emit_to_next(
                        freed,
                        |dest: Register|
                            OpCode::AddRR { dest, left: left_register, right: right_register },
                    );
                    lemma_grown_twice(f, g, h);
                    lemma_grown_twice(f, h, h.free(r));
                    lemma_grown_twice(f, h.free(r), freed);
                    if let Ok((end, _)) = f.sum(left, right) {
                        lemma_grown_twice(f, freed, end);
                    }
                }
            }
        },
    }
}

} // verus!
