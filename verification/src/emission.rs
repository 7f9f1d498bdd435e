//! What is emitted for operands, wherever the registers in use lie.

use vstd::prelude::*;

use crate::error::{CompilerError, CompilerLimit};
use crate::model::{self, FunctionModel, Operand};
use crate::opcode::{Constant, OpCode};
use crate::registers::{self, Register, RegisterFile, REGISTER_COUNT};

verus! {

/// A function under compilation with the registers that are in use. These need not be the first
/// ones, so that the code counts neither its temporaries nor its registers.
pub struct Emission {
    pub code: FunctionModel,
    pub registers: RegisterFile,
}

impl Emission {
    /// One more instruction.
    pub open spec fn emit(self, opcode: OpCode) -> Emission {
        Emission { code: self.code.emit(opcode), ..self }
    }

    /// The lowest free register is taken.
    pub open spec fn take_register(self) -> Result<(Emission, Register), CompilerError> {
        match registers::lowest_free(self.registers.used, 0) {
            Some(register) => Ok(
                (
                    Emission { registers: self.registers.allocated(register as int), ..self },
                    register as Register,
                ),
            ),
            None => model::limit(CompilerLimit::Registers),
        }
    }

    /// The register after the last one in use is taken.
    pub open spec fn push_register(self) -> Result<(Emission, Register), CompilerError> {
        if self.registers.top < REGISTER_COUNT {
            Ok(
                (
                    Emission { registers: self.registers.pushed(1), ..self },
                    self.registers.top as Register,
                ),
            )
        } else {
            model::limit(CompilerLimit::Registers)
        }
    }

    /// A temporary operand is in a register that is in use.
    pub open spec fn owns(self, operand: Operand) -> bool {
        operand matches Operand::Temporary(register) ==> self.registers.used[register as int]
    }

    /// Temporary operands are in registers that are in use, each in one of its own.
    pub open spec fn owns_two(self, left: Operand, right: Operand) -> bool {
        &&& self.owns(left)
        &&& self.owns(right)
        &&& left is Temporary ==> left != right
    }

    /// The value of an operand was used.
    pub open spec fn free(self, operand: Operand) -> Emission {
        match operand {
            Operand::Temporary(register) => Emission {
                registers: self.registers.freed(register as int),
                ..self
            },
            _ => self,
        }
    }

    /// The value of an operand is loaded into a register.
    pub open spec fn load(self, operand: Operand, dest: Register) -> Result<
        Emission,
        CompilerError,
    > {
        match self.code.load(operand, dest) {
            Ok(code) => Ok(Emission { code, ..self }),
            Err(e) => Err(e),
        }
    }

    /// The value of an operand is brought into some register, unless it is in one.
    pub open spec fn in_any_register(self, operand: Operand) -> Result<
        (Emission, Operand, Register),
        CompilerError,
    > {
        match operand {
            Operand::Temporary(register) => Ok((self, operand, register)),
            Operand::Local(register) => Ok((self, operand, register)),
            _ => match self.take_register() {
                Ok((taken, dest)) => match taken.load(operand, dest) {
                    Ok(loaded) => Ok((loaded, Operand::Temporary(dest), dest)),
                    Err(e) => Err(e),
                },
                Err(e) => Err(e),
            },
        }
    }

    /// The value of an operand is stored in a given register.
    pub open spec fn in_register(self, operand: Operand, dest: Register) -> Result<
        Emission,
        CompilerError,
    > {
        match self.load(operand, dest) {
            Ok(loaded) => Ok(loaded.free(operand)),
            Err(e) => Err(e),
        }
    }

    /// The value of an operand is brought into a register of its own, unless it is in one.
    pub open spec fn in_new_register(self, operand: Operand) -> Result<
        (Emission, Register),
        CompilerError,
    > {
        match operand {
            Operand::Temporary(register) => Ok((self, register)),
            _ => match self.take_register() {
                Ok((taken, dest)) => match taken.in_register(operand, dest) {
                    Ok(stored) => Ok((stored, dest)),
                    Err(e) => Err(e),
                },
                Err(e) => Err(e),
            },
        }
    }

    /// The value of an operand is brought into the register after the last one in use, unless it is
    /// a temporary one in the last of them.
    pub open spec fn in_top_register(self, operand: Operand) -> Result<
        (Emission, Register),
        CompilerError,
    > {
        if operand matches Operand::Temporary(register) && register + 1 == self.registers.top {
            Ok((self, operand->Temporary_0))
        } else {
            match self.push_register() {
                Ok((taken, dest)) => match taken.in_register(operand, dest) {
                    Ok(stored) => Ok((stored, dest)),
                    Err(e) => Err(e),
                },
                Err(e) => Err(e),
            }
        }
    }

    /// The lowest free register is the result of an instruction.
    pub open spec fn emit_to_lowest(self, opcode: spec_fn(Register) -> OpCode) -> Result<
        (Emission, Operand),
        CompilerError,
    > {
        match self.take_register() {
            Ok((taken, dest)) => Ok((taken.emit(opcode(dest)), Operand::Temporary(dest))),
            Err(e) => Err(e),
        }
    }

    /// Two operands are added. The sum takes the lowest register that is free once they were used.
    #[verifier::opaque]
    pub open spec fn sum(self, left: Operand, right: Operand) -> Result<
        (Emission, Operand),
        CompilerError,
    > {
        match (left, right) {
            (_, Operand::Value(value)) => match self.in_any_register(left) {
                Ok((e, left, register)) => match e.code.constant(value) {
                    Ok((code, constant)) => Emission { code, ..e }.free(left).emit_to_lowest(
                        |dest: Register|
                            OpCode::AddRC { dest, left: register, right: constant },
                    ),
                    Err(e) => Err(e),
                },
                Err(e) => Err(e),
            },
            (Operand::Value(value), _) => match self.code.constant(value) {
                Ok((code, constant)) => match (Emission { code, ..self }).in_any_register(right) {
                    Ok((e, right, register)) => e.free(right).emit_to_lowest(
                        |dest: Register|
                            OpCode::AddCR { dest, left: constant, right: register },
                    ),
                    Err(e) => Err(e),
                },
                Err(e) => Err(e),
            },
            (_, _) => match self.in_any_register(left) {
                Ok((e, left, left_register)) => match e.in_any_register(right) {
                    Ok((e, right, right_register)) => e.free(right).free(left).emit_to_lowest(
                        |dest: Register|
                            OpCode::AddRR { dest, left: left_register, right: right_register },
                    ),
                    Err(e) => Err(e),
                },
                Err(e) => Err(e),
            },
        }
    }

    /// The registers in use are the first ones: those of the locals and the temporaries of a
    /// function.
    pub open spec fn of(self, f: FunctionModel) -> bool {
        &&& self.code == (FunctionModel { temporaries: 0, stack_size: 0, ..f })
        &&& self.registers.packed()
        &&& self.registers.top == f.used()
        &&& self.registers.size == f.stack_size
        &&& self.registers.top <= self.registers.size
    }
}

/// An operand that is brought into some register is in use there. Nothing else is freed, and a new
/// register was not in use.
pub proof fn lemma_owns(e: Emission, operand: Operand)
    requires
        e.registers.used.len() == REGISTER_COUNT,
        e.owns(operand),
    ensures
        e.in_any_register(operand) matches Ok((h, there, _)) ==> {
            &&& h.registers.used.len() == e.registers.used.len()
            &&& h.owns(there)
            &&& forall|i: int| #[trigger] e.registers.used[i] && 0 <= i < e.registers.used.len()
                ==> h.registers.used[i]
            &&& there matches Operand::Temporary(r) ==> there == operand
                || !e.registers.used[r as int]
        },
{
    registers::lemma_lowest_free(e.registers.used, 0);
}

/// The lowest free register after the first ones is the one after them.
pub proof fn lemma_take_register(e: Emission, f: FunctionModel)
    requires
        e.of(f),
    ensures
        match f.take_register() {
            Ok(g) => e.take_register() matches Ok((taken, dest)) && taken.of(g) && dest == f.used(),
            Err(error) => e.take_register() == Err::<(Emission, Register), CompilerError>(error),
        },
{
    registers::lemma_lowest_free(e.registers.used, 0);
    let top = e.registers.top;
    match registers::lowest_free(e.registers.used, 0) {
        Some(register) => {
            if register < top {
                assert(e.registers.used[register as int]);
            } else if top < register {
                assert(e.registers.used[top as int]);
            }
            assert(e.registers.allocated(register as int).used =~= Seq::new(
                REGISTER_COUNT as nat,
                |i: int| i < top + 1,
            ));
        },
        None => {
            if top < REGISTER_COUNT {
                assert(e.registers.used[top as int]);
            }
        },
    }
}

/// The register after the first ones is pushed.
pub proof fn lemma_push_register(e: Emission, f: FunctionModel)
    requires
        e.of(f),
    ensures
        match f.take_register() {
            Ok(g) => e.push_register() matches Ok((taken, dest)) && taken.of(g) && dest == f.used(),
            Err(error) => e.push_register() == Err::<(Emission, Register), CompilerError>(error),
        },
{
    assert(e.registers.pushed(1).used =~= Seq::new(
        REGISTER_COUNT as nat,
        |i: int| i < e.registers.top + 1,
    ));
}

/// To free the last of the first registers leaves the others.
pub proof fn lemma_free(e: Emission, f: FunctionModel, operand: Operand)
    requires
        e.of(f),
        f.holds(operand),
    ensures
        e.owns(operand),
        e.free(operand).of(f.free(operand)),
{
    if let Operand::Temporary(register) = operand {
        let used = e.registers.used.update(register as int, false);
        let top = e.registers.top;
        assert(used =~= Seq::new(REGISTER_COUNT as nat, |i: int| i < top - 1));
        assert(registers::used_end(used, top) == registers::used_end(used, (top - 1) as nat));
        if top > 1 {
            assert(used[top - 2]);
        }
    }
}

/// To free the last two of the first registers leaves the others, in whatever order they are freed.
pub proof fn lemma_free_two(e: Emission, f: FunctionModel, left: Operand, right: Operand)
    requires
        e.of(f),
        f.holds_two(left, right) || f.holds_two(right, left),
    ensures
        e.owns_two(left, right),
        e.free(right).owns(left),
        e.free(right).free(left).of(f.free(right).free(left)),
{
    if f.holds_two(left, right) {
        lemma_free(e, f, right);
        lemma_free(e.free(right), f.free(right), left);
    } else if let Operand::Temporary(upper) = left {
        if let Operand::Temporary(lower) = right {
            let top = e.registers.top;
            let used = e.registers.used.update(lower as int, false);
            assert(used[top - 1]);
            assert(registers::used_end(used, top) == top);
            let both = used.update(upper as int, false);
            assert(both =~= Seq::new(REGISTER_COUNT as nat, |i: int| i < top - 2));
            reveal_with_fuel(registers::used_end, 3);
            if top > 2 {
                assert(both[top - 3]);
            }
        } else {
            lemma_free(e, f, left);
        }
    } else {
        lemma_free(e, f, right);
    }
}

/// To load an operand takes no registers.
pub proof fn lemma_load(e: Emission, f: FunctionModel, operand: Operand, dest: Register)
    requires
        e.of(f),
    ensures
        match f.load(operand, dest) {
            Ok(g) => e.load(operand, dest) matches Ok(loaded) && loaded.of(g),
            Err(error) => e.load(operand, dest) == Err::<Emission, CompilerError>(error),
        },
{
}

/// An operand is brought into the register after the first ones.
pub proof fn lemma_in_any_register(e: Emission, f: FunctionModel, operand: Operand)
    requires
        e.of(f),
    ensures
        match f.in_any_register(operand) {
            Ok((g, there, register)) => {
                &&& e.in_any_register(operand) matches Ok((h, t, r))
                &&& h.of(g)
                &&& t == there
                &&& r == register
            },
            Err(error) => e.in_any_register(operand) == Err::<
                (Emission, Operand, Register),
                CompilerError,
            >(error),
        },
{
    lemma_take_register(e, f);
    if let Ok((taken, dest)) = e.take_register() {
        if let Ok(g) = f.take_register() {
            lemma_load(taken, g, operand, dest);
        }
    }
}

/// An operand is stored in a register.
pub proof fn lemma_in_register(e: Emission, f: FunctionModel, operand: Operand, dest: Register)
    requires
        e.of(f),
        f.holds(operand),
    ensures
        match f.in_register(operand, dest) {
            Ok(g) => e.in_register(operand, dest) matches Ok(stored) && stored.of(g),
            Err(error) => e.in_register(operand, dest) == Err::<Emission, CompilerError>(error),
        },
{
    lemma_load(e, f, operand, dest);
    if let Ok(loaded) = e.load(operand, dest) {
        if let Ok(g) = f.load(operand, dest) {
            lemma_free(loaded, g, operand);
        }
    }
}

/// An operand is brought into a register of its own.
pub proof fn lemma_in_new_register(e: Emission, f: FunctionModel, operand: Operand)
    requires
        e.of(f),
    ensures
        match f.in_new_register(operand) {
            Ok((g, register)) => {
                &&& e.in_new_register(operand) matches Ok((h, r))
                &&& h.of(g)
                &&& r == register
            },
            Err(error) => e.in_new_register(operand) == Err::<(Emission, Register), CompilerError>(
                error,
            ),
        },
{
    lemma_take_register(e, f);
    if let Ok((taken, dest)) = e.take_register() {
        if let Ok(g) = f.take_register() {
            if !(operand is Temporary) {
                lemma_in_register(taken, g, operand, dest);
            }
        }
    }
}

/// An operand is brought into the last register in use.
pub proof fn lemma_in_top_register(e: Emission, f: FunctionModel, operand: Operand)
    requires
        e.of(f),
        f.holds(operand),
    ensures
        match f.in_new_register(operand) {
            Ok((g, register)) => {
                &&& e.in_top_register(operand) matches Ok((h, r))
                &&& h.of(g)
                &&& r == register
            },
            Err(error) => e.in_top_register(operand) == Err::<(Emission, Register), CompilerError>(
                error,
            ),
        },
{
    lemma_push_register(e, f);
    if let Ok((taken, dest)) = e.push_register() {
        if let Ok(g) = f.take_register() {
            if !(operand is Temporary) {
                lemma_in_register(taken, g, operand, dest);
            }
        }
    }
}

/// The register after the first ones is the result of an instruction.
pub proof fn lemma_emit_to_lowest(
    e: Emission,
    f: FunctionModel,
    opcode: spec_fn(Register) -> OpCode,
)
    requires
        e.of(f),
    ensures
        match f.emit_to_next(opcode) {
            Ok((g, operand)) => e.emit_to_lowest(opcode) matches Ok((h, o)) && h.of(g) && o
                == operand,
            Err(error) => e.emit_to_lowest(opcode) == Err::<(Emission, Operand), CompilerError>(
                error,
            ),
        },
{
    lemma_take_register(e, f);
}

/// A sum of operands in the last registers in use.
pub proof fn lemma_sum(e: Emission, f: FunctionModel, left: Operand, right: Operand)
    requires
        e.of(f),
        f.holds_two(left, right),
    ensures
        match f.sum(left, right) {
            Ok((g, operand)) => e.sum(left, right) matches Ok((h, o)) && h.of(g) && o == operand,
            Err(error) => e.sum(left, right) == Err::<(Emission, Operand), CompilerError>(error),
        },
{
    reveal(FunctionModel::sum);
    reveal(Emission::sum);
    match (left, right) {
        (_, Operand::Value(value)) => {
            lemma_in_any_register(e, f, left);
            if let Ok((e1, there, register)) = e.in_any_register(left) {
                if let Ok((f1, _, _)) = f.in_any_register(left) {
                    if let Ok((f2, constant)) = f1.constant(value) {
                        let e2 = Emission {
                            code: FunctionModel { temporaries: 0, stack_size: 0, ..f2 },
                            ..e1
                        };
                        lemma_free(e2, f2, there);
                        lemma_emit_to_lowest(
                            e2.free(there),
                            f2.free(there),
                            |dest: Register|
                                OpCode::AddRC { dest, left: register, right: constant },
                        );
                    }
                }
            }
        },
        (Operand::Value(value), _) => {
            if let Ok((f1, constant)) = f.constant(value) {
                let e1 = Emission {
                    code: FunctionModel { temporaries: 0, stack_size: 0, ..f1 },
                    ..e
                };
                lemma_in_any_register(e1, f1, right);
                if let Ok((e2, there, register)) = e1.in_any_register(right) {
                    if let Ok((f2, _, _)) = f1.in_any_register(right) {
                        lemma_free(e2, f2, there);
                        lemma_emit_to_lowest(
                            e2.free(there),
                            f2.free(there),
                            |dest: Register|
                                OpCode::AddCR { dest, left: constant, right: register },
                        );
                    }
                }
            }
        },
        (_, _) => {
            lemma_in_any_register(e, f, left);
            if let Ok((e1, l, left_register)) = e.in_any_register(left) {
                if let Ok((f1, _, _)) = f.in_any_register(left) {
                    lemma_in_any_register(e1, f1, right);
                    if let Ok((e2, r, right_register)) = e1.in_any_register(right) {
                        if let Ok((f2, _, _)) = f1.in_any_register(right) {
                            lemma_free_two(e2, f2, l, r);
                            lemma_emit_to_lowest(
                                e2.free(r).free(l),
                                f2.free(r).free(l),
                                |dest: Register|
                                    OpCode::AddRR {
                                        dest,
                                        left: left_register,
                                        right: right_register,
                                    },
                            );
                        }
                    }
                }
            }
        },
    }
}

/// Which registers are in use without that of an operand.
pub open spec fn without(used: Seq<bool>, operand: Operand) -> Seq<bool> {
    match operand {
        Operand::Temporary(register) => used.update(register as int, false),
        _ => used,
    }
}

/// To use an operand frees its register, and no other one is in use than before.
pub proof fn lemma_use(e: Emission, operand: Operand)
    requires
        e.registers.used.len() == REGISTER_COUNT,
        e.code.constants.len() <= Constant::MAX + 1,
    ensures
        e.in_any_register(operand) matches Ok((h, there, _)) ==> {
            &&& without(h.registers.used, there) == without(e.registers.used, operand)
            &&& h.code.locals == e.code.locals
            &&& h.code.constants.len() <= Constant::MAX + 1
        },
{
    registers::lemma_lowest_free(e.registers.used, 0);
    if let Ok((h, there, register)) = e.in_any_register(operand) {
        assert(without(h.registers.used, there) =~= without(e.registers.used, operand));
    }
}

/// A sum is in the lowest register that is free once the temporary operands are. No other register
/// is taken or freed, no local is declared, and the last instruction adds the operands, the left one
/// to the left.
pub proof fn law_sum_takes_lowest_register(e: Emission, left: Operand, right: Operand)
    requires
        e.registers.valid(),
        e.code.constants.len() <= Constant::MAX + 1,
        e.owns_two(left, right),
    ensures
        e.sum(left, right) matches Ok((h, operand)) ==> {
            let used = without(without(e.registers.used, left), right);
            let opcodes = h.code.opcodes;
            &&& registers::lowest_free(used, 0) matches Some(d)
            &&& operand == Operand::Temporary(d as Register)
            &&& h.registers.used == used.update(d as int, true)
            &&& h.code.locals == e.code.locals
            &&& opcodes.len() > 0
            &&& match opcodes.last() {
                OpCode::AddRR { dest, left: l, right: r } => {
                    &&& dest == d
                    &&& !(left is Value) && !(right is Value)
                    &&& left matches Operand::Temporary(register) ==> l == register
                    &&& left matches Operand::Local(register) ==> l == register
                    &&& right matches Operand::Temporary(register) ==> r == register
                    &&& right matches Operand::Local(register) ==> r == register
                },
                OpCode::AddRC { dest, left: l, right: r } => {
                    &&& dest == d
                    &&& right == Operand::Value(h.code.constants[r as int])
                    &&& left matches Operand::Temporary(register) ==> l == register
                    &&& left matches Operand::Local(register) ==> l == register
                },
                OpCode::AddCR { dest, left: l, right: r } => {
                    &&& dest == d
                    &&& !(right is Value)
                    &&& left == Operand::Value(h.code.constants[l as int])
                    &&& right matches Operand::Temporary(register) ==> r == register
                    &&& right matches Operand::Local(register) ==> r == register
                },
                _ => false,
            }
        },
{
    reveal(Emission::sum);
    let used = without(without(e.registers.used, left), right);
    registers::lemma_lowest_free(used, 0);
    match (left, right) {
        (_, Operand::Value(value)) => {
            lemma_use(e, left);
            if let Ok((e1, there, _)) = e.in_any_register(left) {
                model::lemma_constant_position(e1.code.constants, value, 0);
                assert(e1.free(there).registers.used == used);
            }
        },
        (Operand::Value(value), _) => {
            model::lemma_constant_position(e.code.constants, value, 0);
            if let Ok((code, _)) = e.code.constant(value) {
                let e1 = Emission { code, ..e };
                lemma_use(e1, right);
                if let Ok((e2, there, _)) = e1.in_any_register(right) {
                    assert(e2.free(there).registers.used == used);
                }
            }
        },
        (_, _) => {
            lemma_use(e, left);
            lemma_owns(e, left);
            if let Ok((e1, l, _)) = e.in_any_register(left) {
                lemma_use(e1, right);
                lemma_owns(e1, right);
                if let Ok((e2, r, _)) = e1.in_any_register(right) {
                    assert(e2.free(r).free(l).registers.used =~= used);
                }
            }
        },
    }
}

} // verus!
