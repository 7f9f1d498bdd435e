//! The instructions of the register machine.

use vstd::prelude::*;

use crate::registers::Register;

verus! {

/// The index of a constant of a function.
pub type Constant = u16;

/// The index of an upvalue of a function.
pub type UpValueIndex = u8;

/// The index of a function among those that are defined directly inside a function.
pub type PrototypeIndex = u8;

/// The number of values that a call takes, a call gives or a function returns: at most 254, or as
/// many as there are.
#[derive(Debug, Clone, Copy, PartialEq, Eq, Structural)]
pub struct VarCount(pub u8);

impl VarCount {
    /// The number of values, if it is fixed.
    pub open spec fn count(self) -> Option<nat> {
        if self.0 == 255 {
            None
        } else {
            Some(self.0 as nat)
        }
    }

    /// The count of `constant` values, if that many can be counted.
    pub open spec fn of(constant: int) -> Option<VarCount> {
        if 0 <= constant < 255 {
            Some(VarCount(constant as u8))
        } else {
            None
        }
    }

    /// No values.
    pub fn make_zero() -> (count: VarCount)
        ensures
            count.count() == Some(0nat),
            count == VarCount(0),
    {
        VarCount(0)
    }

    /// A fixed number of values, if that many can be counted.
    pub fn make_constant(constant: u8) -> (count: Option<VarCount>)
        ensures
            count == VarCount::of(constant as int),
            count is Some <==> constant < 255,
            count is Some ==> count->0.count() == Some(constant as nat),
            count matches Some(made) ==> made.0 == constant,
    {
        if constant == 255 {
            None
        } else {
            Some(VarCount(constant))
        }
    }
}

/// An instruction.
#[allow(inconsistent_fields)]
#[derive(Debug, Clone, Copy, PartialEq, Eq, Structural)]
pub enum OpCode {
    /// Copies a register.
    Move { dest: Register, source: Register },
    /// Loads a constant of the function.
    LoadConstant { dest: Register, constant: Constant },
    /// Loads a boolean, and skips the next instruction if told so.
    LoadBool { dest: Register, value: bool, skip_next: bool },
    /// Loads nil into `count` registers from `dest` on.
    LoadNil { dest: Register, count: u8 },
    GetUpValue { source: UpValueIndex, dest: Register },
    SetUpValue { source: Register, dest: UpValueIndex },
    /// Makes a closure of an inner function.
    Closure { proto: PrototypeIndex, dest: Register },
    /// Calls the function in `func` with the arguments in the registers that follow it.
    Call { func: Register, args: VarCount, returns: VarCount },
    /// Returns the values in the registers from `start` on.
    Return { start: Register, count: VarCount },
    /// Adds two registers.
    AddRR { dest: Register, left: Register, right: Register },
    /// Adds a register and a constant.
    AddRC { dest: Register, left: Register, right: Constant },
    /// Adds a constant and a register.
    AddCR { dest: Register, left: Constant, right: Register },
}

} // verus!
