//! The result of compiling a function.

use vstd::prelude::*;

use crate::opcode::{OpCode, UpValueIndex};
use crate::registers::Register;
use crate::value::{Value, ValueView};

verus! {

/// Where a closure finds an upvalue when it is made.
#[derive(Debug, Clone, Copy, PartialEq, Eq, Structural)]
pub enum UpValueDescriptor {
    /// In a register of the function that makes the closure.
    ParentLocal(Register),
    /// Among the upvalues of the function that makes the closure.
    Outer(UpValueIndex),
}

/// A compiled function.
#[derive(Debug)]
pub struct FunctionProto<'a> {
    pub fixed_params: u8,
    pub has_varargs: bool,
    pub stack_size: u16,
    pub constants: Vec<Value<'a>>,
    pub opcodes: Vec<OpCode>,
    pub upvalues: Vec<UpValueDescriptor>,
    pub prototypes: Vec<FunctionProto<'a>>,
}

/// What a [`FunctionProto`] is.
pub struct ProtoView {
    pub fixed_params: u8,
    pub has_varargs: bool,
    pub stack_size: nat,
    pub constants: Seq<ValueView>,
    pub opcodes: Seq<OpCode>,
    pub upvalues: Seq<UpValueDescriptor>,
    pub prototypes: Seq<ProtoView>,
}

/// What each of some values is.
pub open spec fn value_views(values: Seq<Value<'_>>) -> Seq<ValueView> {
    Seq::new(values.len(), |i: int| values[i]@)
}

/// What each of some functions is.
pub open spec fn proto_views(protos: Seq<FunctionProto<'_>>) -> Seq<ProtoView>
    decreases protos,
{
    Seq::new(
        protos.len(),
        |i: int|
            if 0 <= i < protos.len() {
                proto_view(protos[i])
            } else {
                arbitrary()
            },
    )
}

/// What a function is.
pub open spec fn proto_view(proto: FunctionProto<'_>) -> ProtoView
    decreases proto,
{
    ProtoView {
        fixed_params: proto.fixed_params,
        has_varargs: proto.has_varargs,
        stack_size: proto.stack_size as nat,
        constants: value_views(proto.constants@),
        opcodes: proto.opcodes@,
        upvalues: proto.upvalues@,
        prototypes: proto_views(proto.prototypes@),
    }
}

impl<'a> View for FunctionProto<'a> {
    type V = ProtoView;

    open spec fn view(&self) -> ProtoView {
        proto_view(*self)
    }
}

} // verus!
