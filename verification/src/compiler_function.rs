//! A function under compilation.

use vstd::prelude::*;

use crate::casts::{cast_u16, cast_u8};
use crate::constants::ConstantTable;
use crate::emission::{self, Emission};
use crate::error::{CompilerError, CompilerLimit};
use crate::function::{self, FunctionProto, UpValueDescriptor};
use crate::model::{self, FunctionModel, Operand, Scope};
use crate::opcode::{Constant, OpCode, PrototypeIndex, UpValueIndex};
use crate::registers::{Register, RegisterAllocator, REGISTER_COUNT};
use crate::validity;
use crate::value::{same_bytes, Value};

verus! {

/// Where the value of an expression is to be found.
#[derive(Debug, Clone, Copy)]
pub enum ExprDescriptor<'a> {
    Temporary(Register),
    Local(Register),
    UpValue(UpValueIndex),
    Value(Value<'a>),
}

impl<'a> View for ExprDescriptor<'a> {
    type V = Operand;

    open spec fn view(&self) -> Operand {
        match *self {
            ExprDescriptor::Temporary(register) => Operand::Temporary(register),
            ExprDescriptor::Local(register) => Operand::Local(register),
            ExprDescriptor::UpValue(index) => Operand::UpValue(index),
            ExprDescriptor::Value(value) => Operand::Value(value@),
        }
    }
}

/// The names of locals.
pub open spec fn local_names(locals: Seq<(&[u8], Register)>) -> Seq<Seq<u8>> {
    Seq::new(locals.len(), |i: int| locals[i].0@)
}

/// The names of upvalues and where they come from.
pub open spec fn upvalue_views(upvalues: Seq<(&[u8], UpValueDescriptor)>) -> Seq<
    (Seq<u8>, UpValueDescriptor),
> {
    Seq::new(upvalues.len(), |i: int| (upvalues[i].0@, upvalues[i].1))
}

/// No name is captured twice.
pub open spec fn names_once(upvalues: Seq<(Seq<u8>, UpValueDescriptor)>) -> bool {
    forall|i: int, j: int|
        0 <= i < j < upvalues.len() ==> (#[trigger] upvalues[i]).0 != (#[trigger] upvalues[j]).0
}

/// A function under compilation.
pub struct CompilerFunction<'a> {
    pub constants: ConstantTable<'a>,
    pub upvalues: Vec<(&'a [u8], UpValueDescriptor)>,
    pub prototypes: Vec<FunctionProto<'a>>,
    pub register_allocator: RegisterAllocator,
    pub fixed_params: u8,
    pub locals: Vec<(&'a [u8], Register)>,
    pub opcodes: Vec<OpCode>,
}

impl<'a> CompilerFunction<'a> {
    /// What the function is.
    pub open spec fn model(&self) -> FunctionModel {
        FunctionModel {
            constants: self.constants@,
            upvalues: upvalue_views(self.upvalues@),
            prototypes: function::proto_views(self.prototypes@),
            fixed_params: self.fixed_params,
            locals: local_names(self.locals@),
            temporaries: (self.register_allocator@.top - self.locals@.len()) as nat,
            stack_size: self.register_allocator@.size,
            opcodes: self.opcodes@,
        }
    }

    /// The names of the function.
    pub open spec fn scope(&self) -> Scope {
        Scope {
            locals: Seq::new(
                self.locals@.len(),
                |i: int| (self.locals@[i].0@, self.locals@[i].1),
            ),
            upvalues: upvalue_views(self.upvalues@),
        }
    }

    /// Nothing is changed but that at most one more name is captured, which was not captured
    /// before.
    pub open spec fn captures(&self, before: &Self) -> bool {
        let old_upvalues = before.model().upvalues;
        let new_upvalues = self.model().upvalues;
        &&& *self == (CompilerFunction { upvalues: self.upvalues, ..*before })
        &&& validity::begins_with(new_upvalues, old_upvalues)
        &&& new_upvalues.len() <= old_upvalues.len() + 1
        &&& names_once(old_upvalues) ==> names_once(new_upvalues)
    }

    /// The code of the function and the registers that are in use.
    pub open spec fn emission(&self) -> Emission {
        Emission {
            code: FunctionModel { temporaries: 0, stack_size: 0, ..self.model() },
            registers: self.register_allocator@,
        }
    }

    /// Nothing is changed but the code, its constants and the registers that are in use.
    pub open spec fn extends(&self, before: &Self) -> bool {
        *self == (CompilerFunction {
            constants: self.constants,
            opcodes: self.opcodes,
            register_allocator: self.register_allocator,
            ..*before
        })
    }

    /// A function of which nothing is compiled yet.
    pub fn new() -> (f: CompilerFunction<'a>)
        ensures
            f.wf(),
            f.model() == FunctionModel::start(seq![]),
    {
        let f = CompilerFunction {
            constants: ConstantTable::new(),
            upvalues: Vec::new(),
            prototypes: Vec::new(),
            register_allocator: RegisterAllocator::default(),
            fixed_params: 0,
            locals: Vec::new(),
            opcodes: Vec::new(),
        };
        proof {
            let start = FunctionModel::start(seq![]);
            assert(f.register_allocator@.used =~= Seq::new(
                REGISTER_COUNT as nat,
                |i: int| i < f.register_allocator@.top,
            ));
            assert(f.model().upvalues =~= start.upvalues);
            assert(f.model().prototypes =~= start.prototypes);
            assert(f.model().locals =~= start.locals);
            assert(f.model().opcodes =~= start.opcodes);
            assert(f.model().constants =~= start.constants);
        }
        f
    }

    /// Makes the parameters of a function of which nothing is compiled yet its first locals.
    pub fn declare_parameters(&mut self, parameters: &'a Vec<Vec<u8>>) -> (declared: Result<
        (),
        CompilerError,
    >)
        requires
            old(self).wf(),
            old(self).model() == FunctionModel::start(seq![]),
        ensures
            match declared {
                Ok(()) => {
                    &&& parameters@.len() <= u8::MAX
                    &&& final(self).wf()
                    &&& final(self).model() == FunctionModel::start(model::names(parameters@))
                },
                Err(e) => {
                    &&& parameters@.len() > u8::MAX
                    &&& e == CompilerError::Limit(CompilerLimit::FixedParameters)
                    &&& *final(self) == *old(self)
                },
            },
    {
        let fixed_params: u8 = match cast_u8(parameters.len()) {
            Some(fixed_params) => fixed_params,
            None => return Err(CompilerError::Limit(CompilerLimit::FixedParameters)),
        };
        proof {
            assert(self.model().locals.len() == 0);
        }
        let _ = self.register_allocator.push(fixed_params);
        self.fixed_params = fixed_params;
        let ghost start = *self;
        let mut i: usize = 0;
        while i < parameters.len()
            invariant
                i <= parameters@.len() <= u8::MAX,
                *self == (CompilerFunction { locals: self.locals, ..start }),
                self.locals@.len() == i,
                forall|j: int|
                    0 <= j < i ==> {
                        &&& (#[trigger] self.locals@[j]).0@ == parameters@[j]@
                        &&& self.locals@[j].1 == j
                    },
            decreases parameters@.len() - i,
        {
            self.locals.push((parameters[i].as_slice(), cast_u8(i).unwrap()));
            i += 1;
        }
        proof {
            assert(self.register_allocator@.used =~= Seq::new(
                REGISTER_COUNT as nat,
                |i: int| i < self.register_allocator@.top,
            ));
            assert(self.model().locals =~= model::names(parameters@));
        }
        Ok(())
    }

    /// The parts of the invariant that do not speak of registers.
    pub open spec fn tables_wf(&self) -> bool {
        &&& self.constants.wf()
        &&& self.upvalues@.len() <= UpValueIndex::MAX + 1
    }

    /// The tables of the function and its registers are in order.
    pub open spec fn ordered(&self) -> bool {
        &&& self.tables_wf()
        &&& self.register_allocator.wf()
    }

    /// The invariant of the function: the registers in use are the first ones, and a local lives in
    /// the register of its position.
    pub open spec fn wf(&self) -> bool {
        &&& self.ordered()
        &&& self.register_allocator@.packed()
        &&& self.locals@.len() <= self.register_allocator@.top
        &&& forall|i: int| 0 <= i < self.locals@.len() ==> (#[trigger] self.locals@[i]).1 == i
    }

    /// The registers in use are the first ones.
    proof fn lemma_emission(&self)
        requires
            self.wf(),
        ensures
            self.emission().of(self.model()),
    {
        self.register_allocator.lemma_wf();
    }

    /// The registers in use are the first ones again after some code.
    proof fn lemma_extends(&self, before: &Self, f: FunctionModel)
        requires
            before.wf(),
            self.ordered(),
            self.extends(before),
            self.emission().of(f),
        ensures
            self.wf(),
            self.model() == f,
    {
    }

    /// Takes the lowest free register.
    pub fn take_register(&mut self) -> (taken: Result<Register, CompilerError>)
        requires
            old(self).register_allocator.wf(),
        ensures
            final(self).register_allocator.wf(),
            *final(self) == (CompilerFunction {
                register_allocator: final(self).register_allocator,
                ..*old(self)
            }),
            match old(self).emission().take_register() {
                Ok((e, register)) => {
                    &&& taken == Ok::<Register, CompilerError>(register)
                    &&& final(self).emission() == e
                },
                Err(e) => {
                    &&& taken == Err::<Register, CompilerError>(e)
                    &&& *final(self) == *old(self)
                },
            },
            old(self).wf() ==> match old(self).model().take_register() {
                Ok(f) => {
                    &&& taken == Ok::<Register, CompilerError>(old(self).model().used() as Register)
                    &&& final(self).wf()
                    &&& final(self).model() == f
                },
                Err(e) => taken == Err::<Register, CompilerError>(e),
            },
    {
        let taken: Result<Register, CompilerError> = match self.register_allocator.allocate() {
            Some(register) => Ok(register),
            None => Err(CompilerError::Limit(CompilerLimit::Registers)),
        };
        proof {
            if old(self).wf() {
                old(self).lemma_emission();
                emission::lemma_take_register(old(self).emission(), old(self).model());
                if let Ok(f) = old(self).model().take_register() {
                    self.lemma_extends(old(self), f);
                }
            }
        }
        taken
    }

    /// Frees the last registers that were taken.
    pub fn release(&mut self, count: u8)
        requires
            old(self).wf(),
            count <= old(self).model().temporaries,
        ensures
            final(self).wf(),
            final(self).model() == old(self).model().release(count as nat),
    {
        self.register_allocator.pop(count);
        assert(self.register_allocator@.used =~= Seq::new(
            REGISTER_COUNT as nat,
            |i: int| i < self.register_allocator@.top,
        ));
    }

    /// Binds a name to the register above those of the locals, which was taken before.
    pub fn declare(&mut self, name: &'a [u8], register: Register)
        requires
            old(self).wf(),
            old(self).model().temporaries > 0,
            register == old(self).model().locals.len(),
        ensures
            final(self).wf(),
            final(self).model() == old(self).model().declare(name@),
    {
        self.locals.push((name, register));
        assert(self.model().locals =~= old(self).model().locals.push(name@));
    }

    /// Frees the register of an expression, if it has one of its own.
    pub fn free_expr(&mut self, expr: ExprDescriptor<'a>)
        requires
            old(self).register_allocator.wf(),
            old(self).emission().owns(expr@),
        ensures
            final(self).register_allocator.wf(),
            *final(self) == (CompilerFunction {
                register_allocator: final(self).register_allocator,
                ..*old(self)
            }),
            final(self).emission() == old(self).emission().free(expr@),
            old(self).wf() && old(self).model().holds(expr@) ==> {
                &&& final(self).wf()
                &&& final(self).model() == old(self).model().free(expr@)
            },
    {
        if let ExprDescriptor::Temporary(r) = expr {
            self.register_allocator.free(r);
        }
        proof {
            if old(self).wf() && old(self).model().holds(expr@) {
                old(self).lemma_emission();
                emission::lemma_free(old(self).emission(), old(self).model(), expr@);
                self.lemma_extends(old(self), old(self).model().free(expr@));
            }
        }
    }

    /// Emits a LoadNil opcode, possibly combining several sequential LoadNil opcodes into one.
    pub fn load_nil(&mut self, dest: Register)
        ensures
            final(self).model() == old(self).model().load_nil(dest),
            *final(self) == (CompilerFunction { opcodes: final(self).opcodes, ..*old(self) }),
    {
        let len: usize = self.opcodes.len();
        if len > 0 {
            if let OpCode::LoadNil { dest: first, count } = self.opcodes[len - 1] {
                if first as u16 + count as u16 == dest as u16 && count < 255 {
                    let _ = self.opcodes.pop();
                    self.opcodes.push(OpCode::LoadNil { dest: first, count: count + 1 });
                    return;
                }
            }
        }
        self.opcodes.push(OpCode::LoadNil { dest, count: 1 });
    }

    /// The index of a constant, which becomes one of the function if it is not yet.
    pub fn get_constant(&mut self, constant: Value<'a>) -> (index: Result<Constant, CompilerError>)
        requires
            old(self).tables_wf(),
        ensures
            match old(self).model().constant(constant@) {
                Ok((f, c)) => {
                    &&& index == Ok::<Constant, CompilerError>(c)
                    &&& final(self).tables_wf()
                    &&& final(self).model() == f
                    &&& *final(self) == (CompilerFunction {
                        constants: final(self).constants,
                        ..*old(self)
                    })
                },
                Err(e) => {
                    &&& index == Err::<Constant, CompilerError>(e)
                    &&& *final(self) == *old(self)
                },
            },
    {
        proof {
            self.constants.lemma_wf();
            model::lemma_constant_position(self.constants@, constant@, 0);
        }
        if let Some(index) = self.constants.get(constant) {
            Ok(index)
        } else {
            match cast_u16(self.constants.len()) {
                Some(index) => {
                    self.constants.insert(constant, index);
                    Ok(index)
                },
                None => Err(CompilerError::Limit(CompilerLimit::Constants)),
            }
        }
    }

    /// Emits the code that loads the value of an expression into a given register.
    fn load_expr(&mut self, expr: ExprDescriptor<'a>, dest: Register) -> (loaded: Result<
        (),
        CompilerError,
    >)
        requires
            old(self).tables_wf(),
        ensures
            match old(self).emission().load(expr@, dest) {
                Ok(e) => {
                    &&& loaded == Ok::<(), CompilerError>(())
                    &&& final(self).tables_wf()
                    &&& final(self).emission() == e
                    &&& *final(self) == (CompilerFunction {
                        constants: final(self).constants,
                        opcodes: final(self).opcodes,
                        ..*old(self)
                    })
                },
                Err(e) => {
                    &&& loaded == Err::<(), CompilerError>(e)
                    &&& *final(self) == *old(self)
                },
            },
    {
        match expr {
            ExprDescriptor::Temporary(source) => {
                self.opcodes.push(OpCode::Move { dest, source });
            },
            ExprDescriptor::Local(source) => {
                self.opcodes.push(OpCode::Move { dest, source });
            },
            ExprDescriptor::UpValue(source) => {
                self.opcodes.push(OpCode::GetUpValue { source, dest });
            },
            ExprDescriptor::Value(value) => match value {
                Value::Nil => {
                    self.load_nil(dest);
                },
                Value::Boolean(value) => {
                    self.opcodes.push(OpCode::LoadBool { dest, value, skip_next: false });
                },
                val => {
                    let constant: Constant = match self.get_constant(val) {
                        Ok(constant) => constant,
                        Err(e) => return Err(e),
                    };
                    self.opcodes.push(OpCode::LoadConstant { dest, constant });
                },
            },
        }
        Ok(())
    }

    /// Modifies an expression to contain its result in any register, and returns that register.
    pub fn expr_any_register(&mut self, expr: &mut ExprDescriptor<'a>) -> (register: Result<
        Register,
        CompilerError,
    >)
        requires
            old(self).ordered(),
        ensures
            match old(self).emission().in_any_register(old(expr)@) {
                Ok((e, operand, r)) => {
                    &&& register == Ok::<Register, CompilerError>(r)
                    &&& final(expr)@ == operand
                    &&& final(self).ordered()
                    &&& final(self).extends(old(self))
                    &&& final(self).emission() == e
                },
                Err(e) => {
                    &&& register == Err::<Register, CompilerError>(e)
                    &&& *final(expr) == *old(expr)
                    &&& e == CompilerError::Limit(CompilerLimit::Registers) ==> *final(self)
                        == *old(self)
                    &&& *final(self) == (CompilerFunction {
                        register_allocator: final(self).register_allocator,
                        ..*old(self)
                    })
                },
            },
            old(self).wf() ==> match old(self).model().in_any_register(old(expr)@) {
                Ok((f, operand, r)) => {
                    &&& register == Ok::<Register, CompilerError>(r)
                    &&& final(expr)@ == operand
                    &&& final(self).wf()
                    &&& final(self).model() == f
                },
                Err(e) => register == Err::<Register, CompilerError>(e),
            },
    {
        proof {
            if self.wf() {
                self.lemma_emission();
                emission::lemma_in_any_register(self.emission(), self.model(), expr@);
            }
        }
        match *expr {
            ExprDescriptor::Temporary(register) => Ok(register),
            ExprDescriptor::Local(register) => Ok(register),
            source => {
                let dest: Register = match self.take_register() {
                    Ok(dest) => dest,
                    Err(e) => return Err(e),
                };
                match self.load_expr(source, dest) {
                    Ok(()) => {},
                    Err(e) => return Err(e),
                }
                *expr = ExprDescriptor::Temporary(dest);
                proof {
                    if old(self).wf() {
                        if let Ok((f, _, _)) = old(self).model().in_any_register(source@) {
                            self.lemma_extends(old(self), f);
                        }
                    }
                }
                Ok(dest)
            },
        }
    }

    /// Consumes an expression and stores the result in the given register.
    pub fn expr_to_register(&mut self, expr: ExprDescriptor<'a>, dest: Register) -> (stored: Result<
        (),
        CompilerError,
    >)
        requires
            old(self).ordered(),
            old(self).emission().owns(expr@),
        ensures
            match old(self).emission().in_register(expr@, dest) {
                Ok(e) => {
                    &&& stored == Ok::<(), CompilerError>(())
                    &&& final(self).ordered()
                    &&& final(self).extends(old(self))
                    &&& final(self).emission() == e
                },
                Err(e) => {
                    &&& stored == Err::<(), CompilerError>(e)
                    &&& *final(self) == *old(self)
                },
            },
            old(self).wf() && old(self).model().holds(expr@) ==> match old(
                self,
            ).model().in_register(expr@, dest) {
                Ok(f) => {
                    &&& stored == Ok::<(), CompilerError>(())
                    &&& final(self).wf()
                    &&& final(self).model() == f
                },
                Err(e) => stored == Err::<(), CompilerError>(e),
            },
    {
        proof {
            if self.wf() && self.model().holds(expr@) {
                self.lemma_emission();
                emission::lemma_in_register(self.emission(), self.model(), expr@, dest);
            }
        }
        match self.load_expr(expr, dest) {
            Ok(()) => {},
            Err(e) => return Err(e),
        }
        self.free_expr(expr);
        proof {
            if old(self).wf() && old(self).model().holds(expr@) {
                if let Ok(f) = old(self).model().in_register(expr@, dest) {
                    self.lemma_extends(old(self), f);
                }
            }
        }
        Ok(())
    }

    /// Consumes an expression, ensuring that its result is stored in a newly allocated register.
    pub fn expr_allocate_register(&mut self, expr: ExprDescriptor<'a>) -> (register: Result<
        Register,
        CompilerError,
    >)
        requires
            old(self).ordered(),
        ensures
            match old(self).emission().in_new_register(expr@) {
                Ok((e, r)) => {
                    &&& register == Ok::<Register, CompilerError>(r)
                    &&& final(self).ordered()
                    &&& final(self).extends(old(self))
                    &&& final(self).emission() == e
                },
                Err(e) => {
                    &&& register == Err::<Register, CompilerError>(e)
                    &&& e == CompilerError::Limit(CompilerLimit::Registers) ==> *final(self)
                        == *old(self)
                    &&& *final(self) == (CompilerFunction {
                        register_allocator: final(self).register_allocator,
                        ..*old(self)
                    })
                },
            },
            old(self).wf() ==> match old(self).model().in_new_register(expr@) {
                Ok((f, r)) => {
                    &&& register == Ok::<Register, CompilerError>(r)
                    &&& final(self).wf()
                    &&& final(self).model() == f
                },
                Err(e) => register == Err::<Register, CompilerError>(e),
            },
    {
        proof {
            if self.wf() {
                self.lemma_emission();
                emission::lemma_in_new_register(self.emission(), self.model(), expr@);
            }
        }
        match expr {
            ExprDescriptor::Temporary(register) => Ok(register),
            expr => {
                let dest: Register = match self.take_register() {
                    Ok(dest) => dest,
                    Err(e) => return Err(e),
                };
                match self.expr_to_register(expr, dest) {
                    Ok(()) => {},
                    Err(e) => return Err(e),
                }
                proof {
                    if old(self).wf() {
                        if let Ok((f, _)) = old(self).model().in_new_register(expr@) {
                            self.lemma_extends(old(self), f);
                        }
                    }
                }
                Ok(dest)
            },
        }
    }

    /// Consumes an expression, ensuring that its result is stored in a newly allocated register at
    /// the top of the stack.
    pub fn expr_push_register(&mut self, expr: ExprDescriptor<'a>) -> (register: Result<
        Register,
        CompilerError,
    >)
        requires
            old(self).ordered(),
            old(self).emission().owns(expr@),
        ensures
            match old(self).emission().in_top_register(expr@) {
                Ok((e, r)) => {
                    &&& register == Ok::<Register, CompilerError>(r)
                    &&& final(self).ordered()
                    &&& final(self).extends(old(self))
                    &&& final(self).emission() == e
                },
                Err(e) => {
                    &&& register == Err::<Register, CompilerError>(e)
                    &&& e == CompilerError::Limit(CompilerLimit::Registers) ==> *final(self)
                        == *old(self)
                    &&& *final(self) == (CompilerFunction {
                        register_allocator: final(self).register_allocator,
                        ..*old(self)
                    })
                },
            },
            old(self).wf() && old(self).model().holds(expr@) ==> match old(
                self,
            ).model().in_new_register(expr@) {
                Ok((f, r)) => {
                    &&& register == Ok::<Register, CompilerError>(r)
                    &&& r + 1 == f.used()
                    &&& final(self).wf()
                    &&& final(self).model() == f
                },
                Err(e) => register == Err::<Register, CompilerError>(e),
            },
    {
        proof {
            self.register_allocator.lemma_wf();
            if self.wf() && self.model().holds(expr@) {
                self.lemma_emission();
                emission::lemma_in_top_register(self.emission(), self.model(), expr@);
            }
        }
        if let ExprDescriptor::Temporary(register) = expr {
            if register as u16 + 1 == self.register_allocator.stack_top() {
                return Ok(register);
            }
        }
        let dest: Register = match self.register_allocator.push(1) {
            Some(dest) => dest,
            None => return Err(CompilerError::Limit(CompilerLimit::Registers)),
        };
        match self.expr_to_register(expr, dest) {
            Ok(()) => {},
            Err(e) => return Err(e),
        }
        proof {
            if old(self).wf() && old(self).model().holds(expr@) {
                if let Ok((f, _)) = old(self).model().in_new_register(expr@) {
                    self.lemma_extends(old(self), f);
                }
            }
        }
        Ok(dest)
    }

    /// Emits the addition of two expressions, whose result is a temporary one.
    pub fn add_exprs(&mut self, left: ExprDescriptor<'a>, right: ExprDescriptor<'a>) -> (added:
        Result<ExprDescriptor<'a>, CompilerError>)
        requires
            old(self).ordered(),
            old(self).emission().owns_two(left@, right@),
        ensures
            final(self).extends(old(self)),
            match old(self).emission().sum(left@, right@) {
                Ok((e, operand)) => {
                    &&& added matches Ok(expr) && expr@ == operand
                    &&& final(self).ordered()
                    &&& final(self).emission() == e
                },
                Err(e) => added == Err::<ExprDescriptor<'a>, CompilerError>(e),
            },
            old(self).wf() && old(self).model().holds_two(left@, right@) ==> match old(
                self,
            ).model().sum(left@, right@) {
                Ok((f, operand)) => {
                    &&& added matches Ok(expr) && expr@ == operand
                    &&& final(self).wf()
                    &&& final(self).model() == f
                },
                Err(e) => added == Err::<ExprDescriptor<'a>, CompilerError>(e),
            },
    {
        let added = self.emit_sum(left, right);
        proof {
            if old(self).wf() && old(self).model().holds_two(left@, right@) {
                old(self).lemma_emission();
                emission::lemma_sum(old(self).emission(), old(self).model(), left@, right@);
                if let Ok((f, _)) = old(self).model().sum(left@, right@) {
                    self.lemma_extends(old(self), f);
                }
            }
        }
        added
    }

    /// Emits the addition of two expressions.
    fn emit_sum(&mut self, left: ExprDescriptor<'a>, right: ExprDescriptor<'a>) -> (added: Result<
        ExprDescriptor<'a>,
        CompilerError,
    >)
        requires
            old(self).ordered(),
            old(self).emission().owns_two(left@, right@),
        ensures
            final(self).extends(old(self)),
            match old(self).emission().sum(left@, right@) {
                Ok((e, operand)) => {
                    &&& added matches Ok(expr) && expr@ == operand
                    &&& final(self).ordered()
                    &&& final(self).emission() == e
                },
                Err(e) => added == Err::<ExprDescriptor<'a>, CompilerError>(e),
            },
    {
        proof {
            reveal(Emission::sum);
            self.register_allocator.lemma_wf();
            emission::lemma_owns(self.emission(), left@);
        }
        match (left, right) {
            (mut left_expr, ExprDescriptor::Value(right_const)) => {
                let left: Register = match self.expr_any_register(&mut left_expr) {
                    Ok(register) => register,
                    Err(e) => return Err(e),
                };
                let right: Constant = match self.get_constant(right_const) {
                    Ok(constant) => constant,
                    Err(e) => return Err(e),
                };
                self.free_expr(left_expr);
                let dest: Register = match self.take_register() {
                    Ok(register) => register,
                    Err(e) => return Err(e),
                };
                self.opcodes.push(OpCode::AddRC { dest, left, right });
                Ok(ExprDescriptor::Temporary(dest))
            },
            (ExprDescriptor::Value(left_const), mut right_expr) => {
                let left: Constant = match self.get_constant(left_const) {
                    Ok(constant) => constant,
                    Err(e) => return Err(e),
                };
                proof {
                    emission::lemma_owns(self.emission(), right@);
                }
                let right: Register = match self.expr_any_register(&mut right_expr) {
                    Ok(register) => register,
                    Err(e) => return Err(e),
                };
                self.free_expr(right_expr);
                let dest: Register = match self.take_register() {
                    Ok(register) => register,
                    Err(e) => return Err(e),
                };
                self.opcodes.push(OpCode::AddCR { dest, left, right });
                Ok(ExprDescriptor::Temporary(dest))
            },
            (mut left_expr, mut right_expr) => {
                let left: Register = match self.expr_any_register(&mut left_expr) {
                    Ok(register) => register,
                    Err(e) => return Err(e),
                };
                proof {
                    emission::lemma_owns(self.emission(), right@);
                }
                let right: Register = match self.expr_any_register(&mut right_expr) {
                    Ok(register) => register,
                    Err(e) => return Err(e),
                };
                self.free_expr(right_expr);
                self.free_expr(left_expr);
                let dest: Register = match self.take_register() {
                    Ok(register) => register,
                    Err(e) => return Err(e),
                };
                self.opcodes.push(OpCode::AddRR { dest, left, right });
                Ok(ExprDescriptor::Temporary(dest))
            },
        }
    }

    /// The register of the local of a name that was declared last.
    pub fn find_local(&self, name: &[u8]) -> (found: Option<Register>)
        ensures
            found == model::last_local(self.scope().locals, name@, self.scope().locals.len()),
    {
        let ghost locals = self.scope().locals;
        let mut j: usize = self.locals.len();
        while j > 0
            invariant
                j <= self.locals@.len(),
                locals == self.scope().locals,
                model::last_local(locals, name@, locals.len()) == model::last_local(
                    locals,
                    name@,
                    j as nat,
                ),
            decreases j,
        {
            j -= 1;
            let (local_name, register) = self.locals[j];
            assert(locals[j as int] == (local_name@, register));
            if same_bytes(name, local_name) {
                return Some(register);
            }
        }
        None
    }

    /// The position of the upvalue of a name.
    pub fn find_upvalue(&self, name: &[u8]) -> (found: Option<usize>)
        ensures
            match found {
                Some(position) => {
                    &&& position < self.upvalues@.len()
                    &&& model::first_position(self.model().upvalues, name@, 0) == Some(
                        position as nat,
                    )
                },
                None => model::first_position(self.model().upvalues, name@, 0) is None,
            },
    {
        let ghost upvalues = self.model().upvalues;
        let mut j: usize = 0;
        while j < self.upvalues.len()
            invariant
                j <= self.upvalues@.len(),
                upvalues == upvalue_views(self.upvalues@),
                model::first_position(upvalues, name@, 0) == model::first_position(
                    upvalues,
                    name@,
                    j as nat,
                ),
            decreases self.upvalues@.len() - j,
        {
            assert(upvalues[j as int].0 == self.upvalues@[j as int].0@);
            if same_bytes(name, self.upvalues[j].0) {
                return Some(j);
            }
            j += 1;
        }
        None
    }

    /// Emits the code that makes a closure of an inner function, and binds it to a name.
    pub fn closure(&mut self, proto: FunctionProto<'a>, name: &'a [u8]) -> (made: Result<
        (),
        CompilerError,
    >)
        requires
            old(self).wf(),
            old(self).model().temporaries == 0,
        ensures
            match model::closure(old(self).model(), proto@, name@) {
                Ok(f) => {
                    &&& made == Ok::<(), CompilerError>(())
                    &&& final(self).wf()
                    &&& final(self).model() == f
                },
                Err(e) => made == Err::<(), CompilerError>(e),
            },
    {
        self.prototypes.push(proto);
        assert(self.model().prototypes =~= old(self).model().prototypes.push(proto@));
        let dest: Register = match self.take_register() {
            Ok(dest) => dest,
            Err(e) => return Err(e),
        };
        let proto: PrototypeIndex = match cast_u8(self.prototypes.len() - 1) {
            Some(proto) => proto,
            None => return Err(CompilerError::Limit(CompilerLimit::Functions)),
        };
        self.opcodes.push(OpCode::Closure { proto, dest });
        self.declare(name, dest);
        Ok(())
    }

    /// The compiled function. No register but those of the locals may be in use.
    pub fn to_proto(self) -> (proto: FunctionProto<'a>)
        requires
            self.ordered(),
            self.register_allocator@.top == self.locals@.len(),
        ensures
            proto@ == self.model().proto(),
    {
        let mut upvalues: Vec<UpValueDescriptor> = Vec::new();
        let mut i: usize = 0;
        while i < self.upvalues.len()
            invariant
                i <= self.upvalues@.len(),
                upvalues@.len() == i,
                forall|j: int| 0 <= j < i ==> #[trigger] upvalues@[j] == self.upvalues@[j].1,
            decreases self.upvalues@.len() - i,
        {
            upvalues.push(self.upvalues[i].1);
            i += 1;
        }
        assert(upvalues@ =~= self.model().proto().upvalues);
        FunctionProto {
            fixed_params: self.fixed_params,
            has_varargs: false,
            stack_size: self.register_allocator.stack_size(),
            constants: self.constants.into_values(),
            opcodes: self.opcodes,
            upvalues,
            prototypes: self.prototypes,
        }
    }
}

} // verus!
