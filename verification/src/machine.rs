//! What compiled code does when it runs.

use vstd::prelude::*;

use crate::ast::{
    Expression, HeadExpression, PrimaryExpression, SimpleExpression, SuffixedExpression,
};
use crate::model::{self, Folding, FunctionModel, Operand, Variable};
use crate::opcode::{OpCode, PrototypeIndex, VarCount};
use crate::operators::BinaryOperator;
use crate::registers::Register;
use crate::soundness;
use crate::source;
use crate::validity;
use crate::value::ValueView;

verus! {

/// What an operator gives for two values.
pub type Arithmetic = spec_fn(BinaryOperator, ValueView, ValueView) -> ValueView;

/// The value of each name.
pub type Environment = spec_fn(Seq<u8>) -> ValueView;

/// The registers and upvalues of a function that runs.
pub struct Frame {
    pub registers: Seq<ValueView>,
    pub upvalues: Seq<ValueView>,
}

/// A machine that runs a function.
pub struct Machine {
    pub arithmetic: Arithmetic,
    /// What a closure of an inner function is when it is made.
    pub closure: spec_fn(PrototypeIndex, Frame) -> ValueView,
    /// What the call of the function in a register with a number of arguments does to the frame when
    /// a number of values is asked for.
    pub call: spec_fn(Register, VarCount, VarCount, Frame) -> Frame,
    /// The number of registers of the function.
    pub registers: nat,
    /// The constants of the function.
    pub constants: Seq<ValueView>,
    /// The names of the variables of enclosing functions that the function captured.
    pub captures: Seq<Seq<u8>>,
}

impl Frame {
    /// A register is set.
    pub open spec fn set(self, register: int, value: ValueView) -> Frame {
        Frame { registers: self.registers.update(register, value), ..self }
    }

    /// Some registers are set to nil.
    pub open spec fn set_nil(self, start: int, count: int) -> Frame {
        Frame {
            registers: Seq::new(
                self.registers.len(),
                |i: int|
                    if start <= i < start + count {
                        ValueView::Nil
                    } else {
                        self.registers[i]
                    },
            ),
            ..self
        }
    }

    /// The value of an operand.
    pub open spec fn value(self, operand: Operand) -> ValueView {
        match operand {
            Operand::Temporary(register) => self.registers[register as int],
            Operand::Local(register) => self.registers[register as int],
            Operand::UpValue(index) => self.upvalues[index as int],
            Operand::Value(value) => value,
        }
    }

    /// The frame has the upvalues that it had before, and the first `count` registers too.
    pub open spec fn keeps(self, before: Frame, count: int) -> bool {
        &&& self.registers.len() == before.registers.len()
        &&& self.upvalues == before.upvalues
        &&& forall|i: int| 0 <= i < count ==> #[trigger] self.registers[i] == before.registers[i]
    }
}

/// The names that a function captured, in the order of its upvalues.
pub open spec fn captured_names(f: FunctionModel) -> Seq<Seq<u8>> {
    Seq::new(f.upvalues.len(), |i: int| f.upvalues[i].0)
}

impl Machine {
    /// One instruction runs. Nothing is said of what follows where the next instruction is not the
    /// one after it.
    pub open spec fn step(self, opcode: OpCode, frame: Frame) -> Frame {
        let registers = frame.registers;
        match opcode {
            OpCode::Move { dest, source } => frame.set(dest as int, registers[source as int]),
            OpCode::LoadConstant { dest, constant } => frame.set(
                dest as int,
                self.constants[constant as int],
            ),
            OpCode::LoadBool { dest, value, skip_next } => if skip_next {
                arbitrary()
            } else {
                frame.set(dest as int, ValueView::Boolean(value))
            },
            OpCode::LoadNil { dest, count } => frame.set_nil(dest as int, count as int),
            OpCode::GetUpValue { source, dest } => frame.set(
                dest as int,
                frame.upvalues[source as int],
            ),
            OpCode::SetUpValue { source, dest } => Frame {
                upvalues: frame.upvalues.update(dest as int, registers[source as int]),
                ..frame
            },
            OpCode::AddRR { dest, left, right } => frame.set(
                dest as int,
                self.sum(registers[left as int], registers[right as int]),
            ),
            OpCode::AddRC { dest, left, right } => frame.set(
                dest as int,
                self.sum(registers[left as int], self.constants[right as int]),
            ),
            OpCode::AddCR { dest, left, right } => frame.set(
                dest as int,
                self.sum(self.constants[left as int], registers[right as int]),
            ),
            OpCode::Closure { proto, dest } => frame.set(dest as int, (self.closure)(proto, frame)),
            OpCode::Call { func, args, returns: results } => (self.call)(func, args, results, frame),
            OpCode::Return { .. } => arbitrary(),
        }
    }

    /// Two values are added.
    pub open spec fn sum(self, left: ValueView, right: ValueView) -> ValueView {
        (self.arithmetic)(BinaryOperator::Add, left, right)
    }

    /// Instructions run one after the other.
    pub open spec fn run(self, opcodes: Seq<OpCode>, frame: Frame) -> Frame
        decreases opcodes.len(),
    {
        if opcodes.len() == 0 {
            frame
        } else {
            self.step(opcodes.last(), self.run(opcodes.drop_last(), frame))
        }
    }

    /// The machine has all that a function has.
    pub open spec fn has(self, f: FunctionModel) -> bool {
        &&& f.stack_size <= self.registers
        &&& validity::begins_with(self.constants, f.constants)
        &&& validity::begins_with(self.captures, captured_names(f))
    }

    /// The machine runs a function.
    pub open spec fn runs(self, f: FunctionModel) -> bool {
        &&& self.registers == f.stack_size
        &&& self.constants == f.constants
        &&& self.captures == captured_names(f)
    }

    /// A frame is one of the function.
    pub open spec fn fits(self, frame: Frame) -> bool {
        &&& frame.registers.len() == self.registers
        &&& frame.upvalues.len() == self.captures.len()
    }

    /// The locals and upvalues of the function hold what their names stand for.
    pub open spec fn holds(self, names: Environment, locals: Seq<Seq<u8>>, frame: Frame) -> bool {
        &&& self.fits(frame)
        &&& forall|name: Seq<u8>, position: int| #[trigger]
            source::latest(locals, name, position) ==> frame.registers[position] == names(name)
        &&& forall|i: int|
            0 <= i < self.captures.len() && !locals.contains(self.captures[i])
                ==> #[trigger] frame.upvalues[i] == names(self.captures[i])
    }

    /// What is known when a chunk is compiled is what the machine computes.
    pub open spec fn agrees_with(self, folding: Folding) -> bool {
        forall|operator: BinaryOperator, a: ValueView, b: ValueView| #[trigger]
            folding(operator, a, b) matches Some(value) ==> value == (self.arithmetic)(
                operator,
                a,
                b,
            )
    }

    /// The value of an expression.
    pub open spec fn eval(self, names: Environment, e: Expression) -> ValueView
        decreases e, e.tail@.len() + 1,
    {
        self.eval_upto(names, e, e.tail@.len())
    }

    /// The value of the head of an expression and the first `count` operators after it.
    pub open spec fn eval_upto(self, names: Environment, e: Expression, count: nat) -> ValueView
        decreases e, count,
    {
        if count == 0 {
            self.eval_head(names, *e.head)
        } else if count > e.tail@.len() {
            arbitrary()
        } else {
            let (operator, right) = e.tail@[count - 1];
            (self.arithmetic)(
                operator,
                self.eval_upto(names, e, (count - 1) as nat),
                self.eval(names, right),
            )
        }
    }

    /// The value of the first operand of an expression.
    pub open spec fn eval_head(self, names: Environment, head: HeadExpression) -> ValueView
        decreases head, 0nat,
    {
        match head {
            HeadExpression::Simple(SimpleExpression::Float(bits)) => ValueView::Number(bits),
            HeadExpression::Simple(SimpleExpression::Integer(i)) => ValueView::Integer(i),
            HeadExpression::Simple(SimpleExpression::String(s)) => ValueView::String(s@),
            HeadExpression::Simple(SimpleExpression::Nil) => ValueView::Nil,
            HeadExpression::Simple(SimpleExpression::True) => ValueView::Boolean(true),
            HeadExpression::Simple(SimpleExpression::False) => ValueView::Boolean(false),
            HeadExpression::Simple(SimpleExpression::Suffixed(suffixed)) => self.eval_suffixed(
                names,
                suffixed,
            ),
            _ => arbitrary(),
        }
    }

    /// The value of a name or of an expression in brackets.
    pub open spec fn eval_suffixed(
        self,
        names: Environment,
        suffixed: SuffixedExpression,
    ) -> ValueView
        decreases suffixed, 0nat,
    {
        match suffixed.primary {
            PrimaryExpression::Name(name) => names(name@),
            PrimaryExpression::GroupedExpression(e) => self.eval(names, e),
        }
    }
}

/// One more instruction runs after the others.
pub proof fn lemma_run_emit(m: Machine, f: FunctionModel, opcode: OpCode, frame: Frame)
    ensures
        m.run(f.emit(opcode).opcodes, frame) == m.step(opcode, m.run(f.opcodes, frame)),
{
    assert(f.opcodes.push(opcode).drop_last() =~= f.opcodes);
}

/// To load nil into a register sets that register and no other.
pub proof fn lemma_run_load_nil(m: Machine, f: FunctionModel, dest: Register, frame: Frame)
    requires
        dest < m.run(f.opcodes, frame).registers.len(),
    ensures
        m.run(f.load_nil(dest).opcodes, frame) == m.run(f.opcodes, frame).set(
            dest as int,
            ValueView::Nil,
        ),
{
    let before = m.run(f.opcodes, frame);
    let single = OpCode::LoadNil { dest, count: 1 };
    lemma_run_emit(m, f, single, frame);
    assert(before.set_nil(dest as int, 1).registers =~= before.set(
        dest as int,
        ValueView::Nil,
    ).registers);
    if f.opcodes.len() > 0 {
        if let OpCode::LoadNil { dest: first, count } = f.opcodes.last() {
            if first + count == dest && count < 255 {
                let shorter = FunctionModel { opcodes: f.opcodes.drop_last(), ..f };
                let merged = OpCode::LoadNil { dest: first, count: (count + 1) as u8 };
                lemma_run_emit(m, shorter, merged, frame);
                let start = m.run(f.opcodes.drop_last(), frame);
                assert(start.set_nil(first as int, count + 1).registers =~= before.set(
                    dest as int,
                    ValueView::Nil,
                ).registers);
            }
        }
    }
}

/// To load an operand into a register sets that register to its value, and no other.
pub proof fn lemma_run_load(
    m: Machine,
    f: FunctionModel,
    operand: Operand,
    dest: Register,
    frame: Frame,
)
    requires
        validity::valid_function(f),
        dest < m.run(f.opcodes, frame).registers.len(),
        f.load(operand, dest) matches Ok(g) ==> m.has(g),
    ensures
        f.load(operand, dest) matches Ok(g) ==> m.run(g.opcodes, frame) == m.run(
            f.opcodes,
            frame,
        ).set(dest as int, m.run(f.opcodes, frame).value(operand)),
{
    if let Ok(g) = f.load(operand, dest) {
        match operand {
            Operand::Temporary(source) => {
                lemma_run_emit(m, f, OpCode::Move { dest, source }, frame);
            },
            Operand::Local(source) => {
                lemma_run_emit(m, f, OpCode::Move { dest, source }, frame);
            },
            Operand::UpValue(source) => {
                lemma_run_emit(m, f, OpCode::GetUpValue { source, dest }, frame);
            },
            Operand::Value(ValueView::Nil) => {
                lemma_run_load_nil(m, f, dest, frame);
            },
            Operand::Value(ValueView::Boolean(value)) => {
                let opcode = OpCode::LoadBool { dest, value, skip_next: false };
                lemma_run_emit(m, f, opcode, frame);
            },
            Operand::Value(value) => {
                validity::lemma_constant(f, value);
                if let Ok((h, constant)) = f.constant(value) {
                    lemma_run_emit(m, h, OpCode::LoadConstant { dest, constant }, frame);
                }
            },
        }
    }
}

/// To load an operand into the next register changes no register that was in use.
pub proof fn lemma_run_load_next(m: Machine, f: FunctionModel, operand: Operand, frame: Frame)
    requires
        validity::valid_function(f),
        validity::valid_operand(operand, f),
        m.fits(m.run(f.opcodes, frame)),
        f.load_next(operand) matches Ok((g, _)) ==> m.has(g),
    ensures
        f.load_next(operand) matches Ok((g, register)) ==> {
            let before = m.run(f.opcodes, frame);
            let after = m.run(g.opcodes, frame);
            &&& after.keeps(before, f.used() as int)
            &&& after.registers[register as int] == before.value(operand)
        },
{
    validity::lemma_take(f);
    if let Ok((g, register)) = f.load_next(operand) {
        if let Ok(taken) = f.take_register() {
            validity::lemma_load(taken, operand, register);
            lemma_run_load(m, taken, operand, register, frame);
        }
    }
}

/// To bring an operand into some register changes no register that was in use.
pub proof fn lemma_run_in_any_register(
    m: Machine,
    f: FunctionModel,
    operand: Operand,
    frame: Frame,
)
    requires
        validity::valid_function(f),
        validity::valid_operand(operand, f),
        m.fits(m.run(f.opcodes, frame)),
        f.in_any_register(operand) matches Ok((g, _, _)) ==> m.has(g),
    ensures
        f.in_any_register(operand) matches Ok((g, there, register)) ==> {
            let before = m.run(f.opcodes, frame);
            let after = m.run(g.opcodes, frame);
            &&& after.keeps(before, f.used() as int)
            &&& after.registers[register as int] == before.value(operand)
            &&& after.value(there) == before.value(operand)
        },
{
    if !(operand is Temporary) && !(operand is Local) {
        lemma_run_load_next(m, f, operand, frame);
    }
}

/// To bring an operand into the last register in use changes no register that was in use.
pub proof fn lemma_run_in_new_register(
    m: Machine,
    f: FunctionModel,
    operand: Operand,
    frame: Frame,
)
    requires
        validity::valid_function(f),
        validity::valid_operand(operand, f),
        m.fits(m.run(f.opcodes, frame)),
        f.in_new_register(operand) matches Ok((g, _)) ==> m.has(g),
    ensures
        f.in_new_register(operand) matches Ok((g, register)) ==> {
            let before = m.run(f.opcodes, frame);
            let after = m.run(g.opcodes, frame);
            &&& after.keeps(before, f.used() as int)
            &&& after.registers[register as int] == before.value(operand)
        },
{
    if !(operand is Temporary) {
        lemma_run_load_next(m, f, operand, frame);
    }
}

/// A sum is the sum of its operands.
pub proof fn lemma_run_sum(
    m: Machine,
    f: FunctionModel,
    left: Operand,
    right: Operand,
    frame: Frame,
)
    requires
        validity::valid_function(f),
        validity::valid_operand(left, f),
        validity::valid_operand(right, f),
        f.holds_two(left, right),
        m.fits(m.run(f.opcodes, frame)),
        f.sum(left, right) matches Ok((g, _)) ==> m.has(g),
    ensures
        f.sum(left, right) matches Ok((g, operand)) ==> {
            let before = m.run(f.opcodes, frame);
            let after = m.run(g.opcodes, frame);
            &&& after.keeps(before, f.free(right).free(left).used() as int)
            &&& after.value(operand) == m.sum(before.value(left), before.value(right))
        },
{
    reveal(FunctionModel::sum);
    let before = m.run(f.opcodes, frame);
    match (left, right) {
        (_, Operand::Value(value)) => {
            validity::lemma_in_any_register(f, left);
            if let Ok((g, l, register)) = f.in_any_register(left) {
                validity::lemma_constant(g, value);
                if let Ok((h, constant)) = g.constant(value) {
                    let freed = h.free(l);
                    if let Ok(taken) = freed.take_register() {
                        lemma_run_in_any_register(m, f, left, frame);
                        let dest = freed.used() as Register;
                        let opcode = OpCode::AddRC { dest, left: register, right: constant };
                        lemma_run_emit(m, taken, opcode, frame);
                    }
                }
            }
        },
        (Operand::Value(value), _) => {
            validity::lemma_constant(f, value);
            if let Ok((g, constant)) = f.constant(value) {
                validity::lemma_in_any_register(g, right);
                if let Ok((h, r, register)) = g.in_any_register(right) {
                    let freed = h.free(r);
                    if let Ok(taken) = freed.take_register() {
                        lemma_run_in_any_register(m, g, right, frame);
                        let dest = freed.used() as Register;
                        let opcode = OpCode::AddCR { dest, left: constant, right: register };
                        lemma_run_emit(m, taken, opcode, frame);
                    }
                }
            }
        },
        (_, _) => {
            validity::lemma_in_any_register(f, left);
            if let Ok((g, l, left_register)) = f.in_any_register(left) {
                validity::lemma_in_any_register(g, right);
                if let Ok((h, r, right_register)) = g.in_any_register(right) {
                    let freed = h.free(r).free(l);
                    if let Ok(taken) = freed.take_register() {
                        lemma_run_in_any_register(m, f, left, frame);
                        lemma_run_in_any_register(m, g, right, frame);
                        let dest = freed.used() as Register;
                        let opcode = OpCode::AddRR {
                            dest,
                            left: left_register,
                            right: right_register,
                        };
                        lemma_run_emit(m, taken, opcode, frame);
                    }
                }
            }
        },
    }
}

/// What names stand for in a frame does not depend on registers above those of the locals.
pub proof fn lemma_holds(
    m: Machine,
    names: Environment,
    locals: Seq<Seq<u8>>,
    frame: Frame,
    other: Frame,
)
    requires
        m.holds(names, locals, frame),
        other.keeps(frame, locals.len() as int),
    ensures
        m.holds(names, locals, other),
{
}

/// The code of an expression computes its value, and changes no register that was in use and no
/// upvalue.
pub proof fn lemma_run_expression(
    m: Machine,
    names: Environment,
    folding: Folding,
    functions: Seq<FunctionModel>,
    e: Expression,
    frame: Frame,
)
    requires
        soundness::sound(functions),
        m.agrees_with(folding),
        m.holds(names, functions.last().locals, m.run(functions.last().opcodes, frame)),
        model::expression(folding, functions, e) matches Ok((after, _)) ==> m.has(
            after.last(),
        ),
    ensures
        model::expression(folding, functions, e) matches Ok((after, operand)) ==> {
            let before = m.run(functions.last().opcodes, frame);
            let done = m.run(after.last().opcodes, frame);
            &&& done.keeps(before, functions.last().used() as int)
            &&& done.value(operand) == m.eval(names, e)
        },
    decreases e, e.tail@.len() + 1,
{
    lemma_run_expression_upto(m, names, folding, functions, e, e.tail@.len(), frame);
}

/// The code of some operators of an expression computes their value.
pub proof fn lemma_run_expression_upto(
    m: Machine,
    names: Environment,
    folding: Folding,
    functions: Seq<FunctionModel>,
    e: Expression,
    count: nat,
    frame: Frame,
)
    requires
        soundness::sound(functions),
        m.agrees_with(folding),
        count <= e.tail@.len(),
        m.holds(names, functions.last().locals, m.run(functions.last().opcodes, frame)),
        model::expression_upto(folding, functions, e, count) matches Ok((after, _)) ==> m.has(
            after.last(),
        ),
    ensures
        model::expression_upto(folding, functions, e, count) matches Ok((after, operand)) ==> {
            let before = m.run(functions.last().opcodes, frame);
            let done = m.run(after.last().opcodes, frame);
            &&& done.keeps(before, functions.last().used() as int)
            &&& done.value(operand) == m.eval_upto(names, e, count)
        },
    decreases e, count,
{
    let before = m.run(functions.last().opcodes, frame);
    if count == 0 {
        lemma_run_head(m, names, folding, functions, *e.head, frame);
    } else {
        let less = (count - 1) as nat;
        let (operator, right_expression) = e.tail@[count - 1];
        soundness::lemma_expression_upto(folding, functions, e, less);
        if let Ok((left_done, left)) = model::expression_upto(folding, functions, e, less) {
            soundness::lemma_expression(folding, left_done, right_expression);
            if let Ok((right_done, right)) = model::expression(
                folding,
                left_done,
                right_expression,
            ) {
                soundness::lemma_binop(folding, right_done, left, operator, right);
                if let Ok((top, operand)) = right_done.last().binop(
                    folding,
                    left,
                    operator,
                    right,
                ) {
                    let right_top = right_done.last();
                    assert(validity::grown(right_top, top));
                    assert(validity::grown(left_done.last(), right_top));
                    lemma_run_expression_upto(m, names, folding, functions, e, less, frame);
                    let left_frame = m.run(left_done.last().opcodes, frame);
                    lemma_holds(m, names, functions.last().locals, before, left_frame);
                    lemma_run_expression(m, names, folding, left_done, right_expression, frame);
                    let right_frame = m.run(right_top.opcodes, frame);
                    assert(right_frame.value(left) == left_frame.value(left));
                    assert(validity::valid_function(right_done[right_done.len() - 1]));
                    if model::folded(folding, left, operator, right) is None {
                        lemma_run_sum(m, right_top, left, right, frame);
                    }
                }
            }
        }
    }
}

/// The code of the first operand of an expression computes its value.
pub proof fn lemma_run_head(
    m: Machine,
    names: Environment,
    folding: Folding,
    functions: Seq<FunctionModel>,
    head: HeadExpression,
    frame: Frame,
)
    requires
        soundness::sound(functions),
        m.agrees_with(folding),
        m.holds(names, functions.last().locals, m.run(functions.last().opcodes, frame)),
        model::head_expression(folding, functions, head) matches Ok((after, _)) ==> m.has(
            after.last(),
        ),
    ensures
        model::head_expression(folding, functions, head) matches Ok((after, operand)) ==> {
            let before = m.run(functions.last().opcodes, frame);
            let done = m.run(after.last().opcodes, frame);
            &&& done.keeps(before, functions.last().used() as int)
            &&& done.value(operand) == m.eval_head(names, head)
        },
    decreases head, 0nat,
{
    if let HeadExpression::Simple(SimpleExpression::Suffixed(suffixed)) = head {
        lemma_run_suffixed(m, names, folding, functions, suffixed, frame);
    }
}

/// The code of a name or of an expression in brackets computes its value.
pub proof fn lemma_run_suffixed(
    m: Machine,
    names: Environment,
    folding: Folding,
    functions: Seq<FunctionModel>,
    suffixed: SuffixedExpression,
    frame: Frame,
)
    requires
        soundness::sound(functions),
        m.agrees_with(folding),
        m.holds(names, functions.last().locals, m.run(functions.last().opcodes, frame)),
        model::suffixed_expression(folding, functions, suffixed) matches Ok((after, _)) ==> m.has(
            after.last(),
        ),
    ensures
        model::suffixed_expression(folding, functions, suffixed) matches Ok((after, operand)) ==> {
            let before = m.run(functions.last().opcodes, frame);
            let done = m.run(after.last().opcodes, frame);
            &&& done.keeps(before, functions.last().used() as int)
            &&& done.value(operand) == m.eval_suffixed(names, suffixed)
        },
    decreases suffixed, 0nat,
{
    match suffixed.primary {
        PrimaryExpression::Name(name) => {
            soundness::lemma_resolve(functions, name@);
            if let Ok((after, variable)) = model::resolve(functions, name@) {
                let last = functions.len() - 1;
                assert(soundness::captured_more(functions[last], after[last]));
                let top = after.last();
                soundness::lemma_last_position(top.locals, name@, top.locals.len());
                soundness::lemma_first_position(top.upvalues, name@, 0);
                match variable {
                    Variable::Local(register) => {
                        assert(source::latest(top.locals, name@, register as int));
                    },
                    Variable::UpValue(index) => {
                        if suffixed.suffixes@.len() == 0 {
                            assert(captured_names(top)[index as int] == name@);
                            assert(m.captures[index as int] == name@);
                            let before = m.run(functions.last().opcodes, frame);
                            assert(before.upvalues[index as int] == names(name@));
                        }
                    },
                    Variable::Global(_) => {},
                }
            }
        },
        PrimaryExpression::GroupedExpression(e) => {
            if suffixed.suffixes@.len() == 0 {
                lemma_run_expression(m, names, folding, functions, e, frame);
            }
        },
    }
}

} // verus!
