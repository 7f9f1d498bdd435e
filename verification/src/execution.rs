//! What the compiled code of statements does when it runs.

use vstd::prelude::*;

use crate::ast::{
    AssignmentStatement, AssignmentTarget, Block, CallSuffix, Expression, FunctionCallStatement,
    FunctionStatement, LocalStatement, ReturnStatement, Statement,
};
use crate::fidelity;
use crate::machine::{self, Environment, Frame, Machine};
use crate::model::{self, Folding, FunctionModel, Operand, Variable};
use crate::opcode::{OpCode, PrototypeIndex, VarCount};
use crate::registers::Register;
use crate::soundness;
use crate::source;
use crate::validity;
use crate::value::ValueView;

verus! {

/// A name stands for a value from now on.
pub open spec fn bind(names: Environment, name: Seq<u8>, value: ValueView) -> Environment {
    |other: Seq<u8>|
        if other == name {
            value
        } else {
            names(other)
        }
}

/// A statement that declares locals or assigns to variables, and does not call or make functions.
pub open spec fn plain(statement: Statement) -> bool {
    statement is LocalStatement || statement is Assignment
}

impl Machine {
    /// The values of a list of expressions at a position, nil beyond its end.
    pub open spec fn value_at(
        self,
        names: Environment,
        values: Seq<Expression>,
        position: int,
    ) -> ValueView {
        if position < values.len() {
            self.eval(names, values[position])
        } else {
            ValueView::Nil
        }
    }

    /// The names after the first `count` ones of a local statement were declared, one after the
    /// other.
    pub open spec fn declare_upto(
        self,
        names: Environment,
        statement: LocalStatement,
        count: nat,
    ) -> Environment
        decreases count,
    {
        if count == 0 {
            names
        } else {
            let before = self.declare_upto(names, statement, (count - 1) as nat);
            bind(
                before,
                statement.names@[count - 1]@,
                self.value_at(before, statement.values@, count - 1),
            )
        }
    }

    /// The names after the first `count` targets of an assignment were assigned to, one after the
    /// other.
    pub open spec fn assign_upto(
        self,
        names: Environment,
        statement: AssignmentStatement,
        count: nat,
    ) -> Environment
        decreases count,
    {
        if count == 0 {
            names
        } else {
            let before = self.assign_upto(names, statement, (count - 1) as nat);
            match statement.targets@[count - 1] {
                AssignmentTarget::Name(name) => bind(
                    before,
                    name@,
                    self.value_at(before, statement.values@, count - 1),
                ),
                AssignmentTarget::Field(_, _) => arbitrary(),
            }
        }
    }

    /// The names after a statement.
    pub open spec fn execute(self, names: Environment, statement: Statement) -> Environment {
        match statement {
            Statement::LocalStatement(s) => self.declare_upto(names, s, s.names@.len()),
            Statement::Assignment(s) => self.assign_upto(names, s, s.targets@.len()),
            _ => arbitrary(),
        }
    }

    /// The names after the first `count` statements of a list.
    pub open spec fn execute_upto(
        self,
        names: Environment,
        statements: Seq<Statement>,
        count: nat,
    ) -> Environment
        decreases count,
    {
        if count == 0 {
            names
        } else {
            self.execute(
                self.execute_upto(names, statements, (count - 1) as nat),
                statements[count - 1],
            )
        }
    }

    /// A frame is one in which a call can be made: the value of the called expression and those of
    /// the arguments are in registers one above the other, above those of the locals.
    pub open spec fn called(
        self,
        names: Environment,
        locals: Seq<Seq<u8>>,
        statement: FunctionCallStatement,
        func: Register,
        frame: Frame,
    ) -> bool {
        &&& self.holds(names, locals, frame)
        &&& locals.len() <= func
        &&& frame.registers[func as int] == self.eval_suffixed(names, statement.head)
        &&& statement.call matches CallSuffix::Function(arguments)
        &&& forall|i: int|
            0 <= i < arguments@.len() ==> #[trigger] frame.registers[func + 1 + i] == self.eval(
                names,
                arguments@[i],
            )
    }

    /// The names after a statement of a function that has some locals and some inner functions
    /// before it. A function statement binds its name to a closure of the next inner function. A
    /// call leaves the names as the called function does.
    pub open spec fn follows(
        self,
        before: Environment,
        locals: Seq<Seq<u8>>,
        functions: nat,
        statement: Statement,
        after: Environment,
    ) -> bool {
        match statement {
            Statement::LocalStatement(_) => after == self.execute(before, statement),
            Statement::Assignment(_) => after == self.execute(before, statement),
            Statement::LocalFunction(s) => exists|frame: Frame| #[trigger]
                self.holds(before, locals, frame) && after == bind(
                    before,
                    s.name.name@,
                    (self.closure)(functions as PrototypeIndex, frame),
                ),
            Statement::FunctionCall(s) => {
                &&& s.call matches CallSuffix::Function(arguments)
                &&& arguments@.len() < 255
                &&& exists|func: Register, frame: Frame| #[trigger]
                    self.called(before, locals, s, func, frame) && self.holds(
                        after,
                        locals,
                        (self.call)(
                            func,
                            VarCount(arguments@.len() as u8),
                            VarCount(0),
                            frame,
                        ),
                    )
            },
            Statement::Other => false,
        }
    }

    /// The names after each of the statements of a function with some parameters.
    pub open spec fn history(
        self,
        names: Environment,
        parameters: Seq<Seq<u8>>,
        statements: Seq<Statement>,
        after: Seq<Environment>,
    ) -> bool {
        &&& after.len() == statements.len()
        &&& forall|i: int|
            0 <= i < statements.len() ==> self.follows(
                if i == 0 {
                    names
                } else {
                    after[i - 1]
                },
                source::locals_after(parameters, statements, i as nat),
                source::functions_before(statements, i as nat),
                #[trigger] statements[i],
                after[i],
            )
    }

    /// The code of a function with some parameters does what its body says when it runs in a frame
    /// in which names stand for values: its statements are followed one after the other, at the end
    /// the names stand for what its variables hold, and the values of its return are returned.
    pub open spec fn performs(
        self,
        opcodes: Seq<OpCode>,
        names: Environment,
        parameters: Seq<Seq<u8>>,
        body: Block,
        frame: Frame,
    ) -> bool {
        let statements = body.statements@;
        &&& validity::ends_with_return(opcodes)
        &&& exists|history: Seq<Environment>|
            {
                let end = after_all(names, history);
                &&& #[trigger] self.history(names, parameters, statements, history)
                &&& self.holds(
                    end,
                    source::locals_after(parameters, statements, statements.len()),
                    self.run(opcodes.drop_last(), frame),
                )
                &&& self.returned(opcodes, frame) == self.results(end, body)
            }
    }

    /// A call leaves a frame that is still one of the function.
    pub open spec fn calls_fit(self) -> bool {
        forall|func: Register, args: VarCount, results: VarCount, frame: Frame|
            self.fits(frame) ==> self.fits(#[trigger] (self.call)(func, args, results, frame))
    }

    /// What the names stand for in a frame.
    pub open spec fn seen(self, locals: Seq<Seq<u8>>, frame: Frame) -> Environment {
        |name: Seq<u8>|
            if locals.contains(name) {
                frame.registers[choose|position: int| source::latest(locals, name, position)]
            } else if self.captures.contains(name) {
                frame.upvalues[self.captures.index_of(name)]
            } else {
                ValueView::Nil
            }
    }

    /// The values of some expressions.
    pub open spec fn eval_all(self, names: Environment, values: Seq<Expression>) -> Seq<ValueView> {
        Seq::new(values.len(), |i: int| self.eval(names, values[i]))
    }

    /// What a block returns: the values of the expressions of its return statement, or nothing.
    /// The names are those after its statements.
    pub open spec fn results(self, names: Environment, block: Block) -> Seq<ValueView> {
        match block.return_statement {
            Some(statement) => self.eval_all(names, statement.returns@),
            None => seq![],
        }
    }

    /// The values that code returns: those in the registers of the return at its end, when the
    /// instructions before it were run.
    pub open spec fn returned(self, opcodes: Seq<OpCode>, frame: Frame) -> Seq<ValueView> {
        let end = self.run(opcodes.drop_last(), frame);
        match opcodes.last() {
            OpCode::Return { start, count: VarCount(count) } => Seq::new(
                count as nat,
                |i: int| end.registers[start + i],
            ),
            _ => arbitrary(),
        }
    }

    /// No name is captured twice.
    pub open spec fn captures_once(self) -> bool {
        self.captures.no_duplicates()
    }
}

/// The positions of names among some do not depend on what comes after those.
pub proof fn lemma_last_position_push(
    names: Seq<Seq<u8>>,
    more: Seq<u8>,
    name: Seq<u8>,
    count: nat,
)
    requires
        count <= names.len(),
    ensures
        model::last_position(names.push(more), name, count) == model::last_position(
            names,
            name,
            count,
        ),
    decreases count,
{
    if count > 0 {
        lemma_last_position_push(names, more, name, (count - 1) as nat);
    }
}

/// A new local holds what is in its register.
pub proof fn lemma_holds_declared(
    m: Machine,
    names: Environment,
    locals: Seq<Seq<u8>>,
    name: Seq<u8>,
    frame: Frame,
)
    requires
        m.holds(names, locals, frame),
    ensures
        m.holds(bind(names, name, frame.registers[locals.len() as int]), locals.push(name), frame),
{
    let value = frame.registers[locals.len() as int];
    let declared = locals.push(name);
    assert(declared[locals.len() as int] == name);
    assert forall|other: Seq<u8>, position: int| #[trigger]
        source::latest(declared, other, position) implies frame.registers[position] == bind(
        names,
        name,
        value,
    )(other) by {
        if position < locals.len() {
            assert(declared[locals.len() as int] != other);
            assert forall|i: int| position < i < locals.len() implies locals[i] != other by {
                assert(declared[i] == locals[i]);
            }
            assert(source::latest(locals, other, position));
        }
    }
    assert forall|i: int|
        0 <= i < m.captures.len() && !declared.contains(
            m.captures[i],
        ) implies #[trigger] frame.upvalues[i] == bind(names, name, value)(m.captures[i]) by {
        assert(declared.contains(name));
        if locals.contains(m.captures[i]) {
            let j = choose|j: int| 0 <= j < locals.len() && locals[j] == m.captures[i];
            assert(declared[j] == m.captures[i]);
        }
    }
}

/// The values of a local statement are in the registers of its names.
pub proof fn lemma_run_local_values_upto(
    m: Machine,
    names: Environment,
    folding: Folding,
    functions: Seq<FunctionModel>,
    statement: LocalStatement,
    count: nat,
    frame: Frame,
)
    requires
        soundness::sound(functions),
        functions.last().temporaries == 0,
        m.agrees_with(folding),
        count <= statement.values@.len(),
        m.holds(names, functions.last().locals, m.run(functions.last().opcodes, frame)),
        model::local_values_upto(folding, functions, statement, count) matches Ok(after) ==> m.has(
            after.last(),
        ),
    ensures
        model::local_values_upto(folding, functions, statement, count) matches Ok(after)
            ==> m.holds(
            m.declare_upto(
                names,
                statement,
                if count <= statement.names@.len() {
                    count
                } else {
                    statement.names@.len()
                },
            ),
            after.last().locals,
            m.run(after.last().opcodes, frame),
        ),
    decreases count,
{
    if count > 0 {
        let less = (count - 1) as nat;
        soundness::lemma_local_values_upto(folding, functions, statement, less);
        if let Ok(some) = model::local_values_upto(folding, functions, statement, less) {
            let e = statement.values@[count - 1];
            soundness::lemma_expression(folding, some, e);
            if let Ok((done, operand)) = model::expression(folding, some, e) {
                let f = done.last();
                assert(validity::valid_function(done[done.len() - 1]));
                validity::lemma_load_next(f, operand);
                if let Ok(after) = model::local_value(folding, some, statement, count - 1) {
                    lemma_run_local_values_upto(
                        m,
                        names,
                        folding,
                        functions,
                        statement,
                        less,
                        frame,
                    );
                    let shown = m.declare_upto(
                        names,
                        statement,
                        if less <= statement.names@.len() {
                            less
                        } else {
                            statement.names@.len()
                        },
                    );
                    machine::lemma_run_expression(m, shown, folding, some, e, frame);
                    let before = m.run(some.last().opcodes, frame);
                    let valued = m.run(f.opcodes, frame);
                    machine::lemma_holds(m, shown, f.locals, before, valued);
                    if count <= statement.names@.len() {
                        if let Ok((top, register)) = f.in_new_register(operand) {
                            machine::lemma_run_in_new_register(m, f, operand, frame);
                            let placed = m.run(top.opcodes, frame);
                            machine::lemma_holds(m, shown, f.locals, valued, placed);
                            lemma_holds_declared(
                                m,
                                shown,
                                f.locals,
                                statement.names@[count - 1]@,
                                placed,
                            );
                        }
                    }
                }
            }
        }
    }
}

/// The names of a local statement that have no value hold nil.
pub proof fn lemma_run_local_nils_upto(
    m: Machine,
    names: Environment,
    f: FunctionModel,
    statement: LocalStatement,
    count: nat,
    frame: Frame,
)
    requires
        validity::valid_function(f),
        f.temporaries == 0,
        count <= statement.names@.len(),
        m.holds(
            m.declare_upto(
                names,
                statement,
                if statement.values@.len() <= count {
                    statement.values@.len()
                } else {
                    count
                },
            ),
            f.locals,
            m.run(f.opcodes, frame),
        ),
        model::local_nils_upto(f, statement, count) matches Ok(g) ==> m.has(g),
    ensures
        model::local_nils_upto(f, statement, count) matches Ok(g) ==> m.holds(
            m.declare_upto(names, statement, count),
            g.locals,
            m.run(g.opcodes, frame),
        ),
    decreases count,
{
    if count > statement.values@.len() {
        let less = (count - 1) as nat;
        soundness::lemma_local_nils_upto(f, statement, less);
        if let Ok(g) = model::local_nils_upto(f, statement, less) {
            validity::lemma_take(g);
            if let Ok(taken) = g.take_register() {
                let dest = g.used() as Register;
                lemma_run_local_nils_upto(m, names, f, statement, less, frame);
                let shown = m.declare_upto(names, statement, less);
                let before = m.run(g.opcodes, frame);
                machine::lemma_run_load_nil(m, taken, dest, frame);
                let loaded = m.run(taken.load_nil(dest).opcodes, frame);
                machine::lemma_holds(m, shown, g.locals, before, loaded);
                lemma_holds_declared(
                    m,
                    shown,
                    g.locals,
                    statement.names@[count - 1]@,
                    loaded,
                );
            }
        }
    }
}

/// The code of a local statement declares its names.
pub proof fn lemma_run_local_statement(
    m: Machine,
    names: Environment,
    folding: Folding,
    functions: Seq<FunctionModel>,
    statement: LocalStatement,
    frame: Frame,
)
    requires
        soundness::sound(functions),
        functions.last().temporaries == 0,
        m.agrees_with(folding),
        m.holds(names, functions.last().locals, m.run(functions.last().opcodes, frame)),
        model::local_statement(folding, functions, statement) matches Ok(after) ==> m.has(
            after.last(),
        ),
    ensures
        model::local_statement(folding, functions, statement) matches Ok(after) ==> m.holds(
            m.declare_upto(names, statement, statement.names@.len()),
            after.last().locals,
            m.run(after.last().opcodes, frame),
        ),
{
    let values = statement.values@.len();
    let count = statement.names@.len();
    soundness::lemma_local_values_upto(folding, functions, statement, values);
    if let Ok(done) = model::local_values_upto(folding, functions, statement, values) {
        assert(validity::valid_function(done[done.len() - 1]));
        soundness::lemma_local_nils_upto(done.last(), statement, count);
        if let Ok(top) = model::local_nils_upto(done.last(), statement, count) {
            assert(model::with_top(done, top).last() == top);
            lemma_run_local_values_upto(m, names, folding, functions, statement, values, frame);
            lemma_run_local_nils_upto(m, names, done.last(), statement, count, frame);
        }
    }
}

/// A local that is assigned to holds the value, and nothing else changes.
pub proof fn lemma_holds_local(
    m: Machine,
    names: Environment,
    locals: Seq<Seq<u8>>,
    name: Seq<u8>,
    dest: int,
    frame: Frame,
    value: ValueView,
)
    requires
        m.holds(names, locals, frame),
        locals.len() <= m.registers,
        source::latest(locals, name, dest),
    ensures
        m.holds(bind(names, name, value), locals, frame.set(dest, value)),
{
    let after = frame.set(dest, value);
    assert forall|other: Seq<u8>, position: int| #[trigger]
        source::latest(locals, other, position) implies after.registers[position] == bind(
        names,
        name,
        value,
    )(other) by {
        if other == name {
            assert(position == dest);
        }
    }
}

/// An upvalue that is assigned to holds the value, and nothing else changes.
pub proof fn lemma_holds_upvalue(
    m: Machine,
    names: Environment,
    locals: Seq<Seq<u8>>,
    dest: int,
    frame: Frame,
    value: ValueView,
)
    requires
        m.captures_once(),
        m.holds(names, locals, frame),
        0 <= dest < m.captures.len(),
        !locals.contains(m.captures[dest]),
    ensures
        m.holds(
            bind(names, m.captures[dest], value),
            locals,
            (Frame { upvalues: frame.upvalues.update(dest, value), ..frame }),
        ),
{
    let name = m.captures[dest];
    let after = Frame { upvalues: frame.upvalues.update(dest, value), ..frame };
    assert forall|other: Seq<u8>, position: int| #[trigger]
        source::latest(locals, other, position) implies after.registers[position] == bind(
        names,
        name,
        value,
    )(other) by {
        assert(locals[position] == other);
    }
    assert forall|i: int|
        0 <= i < m.captures.len() && !locals.contains(
            m.captures[i],
        ) implies #[trigger] after.upvalues[i] == bind(names, name, value)(m.captures[i]) by {
        if i != dest {
            assert(frame.upvalues[i] == names(m.captures[i]));
        }
    }
}

/// The code of an assignment to a name stores the value there.
pub proof fn lemma_run_assign(
    m: Machine,
    names: Environment,
    functions: Seq<FunctionModel>,
    name: Vec<u8>,
    operand: Operand,
    frame: Frame,
)
    requires
        soundness::sound(functions),
        functions.last().holds(operand),
        validity::valid_operand(operand, functions.last()),
        m.captures_once(),
        m.holds(names, functions.last().locals, m.run(functions.last().opcodes, frame)),
        model::assign(functions, AssignmentTarget::Name(name), operand) matches Ok(after) ==> m.has(
            after.last(),
        ),
    ensures
        model::assign(functions, AssignmentTarget::Name(name), operand) matches Ok(after)
            ==> m.holds(
            bind(names, name@, m.run(functions.last().opcodes, frame).value(operand)),
            after.last().locals,
            m.run(after.last().opcodes, frame),
        ),
{
    let target = AssignmentTarget::Name(name);
    soundness::lemma_resolve(functions, name@);
    soundness::lemma_assign(functions, target, operand);
    if let Ok((found, variable)) = model::resolve(functions, name@) {
        let last = functions.len() - 1;
        assert(soundness::captured_more(functions[last], found[last]));
        assert(validity::valid_function(found[last]));
        let f = found.last();
        let before = m.run(f.opcodes, frame);
        let value = before.value(operand);
        soundness::lemma_last_position(f.locals, name@, f.locals.len());
        soundness::lemma_first_position(f.upvalues, name@, 0);
        if let Ok(after) = model::assign(functions, target, operand) {
            match variable {
                Variable::Local(dest) => {
                    validity::lemma_load(f, operand, dest);
                    machine::lemma_run_load(m, f, operand, dest, frame);
                    assert(source::latest(f.locals, name@, dest as int));
                    lemma_holds_local(m, names, f.locals, name@, dest as int, before, value);
                },
                Variable::UpValue(dest) => {
                    validity::lemma_in_any_register(f, operand);
                    if let Ok((top, there, source)) = f.in_any_register(operand) {
                        machine::lemma_run_in_any_register(m, f, operand, frame);
                        let placed = m.run(top.opcodes, frame);
                        machine::lemma_holds(m, names, f.locals, before, placed);
                        machine::lemma_run_emit(
                            m,
                            top,
                            OpCode::SetUpValue { source, dest },
                            frame,
                        );
                        assert(machine::captured_names(f)[dest as int] == name@);
                        assert(m.captures[dest as int] == name@);
                        lemma_holds_upvalue(m, names, f.locals, dest as int, placed, value);
                    }
                },
                Variable::Global(_) => {},
            }
        }
    }
}

/// The code of an assignment assigns to its targets one after the other.
pub proof fn lemma_run_assignment_upto(
    m: Machine,
    names: Environment,
    folding: Folding,
    functions: Seq<FunctionModel>,
    statement: AssignmentStatement,
    count: nat,
    frame: Frame,
)
    requires
        soundness::sound(functions),
        m.agrees_with(folding),
        m.captures_once(),
        count <= statement.targets@.len(),
        m.holds(names, functions.last().locals, m.run(functions.last().opcodes, frame)),
        model::assignment_upto(folding, functions, statement, count) matches Ok(after) ==> m.has(
            after.last(),
        ),
    ensures
        model::assignment_upto(folding, functions, statement, count) matches Ok(after) ==> m.holds(
            m.assign_upto(names, statement, count),
            after.last().locals,
            m.run(after.last().opcodes, frame),
        ),
    decreases count,
{
    if count > 0 {
        let less = (count - 1) as nat;
        soundness::lemma_assignment_upto(folding, functions, statement, less);
        if let Ok(some) = model::assignment_upto(folding, functions, statement, less) {
            if count - 1 < statement.values@.len() {
                soundness::lemma_expression(folding, some, statement.values@[count - 1]);
            }
            if let Ok((done, operand)) = model::assigned_value(
                folding,
                some,
                statement,
                count - 1,
            ) {
                assert(soundness::kept(some, done));
                let target = statement.targets@[count - 1];
                soundness::lemma_assign(done, target, operand);
                if let Ok(after) = model::assign(done, target, operand) {
                    lemma_run_assignment_upto(
                        m,
                        names,
                        folding,
                        functions,
                        statement,
                        less,
                        frame,
                    );
                    let shown = m.assign_upto(names, statement, less);
                    let before = m.run(some.last().opcodes, frame);
                    let valued = m.run(done.last().opcodes, frame);
                    if count - 1 < statement.values@.len() {
                        let e = statement.values@[count - 1];
                        machine::lemma_run_expression(m, shown, folding, some, e, frame);
                    }
                    machine::lemma_holds(m, shown, some.last().locals, before, valued);
                    if let AssignmentTarget::Name(name) = target {
                        lemma_run_assign(m, shown, done, name, operand, frame);
                    }
                }
            }
        }
    }
}

/// The code of expressions that are brought into registers of their own computes their values
/// there.
pub proof fn lemma_run_push_upto(
    m: Machine,
    names: Environment,
    folding: Folding,
    functions: Seq<FunctionModel>,
    expressions: Seq<Expression>,
    count: nat,
    frame: Frame,
)
    requires
        soundness::sound(functions),
        m.agrees_with(folding),
        count <= expressions.len(),
        m.holds(names, functions.last().locals, m.run(functions.last().opcodes, frame)),
        model::push_upto(folding, functions, expressions, count) matches Ok(after) ==> m.has(
            after.last(),
        ),
    ensures
        model::push_upto(folding, functions, expressions, count) matches Ok(after) ==> {
            let before = m.run(functions.last().opcodes, frame);
            let done = m.run(after.last().opcodes, frame);
            let start = functions.last().used();
            &&& done.keeps(before, start as int)
            &&& forall|i: int|
                0 <= i < count ==> #[trigger] done.registers[start + i] == m.eval(
                    names,
                    expressions[i],
                )
        },
    decreases count,
{
    if count > 0 {
        let less = (count - 1) as nat;
        let e = expressions[count - 1];
        soundness::lemma_push_upto(folding, functions, expressions, less);
        if let Ok(some) = model::push_upto(folding, functions, expressions, less) {
            soundness::lemma_expression(folding, some, e);
            if let Ok((done, operand)) = model::expression(folding, some, e) {
                soundness::lemma_in_new_register(done, operand);
                assert(validity::valid_function(done[done.len() - 1]));
                if let Ok((top, register)) = done.last().in_new_register(operand) {
                    let locals = functions.last().locals;
                    let before = m.run(functions.last().opcodes, frame);
                    lemma_run_push_upto(m, names, folding, functions, expressions, less, frame);
                    let pushed = m.run(some.last().opcodes, frame);
                    machine::lemma_holds(m, names, locals, before, pushed);
                    machine::lemma_run_expression(m, names, folding, some, e, frame);
                    let valued = m.run(done.last().opcodes, frame);
                    machine::lemma_run_in_new_register(m, done.last(), operand, frame);
                    let after = m.run(top.opcodes, frame);
                    let start = functions.last().used();
                    assert forall|i: int| 0 <= i < count implies #[trigger] after.registers[start
                        + i] == m.eval(names, expressions[i]) by {
                        if i < less {
                            assert(pushed.registers[start + i] == m.eval(names, expressions[i]));
                            assert(valued.registers[start + i] == pushed.registers[start + i]);
                        }
                    }
                }
            }
        }
    }
}

/// The code of a return statement returns the values of its expressions.
pub proof fn lemma_run_return(
    m: Machine,
    names: Environment,
    folding: Folding,
    functions: Seq<FunctionModel>,
    statement: ReturnStatement,
    frame: Frame,
)
    requires
        soundness::sound(functions),
        m.agrees_with(folding),
        m.holds(names, functions.last().locals, m.run(functions.last().opcodes, frame)),
        model::return_statement(folding, functions, statement) matches Ok(after) ==> m.has(
            after.last(),
        ),
    ensures
        model::return_statement(folding, functions, statement) matches Ok(after) ==> {
            let opcodes = after.last().opcodes;
            &&& m.returned(opcodes, frame) == m.eval_all(names, statement.returns@)
            &&& after.last().locals == functions.last().locals
            &&& m.holds(names, functions.last().locals, m.run(opcodes.drop_last(), frame))
        },
{
    let locals = functions.last().locals;
    let before = m.run(functions.last().opcodes, frame);
    let values = statement.returns@;
    if let Ok(after) = model::return_statement(folding, functions, statement) {
        if values.len() == 0 {
            assert(after.last().opcodes.drop_last() =~= functions.last().opcodes);
        } else if values.len() == 1 {
            soundness::lemma_expression(folding, functions, values[0]);
            if let Ok((done, operand)) = model::expression(folding, functions, values[0]) {
                assert(validity::valid_function(done[done.len() - 1]));
                validity::lemma_in_any_register(done.last(), operand);
                if let Ok((top, there, start)) = done.last().in_any_register(operand) {
                    machine::lemma_run_expression(m, names, folding, functions, values[0], frame);
                    machine::lemma_run_in_any_register(m, done.last(), operand, frame);
                    assert(after.last().opcodes.drop_last() =~= top.opcodes);
                }
            }
        } else {
            soundness::lemma_push_upto(folding, functions, values, values.len());
            if let Ok(done) = model::push_upto(folding, functions, values, values.len()) {
                lemma_run_push_upto(m, names, folding, functions, values, values.len(), frame);
                assert(after.last().opcodes.drop_last() =~= done.last().opcodes);
                assert(validity::valid_function(done[done.len() - 1]));
            }
        }
        machine::lemma_holds(
            m,
            names,
            locals,
            before,
            m.run(after.last().opcodes.drop_last(), frame),
        );
        assert(m.returned(after.last().opcodes, frame) =~= m.eval_all(names, values));
    }
}

/// The names that are seen in a frame stand for what it holds.
pub proof fn lemma_seen(m: Machine, locals: Seq<Seq<u8>>, frame: Frame)
    requires
        m.captures_once(),
        m.fits(frame),
    ensures
        m.holds(m.seen(locals, frame), locals, frame),
{
    assert forall|name: Seq<u8>, position: int| #[trigger]
        source::latest(locals, name, position) implies frame.registers[position] == m.seen(
        locals,
        frame,
    )(name) by {
        assert(locals[position] == name);
        let found = choose|p: int| source::latest(locals, name, p);
        assert(source::latest(locals, name, found));
        assert(found == position);
    }
    assert forall|i: int|
        0 <= i < m.captures.len() && !locals.contains(
            m.captures[i],
        ) implies #[trigger] frame.upvalues[i] == m.seen(locals, frame)(m.captures[i]) by {
        let found = m.captures.index_of(m.captures[i]);
        assert(m.captures.contains(m.captures[i]));
        assert(m.captures[found] == m.captures[i]);
    }
}

/// When a call is run, the value of the called expression and those of the arguments are in
/// registers one above the other.
pub proof fn lemma_run_function_call(
    m: Machine,
    names: Environment,
    folding: Folding,
    functions: Seq<FunctionModel>,
    statement: FunctionCallStatement,
    frame: Frame,
)
    requires
        soundness::sound(functions),
        functions.last().temporaries == 0,
        m.agrees_with(folding),
        m.holds(names, functions.last().locals, m.run(functions.last().opcodes, frame)),
        model::function_call(folding, functions, statement) matches Ok(after) ==> m.has(
            after.last(),
        ),
    ensures
        model::function_call(folding, functions, statement) matches Ok(after) ==> {
            let opcodes = after.last().opcodes;
            let ready = m.run(opcodes.drop_last(), frame);
            &&& opcodes.len() > 0
            &&& statement.call matches CallSuffix::Function(arguments)
            &&& opcodes.last() matches OpCode::Call { func, args, returns: results }
            &&& args.0 == arguments@.len()
            &&& results.0 == 0
            &&& ready.registers[func as int] == m.eval_suffixed(names, statement.head)
            &&& forall|i: int|
                0 <= i < arguments@.len() ==> #[trigger] ready.registers[func + 1 + i] == m.eval(
                    names,
                    arguments@[i],
                )
            &&& m.holds(names, functions.last().locals, ready)
            &&& func == functions.last().locals.len()
            &&& after.last().locals == functions.last().locals
        },
{
    soundness::lemma_suffixed_expression(folding, functions, statement.head);
    if let Ok((headed, operand)) = model::suffixed_expression(folding, functions, statement.head) {
        soundness::lemma_in_new_register(headed, operand);
        if let Ok((top, func)) = headed.last().in_new_register(operand) {
            let ready = model::with_top(headed, top);
            if let CallSuffix::Function(arguments) = statement.call {
                let count = arguments@.len();
                soundness::lemma_push_upto(folding, ready, arguments@, count);
                if let Ok(done) = model::push_upto(folding, ready, arguments@, count) {
                    if let Ok(after) = model::function_call(folding, functions, statement) {
                        let locals = functions.last().locals;
                        let before = m.run(functions.last().opcodes, frame);
                        assert(validity::valid_function(headed[headed.len() - 1]));
                        machine::lemma_run_suffixed(
                            m,
                            names,
                            folding,
                            functions,
                            statement.head,
                            frame,
                        );
                        machine::lemma_run_in_new_register(m, headed.last(), operand, frame);
                        let placed = m.run(top.opcodes, frame);
                        machine::lemma_holds(m, names, locals, before, placed);
                        lemma_run_push_upto(
                            m,
                            names,
                            folding,
                            ready,
                            arguments@,
                            count,
                            frame,
                        );
                        let end = m.run(done.last().opcodes, frame);
                        machine::lemma_holds(m, names, locals, placed, end);
                        assert(after.last().opcodes.drop_last() =~= done.last().opcodes);
                    }
                }
            }
        }
    }
}

/// The code of a function statement binds its name to a closure.
pub proof fn lemma_run_local_function(
    m: Machine,
    names: Environment,
    folding: Folding,
    functions: Seq<FunctionModel>,
    statement: FunctionStatement,
    frame: Frame,
)
    requires
        soundness::sound(functions),
        functions.last().temporaries == 0,
        m.holds(names, functions.last().locals, m.run(functions.last().opcodes, frame)),
        model::local_function(folding, functions, statement) matches Ok(after) ==> m.has(
            after.last(),
        ),
    ensures
        model::local_function(folding, functions, statement) matches Ok(after) ==> {
            let before = m.run(functions.last().opcodes, frame);
            let value = (m.closure)(functions.last().prototypes.len() as PrototypeIndex, before);
            m.holds(
                bind(names, statement.name.name@, value),
                after.last().locals,
                m.run(after.last().opcodes, frame),
            )
        },
{
    soundness::lemma_local_function(folding, functions, statement);
    if let Ok(after) = model::local_function(folding, functions, statement) {
        let parameters = model::names(statement.definition.parameters@);
        let begun = functions.push(FunctionModel::start(parameters));
        soundness::lemma_begin(functions, parameters);
        soundness::lemma_block(folding, begun, statement.definition.body);
        if let Ok(compiled) = model::block(folding, begun, statement.definition.body) {
            let last = functions.len() - 1;
            assert(soundness::captured_more(begun[last], compiled[last]));
            assert(validity::valid_function(after[last]));
            let f = compiled[last];
            let locals = functions.last().locals;
            let proto = f.prototypes.len() as PrototypeIndex;
            let dest = f.used() as Register;
            machine::lemma_run_emit(m, f, OpCode::Closure { proto, dest }, frame);
            let before = m.run(f.opcodes, frame);
            let made = m.run(after.last().opcodes, frame);
            machine::lemma_holds(m, names, locals, before, made);
            lemma_holds_declared(m, names, locals, statement.name.name@, made);
        }
    }
}

/// The code of a statement does what the statement says.
pub proof fn lemma_run_statement(
    m: Machine,
    names: Environment,
    folding: Folding,
    functions: Seq<FunctionModel>,
    statement: Statement,
    frame: Frame,
) -> (after_names: Environment)
    requires
        soundness::sound(functions),
        functions.last().temporaries == 0,
        m.agrees_with(folding),
        m.captures_once(),
        statement is FunctionCall ==> m.calls_fit(),
        m.holds(names, functions.last().locals, m.run(functions.last().opcodes, frame)),
        model::statement(folding, functions, statement) matches Ok(after) ==> m.has(after.last()),
    ensures
        model::statement(folding, functions, statement) matches Ok(after) ==> {
            &&& m.follows(
                names,
                functions.last().locals,
                functions.last().prototypes.len(),
                statement,
                after_names,
            )
            &&& m.holds(after_names, after.last().locals, m.run(after.last().opcodes, frame))
        },
{
    let before = m.run(functions.last().opcodes, frame);
    match statement {
        Statement::LocalStatement(s) => {
            lemma_run_local_statement(m, names, folding, functions, s, frame);
            m.execute(names, statement)
        },
        Statement::Assignment(s) => {
            let targets = s.targets@.len();
            lemma_run_assignment_upto(m, names, folding, functions, s, targets, frame);
            m.execute(names, statement)
        },
        Statement::LocalFunction(s) => {
            lemma_run_local_function(m, names, folding, functions, s, frame);
            let index = functions.last().prototypes.len() as PrototypeIndex;
            bind(names, s.name.name@, (m.closure)(index, before))
        },
        Statement::FunctionCall(s) => {
            lemma_run_function_call(m, names, folding, functions, s, frame);
            match model::function_call(folding, functions, s) {
                Ok(after) => {
                    let locals = functions.last().locals;
                    let opcodes = after.last().opcodes;
                    let ready = m.run(opcodes.drop_last(), frame);
                    let done = m.run(opcodes, frame);
                    lemma_seen(m, locals, done);
                    if let OpCode::Call { func, args, .. } = opcodes.last() {
                        assert(m.called(names, locals, s, func, ready));
                        if let CallSuffix::Function(arguments) = s.call {
                            assert(args == VarCount(arguments@.len() as u8));
                            assert(done == (m.call)(func, args, VarCount(0), ready));
                        }
                    }
                    m.seen(locals, done)
                },
                Err(_) => names,
            }
        },
        Statement::Other => names,
    }
}

/// The code of statements does what they say, one after the other.
pub proof fn lemma_run_statements_upto(
    m: Machine,
    names: Environment,
    folding: Folding,
    functions: Seq<FunctionModel>,
    parameters: Seq<Seq<u8>>,
    block: Block,
    count: nat,
    frame: Frame,
) -> (history: Seq<Environment>)
    requires
        soundness::sound(functions),
        functions.last() == FunctionModel::start(parameters),
        m.agrees_with(folding),
        m.captures_once(),
        forall|i: int|
            0 <= i < count && #[trigger] block.statements@[i] is FunctionCall ==> m.calls_fit(),
        count <= block.statements@.len(),
        m.holds(names, functions.last().locals, m.run(functions.last().opcodes, frame)),
        model::statements_upto(folding, functions, block, count) matches Ok(after) ==> m.has(
            after.last(),
        ),
    ensures
        model::statements_upto(folding, functions, block, count) matches Ok(after) ==> {
            &&& m.history(names, parameters, block.statements@.take(count as int), history)
            &&& m.holds(
                after_all(names, history),
                after.last().locals,
                m.run(after.last().opcodes, frame),
            )
        },
    decreases count,
{
    if count == 0 {
        seq![]
    } else {
        let less = (count - 1) as nat;
        soundness::lemma_statements_upto(folding, functions, block, less);
        match model::statements_upto(folding, functions, block, less) {
            Ok(some) => {
                let statement = block.statements@[count - 1];
                soundness::lemma_statement(folding, some, statement);
                match model::statement(folding, some, statement) {
                    Ok(after) => {
                        let history = lemma_run_statements_upto(
                            m,
                            names,
                            folding,
                            functions,
                            parameters,
                            block,
                            less,
                            frame,
                        );
                        fidelity::lemma_declares_upto(folding, functions, parameters, block, less);
                        let shown = after_all(names, history);
                        let last = lemma_run_statement(m, shown, folding, some, statement, frame);
                        let statements = block.statements@.take(count as int);
                        let more = history.push(last);
                        assert forall|i: int| 0 <= i < statements.len() implies m.follows(
                            if i == 0 {
                                names
                            } else {
                                more[i - 1]
                            },
                            source::locals_after(parameters, statements, i as nat),
                            source::functions_before(statements, i as nat),
                            #[trigger] statements[i],
                            more[i],
                        ) by {
                            let all = block.statements@;
                            source::lemma_prefix(parameters, all, count as int, i as nat);
                            if i < less {
                                assert(all.take(less as int)[i] == statements[i]);
                                source::lemma_prefix(parameters, all, less as int, i as nat);
                            }
                        }
                        more
                    },
                    Err(_) => seq![],
                }
            },
            Err(_) => seq![],
        }
    }
}

/// The names at the end of a history.
pub open spec fn after_all(names: Environment, history: Seq<Environment>) -> Environment {
    if history.len() == 0 {
        names
    } else {
        history.last()
    }
}

/// The code of the body of a function returns what the body says.
pub proof fn lemma_run_block(
    m: Machine,
    names: Environment,
    folding: Folding,
    functions: Seq<FunctionModel>,
    parameters: Seq<Seq<u8>>,
    block: Block,
    frame: Frame,
) -> (history: Seq<Environment>)
    requires
        soundness::sound(functions),
        functions.last() == FunctionModel::start(parameters),
        m.agrees_with(folding),
        m.captures_once(),
        forall|i: int|
            0 <= i < block.statements@.len() && #[trigger] block.statements@[i] is FunctionCall
                ==> m.calls_fit(),
        m.holds(names, functions.last().locals, m.run(functions.last().opcodes, frame)),
        model::block(folding, functions, block) matches Ok(after) ==> m.has(after.last()),
    ensures
        model::block(folding, functions, block) matches Ok(after) ==> {
            &&& m.history(names, parameters, block.statements@, history)
            &&& m.performs(after.last().opcodes, names, parameters, block, frame)
            &&& m.returned(after.last().opcodes, frame) == m.results(
                after_all(names, history),
                block,
            )
        },
{
    let count = block.statements@.len();
    soundness::lemma_statements_upto(folding, functions, block, count);
    match model::statements_upto(folding, functions, block, count) {
        Ok(done) => match model::block(folding, functions, block) {
            Ok(after) => {
                if let Some(statement) = block.return_statement {
                    soundness::lemma_return_statement(folding, done, statement);
                }
                let history = lemma_run_statements_upto(
                    m,
                    names,
                    folding,
                    functions,
                    parameters,
                    block,
                    count,
                    frame,
                );
                fidelity::lemma_declares_upto(folding, functions, parameters, block, count);
                soundness::lemma_block(folding, functions, block);
                assert(block.statements@.take(count as int) =~= block.statements@);
                let shown = after_all(names, history);
                match block.return_statement {
                    Some(statement) => {
                        lemma_run_return(m, shown, folding, done, statement, frame);
                    },
                    None => {
                        assert(after.last().opcodes.drop_last() =~= done.last().opcodes);
                        assert(m.returned(after.last().opcodes, frame) =~= seq![]);
                    },
                }
                history
            },
            Err(_) => seq![],
        },
        Err(_) => seq![],
    }
}

/// Where there are neither calls nor functions, there is one history only.
pub proof fn lemma_plain_history(
    m: Machine,
    names: Environment,
    parameters: Seq<Seq<u8>>,
    statements: Seq<Statement>,
    history: Seq<Environment>,
    count: nat,
)
    requires
        m.history(names, parameters, statements, history),
        forall|i: int| 0 <= i < statements.len() ==> plain(#[trigger] statements[i]),
        0 < count <= statements.len(),
    ensures
        history[count - 1] == m.execute_upto(names, statements, count),
    decreases count,
{
    assert(plain(statements[count - 1]));
    if count > 1 {
        lemma_plain_history(m, names, parameters, statements, history, (count - 1) as nat);
    } else {
        assert(m.execute_upto(names, statements, 0) == names);
    }
}

/// A function of sound ones captures no name twice.
pub proof fn lemma_captures_once(m: Machine, functions: Seq<FunctionModel>)
    requires
        soundness::sound(functions),
        m.runs(functions.last()),
    ensures
        m.captures_once(),
{
    let upvalues = functions.last().upvalues;
    assert forall|i: int, j: int|
        0 <= i < m.captures.len() && 0 <= j < m.captures.len() && i
            != j implies m.captures[i] != m.captures[j] by {
        let last = functions.len() - 1;
        assert(last > 0);
        assert(soundness::scoped(functions[last - 1], functions[last]));
        assert(model::first_position(upvalues, upvalues[i].0, 0) == Some(i as nat));
        assert(model::first_position(upvalues, upvalues[j].0, 0) == Some(j as nat));
    }
}

} // verus!
