//! What the parts of a chunk say by themselves.

use vstd::prelude::*;

use crate::ast::{
    AssignmentStatement, AssignmentTarget, Block, CallSuffix, Expression, FunctionCallStatement,
    HeadExpression, LocalStatement, PrimaryExpression, ReturnStatement, SimpleExpression,
    Statement, SuffixedExpression,
};
use crate::error::{CompilerLimit, Unsupported};
use crate::model::Folding;
use crate::opcode::OpCode;
use crate::operators::BinaryOperator;
use crate::value::ValueView;

verus! {

/// The last of some names that is a given one is at a position.
pub open spec fn latest(names: Seq<Seq<u8>>, name: Seq<u8>, position: int) -> bool {
    &&& 0 <= position < names.len()
    &&& names[position] == name
    &&& forall|i: int| position < i < names.len() ==> names[i] != name
}

/// The names of some byte strings.
pub open spec fn names(names: Seq<Vec<u8>>) -> Seq<Seq<u8>> {
    Seq::new(names.len(), |i: int| names[i]@)
}

/// The locals that a statement declares, in their order.
pub open spec fn declared(statement: Statement) -> Seq<Seq<u8>> {
    match statement {
        Statement::LocalStatement(s) => names(s.names@),
        Statement::LocalFunction(s) => seq![s.name.name@],
        _ => seq![],
    }
}

/// The locals of a function after the first `count` statements of its body: its parameters and what
/// these statements declare.
pub open spec fn locals_after(
    parameters: Seq<Seq<u8>>,
    statements: Seq<Statement>,
    count: nat,
) -> Seq<Seq<u8>>
    decreases count,
{
    if count == 0 {
        parameters
    } else {
        locals_after(parameters, statements, (count - 1) as nat) + declared(statements[count - 1])
    }
}

/// The number of functions among the first `count` statements.
pub open spec fn functions_before(statements: Seq<Statement>, count: nat) -> nat
    decreases count,
{
    if count == 0 {
        0
    } else {
        functions_before(statements, (count - 1) as nat) + if statements[count - 1] is LocalFunction {
            1nat
        } else {
            0nat
        }
    }
}

/// What the first statements declare does not depend on those after them.
pub proof fn lemma_prefix(
    parameters: Seq<Seq<u8>>,
    statements: Seq<Statement>,
    count: int,
    i: nat,
)
    requires
        i <= count <= statements.len(),
    ensures
        locals_after(parameters, statements.take(count), i) == locals_after(
            parameters,
            statements,
            i,
        ),
        functions_before(statements.take(count), i) == functions_before(statements, i),
    decreases i,
{
    if i > 0 {
        lemma_prefix(parameters, statements, count, (i - 1) as nat);
    }
}

/// The value of an expression, if it is known when the expression is compiled.
pub open spec fn known(folding: Folding, e: Expression) -> Option<ValueView>
    decreases e, e.tail@.len() + 1,
{
    known_upto(folding, e, e.tail@.len())
}

/// The known value of the head of an expression and the first `count` operators after it.
pub open spec fn known_upto(folding: Folding, e: Expression, count: nat) -> Option<ValueView>
    decreases e, count,
{
    if count == 0 {
        known_head(folding, *e.head)
    } else if count > e.tail@.len() {
        None
    } else {
        let (operator, right) = e.tail@[count - 1];
        match (known_upto(folding, e, (count - 1) as nat), known(folding, right)) {
            (Some(a), Some(b)) => folding(operator, a, b),
            _ => None,
        }
    }
}

/// The known value of the first operand of an expression.
pub open spec fn known_head(folding: Folding, head: HeadExpression) -> Option<ValueView>
    decreases head, 0nat,
{
    match head {
        HeadExpression::Simple(SimpleExpression::Float(bits)) => Some(ValueView::Number(bits)),
        HeadExpression::Simple(SimpleExpression::Integer(i)) => Some(ValueView::Integer(i)),
        HeadExpression::Simple(SimpleExpression::String(s)) => Some(ValueView::String(s@)),
        HeadExpression::Simple(SimpleExpression::Nil) => Some(ValueView::Nil),
        HeadExpression::Simple(SimpleExpression::True) => Some(ValueView::Boolean(true)),
        HeadExpression::Simple(SimpleExpression::False) => Some(ValueView::Boolean(false)),
        HeadExpression::Simple(SimpleExpression::Suffixed(s)) => known_suffixed(folding, s),
        _ => None,
    }
}

/// The known value of an expression in brackets.
pub open spec fn known_suffixed(folding: Folding, suffixed: SuffixedExpression) -> Option<ValueView>
    decreases suffixed, 0nat,
{
    match suffixed.primary {
        PrimaryExpression::Name(_) => None,
        PrimaryExpression::GroupedExpression(e) => known(folding, e),
    }
}

/// Where the value of an expression is when it was computed.
pub enum Place {
    /// Nowhere, since it is known.
    Known(ValueView),
    /// In a local of the function.
    Local,
    /// In a variable of another function.
    Outer,
    /// In a register of its own.
    Temporary,
}

impl Place {
    /// The registers that the value takes.
    pub open spec fn held(self) -> nat {
        if self is Temporary {
            1
        } else {
            0
        }
    }

    /// The instructions that it takes to bring the value into a register of its own.
    pub open spec fn to_push(self) -> nat {
        if self is Temporary {
            0
        } else {
            1
        }
    }

    /// The registers, and the instructions, that it takes to bring the value into some register.
    pub open spec fn to_load(self) -> nat {
        if self is Known || self is Outer {
            1
        } else {
            0
        }
    }
}

/// Where the value of an expression is in a function with some locals.
pub open spec fn place(folding: Folding, locals: Seq<Seq<u8>>, e: Expression) -> Place
    decreases e, e.tail@.len() + 1,
{
    place_upto(folding, locals, e, e.tail@.len())
}

/// Where the value of the head of an expression and the first `count` operators after it is.
pub open spec fn place_upto(
    folding: Folding,
    locals: Seq<Seq<u8>>,
    e: Expression,
    count: nat,
) -> Place
    decreases e, count,
{
    match known_upto(folding, e, count) {
        Some(value) => Place::Known(value),
        None => if count > 0 {
            Place::Temporary
        } else {
            match *e.head {
                HeadExpression::Simple(SimpleExpression::Suffixed(s)) => place_suffixed(
                    folding,
                    locals,
                    s,
                ),
                _ => Place::Temporary,
            }
        },
    }
}

/// Where the value of a name or of an expression in brackets is.
pub open spec fn place_suffixed(
    folding: Folding,
    locals: Seq<Seq<u8>>,
    suffixed: SuffixedExpression,
) -> Place
    decreases suffixed, 0nat,
{
    match suffixed.primary {
        PrimaryExpression::Name(name) => if locals.contains(name@) {
            Place::Local
        } else {
            Place::Outer
        },
        PrimaryExpression::GroupedExpression(e) => place(folding, locals, e),
    }
}

/// The greater one of two numbers.
pub open spec fn greater(a: nat, b: nat) -> nat {
    if a >= b {
        a
    } else {
        b
    }
}

/// The registers that it takes to add two values, with those that the values take.
pub open spec fn sum_registers(left: Place, right: Place) -> nat {
    if left is Known || right is Known {
        1
    } else {
        greater(1, left.held() + left.to_load() + right.held() + right.to_load())
    }
}

/// The registers that it takes to compute an expression.
pub open spec fn registers(folding: Folding, locals: Seq<Seq<u8>>, e: Expression) -> nat
    decreases e, e.tail@.len() + 1,
{
    registers_upto(folding, locals, e, e.tail@.len())
}

/// The registers that it takes to compute the head of an expression and the first `count` operators
/// after it: those for the left operand, those for the right one while the left one is held, or
/// those for the operator.
pub open spec fn registers_upto(
    folding: Folding,
    locals: Seq<Seq<u8>>,
    e: Expression,
    count: nat,
) -> nat
    decreases e, count,
{
    if count == 0 {
        match *e.head {
            HeadExpression::Simple(SimpleExpression::Suffixed(s)) => registers_suffixed(
                folding,
                locals,
                s,
            ),
            _ => 0,
        }
    } else if count > e.tail@.len() {
        0
    } else {
        let less = (count - 1) as nat;
        let right = e.tail@[count - 1].1;
        let held = place_upto(folding, locals, e, less);
        greater(
            greater(
                registers_upto(folding, locals, e, less),
                held.held() + registers(folding, locals, right),
            ),
            if known_upto(folding, e, count) is Some {
                0
            } else {
                sum_registers(held, place(folding, locals, right))
            },
        )
    }
}

/// The registers that it takes to compute a name or an expression in brackets.
pub open spec fn registers_suffixed(
    folding: Folding,
    locals: Seq<Seq<u8>>,
    suffixed: SuffixedExpression,
) -> nat
    decreases suffixed, 0nat,
{
    match suffixed.primary {
        PrimaryExpression::Name(_) => 0,
        PrimaryExpression::GroupedExpression(e) => registers(folding, locals, e),
    }
}

/// How much an instruction does. One that loads nil does as much as one for each of its registers.
pub open spec fn weight(opcode: OpCode) -> nat {
    match opcode {
        OpCode::LoadNil { dest: _, count } => count as nat,
        _ => 1,
    }
}

/// How much code does.
pub open spec fn length(opcodes: Seq<OpCode>) -> nat
    decreases opcodes.len(),
{
    if opcodes.len() == 0 {
        0
    } else {
        length(opcodes.drop_last()) + weight(opcodes.last())
    }
}

/// An instruction could do what the one after it does as well.
pub open spec fn joins(opcode: OpCode, next: OpCode) -> bool {
    match (opcode, next) {
        (OpCode::LoadNil { dest, count }, OpCode::LoadNil { dest: next_dest, count: _ }) => {
            &&& dest + count == next_dest
            &&& count < 255
        },
        _ => false,
    }
}

/// Nil is loaded by as few instructions as can be.
pub open spec fn joined(opcodes: Seq<OpCode>) -> bool {
    forall|i: int| 0 < i < opcodes.len() ==> !joins(opcodes[i - 1], #[trigger] opcodes[i])
}

/// The instructions that it takes to add two values. A known value need not be loaded, but one of
/// two must be.
pub open spec fn sum_code(left: Place, right: Place) -> nat {
    if right is Known {
        left.to_load() + 1
    } else if left is Known {
        right.to_load() + 1
    } else {
        left.to_load() + right.to_load() + 1
    }
}

/// The instructions that it takes to compute an expression.
pub open spec fn code(folding: Folding, locals: Seq<Seq<u8>>, e: Expression) -> nat
    decreases e, e.tail@.len() + 1,
{
    code_upto(folding, locals, e, e.tail@.len())
}

/// The instructions that it takes to compute the head of an expression and the first `count`
/// operators after it. It takes none to compute what is known.
pub open spec fn code_upto(
    folding: Folding,
    locals: Seq<Seq<u8>>,
    e: Expression,
    count: nat,
) -> nat
    decreases e, count,
{
    if count == 0 {
        match *e.head {
            HeadExpression::Simple(SimpleExpression::Suffixed(s)) => code_suffixed(
                folding,
                locals,
                s,
            ),
            _ => 0,
        }
    } else if count > e.tail@.len() {
        0
    } else {
        let less = (count - 1) as nat;
        let right = e.tail@[count - 1].1;
        code_upto(folding, locals, e, less) + code(folding, locals, right) + if known_upto(
            folding,
            e,
            count,
        ) is Some {
            0
        } else {
            sum_code(place_upto(folding, locals, e, less), place(folding, locals, right))
        }
    }
}

/// The instructions that it takes to compute a name or an expression in brackets.
pub open spec fn code_suffixed(
    folding: Folding,
    locals: Seq<Seq<u8>>,
    suffixed: SuffixedExpression,
) -> nat
    decreases suffixed, 0nat,
{
    match suffixed.primary {
        PrimaryExpression::Name(_) => 0,
        PrimaryExpression::GroupedExpression(e) => code(folding, locals, e),
    }
}

/// A value is among some constants, at their end if it was not before.
pub open spec fn with_constant(constants: Seq<ValueView>, value: ValueView) -> Seq<ValueView> {
    if constants.contains(value) {
        constants
    } else {
        constants.push(value)
    }
}

/// A value was loaded. It takes no constant to load nil or a boolean.
pub open spec fn with_loaded(constants: Seq<ValueView>, value: ValueView) -> Seq<ValueView> {
    match value {
        ValueView::Nil => constants,
        ValueView::Boolean(_) => constants,
        _ => with_constant(constants, value),
    }
}

/// The constants after an expression was computed.
pub open spec fn constants(
    folding: Folding,
    before: Seq<ValueView>,
    e: Expression,
) -> Seq<ValueView>
    decreases e, e.tail@.len() + 1,
{
    constants_upto(folding, before, e, e.tail@.len())
}

/// The constants after the head of an expression and the first `count` operators after it were
/// computed. Known operands of an operator that is not computed already are constants.
pub open spec fn constants_upto(
    folding: Folding,
    before: Seq<ValueView>,
    e: Expression,
    count: nat,
) -> Seq<ValueView>
    decreases e, count,
{
    if count == 0 {
        match *e.head {
            HeadExpression::Simple(SimpleExpression::Suffixed(s)) => constants_suffixed(
                folding,
                before,
                s,
            ),
            _ => before,
        }
    } else if count > e.tail@.len() {
        before
    } else {
        let less = (count - 1) as nat;
        let right = e.tail@[count - 1].1;
        let both = constants(folding, constants_upto(folding, before, e, less), right);
        if known_upto(folding, e, count) is Some {
            both
        } else {
            match (known_upto(folding, e, less), known(folding, right)) {
                (Some(a), Some(b)) => with_constant(with_loaded(both, a), b),
                (None, Some(b)) => with_constant(both, b),
                (Some(a), None) => with_constant(both, a),
                (None, None) => both,
            }
        }
    }
}

/// The constants after an expression in brackets was computed.
pub open spec fn constants_suffixed(
    folding: Folding,
    before: Seq<ValueView>,
    suffixed: SuffixedExpression,
) -> Seq<ValueView>
    decreases suffixed, 0nat,
{
    match suffixed.primary {
        PrimaryExpression::Name(_) => before,
        PrimaryExpression::GroupedExpression(e) => constants(folding, before, e),
    }
}

/// The names in an expression, in their order.
pub open spec fn uses(e: Expression) -> Seq<Seq<u8>>
    decreases e, e.tail@.len() + 1,
{
    uses_upto(e, e.tail@.len())
}

/// The names in the head of an expression and behind the first `count` operators after it.
pub open spec fn uses_upto(e: Expression, count: nat) -> Seq<Seq<u8>>
    decreases e, count,
{
    if count == 0 {
        match *e.head {
            HeadExpression::Simple(SimpleExpression::Suffixed(s)) => uses_suffixed(s),
            _ => seq![],
        }
    } else if count > e.tail@.len() {
        seq![]
    } else {
        uses_upto(e, (count - 1) as nat) + uses(e.tail@[count - 1].1)
    }
}

/// A name, or the names of an expression in brackets.
pub open spec fn uses_suffixed(suffixed: SuffixedExpression) -> Seq<Seq<u8>>
    decreases suffixed, 0nat,
{
    match suffixed.primary {
        PrimaryExpression::Name(name) => seq![name@],
        PrimaryExpression::GroupedExpression(e) => uses(e),
    }
}

/// What a function with some locals captures when it uses some names: those that are not locals,
/// each once, in the order of their first use.
pub open spec fn captured(
    locals: Seq<Seq<u8>>,
    captures: Seq<Seq<u8>>,
    used: Seq<Seq<u8>>,
) -> Seq<Seq<u8>>
    decreases used.len(),
{
    if used.len() == 0 {
        captures
    } else {
        let before = captured(locals, captures, used.drop_last());
        if locals.contains(used.last()) || before.contains(used.last()) {
            before
        } else {
            before.push(used.last())
        }
    }
}

/// What a function needs.
pub struct Account {
    pub locals: Seq<Seq<u8>>,
    /// The names that it captures.
    pub captures: Seq<Seq<u8>>,
    pub constants: Seq<ValueView>,
    /// The number of registers.
    pub registers: nat,
    /// How much its code does.
    pub code: nat,
}

impl Account {
    /// What a function needs by its parameters alone.
    pub open spec fn start(parameters: Seq<Seq<u8>>) -> Account {
        Account {
            locals: parameters,
            captures: seq![],
            constants: seq![],
            registers: parameters.len(),
            code: 0,
        }
    }

    /// Some instructions are emitted.
    pub open spec fn spend(self, count: nat) -> Account {
        Account { code: self.code + count, ..self }
    }

    /// Some registers are in use above those of the locals.
    pub open spec fn reach(self, count: nat) -> Account {
        Account { registers: greater(self.registers, self.locals.len() + count), ..self }
    }

    /// Names are used.
    pub open spec fn with_names(self, used: Seq<Seq<u8>>) -> Account {
        Account { captures: captured(self.locals, self.captures, used), ..self }
    }

    /// A local is declared.
    pub open spec fn declare(self, name: Seq<u8>) -> Account {
        Account { locals: self.locals.push(name), ..self }
    }

    /// An expression is computed while some registers above those of the locals are in use.
    pub open spec fn compute(self, folding: Folding, busy: nat, e: Expression) -> Account {
        Account { constants: constants(folding, self.constants, e), ..self }.with_names(
            uses(e),
        ).reach(busy + registers(folding, self.locals, e)).spend(code(folding, self.locals, e))
    }

    /// A name or an expression in brackets is computed.
    pub open spec fn compute_suffixed(
        self,
        folding: Folding,
        busy: nat,
        suffixed: SuffixedExpression,
    ) -> Account {
        Account {
            constants: constants_suffixed(folding, self.constants, suffixed),
            ..self
        }.with_names(uses_suffixed(suffixed)).reach(
            busy + registers_suffixed(folding, self.locals, suffixed),
        ).spend(code_suffixed(folding, self.locals, suffixed))
    }

    /// A value is loaded from where it is.
    pub open spec fn load(self, place: Place) -> Account {
        match place {
            Place::Known(value) => Account {
                constants: with_loaded(self.constants, value),
                ..self
            },
            _ => self,
        }
    }

    /// A value is brought into some register.
    pub open spec fn bring(self, busy: nat, place: Place) -> Account {
        self.load(place).reach(busy + place.held() + place.to_load()).spend(place.to_load())
    }

    /// A value is brought into a register of its own.
    pub open spec fn push(self, busy: nat, place: Place) -> Account {
        self.load(place).reach(busy + 1).spend(place.to_push())
    }

    /// The first `count` expressions of a list are computed, each in a register of its own.
    pub open spec fn push_all(
        self,
        folding: Folding,
        busy: nat,
        expressions: Seq<Expression>,
        count: nat,
    ) -> Account
        decreases count,
    {
        if count == 0 {
            self
        } else {
            let e = expressions[count - 1];
            let taken = (busy + count - 1) as nat;
            self.push_all(folding, busy, expressions, (count - 1) as nat).compute(
                folding,
                taken,
                e,
            ).push(taken, place(folding, self.locals, e))
        }
    }

    /// A return.
    pub open spec fn give(self, folding: Folding, statement: ReturnStatement) -> Account {
        let values = statement.returns@;
        if values.len() == 1 {
            self.compute(folding, 0, values[0]).bring(
                0,
                place(folding, self.locals, values[0]),
            ).spend(1)
        } else {
            self.push_all(folding, 0, values, values.len()).spend(1)
        }
    }

    /// The first `count` values of a local statement. Those that have a name become locals.
    pub open spec fn values(
        self,
        folding: Folding,
        statement: LocalStatement,
        count: nat,
    ) -> Account
        decreases count,
    {
        if count == 0 {
            self
        } else {
            let before = self.values(folding, statement, (count - 1) as nat);
            let e = statement.values@[count - 1];
            let computed = before.compute(folding, 0, e);
            if count <= statement.names@.len() {
                computed.push(0, place(folding, before.locals, e)).declare(
                    statement.names@[count - 1]@,
                )
            } else {
                computed
            }
        }
    }

    /// Those of the first `count` names of a local statement that have no value.
    pub open spec fn nils(self, statement: LocalStatement, count: nat) -> Account
        decreases count,
    {
        if count <= statement.values@.len() {
            self
        } else {
            self.nils(statement, (count - 1) as nat).reach(1).spend(1).declare(
                statement.names@[count - 1]@,
            )
        }
    }

    /// A call.
    pub open spec fn call(self, folding: Folding, statement: FunctionCallStatement) -> Account {
        let called = self.compute_suffixed(folding, 0, statement.head).push(
            0,
            place_suffixed(folding, self.locals, statement.head),
        );
        match statement.call {
            CallSuffix::Function(arguments) => called.push_all(
                folding,
                1,
                arguments@,
                arguments@.len(),
            ).spend(1),
            CallSuffix::Method(_, _) => called,
        }
    }

    /// The first `count` targets of an assignment.
    pub open spec fn assign(
        self,
        folding: Folding,
        statement: AssignmentStatement,
        count: nat,
    ) -> Account
        decreases count,
    {
        if count == 0 {
            self
        } else {
            let before = self.assign(folding, statement, (count - 1) as nat);
            let given = count <= statement.values@.len();
            let e = statement.values@[count - 1];
            let computed = if given {
                before.compute(folding, 0, e)
            } else {
                before
            };
            let value = if given {
                place(folding, before.locals, e)
            } else {
                Place::Known(ValueView::Nil)
            };
            match statement.targets@[count - 1] {
                AssignmentTarget::Name(name) => if before.locals.contains(name@) {
                    computed.load(value).spend(1)
                } else {
                    computed.with_names(seq![name@]).bring(0, value).spend(1)
                },
                AssignmentTarget::Field(_, _) => computed,
            }
        }
    }
}

/// What a function needs after a statement: what an inner function captures it uses itself.
pub open spec fn after_statement(folding: Folding, before: Account, statement: Statement) -> Account
    decreases statement, 0nat,
{
    match statement {
        Statement::LocalStatement(s) => before.values(folding, s, s.values@.len()).nils(
            s,
            s.names@.len(),
        ),
        Statement::LocalFunction(s) => before.with_names(
            account(folding, names(s.definition.parameters@), s.definition.body).captures,
        ).reach(1).spend(1).declare(s.name.name@),
        Statement::FunctionCall(s) => before.call(folding, s),
        Statement::Assignment(s) => before.assign(folding, s, s.targets@.len()),
        Statement::Other => before,
    }
}

/// What a function needs after the first `count` statements of its body.
pub open spec fn account_upto(
    folding: Folding,
    parameters: Seq<Seq<u8>>,
    body: Block,
    count: nat,
) -> Account
    decreases body, count,
{
    if count == 0 {
        Account::start(parameters)
    } else if count > body.statements@.len() {
        arbitrary()
    } else {
        after_statement(
            folding,
            account_upto(folding, parameters, body, (count - 1) as nat),
            body.statements@[count - 1],
        )
    }
}

/// What a function needs.
pub open spec fn account(folding: Folding, parameters: Seq<Seq<u8>>, body: Block) -> Account
    decreases body, body.statements@.len() + 1,
{
    let before = account_upto(folding, parameters, body, body.statements@.len());
    match body.return_statement {
        Some(statement) => before.give(folding, statement),
        None => before.spend(1),
    }
}

/// A function needs more of something than there can be.
pub open spec fn too_large(a: Account, limit: CompilerLimit) -> bool {
    match limit {
        CompilerLimit::Registers => a.registers > 256,
        CompilerLimit::Constants => a.constants.len() > 65536,
        CompilerLimit::UpValues => a.captures.len() > 256,
        _ => false,
    }
}

/// A function exceeds a limit: it needs too much, returns too much, or holds a statement that exceeds
/// the limit.
pub open spec fn exceeds(
    folding: Folding,
    limit: CompilerLimit,
    parameters: Seq<Seq<u8>>,
    body: Block,
) -> bool
    decreases body, 1nat,
{
    ||| too_large(account(folding, parameters, body), limit)
    ||| limit == CompilerLimit::Returns && (body.return_statement matches Some(statement)
        && statement.returns@.len() >= 255)
    ||| exists|i: int|
        if 0 <= i < body.statements@.len() {
            statement_exceeds(folding, limit, #[trigger] body.statements@[i])
        } else {
            false
        }
}

/// A statement exceeds a limit by itself: a call by its arguments, or a function by its parameters or
/// by what it needs.
pub open spec fn statement_exceeds(
    folding: Folding,
    limit: CompilerLimit,
    statement: Statement,
) -> bool
    decreases statement, 0nat,
{
    match statement {
        Statement::FunctionCall(s) => {
            &&& limit == CompilerLimit::FixedParameters
            &&& s.call matches CallSuffix::Function(arguments)
            &&& arguments@.len() >= 255
        },
        Statement::LocalFunction(s) => {
            ||| limit == CompilerLimit::FixedParameters && s.definition.parameters@.len() > 255
            ||| exceeds(folding, limit, names(s.definition.parameters@), s.definition.body)
        },
        _ => false,
    }
}

/// The first of two faults.
pub open spec fn first(a: Option<Unsupported>, b: Option<Unsupported>) -> Option<Unsupported> {
    match a {
        Some(_) => a,
        None => b,
    }
}

/// The first part of an expression that cannot be compiled where some names are visible. An operator
/// is no fault where its value is known.
pub open spec fn fault(
    folding: Folding,
    visible: Seq<Seq<u8>>,
    e: Expression,
) -> Option<Unsupported>
    decreases e, e.tail@.len() + 1,
{
    fault_upto(folding, visible, e, e.tail@.len())
}

/// The first fault of the head of an expression and the first `count` operators after it.
pub open spec fn fault_upto(
    folding: Folding,
    visible: Seq<Seq<u8>>,
    e: Expression,
    count: nat,
) -> Option<Unsupported>
    decreases e, count,
{
    if count == 0 {
        match *e.head {
            HeadExpression::UnaryOperator(_, _) => Some(Unsupported::UnaryOperator),
            HeadExpression::Simple(SimpleExpression::Other) => Some(Unsupported::SimpleExpression),
            HeadExpression::Simple(SimpleExpression::Suffixed(s)) => fault_suffixed(
                folding,
                visible,
                s,
            ),
            _ => None,
        }
    } else if count > e.tail@.len() {
        None
    } else {
        let (operator, right) = e.tail@[count - 1];
        let supported = operator == BinaryOperator::Add || known_upto(folding, e, count) is Some;
        first(
            first(
                fault_upto(folding, visible, e, (count - 1) as nat),
                fault(folding, visible, right),
            ),
            if supported {
                None
            } else {
                Some(Unsupported::BinaryOperator)
            },
        )
    }
}

/// The first fault of a name or an expression in brackets.
pub open spec fn fault_suffixed(
    folding: Folding,
    visible: Seq<Seq<u8>>,
    suffixed: SuffixedExpression,
) -> Option<Unsupported>
    decreases suffixed, 0nat,
{
    if suffixed.suffixes@.len() > 0 {
        Some(Unsupported::ExpressionSuffixes)
    } else {
        match suffixed.primary {
            PrimaryExpression::Name(name) => if visible.contains(name@) {
                None
            } else {
                Some(Unsupported::GlobalVariable)
            },
            PrimaryExpression::GroupedExpression(e) => fault(folding, visible, e),
        }
    }
}

/// The first fault of the first `count` expressions of a list.
pub open spec fn faults_upto(
    folding: Folding,
    visible: Seq<Seq<u8>>,
    expressions: Seq<Expression>,
    count: nat,
) -> Option<Unsupported>
    decreases count,
{
    if count == 0 {
        None
    } else {
        first(
            faults_upto(folding, visible, expressions, (count - 1) as nat),
            fault(folding, visible, expressions[count - 1]),
        )
    }
}

/// The first names of a local statement.
pub open spec fn first_names(statement: LocalStatement, count: nat) -> Seq<Seq<u8>> {
    let all = names(statement.names@);
    if count <= all.len() {
        all.take(count as int)
    } else {
        all
    }
}

/// The first fault of the first `count` values of a local statement. The names of the values before
/// one are visible in it.
pub open spec fn fault_values(
    folding: Folding,
    visible: Seq<Seq<u8>>,
    statement: LocalStatement,
    count: nat,
) -> Option<Unsupported>
    decreases count,
{
    if count == 0 {
        None
    } else {
        let less = (count - 1) as nat;
        first(
            fault_values(folding, visible, statement, less),
            fault(folding, visible + first_names(statement, less), statement.values@[count - 1]),
        )
    }
}

/// The first fault of a call.
pub open spec fn fault_call(
    folding: Folding,
    visible: Seq<Seq<u8>>,
    statement: FunctionCallStatement,
) -> Option<Unsupported> {
    first(
        fault_suffixed(folding, visible, statement.head),
        match statement.call {
            CallSuffix::Function(arguments) => faults_upto(
                folding,
                visible,
                arguments@,
                arguments@.len(),
            ),
            CallSuffix::Method(_, _) => Some(Unsupported::MethodCall),
        },
    )
}

/// The fault of a target of an assignment.
pub open spec fn fault_target(
    visible: Seq<Seq<u8>>,
    target: AssignmentTarget,
) -> Option<Unsupported> {
    match target {
        AssignmentTarget::Name(name) => if visible.contains(name@) {
            None
        } else {
            Some(Unsupported::GlobalAssignment)
        },
        AssignmentTarget::Field(_, _) => Some(Unsupported::AssignmentTarget),
    }
}

/// The first fault of the first `count` targets of an assignment and their values.
pub open spec fn fault_assign(
    folding: Folding,
    visible: Seq<Seq<u8>>,
    statement: AssignmentStatement,
    count: nat,
) -> Option<Unsupported>
    decreases count,
{
    if count == 0 {
        None
    } else {
        let given = if count <= statement.values@.len() {
            fault(folding, visible, statement.values@[count - 1])
        } else {
            None
        };
        first(
            first(fault_assign(folding, visible, statement, (count - 1) as nat), given),
            fault_target(visible, statement.targets@[count - 1]),
        )
    }
}

/// The first fault of a statement. The name of a function is not visible in the function.
pub open spec fn fault_statement(
    folding: Folding,
    visible: Seq<Seq<u8>>,
    statement: Statement,
) -> Option<Unsupported>
    decreases statement, 0nat,
{
    match statement {
        Statement::LocalStatement(s) => fault_values(folding, visible, s, s.values@.len()),
        Statement::LocalFunction(s) => if s.definition.has_varargs {
            Some(Unsupported::VarArgs)
        } else if s.name.fields@.len() > 0 {
            Some(Unsupported::FunctionNameFields)
        } else if s.name.method is Some {
            Some(Unsupported::FunctionNameMethod)
        } else {
            fault_body(folding, visible + names(s.definition.parameters@), s.definition.body)
        },
        Statement::FunctionCall(s) => fault_call(folding, visible, s),
        Statement::Assignment(s) => fault_assign(folding, visible, s, s.targets@.len()),
        Statement::Other => Some(Unsupported::Statement),
    }
}

/// The first fault of the first `count` statements of a body. What a statement declares is visible
/// in those after it.
pub open spec fn fault_statements(
    folding: Folding,
    visible: Seq<Seq<u8>>,
    body: Block,
    count: nat,
) -> Option<Unsupported>
    decreases body, count,
{
    if count == 0 || count > body.statements@.len() {
        None
    } else {
        let less = (count - 1) as nat;
        first(
            fault_statements(folding, visible, body, less),
            fault_statement(
                folding,
                locals_after(visible, body.statements@, less),
                body.statements@[count - 1],
            ),
        )
    }
}

/// The first fault of a body.
pub open spec fn fault_body(
    folding: Folding,
    visible: Seq<Seq<u8>>,
    body: Block,
) -> Option<Unsupported>
    decreases body, body.statements@.len() + 1,
{
    let count = body.statements@.len();
    first(
        fault_statements(folding, visible, body, count),
        match body.return_statement {
            Some(statement) => faults_upto(
                folding,
                locals_after(visible, body.statements@, count),
                statement.returns@,
                statement.returns@.len(),
            ),
            None => None,
        },
    )
}

} // verus!
