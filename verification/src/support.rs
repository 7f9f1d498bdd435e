//! What is compiled has no fault, and what is refused has the fault that is reported.

use vstd::prelude::*;

use crate::accounting;
use crate::ast::{
    AssignmentStatement, AssignmentTarget, Block, CallSuffix, Expression, FunctionCallStatement,
    FunctionStatement, HeadExpression, LocalStatement, PrimaryExpression, ReturnStatement,
    SimpleExpression, Statement, SuffixedExpression,
};
use crate::error::{CompilerError, Unsupported};
use crate::fidelity;
use crate::model::{self, Folding, FunctionModel, Operand, Variable};
use crate::soundness;
use crate::source;
use crate::validity;
use crate::value::ValueView;

verus! {

/// Something was compiled and has no fault, or its fault was reported.
pub open spec fn judged<T>(result: Result<T, CompilerError>, fault: Option<Unsupported>) -> bool {
    match result {
        Ok(_) => fault is None,
        Err(CompilerError::Unsupported(part)) => fault == Some(part),
        Err(CompilerError::Limit(_)) => true,
    }
}

/// The locals of some functions.
pub open spec fn visible(functions: Seq<FunctionModel>) -> Seq<Seq<u8>>
    decreases functions.len(),
{
    if functions.len() == 0 {
        seq![]
    } else {
        visible(functions.drop_last()) + functions.last().locals
    }
}

/// Functions with the same locals show the same names.
pub proof fn lemma_visible_same(a: Seq<FunctionModel>, b: Seq<FunctionModel>)
    requires
        a.len() == b.len(),
        forall|i: int| 0 <= i < a.len() ==> (#[trigger] b[i]).locals == a[i].locals,
    ensures
        visible(a) == visible(b),
    decreases a.len(),
{
    if a.len() > 0 {
        let last = a.len() - 1;
        assert(b[last].locals == a[last].locals);
        assert forall|i: int| 0 <= i < last implies (#[trigger] b.drop_last()[i]).locals
            == a.drop_last()[i].locals by {
            assert(b[i].locals == a[i].locals);
        }
        lemma_visible_same(a.drop_last(), b.drop_last());
    }
}

/// What is declared becomes visible.
pub proof fn lemma_visible_more(
    a: Seq<FunctionModel>,
    b: Seq<FunctionModel>,
    declared: Seq<Seq<u8>>,
)
    requires
        soundness::kept(a, b),
        b.last().locals == a.last().locals + declared,
    ensures
        visible(b) == visible(a) + declared,
{
    assert forall|i: int| 0 <= i < a.len() - 1 implies (#[trigger] b.drop_last()[i]).locals
        == a.drop_last()[i].locals by {
        assert(soundness::captured_more(a[i], b[i]));
    }
    lemma_visible_same(a.drop_last(), b.drop_last());
    assert(visible(b) =~= visible(a) + declared);
}

/// Nothing becomes visible where nothing is declared.
pub proof fn lemma_visible_kept(a: Seq<FunctionModel>, b: Seq<FunctionModel>)
    requires
        soundness::kept(a, b),
        b.last().locals == a.last().locals,
    ensures
        visible(b) == visible(a),
{
    assert(a.last().locals + Seq::<Seq<u8>>::empty() =~= a.last().locals);
    lemma_visible_more(a, b, seq![]);
    assert(visible(a) + Seq::<Seq<u8>>::empty() =~= visible(a));
}

/// A name that is captured is visible.
pub proof fn lemma_captured_visible(functions: Seq<FunctionModel>, index: int)
    requires
        soundness::sound(functions),
        0 <= index < functions.last().upvalues.len(),
    ensures
        visible(functions.drop_last()).contains(functions.last().upvalues[index].0),
    decreases functions.len(),
{
    let last = functions.len() - 1;
    let f = functions[last];
    let name = f.upvalues[index].0;
    let outer = functions.drop_last();
    assert(last > 0);
    let around = functions[last - 1];
    assert(outer.last() == around);
    assert(soundness::scoped(functions[last - 1], functions[last]));
    soundness::lemma_drop_last(functions);
    assert(soundness::stands_for(
        around,
        f.upvalues[index].0,
        soundness::source(f.upvalues[index].1),
    ));
    soundness::lemma_last_position(around.locals, name, around.locals.len());
    soundness::lemma_first_position(around.upvalues, name, 0);
    let shown = visible(outer);
    let before = visible(outer.drop_last());
    match model::last_position(around.locals, name, around.locals.len()) {
        Some(position) => {
            assert(around.locals[position as int] == name);
            assert(shown[(before.len() + position) as int] == name);
        },
        None => {
            let position = model::first_position(around.upvalues, name, 0)->Some_0;
            lemma_captured_visible(outer, position as int);
            let i = choose|i: int| 0 <= i < before.len() && before[i] == name;
            assert(shown[i] == name);
        },
    }
}

/// A name is global exactly if it is not visible.
pub proof fn lemma_name(functions: Seq<FunctionModel>, name: Seq<u8>)
    requires
        soundness::sound(functions),
    ensures
        match model::resolve(functions, name) {
            Ok((_, variable)) => variable is Global <==> !visible(functions).contains(name),
            Err(e) => e is Limit,
        },
    decreases functions.len(),
{
    let top = functions.last();
    let outer = functions.drop_last();
    let shown = visible(functions);
    let before = visible(outer);
    soundness::lemma_last_position(top.locals, name, top.locals.len());
    soundness::lemma_first_position(top.upvalues, name, 0);
    match model::last_position(top.locals, name, top.locals.len()) {
        Some(position) => {
            assert(shown[(before.len() + position) as int] == name);
        },
        None => {
            assert(shown.contains(name) ==> before.contains(name)) by {
                if shown.contains(name) {
                    let i = choose|i: int| 0 <= i < shown.len() && shown[i] == name;
                    if i < before.len() {
                        assert(before[i] == name);
                    } else {
                        assert(top.locals[i - before.len()] == name);
                    }
                }
            }
            assert(before.contains(name) ==> shown.contains(name)) by {
                if before.contains(name) {
                    let i = choose|i: int| 0 <= i < before.len() && before[i] == name;
                    assert(shown[i] == name);
                }
            }
            match model::first_position(top.upvalues, name, 0) {
                Some(position) => {
                    lemma_captured_visible(functions, position as int);
                },
                None => {
                    if functions.len() > 1 {
                        soundness::lemma_drop_last(functions);
                        lemma_name(outer, name);
                    }
                },
            }
        },
    }
}

/// The fault of an expression is reported.
pub proof fn lemma_expression(folding: Folding, functions: Seq<FunctionModel>, e: Expression)
    requires
        soundness::sound(functions),
    ensures
        judged(
            model::expression(folding, functions, e),
            source::fault(folding, visible(functions), e),
        ),
    decreases e, e.tail@.len() + 2,
{
    lemma_expression_upto(folding, functions, e, e.tail@.len());
}

/// Expressions show the same names as before.
pub proof fn lemma_visible_evaluated(
    a: Seq<FunctionModel>,
    b: Seq<FunctionModel>,
    operand: Operand,
)
    requires
        model::evaluated(a, b, operand),
    ensures
        visible(a) == visible(b),
{
    let top = FunctionModel {
        temporaries: a.last().temporaries + if operand is Temporary {
            1nat
        } else {
            0nat
        },
        ..a.last()
    };
    let changed = model::with_top(a, top);
    assert forall|i: int| 0 <= i < a.len() implies (#[trigger] b[i]).locals == a[i].locals by {
        assert(b[i].locals == changed[i].locals);
    }
    lemma_visible_same(a, b);
}

/// The fault of some operators of an expression is reported.
pub proof fn lemma_expression_upto(
    folding: Folding,
    functions: Seq<FunctionModel>,
    e: Expression,
    count: nat,
)
    requires
        soundness::sound(functions),
        count <= e.tail@.len(),
    ensures
        judged(
            model::expression_upto(folding, functions, e, count),
            source::fault_upto(folding, visible(functions), e, count),
        ),
    decreases e, count + 1,
{
    let shown = visible(functions);
    let locals = functions.last().locals;
    if count == 0 {
        if let HeadExpression::Simple(SimpleExpression::Suffixed(s)) = *e.head {
            lemma_suffixed(folding, functions, s);
            assert(model::expression_upto(folding, functions, e, 0) == model::head_expression(
                folding,
                functions,
                *e.head,
            ));
            assert(model::head_expression(folding, functions, *e.head)
                == model::suffixed_expression(folding, functions, s));
            assert(source::fault_upto(folding, shown, e, 0) == source::fault_suffixed(
                folding,
                shown,
                s,
            ));
        }
    } else {
        let less = (count - 1) as nat;
        let (operator, right_expression) = e.tail@[count - 1];
        lemma_expression_upto(folding, functions, e, less);
        soundness::lemma_expression_upto(folding, functions, e, less);
        accounting::lemma_expression_upto(folding, functions, e, less);
        accounting::lemma_place_upto(folding, locals, e, less);
        if let Ok((left_done, left)) = model::expression_upto(folding, functions, e, less) {
            lemma_visible_evaluated(functions, left_done, left);
            lemma_expression(folding, left_done, right_expression);
            soundness::lemma_expression(folding, left_done, right_expression);
            accounting::lemma_expression(folding, left_done, right_expression);
            accounting::lemma_place(folding, locals, right_expression);
            if let Ok((right_done, right)) = model::expression(
                folding,
                left_done,
                right_expression,
            ) {
                let f = right_done.last();
                let l = source::place_upto(folding, locals, e, less);
                let r = source::place(folding, locals, right_expression);
                assert(validity::valid_function(right_done[right_done.len() - 1]));
                assert(model::folded(folding, left, operator, right) == source::known_upto(
                    folding,
                    e,
                    count,
                ));
                accounting::lemma_sum(
                    f,
                    left,
                    right,
                    l,
                    r,
                    functions.last().temporaries,
                );
            }
        }
    }
}

/// The fault of a name or an expression in brackets is reported.
pub proof fn lemma_suffixed(
    folding: Folding,
    functions: Seq<FunctionModel>,
    suffixed: SuffixedExpression,
)
    requires
        soundness::sound(functions),
    ensures
        judged(
            model::suffixed_expression(folding, functions, suffixed),
            source::fault_suffixed(folding, visible(functions), suffixed),
        ),
    decreases suffixed, 0nat,
{
    if suffixed.suffixes@.len() == 0 {
        match suffixed.primary {
            PrimaryExpression::Name(name) => {
                lemma_name(functions, name@);
            },
            PrimaryExpression::GroupedExpression(e) => {
                lemma_expression(folding, functions, e);
                assert(model::suffixed_expression(folding, functions, suffixed)
                    == model::primary_expression(folding, functions, suffixed.primary));
                assert(model::primary_expression(folding, functions, suffixed.primary)
                    == model::expression(folding, functions, e));
                assert(source::fault_suffixed(folding, visible(functions), suffixed)
                    == source::fault(folding, visible(functions), e));
            },
        }
    }
}

/// To bring a value into a register has no fault.
pub proof fn lemma_registers(
    folding: Folding,
    functions: Seq<FunctionModel>,
    done: Seq<FunctionModel>,
    e: Expression,
    operand: Operand,
)
    requires
        soundness::sound(functions),
        model::expression(folding, functions, e) == Ok::<
            (Seq<FunctionModel>, Operand),
            CompilerError,
        >((done, operand)),
    ensures
        done.last().in_new_register(operand) matches Err(e) ==> e is Limit,
        done.last().in_any_register(operand) matches Err(e) ==> e is Limit,
{
    let place = source::place(folding, functions.last().locals, e);
    soundness::lemma_expression(folding, functions, e);
    accounting::lemma_expression(folding, functions, e);
    assert(validity::valid_function(done[done.len() - 1]));
    accounting::lemma_load_next(done.last(), operand, place);
    accounting::lemma_in_any_register(done.last(), operand, place);
}

/// The first fault of expressions is reported.
pub proof fn lemma_push_upto(
    folding: Folding,
    functions: Seq<FunctionModel>,
    expressions: Seq<Expression>,
    count: nat,
)
    requires
        soundness::sound(functions),
    ensures
        judged(
            model::push_upto(folding, functions, expressions, count),
            source::faults_upto(folding, visible(functions), expressions, count),
        ),
    decreases count,
{
    if count > 0 {
        let less = (count - 1) as nat;
        let e = expressions[count - 1];
        lemma_push_upto(folding, functions, expressions, less);
        soundness::lemma_push_upto(folding, functions, expressions, less);
        if let Ok(some) = model::push_upto(folding, functions, expressions, less) {
            lemma_visible_kept(functions, some);
            lemma_expression(folding, some, e);
            if let Ok((done, operand)) = model::expression(folding, some, e) {
                lemma_registers(folding, some, done, e, operand);
            }
        }
    }
}

/// The first fault of a return is reported.
pub proof fn lemma_return(
    folding: Folding,
    functions: Seq<FunctionModel>,
    statement: ReturnStatement,
)
    requires
        soundness::sound(functions),
    ensures
        judged(
            model::return_statement(folding, functions, statement),
            source::faults_upto(
                folding,
                visible(functions),
                statement.returns@,
                statement.returns@.len(),
            ),
        ),
{
    let values = statement.returns@;
    lemma_push_upto(folding, functions, values, values.len());
    if values.len() == 1 {
        let shown = visible(functions);
        lemma_expression(folding, functions, values[0]);
        assert(source::faults_upto(folding, shown, values, 0) is None);
        assert(source::faults_upto(folding, shown, values, 1) == source::fault(
            folding,
            shown,
            values[0],
        ));
        if let Ok((done, operand)) = model::expression(folding, functions, values[0]) {
            lemma_registers(folding, functions, done, values[0], operand);
        }
    }
}

/// The first fault of the values of a local statement is reported.
pub proof fn lemma_values(
    folding: Folding,
    functions: Seq<FunctionModel>,
    statement: LocalStatement,
    count: nat,
)
    requires
        soundness::sound(functions),
        functions.last().temporaries == 0,
        count <= statement.values@.len(),
    ensures
        judged(
            model::local_values_upto(folding, functions, statement, count),
            source::fault_values(folding, visible(functions), statement, count),
        ),
    decreases count,
{
    if count > 0 {
        let less = (count - 1) as nat;
        let e = statement.values@[count - 1];
        lemma_values(folding, functions, statement, less);
        soundness::lemma_local_values_upto(folding, functions, statement, less);
        fidelity::lemma_local_values_upto(folding, functions, statement, less);
        if let Ok(some) = model::local_values_upto(folding, functions, statement, less) {
            lemma_visible_more(functions, some, source::first_names(statement, less));
            lemma_expression(folding, some, e);
            if let Ok((done, operand)) = model::expression(folding, some, e) {
                lemma_registers(folding, some, done, e, operand);
            }
        }
    }
}

/// Locals that hold nil have no fault.
pub proof fn lemma_nils(f: FunctionModel, statement: LocalStatement, count: nat)
    ensures
        model::local_nils_upto(f, statement, count) matches Err(e) ==> e is Limit,
    decreases count,
{
    if count > statement.values@.len() {
        lemma_nils(f, statement, (count - 1) as nat);
    }
}

/// The first fault of a call is reported.
pub proof fn lemma_call(
    folding: Folding,
    functions: Seq<FunctionModel>,
    statement: FunctionCallStatement,
)
    requires
        soundness::sound(functions),
    ensures
        judged(
            model::function_call(folding, functions, statement),
            source::fault_call(folding, visible(functions), statement),
        ),
{
    let head = statement.head;
    let place = source::place_suffixed(folding, functions.last().locals, head);
    lemma_suffixed(folding, functions, head);
    soundness::lemma_suffixed_expression(folding, functions, head);
    accounting::lemma_suffixed(folding, functions, head);
    if let Ok((headed, operand)) = model::suffixed_expression(folding, functions, head) {
        lemma_visible_evaluated(functions, headed, operand);
        assert(validity::valid_function(headed[headed.len() - 1]));
        accounting::lemma_load_next(headed.last(), operand, place);
        soundness::lemma_in_new_register(headed, operand);
        if let Ok((top, _)) = headed.last().in_new_register(operand) {
            let ready = model::with_top(headed, top);
            lemma_visible_kept(headed, ready);
            if let CallSuffix::Function(arguments) = statement.call {
                lemma_push_upto(folding, ready, arguments@, arguments@.len());
            }
        }
    }
}

/// The fault of a target is reported.
pub proof fn lemma_assign(
    functions: Seq<FunctionModel>,
    target: AssignmentTarget,
    operand: Operand,
    place: source::Place,
)
    requires
        soundness::sound(functions),
        accounting::placed(operand, place),
    ensures
        judged(
            model::assign(functions, target, operand),
            source::fault_target(visible(functions), target),
        ),
{
    if let AssignmentTarget::Name(name) = target {
        lemma_name(functions, name@);
        soundness::lemma_name(functions, name@);
        if let Ok((found, variable)) = model::resolve(functions, name@) {
            let g = found.last();
            assert(validity::valid_function(found[found.len() - 1]));
            accounting::lemma_in_any_register(g, operand, place);
            if let Variable::Local(dest) = variable {
                accounting::lemma_load(g, operand, place, dest);
            }
        }
    }
}

/// The first fault of an assignment is reported.
pub proof fn lemma_assignment(
    folding: Folding,
    functions: Seq<FunctionModel>,
    statement: AssignmentStatement,
    count: nat,
)
    requires
        soundness::sound(functions),
        functions.last().temporaries == 0,
        count <= statement.targets@.len(),
    ensures
        judged(
            model::assignment_upto(folding, functions, statement, count),
            source::fault_assign(folding, visible(functions), statement, count),
        ),
    decreases count,
{
    if count > 0 {
        let less = (count - 1) as nat;
        let given = count <= statement.values@.len();
        let e = statement.values@[count - 1];
        let target = statement.targets@[count - 1];
        lemma_assignment(folding, functions, statement, less);
        soundness::lemma_assignment_upto(folding, functions, statement, less);
        if let Ok(some) = model::assignment_upto(folding, functions, statement, less) {
            lemma_visible_kept(functions, some);
            if given {
                lemma_expression(folding, some, e);
                soundness::lemma_expression(folding, some, e);
                accounting::lemma_expression(folding, some, e);
                if let Ok((done, operand)) = model::expression(folding, some, e) {
                    lemma_visible_evaluated(some, done, operand);
                    lemma_assign(
                        done,
                        target,
                        operand,
                        source::place(folding, some.last().locals, e),
                    );
                }
            } else {
                let nil = ValueView::Nil;
                lemma_assign(some, target, Operand::Value(nil), source::Place::Known(nil));
            }
        }
    }
}

/// The first fault of a function statement is reported.
pub proof fn lemma_function(
    folding: Folding,
    functions: Seq<FunctionModel>,
    statement: FunctionStatement,
)
    requires
        soundness::sound(functions),
        functions.last().temporaries == 0,
    ensures
        judged(
            model::local_function(folding, functions, statement),
            source::fault_statement(
                folding,
                visible(functions),
                Statement::LocalFunction(statement),
            ),
        ),
    decreases statement, 0nat,
{
    let body = statement.definition.body;
    let parameters = model::names(statement.definition.parameters@);
    assert(parameters =~= source::names(statement.definition.parameters@));
    if parameters.len() <= u8::MAX {
        let begun = functions.push(FunctionModel::start(parameters));
        soundness::lemma_begin(functions, parameters);
        assert(begun.drop_last() =~= functions);
        lemma_body(folding, begun, parameters, body);
        if let Ok(compiled) = model::block(folding, begun, body) {
            assert(model::closure(
                compiled.drop_last().last(),
                compiled.last().proto(),
                statement.name.name@,
            ) matches Err(e) ==> e is Limit);
        }
    }
}

/// The first fault of a statement is reported.
pub proof fn lemma_statement(folding: Folding, functions: Seq<FunctionModel>, statement: Statement)
    requires
        soundness::sound(functions),
        functions.last().temporaries == 0,
    ensures
        judged(
            model::statement(folding, functions, statement),
            source::fault_statement(folding, visible(functions), statement),
        ),
    decreases statement, 1nat,
{
    match statement {
        Statement::LocalStatement(s) => {
            lemma_values(folding, functions, s, s.values@.len());
            if let Ok(done) = model::local_values_upto(folding, functions, s, s.values@.len()) {
                lemma_nils(done.last(), s, s.names@.len());
            }
        },
        Statement::LocalFunction(s) => {
            lemma_function(folding, functions, s);
        },
        Statement::FunctionCall(s) => {
            lemma_call(folding, functions, s);
        },
        Statement::Assignment(s) => {
            lemma_assignment(folding, functions, s, s.targets@.len());
        },
        Statement::Other => {},
    }
}

/// What statements declare comes after what was there before.
pub proof fn lemma_locals_after(
    before: Seq<Seq<u8>>,
    parameters: Seq<Seq<u8>>,
    statements: Seq<Statement>,
    count: nat,
)
    ensures
        source::locals_after(before + parameters, statements, count) == before
            + source::locals_after(parameters, statements, count),
    decreases count,
{
    if count > 0 {
        let less = (count - 1) as nat;
        lemma_locals_after(before, parameters, statements, less);
        assert(before + source::locals_after(parameters, statements, less) + source::declared(
            statements[count - 1],
        ) =~= before + source::locals_after(parameters, statements, count));
    }
}

/// The names that are visible after some statements.
pub proof fn lemma_visible_upto(
    folding: Folding,
    functions: Seq<FunctionModel>,
    parameters: Seq<Seq<u8>>,
    body: Block,
    count: nat,
)
    requires
        soundness::sound(functions),
        functions.last() == FunctionModel::start(parameters),
        count <= body.statements@.len(),
    ensures
        model::statements_upto(folding, functions, body, count) matches Ok(after) ==> visible(after)
            == source::locals_after(visible(functions), body.statements@, count),
{
    soundness::lemma_statements_upto(folding, functions, body, count);
    fidelity::lemma_declares_upto(folding, functions, parameters, body, count);
    if let Ok(after) = model::statements_upto(folding, functions, body, count) {
        let before = visible(functions.drop_last());
        lemma_locals_after(before, parameters, body.statements@, count);
        assert forall|i: int| 0 <= i < functions.len() - 1 implies (
        #[trigger] after.drop_last()[i]).locals == functions.drop_last()[i].locals by {
            assert(soundness::captured_more(functions[i], after[i]));
        }
        lemma_visible_same(functions.drop_last(), after.drop_last());
    }
}

/// The first fault of statements is reported.
pub proof fn lemma_statements_upto(
    folding: Folding,
    functions: Seq<FunctionModel>,
    parameters: Seq<Seq<u8>>,
    body: Block,
    count: nat,
)
    requires
        soundness::sound(functions),
        functions.last() == FunctionModel::start(parameters),
        count <= body.statements@.len(),
    ensures
        judged(
            model::statements_upto(folding, functions, body, count),
            source::fault_statements(folding, visible(functions), body, count),
        ),
    decreases body, count,
{
    if count > 0 {
        let less = (count - 1) as nat;
        lemma_statements_upto(folding, functions, parameters, body, less);
        soundness::lemma_statements_upto(folding, functions, body, less);
        lemma_visible_upto(folding, functions, parameters, body, less);
        if let Ok(some) = model::statements_upto(folding, functions, body, less) {
            lemma_statement(folding, some, body.statements@[count - 1]);
        }
    }
}

/// The first fault of a body is reported.
pub proof fn lemma_body(
    folding: Folding,
    functions: Seq<FunctionModel>,
    parameters: Seq<Seq<u8>>,
    body: Block,
)
    requires
        soundness::sound(functions),
        functions.last() == FunctionModel::start(parameters),
    ensures
        judged(
            model::block(folding, functions, body),
            source::fault_body(folding, visible(functions), body),
        ),
    decreases body, body.statements@.len() + 1,
{
    let count = body.statements@.len();
    lemma_statements_upto(folding, functions, parameters, body, count);
    soundness::lemma_statements_upto(folding, functions, body, count);
    lemma_visible_upto(folding, functions, parameters, body, count);
    if let Ok(some) = model::statements_upto(folding, functions, body, count) {
        if let Some(statement) = body.return_statement {
            lemma_return(folding, some, statement);
        }
    }
}

} // verus!
