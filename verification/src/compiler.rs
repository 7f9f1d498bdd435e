//! The compiler of chunks.

use vstd::prelude::*;

use crate::ast::{
    AssignmentStatement, AssignmentTarget, Block, CallSuffix, Chunk, Expression,
    FunctionCallStatement, FunctionStatement, HeadExpression, LocalStatement, PrimaryExpression,
    ReturnStatement, SimpleExpression, Statement, SuffixedExpression,
};
use crate::casts::cast_u8;
use crate::compiler_function::{CompilerFunction, ExprDescriptor};
use crate::error::{CompilerError, CompilerLimit, Unsupported};
use crate::function::{FunctionProto, ProtoView, UpValueDescriptor};
use crate::meaning;
use crate::model::{self, Folding, FunctionModel, Operand, Scope, Variable};
use crate::opcode::{OpCode, UpValueIndex, VarCount};
use crate::operators::BinaryOperator;
use crate::registers::Register;
use crate::soundness;
use crate::top_stack::TopStack;
use crate::validity;
use crate::value::{self, Value, ValueView};

verus! {

/// What a name stands for.
#[derive(Debug, Clone, Copy)]
pub enum VariableDescriptor<'a> {
    Local(Register),
    UpValue(UpValueIndex),
    Global(&'a [u8]),
}

impl<'a> View for VariableDescriptor<'a> {
    type V = Variable;

    open spec fn view(&self) -> Variable {
        match *self {
            VariableDescriptor::Local(register) => Variable::Local(register),
            VariableDescriptor::UpValue(index) => Variable::UpValue(index),
            VariableDescriptor::Global(name) => Variable::Global(name@),
        }
    }
}

/// What each of some functions is.
pub open spec fn models(functions: Seq<CompilerFunction<'_>>) -> Seq<FunctionModel> {
    Seq::new(functions.len(), |i: int| functions[i].model())
}

/// A function folds operators between known values as `folding` says.
pub open spec fn folds_as<'a, F: Fn(BinaryOperator, Value<'a>, Value<'a>) -> Option<Value<'a>>>(
    fold: F,
    folding: Folding,
) -> bool {
    forall|operator: BinaryOperator, a: Value<'a>, b: Value<'a>, result: Option<Value<'a>>| #[trigger]
        call_ensures(fold, (operator, a, b), result) ==> value::option_view(result) == folding(
            operator,
            a@,
            b@,
        )
}

/// A function can be asked to fold any operator between any known values.
pub open spec fn folds_all<'a, F: Fn(BinaryOperator, Value<'a>, Value<'a>) -> Option<Value<'a>>>(
    fold: F,
) -> bool {
    forall|operator: BinaryOperator, a: Value<'a>, b: Value<'a>| #[trigger]
        call_requires(fold, (operator, a, b))
}

/// An expression was compiled as expected.
pub open spec fn gives(
    expected: Result<(Seq<FunctionModel>, Operand), CompilerError>,
    functions: Seq<FunctionModel>,
    outcome: Result<ExprDescriptor<'_>, CompilerError>,
) -> bool {
    match (expected, outcome) {
        (Ok((after, operand)), Ok(expr)) => functions == after && expr@ == operand,
        (Err(expected), Err(e)) => e == expected,
        _ => false,
    }
}

/// A statement was compiled as expected.
pub open spec fn does(
    expected: Result<Seq<FunctionModel>, CompilerError>,
    functions: Seq<FunctionModel>,
    outcome: Result<(), CompilerError>,
) -> bool {
    match (expected, outcome) {
        (Ok(after), Ok(())) => functions == after,
        (Err(expected), Err(e)) => e == expected,
        _ => false,
    }
}

/// Compiles the functions of a chunk, of which those that enclose one another are on a stack.
pub struct Compiler<'a> {
    pub(crate) functions: TopStack<CompilerFunction<'a>>,
}

impl<'a> Compiler<'a> {
    /// The functions under compilation, from the outermost to the innermost one.
    pub closed spec fn model(&self) -> Seq<FunctionModel> {
        models(self.functions@)
    }

    /// The tables of the functions are in order.
    pub closed spec fn ordered(&self) -> bool {
        forall|i: int| 0 <= i < self.functions@.len() ==> (#[trigger] self.functions@[i]).wf()
    }

    /// The invariant of the compiler.
    pub open spec fn wf(&self) -> bool {
        &&& self.ordered()
        &&& soundness::sound(self.model())
    }

    /// The names of the functions, from the outermost to the innermost one.
    pub closed spec fn scopes(&self) -> Seq<Scope> {
        Seq::new(self.functions@.len(), |i: int| self.functions@[i].scope())
    }

    /// All upvalues can be counted.
    pub closed spec fn counted(&self) -> bool {
        forall|i: int|
            0 <= i < self.functions@.len() ==> (#[trigger] self.functions@[i]).upvalues@.len()
                <= UpValueIndex::MAX + 1
    }

    /// Nothing is changed but that each function, except for the outermost one, may have captured
    /// one more name.
    #[verifier::opaque]
    pub closed spec fn captures(&self, before: &Self) -> bool {
        &&& self.functions@.len() == before.functions@.len()
        &&& self.functions@[0] == before.functions@[0]
        &&& forall|i: int|
            0 <= i < self.functions@.len() ==> (#[trigger] self.functions@[i]).captures(
                &before.functions@[i],
            )
    }

    /// Where locals live in the registers of their positions, the names are those of the model.
    proof fn lemma_scopes(&self)
        requires
            self.ordered(),
        ensures
            self.scopes() == model::scopes(self.model()),
            self.counted(),
    {
        assert forall|i: int| 0 <= i < self.functions@.len() implies self.functions@[i].scope()
            == model::scope(self.model()[i]) by {
            assert(self.functions@[i].wf());
            assert(self.functions@[i].scope().locals =~= model::scope(self.model()[i]).locals);
        }
        assert(self.scopes() =~= model::scopes(self.model()));
        assert forall|i: int| 0 <= i < self.functions@.len() implies (
        #[trigger] self.functions@[i]).upvalues@.len() <= UpValueIndex::MAX + 1 by {
            assert(self.functions@[i].wf());
        }
    }

    /// A name that was looked up was resolved, where locals live in the registers of their
    /// positions.
    proof fn lemma_looked_up(&self, before: &Self, name: Seq<u8>)
        requires
            before.wf(),
            self.captures(before),
            match model::lookup(before.scopes(), name) {
                Ok((scopes, _)) => self.scopes() == scopes,
                Err(_) => true,
            },
        ensures
            model::lookup(before.scopes(), name) == match model::resolve(before.model(), name) {
                Ok((functions, variable)) => Ok::<_, CompilerError>(
                    (model::scopes(functions), variable),
                ),
                Err(e) => Err(e),
            },
            model::resolve(before.model(), name) matches Ok((functions, _)) ==> {
                &&& self.wf()
                &&& self.model() == functions
            },
    {
        reveal(Compiler::captures);
        before.lemma_scopes();
        model::lemma_lookup(before.model(), name);
        soundness::lemma_resolve(before.model(), name);
        if let Ok((functions, _)) = model::resolve(before.model(), name) {
            assert forall|i: int| 0 <= i < functions.len() implies self.model()[i]
                == functions[i] by {
                assert(self.functions@[i].captures(&before.functions@[i]));
                assert(soundness::captured_more(before.model()[i], functions[i]));
                assert(self.scopes()[i] == model::scope(functions[i]));
            }
            assert(self.model() =~= functions);
            assert forall|i: int| 0 <= i < self.functions@.len() implies (
            #[trigger] self.functions@[i]).wf() by {
                assert(self.functions@[i].captures(&before.functions@[i]));
                assert(before.functions@[i].wf());
                assert(validity::valid_function(functions[i]));
            }
        }
    }

    /// Makes a name that is in reach of the function around the one at index `from`, as
    /// `descriptor` says, an upvalue of that function and of all those inside it.
    pub(crate) fn capture(&mut self, name: &'a [u8], from: usize, descriptor: UpValueDescriptor) -> (captured:
        Result<UpValueIndex, CompilerError>)
        requires
            old(self).counted(),
            0 < from < old(self).scopes().len(),
            forall|i: int|
                from <= i < old(self).scopes().len() ==> (#[trigger] old(self).scopes()[i]).foreign(
                    name@,
                ),
            model::lookup(old(self).scopes().take(from as int), name@) == Ok::<_, CompilerError>(
                (old(self).scopes().take(from as int), soundness::source(descriptor)),
            ),
        ensures
            final(self).captures(old(self)),
            match model::lookup(old(self).scopes(), name@) {
                Ok((scopes, variable)) => {
                    &&& captured matches Ok(index) && variable == Variable::UpValue(index)
                    &&& final(self).counted()
                    &&& final(self).scopes() == scopes
                },
                Err(e) => captured == Err::<UpValueIndex, CompilerError>(e),
            },
    {
        proof {
            reveal(Compiler::captures);
        }
        let ghost before = self.scopes();
        let mut descriptor: UpValueDescriptor = descriptor;
        let mut index: UpValueIndex = 0;
        let depth: usize = self.functions.lower.len();
        let mut k: usize = from;
        loop
            invariant_except_break
                k <= depth,
                forall|i: int|
                    k <= i < before.len() ==> self.functions@[i] == old(self).functions@[i],
                model::lookup(before.take(k as int), name@) == Ok::<_, CompilerError>(
                    (self.scopes().take(k as int), soundness::source(descriptor)),
                ),
            invariant
                before == old(self).scopes(),
                self.captures(old(self)),
                self.counted(),
                0 < k,
                depth + 1 == before.len(),
                self.functions@.len() == before.len(),
                forall|i: int|
                    k <= i < before.len() ==> (#[trigger] before[i]).foreign(name@),
            ensures
                model::lookup(before, name@) == Ok::<_, CompilerError>(
                    (self.scopes(), Variable::UpValue(index)),
                ),
            decreases depth - k,
        {
            let ghost current = self.scopes();
            let ghost functions = self.functions@;
            proof {
                reveal(Compiler::captures);
                let inner = before.take(k + 1);
                assert(inner.drop_last() =~= before.take(k as int));
                assert(inner.last() == before[k as int]);
                assert(before[k as int].foreign(name@));
                assert(model::lookup(inner, name@) == model::scope_captured(
                    current.take(k as int),
                    before[k as int],
                    name@,
                    descriptor,
                ));
                soundness::lemma_first_position(before[k as int].upvalues, name@, 0);
            }
            let function: &mut CompilerFunction<'a> = self.functions.get_mut(k);
            function.upvalues.push((name, descriptor));
            let last: usize = function.upvalues.len() - 1;
            proof {
                assert(function.model().upvalues =~= before[k as int].upvalues.push(
                    (name@, descriptor),
                ));
                assert(function.scope().locals =~= before[k as int].locals);
                assert(function.captures(&functions[k as int]));
            }
            match cast_u8(last) {
                Some(upvalue) => {
                    index = upvalue;
                },
                None => {
                    proof {
                        let e = CompilerError::Limit(CompilerLimit::UpValues);
                        model::lemma_lookup_limit(before, name@, k + 1, e);
                    }
                    return Err(CompilerError::Limit(CompilerLimit::UpValues));
                },
            }
            descriptor = UpValueDescriptor::Outer(index);
            assert(self.scopes().take(k + 1) =~= current.take(k as int).push(
                self.scopes()[k as int],
            ));
            if k == depth {
                assert(before.take(k + 1) =~= before);
                assert(self.scopes().take(k + 1) =~= self.scopes());
                break;
            }
            k += 1;
        }
        Ok(index)
    }

    /// Finds what a name stands for in the innermost function. Where that is a variable of another
    /// function, the functions from there on capture it.
    pub(crate) fn find_variable(&mut self, name: &'a [u8]) -> (found: Result<
        VariableDescriptor<'a>,
        CompilerError,
    >)
        requires
            old(self).counted() || old(self).wf(),
        ensures
            final(self).captures(old(self)),
            match model::lookup(old(self).scopes(), name@) {
                Ok((scopes, variable)) => {
                    &&& found matches Ok(descriptor) && descriptor@ == variable
                    &&& final(self).counted()
                    &&& final(self).scopes() == scopes
                    &&& model::lookup(scopes, name@) == Ok::<_, CompilerError>((scopes, variable))
                },
                Err(e) => found == Err::<VariableDescriptor<'a>, CompilerError>(e),
            },
            old(self).wf() ==> match model::resolve(old(self).model(), name@) {
                Ok((functions, variable)) => {
                    &&& found matches Ok(descriptor) && descriptor@ == variable
                    &&& final(self).wf()
                    &&& final(self).model() == functions
                    &&& soundness::sound(functions)
                    &&& soundness::stands_for(functions.last(), name@, variable) || variable
                        == Variable::Global(name@)
                },
                Err(e) => found == Err::<VariableDescriptor<'a>, CompilerError>(e),
            },
    {
        proof {
            if self.wf() {
                self.lemma_scopes();
            }
        }
        let found = self.look_up(name);
        proof {
            old(self).lemma_top();
            soundness::lemma_lookup_again(old(self).scopes(), name@);
            if old(self).wf() {
                soundness::lemma_resolve(old(self).model(), name@);
                self.lemma_looked_up(old(self), name@);
            }
        }
        found
    }

    /// Looks a name up in the functions from the innermost to the outermost one.
    pub(crate) fn look_up(&mut self, name: &'a [u8]) -> (found: Result<
        VariableDescriptor<'a>,
        CompilerError,
    >)
        requires
            old(self).counted(),
        ensures
            final(self).captures(old(self)),
            match model::lookup(old(self).scopes(), name@) {
                Ok((scopes, variable)) => {
                    &&& found matches Ok(descriptor) && descriptor@ == variable
                    &&& final(self).counted()
                    &&& final(self).scopes() == scopes
                },
                Err(e) => found == Err::<VariableDescriptor<'a>, CompilerError>(e),
            },
    {
        proof {
            reveal(Compiler::captures);
        }
        let depth: usize = self.functions.lower.len();
        let ghost scopes = self.scopes();
        let mut i: usize = depth;
        loop
            invariant
                *self == *old(self),
                self.captures(old(self)),
                scopes == self.scopes(),
                self.counted(),
                i <= depth,
                depth + 1 == scopes.len(),
                self.functions@.len() == scopes.len(),
                forall|k: int|
                    i < k < scopes.len() ==> (#[trigger] scopes[k]).foreign(name@),
            ensures
                forall|k: int| 0 <= k < scopes.len() ==> (#[trigger] scopes[k]).foreign(name@),
            decreases i,
        {
            let function: &CompilerFunction<'a> = self.functions.get(i);
            assert(scopes[i as int] == function.scope());
            assert(scopes.take(i + 1).last() == scopes[i as int]);
            assert(i == depth ==> scopes.take(i + 1) =~= scopes);
            if let Some(register) = function.find_local(name) {
                if i == depth {
                    return Ok(VariableDescriptor::Local(register));
                }
                let descriptor: UpValueDescriptor = UpValueDescriptor::ParentLocal(register);
                return match self.capture(name, i + 1, descriptor) {
                    Ok(index) => Ok(VariableDescriptor::UpValue(index)),
                    Err(e) => Err(e),
                };
            }
            if let Some(position) = function.find_upvalue(name) {
                let upvalue: UpValueIndex = cast_u8(position).unwrap();
                if i == depth {
                    return Ok(VariableDescriptor::UpValue(upvalue));
                }
                let descriptor: UpValueDescriptor = UpValueDescriptor::Outer(upvalue);
                return match self.capture(name, i + 1, descriptor) {
                    Ok(index) => Ok(VariableDescriptor::UpValue(index)),
                    Err(e) => Err(e),
                };
            }
            if i == 0 {
                break;
            }
            i -= 1;
        }
        proof {
            model::lemma_lookup_global(scopes, name@);
        }
        Ok(VariableDescriptor::Global(name))
    }

    /// The innermost function is the last one of the model.
    proof fn lemma_top(&self)
        ensures
            self.model().len() == self.functions@.len() == self.functions.lower@.len() + 1,
            self.model().last() == self.functions.top.model(),
            self.wf() ==> self.functions.top.wf(),
    {
        assert(self.functions@[self.functions.lower@.len() as int] == self.functions.top);
    }

    /// Only the innermost function changes.
    proof fn lemma_top_changed(&self, before: &Self)
        requires
            self.functions.lower@ == before.functions.lower@,
        ensures
            self.model() == model::with_top(before.model(), self.functions.top.model()),
            before.wf() && self.functions.top.wf() ==> self.ordered(),
    {
        assert(self.model() =~= model::with_top(before.model(), self.functions.top.model()));
        if before.wf() && self.functions.top.wf() {
            assert forall|i: int| 0 <= i < self.functions@.len() implies (
            #[trigger] self.functions@[i]).wf() by {
                if i < self.functions.lower@.len() {
                    assert(self.functions@[i] == before.functions@[i]);
                }
            }
        }
    }

    /// Compiles an operator between two expressions that were compiled one after the other.
    pub(crate) fn binop<F: Fn(BinaryOperator, Value<'a>, Value<'a>) -> Option<Value<'a>>>(
        &mut self,
        fold: &F,
        left: ExprDescriptor<'a>,
        binop: BinaryOperator,
        right: ExprDescriptor<'a>,
    ) -> (outcome: Result<ExprDescriptor<'a>, CompilerError>)
        requires
            old(self).functions.top.ordered(),
            folds_all(*fold),
            old(self).functions.top.emission().owns_two(left@, right@),
        ensures
            final(self).functions.lower@ == old(self).functions.lower@,
            final(self).functions.top.extends(&old(self).functions.top),
            binop != BinaryOperator::Add && outcome is Err ==> *final(self) == *old(self),
            forall|folding: Folding| #[trigger]
                folds_as(*fold, folding) ==> match model::folded(folding, left@, binop, right@) {
                    Some(value) => {
                        &&& outcome matches Ok(expr) && expr@ == Operand::Value(value)
                        &&& *final(self) == *old(self)
                    },
                    None => if binop == BinaryOperator::Add {
                        match old(self).functions.top.emission().sum(left@, right@) {
                            Ok((e, operand)) => {
                                &&& outcome matches Ok(expr) && expr@ == operand
                                &&& final(self).functions.top.ordered()
                                &&& final(self).functions.top.emission() == e
                            },
                            Err(e) => outcome == Err::<ExprDescriptor<'a>, CompilerError>(e),
                        }
                    } else {
                        outcome == Err::<ExprDescriptor<'a>, CompilerError>(
                            CompilerError::Unsupported(Unsupported::BinaryOperator),
                        )
                    },
                },
            old(self).wf() && old(self).model().last().holds_two(left@, right@) ==> {
                &&& forall|folding: Folding| #[trigger]
                    folds_as(*fold, folding) ==> gives(
                        model::step(
                            old(self).model(),
                            old(self).model().last().binop(folding, left@, binop, right@),
                        ),
                        final(self).model(),
                        outcome,
                    )
                &&& outcome matches Ok(expr) ==> validity::valid_operand(
                    left@,
                    old(self).model().last(),
                ) && validity::valid_operand(right@, old(self).model().last()) ==> {
                    let base = old(self).model().last().free(right@).free(left@);
                    &&& final(self).wf()
                    &&& soundness::kept(old(self).model(), final(self).model())
                    &&& validity::valid_operand(expr@, final(self).model().last())
                    &&& model::evaluated(
                        model::with_top(old(self).model(), base),
                        final(self).model(),
                        expr@,
                    )
                }
            },
    {
        proof {
            self.lemma_top();
        }
        if let (ExprDescriptor::Value(a), ExprDescriptor::Value(b)) = (left, right) {
            if let Some(v) = fold(binop, a, b) {
                assert(model::with_top(self.model(), self.model().last()) =~= self.model());
                return Ok(ExprDescriptor::Value(v));
            }
        }
        match binop {
            BinaryOperator::Add => {
                let added = self.functions.top.add_exprs(left, right);
                proof {
                    self.lemma_top_changed(old(self));
                    let before = old(self).model();
                    let f = before.last();
                    if old(self).wf() && f.holds_two(left@, right@) {
                        model::lemma_sum(f, left@, right@);
                        if validity::valid_operand(left@, f) && validity::valid_operand(right@, f) {
                            let never: Folding = |
                                operator: BinaryOperator,
                                a: ValueView,
                                b: ValueView,
                            | None::<ValueView>;
                            soundness::lemma_binop(never, before, left@, binop, right@);
                        }
                    }
                }
                added
            },
            _ => Err(CompilerError::Unsupported(Unsupported::BinaryOperator)),
        }
    }

    /// Compiles an expression.
    pub(crate) fn expression<F: Fn(BinaryOperator, Value<'a>, Value<'a>) -> Option<Value<'a>>>(
        &mut self,
        fold: &F,
        expression: &'a Expression,
    ) -> (outcome: Result<ExprDescriptor<'a>, CompilerError>)
        requires
            old(self).wf(),
            folds_all(*fold),
        ensures
            outcome matches Ok(expr) ==> {
                &&& final(self).wf()
                &&& soundness::kept(old(self).model(), final(self).model())
                &&& validity::valid_operand(expr@, final(self).model().last())
                &&& model::evaluated(old(self).model(), final(self).model(), expr@)
            },
            forall|folding: Folding|
                folds_as(*fold, folding) ==> gives(
                    model::expression(folding, old(self).model(), *expression),
                    final(self).model(),
                    outcome,
                ),
        decreases *expression,
    {
        let mut expr: ExprDescriptor<'a> = match self.head_expression(fold, &expression.head) {
            Ok(expr) => expr,
            Err(e) => {
                proof {
                    assert forall|folding: Folding| folds_as(*fold, folding) implies gives(
                        model::expression(folding, old(self).model(), *expression),
                        self.model(),
                        Err::<ExprDescriptor<'a>, CompilerError>(e),
                    ) by {
                        model::lemma_expression_fails(
                            folding,
                            old(self).model(),
                            *expression,
                            0,
                            expression.tail@.len(),
                        );
                    }
                }
                return Err(e);
            },
        };
        let mut i: usize = 0;
        while i < expression.tail.len()
            invariant
                i <= expression.tail@.len(),
                self.wf(),
                folds_all(*fold),
                soundness::kept(old(self).model(), self.model()),
                validity::valid_operand(expr@, self.model().last()),
                model::evaluated(old(self).model(), self.model(), expr@),
                forall|folding: Folding|
                    folds_as(*fold, folding) ==> gives(
                        model::expression_upto(
                            folding,
                            old(self).model(),
                            *expression,
                            i as nat,
                        ),
                        self.model(),
                        Ok(expr),
                    ),
            decreases expression.tail@.len() - i,
        {
            let binop: BinaryOperator = expression.tail[i].0;
            let ghost left_done = self.model();
            let outcome = self.expression(fold, &expression.tail[i].1);
            let right: ExprDescriptor<'a> = match outcome {
                Ok(right) => right,
                Err(e) => {
                    proof {
                        assert forall|folding: Folding| folds_as(*fold, folding) implies gives(
                            model::expression(folding, old(self).model(), *expression),
                            self.model(),
                            Err::<ExprDescriptor<'a>, CompilerError>(e),
                        ) by {
                            model::lemma_expression_fails(
                                folding,
                                old(self).model(),
                                *expression,
                                i as nat + 1,
                                expression.tail@.len(),
                            );
                        }
                    }
                    return Err(e);
                },
            };
            let ghost right_done = self.model();
            proof {
                soundness::lemma_kept_twice(old(self).model(), left_done, right_done);
            }
            let outcome = self.binop(fold, expr, binop, right);
            expr = match outcome {
                Ok(expr) => expr,
                Err(e) => {
                    proof {
                        assert forall|folding: Folding| folds_as(*fold, folding) implies gives(
                            model::expression(folding, old(self).model(), *expression),
                            self.model(),
                            Err::<ExprDescriptor<'a>, CompilerError>(e),
                        ) by {
                            model::lemma_expression_fails(
                                folding,
                                old(self).model(),
                                *expression,
                                i as nat + 1,
                                expression.tail@.len(),
                            );
                        }
                    }
                    return Err(e);
                },
            };
            proof {
                soundness::lemma_kept_twice(old(self).model(), right_done, self.model());
            }
            i += 1;
        }
        Ok(expr)
    }

    /// Compiles the first operand of an expression.
    pub(crate) fn head_expression<F: Fn(BinaryOperator, Value<'a>, Value<'a>) -> Option<Value<'a>>>(
        &mut self,
        fold: &F,
        head_expression: &'a HeadExpression,
    ) -> (outcome: Result<ExprDescriptor<'a>, CompilerError>)
        requires
            old(self).wf(),
            folds_all(*fold),
        ensures
            head_expression is UnaryOperator ==> {
                &&& outcome is Err
                &&& *final(self) == *old(self)
            },
            outcome matches Ok(expr) ==> {
                &&& final(self).wf()
                &&& soundness::kept(old(self).model(), final(self).model())
                &&& validity::valid_operand(expr@, final(self).model().last())
                &&& model::evaluated(old(self).model(), final(self).model(), expr@)
            },
            forall|folding: Folding|
                folds_as(*fold, folding) ==> gives(
                    model::head_expression(folding, old(self).model(), *head_expression),
                    final(self).model(),
                    outcome,
                ),
        decreases *head_expression,
    {
        match head_expression {
            HeadExpression::Simple(simple_expression) => self.simple_expression(
                fold,
                simple_expression,
            ),
            HeadExpression::UnaryOperator(_, _) => Err(
                CompilerError::Unsupported(Unsupported::UnaryOperator),
            ),
        }
    }

    /// Compiles an expression without operators.
    pub(crate) fn simple_expression<F: Fn(BinaryOperator, Value<'a>, Value<'a>) -> Option<Value<'a>>>(
        &mut self,
        fold: &F,
        simple_expression: &'a SimpleExpression,
    ) -> (outcome: Result<ExprDescriptor<'a>, CompilerError>)
        requires
            old(self).wf(),
            folds_all(*fold),
        ensures
            simple_expression is Other ==> {
                &&& outcome is Err
                &&& *final(self) == *old(self)
            },
            outcome matches Ok(expr) ==> {
                &&& final(self).wf()
                &&& soundness::kept(old(self).model(), final(self).model())
                &&& validity::valid_operand(expr@, final(self).model().last())
                &&& model::evaluated(old(self).model(), final(self).model(), expr@)
            },
            forall|folding: Folding|
                folds_as(*fold, folding) ==> gives(
                    model::simple_expression(folding, old(self).model(), *simple_expression),
                    final(self).model(),
                    outcome,
                ),
        decreases *simple_expression,
    {
        match simple_expression {
            SimpleExpression::Float(bits) => Ok(ExprDescriptor::Value(Value::Number(*bits))),
            SimpleExpression::Integer(i) => Ok(ExprDescriptor::Value(Value::Integer(*i))),
            SimpleExpression::String(s) => Ok(ExprDescriptor::Value(Value::String(s.as_slice()))),
            SimpleExpression::Nil => Ok(ExprDescriptor::Value(Value::Nil)),
            SimpleExpression::True => Ok(ExprDescriptor::Value(Value::Boolean(true))),
            SimpleExpression::False => Ok(ExprDescriptor::Value(Value::Boolean(false))),
            SimpleExpression::Suffixed(suffixed) => self.suffixed_expression(fold, suffixed),
            SimpleExpression::Other => Err(
                CompilerError::Unsupported(Unsupported::SimpleExpression),
            ),
        }
    }

    /// Compiles a name or an expression in brackets.
    pub(crate) fn suffixed_expression<F: Fn(BinaryOperator, Value<'a>, Value<'a>) -> Option<Value<'a>>>(
        &mut self,
        fold: &F,
        suffixed_expression: &'a SuffixedExpression,
    ) -> (outcome: Result<ExprDescriptor<'a>, CompilerError>)
        requires
            old(self).wf(),
            folds_all(*fold),
        ensures
            suffixed_expression.suffixes@.len() > 0 ==> {
                &&& outcome is Err
                &&& *final(self) == *old(self)
            },
            outcome matches Ok(expr) ==> {
                &&& final(self).wf()
                &&& soundness::kept(old(self).model(), final(self).model())
                &&& validity::valid_operand(expr@, final(self).model().last())
                &&& model::evaluated(old(self).model(), final(self).model(), expr@)
            },
            forall|folding: Folding|
                folds_as(*fold, folding) ==> gives(
                    model::suffixed_expression(folding, old(self).model(), *suffixed_expression),
                    final(self).model(),
                    outcome,
                ),
        decreases *suffixed_expression,
    {
        if !suffixed_expression.suffixes.is_empty() {
            return Err(CompilerError::Unsupported(Unsupported::ExpressionSuffixes));
        }
        self.primary_expression(fold, &suffixed_expression.primary)
    }

    /// Compiles a name or an expression in brackets.
    pub(crate) fn primary_expression<F: Fn(BinaryOperator, Value<'a>, Value<'a>) -> Option<Value<'a>>>(
        &mut self,
        fold: &F,
        primary_expression: &'a PrimaryExpression,
    ) -> (outcome: Result<ExprDescriptor<'a>, CompilerError>)
        requires
            old(self).wf(),
            folds_all(*fold),
        ensures
            outcome matches Ok(expr) ==> {
                &&& final(self).wf()
                &&& soundness::kept(old(self).model(), final(self).model())
                &&& validity::valid_operand(expr@, final(self).model().last())
                &&& model::evaluated(old(self).model(), final(self).model(), expr@)
            },
            forall|folding: Folding|
                folds_as(*fold, folding) ==> gives(
                    model::primary_expression(folding, old(self).model(), *primary_expression),
                    final(self).model(),
                    outcome,
                ),
        decreases *primary_expression,
    {
        match primary_expression {
            PrimaryExpression::Name(name) => {
                proof {
                    self.lemma_top();
                    soundness::lemma_name(self.model(), name@);
                    model::lemma_resolve_steady(self.model(), name@);
                }
                match self.find_variable(name.as_slice()) {
                    Ok(VariableDescriptor::Local(register)) => Ok(ExprDescriptor::Local(register)),
                    Ok(VariableDescriptor::UpValue(index)) => Ok(ExprDescriptor::UpValue(index)),
                    Ok(VariableDescriptor::Global(_)) => Err(
                        CompilerError::Unsupported(Unsupported::GlobalVariable),
                    ),
                    Err(e) => Err(e),
                }
            },
            PrimaryExpression::GroupedExpression(expr) => self.expression(fold, expr),
        }
    }

    /// Compiles expressions and brings each into a register of its own, one above the other.
    pub(crate) fn push_expressions<F: Fn(BinaryOperator, Value<'a>, Value<'a>) -> Option<Value<'a>>>(
        &mut self,
        fold: &F,
        expressions: &'a Vec<Expression>,
    ) -> (outcome: Result<(), CompilerError>)
        requires
            old(self).wf(),
            folds_all(*fold),
        ensures
            outcome is Ok ==> {
                &&& final(self).wf()
                &&& soundness::kept(old(self).model(), final(self).model())
                &&& model::pushed(old(self).model(), final(self).model(), expressions@.len())
            },
            forall|folding: Folding|
                folds_as(*fold, folding) ==> does(
                    model::push_upto(
                        folding,
                        old(self).model(),
                        expressions@,
                        expressions@.len(),
                    ),
                    final(self).model(),
                    outcome,
                ),
    {
        proof {
            self.lemma_top();
            soundness::lemma_kept_same(self.model());
        }
        let mut i: usize = 0;
        while i < expressions.len()
            invariant
                i <= expressions@.len(),
                self.wf(),
                folds_all(*fold),
                soundness::kept(old(self).model(), self.model()),
                model::pushed(old(self).model(), self.model(), i as nat),
                forall|folding: Folding|
                    folds_as(*fold, folding) ==> does(
                        model::push_upto(folding, old(self).model(), expressions@, i as nat),
                        self.model(),
                        Ok(()),
                    ),
            decreases expressions@.len() - i,
        {
            let ghost some = self.model();
            let outcome = self.push_expression(fold, &expressions[i]);
            if let Err(e) = outcome {
                proof {
                    assert forall|folding: Folding| folds_as(*fold, folding) implies does(
                        model::push_upto(
                            folding,
                            old(self).model(),
                            expressions@,
                            expressions@.len(),
                        ),
                        self.model(),
                        outcome,
                    ) by {
                        model::lemma_push_fails(
                            folding,
                            old(self).model(),
                            expressions@,
                            i as nat + 1,
                            expressions@.len(),
                        );
                    }
                }
                return outcome;
            }
            proof {
                soundness::lemma_kept_twice(old(self).model(), some, self.model());
            }
            i += 1;
        }
        Ok(())
    }

    /// Compiles an expression and brings it into the register above those in use.
    pub(crate) fn push_expression<F: Fn(BinaryOperator, Value<'a>, Value<'a>) -> Option<Value<'a>>>(
        &mut self,
        fold: &F,
        expression: &'a Expression,
    ) -> (outcome: Result<(), CompilerError>)
        requires
            old(self).wf(),
            folds_all(*fold),
        ensures
            outcome is Ok ==> {
                &&& final(self).wf()
                &&& soundness::kept(old(self).model(), final(self).model())
                &&& model::pushed(old(self).model(), final(self).model(), 1)
            },
            forall|folding: Folding|
                folds_as(*fold, folding) ==> does(
                    match model::expression(folding, old(self).model(), *expression) {
                        Ok((functions, operand)) => match functions.last().in_new_register(
                            operand,
                        ) {
                            Ok((top, _)) => Ok(model::with_top(functions, top)),
                            Err(e) => Err(e),
                        },
                        Err(e) => Err(e),
                    },
                    final(self).model(),
                    outcome,
                ),
    {
        let expr: ExprDescriptor<'a> = match self.expression(fold, expression) {
            Ok(expr) => expr,
            Err(e) => return Err(e),
        };
        let ghost before = *self;
        proof {
            self.lemma_top();
        }
        proof {
            soundness::lemma_in_new_register(self.model(), expr@);
        }
        match self.functions.top.expr_push_register(expr) {
            Ok(_) => {
                proof {
                    self.lemma_top_changed(&before);
                    soundness::lemma_kept_twice(old(self).model(), before.model(), self.model());
                }
                Ok(())
            },
            Err(e) => Err(e),
        }
    }

    /// Compiles a return.
    pub(crate) fn return_statement<F: Fn(BinaryOperator, Value<'a>, Value<'a>) -> Option<Value<'a>>>(
        &mut self,
        fold: &F,
        return_statement: &'a ReturnStatement,
    ) -> (outcome: Result<(), CompilerError>)
        requires
            old(self).wf(),
            folds_all(*fold),
        ensures
            return_statement.returns@.len() >= 255 ==> {
                &&& outcome == Err::<(), CompilerError>(
                    CompilerError::Limit(CompilerLimit::Returns),
                )
                &&& *final(self) == *old(self)
            },
            outcome is Ok ==> {
                &&& final(self).wf()
                &&& soundness::kept(old(self).model(), final(self).model())
                &&& validity::ends_with_return(final(self).model().last().opcodes)
                &&& model::steady(old(self).model(), final(self).model())
            },
            forall|folding: Folding|
                folds_as(*fold, folding) ==> does(
                    model::return_statement(folding, old(self).model(), *return_statement),
                    final(self).model(),
                    outcome,
                ),
    {
        let ret_count: u8 = match cast_u8(return_statement.returns.len()) {
            Some(ret_count) => ret_count,
            None => return Err(CompilerError::Limit(CompilerLimit::Returns)),
        };
        let count: VarCount = match VarCount::make_constant(ret_count) {
            Some(count) => count,
            None => return Err(CompilerError::Limit(CompilerLimit::Returns)),
        };
        proof {
            self.lemma_top();
        }
        if ret_count == 0 {
            self.functions.top.opcodes.push(OpCode::Return { start: 0, count });
            proof {
                self.lemma_top_changed(old(self));
                soundness::lemma_emit(old(self).model(), OpCode::Return { start: 0, count });
            }
        } else if ret_count == 1 {
            let expr: ExprDescriptor<'a> = match self.expression(
                fold,
                &return_statement.returns[0],
            ) {
                Ok(expr) => expr,
                Err(e) => return Err(e),
            };
            let ghost before = self.model();
            match self.return_expr(expr, count) {
                Ok(()) => {},
                Err(e) => return Err(e),
            }
            proof {
                soundness::lemma_kept_twice(old(self).model(), before, self.model());
            }
        } else {
            let start: u16 = self.functions.top.register_allocator.stack_top();
            match self.push_expressions(fold, &return_statement.returns) {
                Ok(()) => {},
                Err(e) => return Err(e),
            }
            let ghost before = *self;
            proof {
                self.lemma_top();
            }
            self.functions.top.opcodes.push(OpCode::Return { start: start as u8, count });
            self.functions.top.release(ret_count);
            proof {
                self.lemma_top_changed(&before);
                soundness::lemma_emit_and_release(
                    before.model(),
                    OpCode::Return { start: start as u8, count },
                    ret_count as nat,
                );
                soundness::lemma_kept_twice(old(self).model(), before.model(), self.model());
            }
        }
        Ok(())
    }

    /// Emits the return of one expression.
    pub(crate) fn return_expr(&mut self, expr: ExprDescriptor<'a>, count: VarCount) -> (outcome: Result<
        (),
        CompilerError,
    >)
        requires
            old(self).wf(),
            count.0 == 1,
            old(self).model().last().holds(expr@),
            validity::valid_operand(expr@, old(self).model().last()),
        ensures
            match old(self).model().last().in_any_register(expr@) {
                Ok((top, operand, start)) => {
                    let used = top.emit(OpCode::Return { start, count }).free(operand);
                    &&& outcome is Ok
                    &&& final(self).wf()
                    &&& soundness::kept(old(self).model(), final(self).model())
                    &&& final(self).model() == model::with_top(old(self).model(), used)
                    &&& used.locals == old(self).model().last().locals
                    &&& used.temporaries == old(self).model().last().free(expr@).temporaries
                    &&& validity::ends_with_return(final(self).model().last().opcodes)
                },
                Err(e) => outcome == Err::<(), CompilerError>(e),
            },
    {
        let mut expr: ExprDescriptor<'a> = expr;
        let ghost given = expr@;
        proof {
            self.lemma_top();
        }
        let start: Register = match self.functions.top.expr_any_register(&mut expr) {
            Ok(start) => start,
            Err(e) => return Err(e),
        };
        self.functions.top.opcodes.push(OpCode::Return { start, count });
        self.functions.top.free_expr(expr);
        proof {
            self.lemma_top_changed(old(self));
            soundness::lemma_return_register(old(self).model(), given, count);
        }
        Ok(())
    }

    /// Compiles the values of a declaration of locals.
    pub(crate) fn local_values<F: Fn(BinaryOperator, Value<'a>, Value<'a>) -> Option<Value<'a>>>(
        &mut self,
        fold: &F,
        local_statement: &'a LocalStatement,
    ) -> (outcome: Result<(), CompilerError>)
        requires
            old(self).wf(),
            folds_all(*fold),
            old(self).model().last().temporaries == 0,
        ensures
            outcome is Ok ==> {
                &&& final(self).wf()
                &&& soundness::kept(old(self).model(), final(self).model())
                &&& model::settled(old(self).model(), final(self).model())
            },
            forall|folding: Folding|
                folds_as(*fold, folding) ==> does(
                    model::local_values_upto(
                        folding,
                        old(self).model(),
                        *local_statement,
                        local_statement.values@.len(),
                    ),
                    final(self).model(),
                    outcome,
                ),
    {
        proof {
            self.lemma_top();
            soundness::lemma_kept_same(self.model());
        }
        let mut i: usize = 0;
        while i < local_statement.values.len()
            invariant
                i <= local_statement.values@.len(),
                self.wf(),
                folds_all(*fold),
                old(self).model().last().temporaries == 0,
                soundness::kept(old(self).model(), self.model()),
                model::settled(old(self).model(), self.model()),
                forall|folding: Folding|
                    folds_as(*fold, folding) ==> does(
                        model::local_values_upto(
                            folding,
                            old(self).model(),
                            *local_statement,
                            i as nat,
                        ),
                        self.model(),
                        Ok(()),
                    ),
            decreases local_statement.values@.len() - i,
        {
            let ghost some = self.model();
            let outcome = self.local_value(fold, local_statement, i);
            if let Err(e) = outcome {
                proof {
                    assert forall|folding: Folding| folds_as(*fold, folding) implies does(
                        model::local_values_upto(
                            folding,
                            old(self).model(),
                            *local_statement,
                            local_statement.values@.len(),
                        ),
                        self.model(),
                        Err::<(), CompilerError>(e),
                    ) by {
                        model::lemma_local_values_fail(
                            folding,
                            old(self).model(),
                            *local_statement,
                            i as nat + 1,
                            local_statement.values@.len(),
                        );
                    }
                }
                return Err(e);
            }
            proof {
                soundness::lemma_kept_twice(old(self).model(), some, self.model());
            }
            i += 1;
        }
        Ok(())
    }

    /// Compiles one value of a declaration of locals.
    pub(crate) fn local_value<F: Fn(BinaryOperator, Value<'a>, Value<'a>) -> Option<Value<'a>>>(
        &mut self,
        fold: &F,
        local_statement: &'a LocalStatement,
        i: usize,
    ) -> (outcome: Result<(), CompilerError>)
        requires
            old(self).wf(),
            folds_all(*fold),
            old(self).model().last().temporaries == 0,
            i < local_statement.values@.len(),
        ensures
            outcome is Ok ==> {
                &&& final(self).wf()
                &&& soundness::kept(old(self).model(), final(self).model())
                &&& model::settled(old(self).model(), final(self).model())
            },
            forall|folding: Folding|
                folds_as(*fold, folding) ==> does(
                    model::local_value(folding, old(self).model(), *local_statement, i as int),
                    final(self).model(),
                    outcome,
                ),
    {
        let expr: ExprDescriptor<'a> = match self.expression(fold, &local_statement.values[i]) {
            Ok(expr) => expr,
            Err(e) => return Err(e),
        };
        let ghost before = *self;
        proof {
            self.lemma_top();
        }
        if local_statement.names.len() > i {
            let register: Register = match self.functions.top.expr_allocate_register(expr) {
                Ok(register) => register,
                Err(e) => return Err(e),
            };
            proof {
                soundness::lemma_declare_operand(
                    before.model(),
                    expr@,
                    local_statement.names@[i as int]@,
                );
            }
            self.functions.top.declare(local_statement.names[i].as_slice(), register);
        } else {
            proof {
                soundness::lemma_free(before.model(), expr@);
            }
            self.functions.top.free_expr(expr);
        }
        proof {
            self.lemma_top_changed(&before);
            soundness::lemma_kept_twice(old(self).model(), before.model(), self.model());
        }
        Ok(())
    }

    /// Compiles a declaration of locals.
    pub(crate) fn local_statement<F: Fn(BinaryOperator, Value<'a>, Value<'a>) -> Option<Value<'a>>>(
        &mut self,
        fold: &F,
        local_statement: &'a LocalStatement,
    ) -> (outcome: Result<(), CompilerError>)
        requires
            old(self).wf(),
            folds_all(*fold),
            old(self).model().last().temporaries == 0,
        ensures
            outcome is Ok ==> {
                &&& final(self).wf()
                &&& soundness::kept(old(self).model(), final(self).model())
                &&& model::settled(old(self).model(), final(self).model())
            },
            forall|folding: Folding|
                folds_as(*fold, folding) ==> does(
                    model::local_statement(folding, old(self).model(), *local_statement),
                    final(self).model(),
                    outcome,
                ),
    {
        match self.local_values(fold, local_statement) {
            Ok(()) => {},
            Err(e) => return Err(e),
        }
        let ghost before = *self;
        proof {
            self.lemma_top();
        }
        let mut i: usize = local_statement.values.len();
        while i < local_statement.names.len()
            invariant
                local_statement.values@.len() <= i,
                i <= local_statement.names@.len() || i == local_statement.values@.len(),
                self.functions.top.wf(),
                self.functions.lower@ == before.functions.lower@,
                self.functions.top.model().temporaries == 0,
                before.model().last() == before.functions.top.model(),
                forall|folding: Folding|
                    folds_as(*fold, folding) ==> does(
                        model::local_values_upto(
                            folding,
                            old(self).model(),
                            *local_statement,
                            local_statement.values@.len(),
                        ),
                        before.model(),
                        Ok(()),
                    ),
                model::local_nils_upto(
                    before.functions.top.model(),
                    *local_statement,
                    i as nat,
                ) == Ok::<_, CompilerError>(self.functions.top.model()),
            decreases local_statement.names@.len() - i,
        {
            let register: Register = match self.functions.top.take_register() {
                Ok(register) => register,
                Err(e) => {
                    proof {
                        model::lemma_local_nils_fail(
                            before.functions.top.model(),
                            *local_statement,
                            i as nat + 1,
                            local_statement.names@.len(),
                        );
                    }
                    return Err(e);
                },
            };
            self.functions.top.load_nil(register);
            self.functions.top.declare(local_statement.names[i].as_slice(), register);
            i += 1;
        }
        proof {
            self.lemma_top_changed(&before);
            soundness::lemma_local_nils(before.model(), *local_statement, i as nat);
            soundness::lemma_kept_twice(old(self).model(), before.model(), self.model());
        }
        Ok(())
    }

    /// Compiles a call of which nothing is returned.
    pub(crate) fn function_call<F: Fn(BinaryOperator, Value<'a>, Value<'a>) -> Option<Value<'a>>>(
        &mut self,
        fold: &F,
        function_call: &'a FunctionCallStatement,
    ) -> (outcome: Result<(), CompilerError>)
        requires
            old(self).wf(),
            folds_all(*fold),
        ensures
            outcome is Ok ==> {
                &&& final(self).wf()
                &&& soundness::kept(old(self).model(), final(self).model())
                &&& model::settled(old(self).model(), final(self).model())
            },
            forall|folding: Folding|
                folds_as(*fold, folding) ==> does(
                    model::function_call(folding, old(self).model(), *function_call),
                    final(self).model(),
                    outcome,
                ),
    {
        let func_expr: ExprDescriptor<'a> = match self.suffixed_expression(
            fold,
            &function_call.head,
        ) {
            Ok(func_expr) => func_expr,
            Err(e) => return Err(e),
        };
        let ghost before = *self;
        proof {
            self.lemma_top();
        }
        proof {
            soundness::lemma_in_new_register(self.model(), func_expr@);
        }
        let func: Register = match self.functions.top.expr_push_register(func_expr) {
            Ok(func) => func,
            Err(e) => return Err(e),
        };
        proof {
            self.lemma_top_changed(&before);
            soundness::lemma_kept_twice(old(self).model(), before.model(), self.model());
        }
        let ghost headed = self.model();
        match &function_call.call {
            CallSuffix::Function(exprs) => {
                let arg_count: u8 = match cast_u8(exprs.len()) {
                    Some(arg_count) => arg_count,
                    None => return Err(CompilerError::Limit(CompilerLimit::FixedParameters)),
                };
                match self.push_expressions(fold, exprs) {
                    Ok(()) => {},
                    Err(e) => return Err(e),
                }
                let args: VarCount = match VarCount::make_constant(arg_count) {
                    Some(args) => args,
                    None => return Err(CompilerError::Limit(CompilerLimit::FixedParameters)),
                };
                let ghost before = *self;
                proof {
                    self.lemma_top();
                }
                self.functions.top.opcodes.push(
                    OpCode::Call { func, args, returns: VarCount::make_zero() },
                );
                self.functions.top.release(arg_count);
                self.functions.top.release(1);
                proof {
                    self.lemma_top_changed(&before);
                    soundness::lemma_emit_and_release(
                        before.model(),
                        OpCode::Call { func, args, returns: VarCount(0) },
                        arg_count as nat + 1,
                    );
                    soundness::lemma_kept_twice(old(self).model(), headed, before.model());
                    soundness::lemma_kept_twice(old(self).model(), before.model(), self.model());
                }
                Ok(())
            },
            CallSuffix::Method(_, _) => Err(CompilerError::Unsupported(Unsupported::MethodCall)),
        }
    }

    /// Compiles an assignment, one target after the other.
    pub(crate) fn assignment<F: Fn(BinaryOperator, Value<'a>, Value<'a>) -> Option<Value<'a>>>(
        &mut self,
        fold: &F,
        assignment: &'a AssignmentStatement,
    ) -> (outcome: Result<(), CompilerError>)
        requires
            old(self).wf(),
            folds_all(*fold),
        ensures
            outcome is Ok ==> {
                &&& final(self).wf()
                &&& soundness::kept(old(self).model(), final(self).model())
                &&& model::steady(old(self).model(), final(self).model())
            },
            forall|folding: Folding|
                folds_as(*fold, folding) ==> does(
                    model::assignment_upto(
                        folding,
                        old(self).model(),
                        *assignment,
                        assignment.targets@.len(),
                    ),
                    final(self).model(),
                    outcome,
                ),
    {
        proof {
            self.lemma_top();
            soundness::lemma_kept_same(self.model());
        }
        let mut i: usize = 0;
        while i < assignment.targets.len()
            invariant
                i <= assignment.targets@.len(),
                self.wf(),
                folds_all(*fold),
                soundness::kept(old(self).model(), self.model()),
                model::steady(old(self).model(), self.model()),
                forall|folding: Folding|
                    folds_as(*fold, folding) ==> does(
                        model::assignment_upto(
                            folding,
                            old(self).model(),
                            *assignment,
                            i as nat,
                        ),
                        self.model(),
                        Ok(()),
                    ),
            decreases assignment.targets@.len() - i,
        {
            let ghost some = self.model();
            let outcome = self.assign(fold, assignment, i);
            if let Err(e) = outcome {
                proof {
                    assert forall|folding: Folding| folds_as(*fold, folding) implies does(
                        model::assignment_upto(
                            folding,
                            old(self).model(),
                            *assignment,
                            assignment.targets@.len(),
                        ),
                        self.model(),
                        Err::<(), CompilerError>(e),
                    ) by {
                        model::lemma_assignment_fails(
                            folding,
                            old(self).model(),
                            *assignment,
                            i as nat + 1,
                            assignment.targets@.len(),
                        );
                    }
                }
                return Err(e);
            }
            proof {
                soundness::lemma_kept_twice(old(self).model(), some, self.model());
            }
            i += 1;
        }
        Ok(())
    }

    /// Compiles what an assignment does to one of its targets.
    pub(crate) fn assign<F: Fn(BinaryOperator, Value<'a>, Value<'a>) -> Option<Value<'a>>>(
        &mut self,
        fold: &F,
        assignment: &'a AssignmentStatement,
        i: usize,
    ) -> (outcome: Result<(), CompilerError>)
        requires
            old(self).wf(),
            folds_all(*fold),
            i < assignment.targets@.len(),
        ensures
            outcome is Ok ==> {
                &&& final(self).wf()
                &&& soundness::kept(old(self).model(), final(self).model())
                &&& model::steady(old(self).model(), final(self).model())
            },
            forall|folding: Folding|
                folds_as(*fold, folding) ==> does(
                    match model::assigned_value(
                        folding,
                        old(self).model(),
                        *assignment,
                        i as int,
                    ) {
                        Ok((functions, operand)) => model::assign(
                            functions,
                            assignment.targets@[i as int],
                            operand,
                        ),
                        Err(e) => Err(e),
                    },
                    final(self).model(),
                    outcome,
                ),
    {
        proof {
            self.lemma_top();
            soundness::lemma_kept_same(self.model());
        }
        let expr: ExprDescriptor<'a> = if i < assignment.values.len() {
            match self.expression(fold, &assignment.values[i]) {
                Ok(expr) => expr,
                Err(e) => return Err(e),
            }
        } else {
            ExprDescriptor::Value(Value::Nil)
        };
        let ghost valued = self.model();
        let outcome = self.store(&assignment.targets[i], expr);
        proof {
            if outcome is Ok {
                soundness::lemma_kept_twice(old(self).model(), valued, self.model());
            }
        }
        outcome
    }

    /// Compiles the assignment of an expression to a target.
    pub(crate) fn store(&mut self, target: &'a AssignmentTarget, expr: ExprDescriptor<'a>) -> (outcome: Result<
        (),
        CompilerError,
    >)
        requires
            old(self).wf(),
            old(self).model().last().holds(expr@),
            validity::valid_operand(expr@, old(self).model().last()),
        ensures
            target is Field ==> outcome is Err && *final(self) == *old(self),
            outcome is Ok ==> {
                &&& final(self).wf()
                &&& soundness::kept(old(self).model(), final(self).model())
                &&& model::steady(
                    model::with_top(old(self).model(), old(self).model().last().free(expr@)),
                    final(self).model(),
                )
            },
            does(
                model::assign(old(self).model(), *target, expr@),
                final(self).model(),
                outcome,
            ),
    {
        let name: &'a Vec<u8> = match target {
            AssignmentTarget::Name(name) => name,
            AssignmentTarget::Field(_, _) => {
                return Err(CompilerError::Unsupported(Unsupported::AssignmentTarget));
            },
        };
        proof {
            self.lemma_top();
            soundness::lemma_assign(self.model(), *target, expr@);
            model::lemma_resolve_steady(self.model(), name@);
        }
        match self.find_variable(name.as_slice()) {
            Ok(VariableDescriptor::Local(dest)) => {
                let ghost before = *self;
                proof {
                    self.lemma_top();
                }
                match self.functions.top.expr_to_register(expr, dest) {
                    Ok(()) => {},
                    Err(e) => return Err(e),
                }
                proof {
                    self.lemma_top_changed(&before);
                }
                Ok(())
            },
            Ok(VariableDescriptor::UpValue(dest)) => {
                let ghost before = *self;
                proof {
                    self.lemma_top();
                }
                let mut expr: ExprDescriptor<'a> = expr;
                let source: Register = match self.functions.top.expr_any_register(&mut expr) {
                    Ok(source) => source,
                    Err(e) => return Err(e),
                };
                self.functions.top.opcodes.push(OpCode::SetUpValue { source, dest });
                self.functions.top.free_expr(expr);
                proof {
                    self.lemma_top_changed(&before);
                }
                Ok(())
            },
            Ok(VariableDescriptor::Global(_)) => Err(
                CompilerError::Unsupported(Unsupported::GlobalAssignment),
            ),
            Err(e) => Err(e),
        }
    }

    /// Compiles a function and binds it to a local.
    pub(crate) fn local_function<F: Fn(BinaryOperator, Value<'a>, Value<'a>) -> Option<Value<'a>>>(
        &mut self,
        fold: &F,
        local_function: &'a FunctionStatement,
    ) -> (outcome: Result<(), CompilerError>)
        requires
            old(self).wf(),
            folds_all(*fold),
            old(self).model().last().temporaries == 0,
        ensures
            local_function.definition.has_varargs || local_function.name.fields@.len() > 0
                || local_function.name.method is Some ==> {
                &&& outcome is Err
                &&& *final(self) == *old(self)
            },
            !local_function.definition.has_varargs && local_function.name.fields@.len() == 0
                && local_function.name.method is None
                && local_function.definition.parameters@.len() > u8::MAX ==> {
                &&& outcome == Err::<(), CompilerError>(
                    CompilerError::Limit(CompilerLimit::FixedParameters),
                )
                &&& final(self).functions.lower@ == old(self).functions@
                &&& final(self).functions.top.model() == FunctionModel::start(seq![])
            },
            outcome is Ok ==> {
                &&& final(self).wf()
                &&& soundness::kept(old(self).model(), final(self).model())
                &&& model::settled(old(self).model(), final(self).model())
            },
            forall|folding: Folding|
                folds_as(*fold, folding) ==> does(
                    model::local_function(folding, old(self).model(), *local_function),
                    final(self).model(),
                    outcome,
                ),
        decreases *local_function, 0nat,
    {
        if local_function.definition.has_varargs {
            return Err(CompilerError::Unsupported(Unsupported::VarArgs));
        }
        if !local_function.name.fields.is_empty() {
            return Err(CompilerError::Unsupported(Unsupported::FunctionNameFields));
        }
        if local_function.name.method.is_some() {
            return Err(CompilerError::Unsupported(Unsupported::FunctionNameMethod));
        }
        proof {
            self.lemma_top();
        }
        self.functions.push(CompilerFunction::new());
        assert(self.functions.lower@ =~= self.functions@.drop_last());
        match self.functions.top.declare_parameters(&local_function.definition.parameters) {
            Ok(()) => {},
            Err(e) => return Err(e),
        }
        proof {
            assert(self.model() =~= old(self).model().push(self.functions.top.model()));
            soundness::lemma_begin(
                old(self).model(),
                model::names(local_function.definition.parameters@),
            );
            assert forall|i: int| 0 <= i < self.functions@.len() implies (
            #[trigger] self.functions@[i]).wf() by {
                if i < old(self).functions@.len() {
                    assert(self.functions@[i] == old(self).functions@[i]);
                }
            }
        }
        let ghost started = self.model();
        match self.block(fold, &local_function.definition.body) {
            Ok(()) => {},
            Err(e) => return Err(e),
        }
        let ghost compiled = *self;
        proof {
            self.lemma_top();
        }
        let new_function: CompilerFunction<'a> = self.functions.pop();
        let ghost before = *self;
        proof {
            assert(self.model() =~= compiled.model().drop_last());
            assert(self.model().last() == compiled.model()[compiled.model().len() - 2]);
            assert(started[started.len() - 2] == old(self).model().last());
            assert forall|i: int| 0 <= i < self.functions@.len() implies (
            #[trigger] self.functions@[i]).wf() by {
                assert(self.functions@[i] == compiled.functions@[i]);
            }
            soundness::lemma_enclosed(compiled.model(), local_function.name.name@);
            soundness::lemma_kept_around(
                old(self).model(),
                model::names(local_function.definition.parameters@),
                compiled.model(),
            );
            self.lemma_top();
        }
        let proto: FunctionProto<'a> = new_function.to_proto();
        match self.functions.top.closure(proto, local_function.name.name.as_slice()) {
            Ok(()) => {},
            Err(e) => return Err(e),
        }
        proof {
            self.lemma_top_changed(&before);
            soundness::lemma_kept_twice(old(self).model(), before.model(), self.model());
        }
        Ok(())
    }

    /// Compiles a statement.
    pub(crate) fn statement<F: Fn(BinaryOperator, Value<'a>, Value<'a>) -> Option<Value<'a>>>(
        &mut self,
        fold: &F,
        statement: &'a Statement,
    ) -> (outcome: Result<(), CompilerError>)
        requires
            old(self).wf(),
            folds_all(*fold),
            old(self).model().last().temporaries == 0,
        ensures
            statement is Other ==> {
                &&& outcome is Err
                &&& *final(self) == *old(self)
            },
            outcome is Ok ==> {
                &&& final(self).wf()
                &&& soundness::kept(old(self).model(), final(self).model())
                &&& model::settled(old(self).model(), final(self).model())
            },
            forall|folding: Folding|
                folds_as(*fold, folding) ==> does(
                    model::statement(folding, old(self).model(), *statement),
                    final(self).model(),
                    outcome,
                ),
        decreases *statement, 0nat,
    {
        match statement {
            Statement::LocalStatement(local_statement) => self.local_statement(
                fold,
                local_statement,
            ),
            Statement::LocalFunction(local_function) => self.local_function(fold, local_function),
            Statement::FunctionCall(function_call) => self.function_call(fold, function_call),
            Statement::Assignment(assignment) => {
                proof {
                    self.lemma_top();
                }
                self.assignment(fold, assignment)
            },
            Statement::Other => Err(CompilerError::Unsupported(Unsupported::Statement)),
        }
    }

    /// Compiles the statements of a block.
    pub(crate) fn statements<F: Fn(BinaryOperator, Value<'a>, Value<'a>) -> Option<Value<'a>>>(
        &mut self,
        fold: &F,
        block: &'a Block,
    ) -> (outcome: Result<(), CompilerError>)
        requires
            old(self).wf(),
            folds_all(*fold),
            old(self).model().last().temporaries == 0,
        ensures
            outcome is Ok ==> {
                &&& final(self).wf()
                &&& soundness::kept(old(self).model(), final(self).model())
                &&& model::settled(old(self).model(), final(self).model())
            },
            forall|folding: Folding|
                folds_as(*fold, folding) ==> does(
                    model::statements_upto(
                        folding,
                        old(self).model(),
                        *block,
                        block.statements@.len(),
                    ),
                    final(self).model(),
                    outcome,
                ),
        decreases *block, 0nat,
    {
        proof {
            self.lemma_top();
            soundness::lemma_kept_same(self.model());
        }
        let mut i: usize = 0;
        while i < block.statements.len()
            invariant
                i <= block.statements@.len(),
                self.wf(),
                folds_all(*fold),
                old(self).model().last().temporaries == 0,
                soundness::kept(old(self).model(), self.model()),
                model::settled(old(self).model(), self.model()),
                forall|folding: Folding|
                    folds_as(*fold, folding) ==> does(
                        model::statements_upto(folding, old(self).model(), *block, i as nat),
                        self.model(),
                        Ok(()),
                    ),
            decreases block.statements@.len() - i,
        {
            let ghost some = self.model();
            let outcome = self.statement(fold, &block.statements[i]);
            if let Err(e) = outcome {
                proof {
                    assert forall|folding: Folding| folds_as(*fold, folding) implies does(
                        model::statements_upto(
                            folding,
                            old(self).model(),
                            *block,
                            block.statements@.len(),
                        ),
                        self.model(),
                        Err::<(), CompilerError>(e),
                    ) by {
                        model::lemma_statements_fail(
                            folding,
                            old(self).model(),
                            *block,
                            i as nat + 1,
                            block.statements@.len(),
                        );
                    }
                }
                return Err(e);
            }
            proof {
                soundness::lemma_kept_twice(old(self).model(), some, self.model());
            }
            i += 1;
        }
        Ok(())
    }

    /// Compiles the body of a function.
    pub(crate) fn block<F: Fn(BinaryOperator, Value<'a>, Value<'a>) -> Option<Value<'a>>>(
        &mut self,
        fold: &F,
        block: &'a Block,
    ) -> (outcome: Result<(), CompilerError>)
        requires
            old(self).wf(),
            folds_all(*fold),
            old(self).model().last().temporaries == 0,
        ensures
            outcome is Ok ==> {
                &&& final(self).wf()
                &&& soundness::kept(old(self).model(), final(self).model())
                &&& validity::ends_with_return(final(self).model().last().opcodes)
                &&& model::settled(old(self).model(), final(self).model())
            },
            forall|folding: Folding|
                folds_as(*fold, folding) ==> does(
                    model::block(folding, old(self).model(), *block),
                    final(self).model(),
                    outcome,
                ),
        decreases *block, 1nat,
    {
        match self.statements(fold, block) {
            Ok(()) => {},
            Err(e) => return Err(e),
        }
        let ghost before = *self;
        proof {
            self.lemma_top();
        }
        match &block.return_statement {
            Some(return_statement) => {
                let outcome = self.return_statement(fold, return_statement);
                proof {
                    if outcome is Ok {
                        soundness::lemma_kept_twice(
                            old(self).model(),
                            before.model(),
                            self.model(),
                        );
                    }
                }
                outcome
            },
            None => {
                self.functions.top.opcodes.push(
                    OpCode::Return { start: 0, count: VarCount::make_zero() },
                );
                proof {
                    self.lemma_top_changed(&before);
                    soundness::lemma_emit(
                        before.model(),
                        OpCode::Return { start: 0, count: VarCount(0) },
                    );
                    soundness::lemma_kept_twice(old(self).model(), before.model(), self.model());
                }
                Ok(())
            },
        }
    }

    /// Compiles a chunk.
    pub(crate) fn compile<F: Fn(BinaryOperator, Value<'a>, Value<'a>) -> Option<Value<'a>>>(
        fold: &F,
        chunk: &'a Chunk,
    ) -> (compiled: Result<FunctionProto<'a>, CompilerError>)
        requires
            folds_all(*fold),
        ensures
            compiled matches Ok(proto) ==> validity::valid_chunk(proto@),
            forall|folding: Folding|
                folds_as(*fold, folding) ==> proto_result(compiled) == model::chunk(
                    folding,
                    *chunk,
                ),
            forall|folding: Folding| #[trigger]
                folds_as(*fold, folding) ==> match compiled {
                    Ok(proto) => meaning::outcome(folding, *chunk, Ok(proto@)),
                    Err(e) => meaning::outcome(folding, *chunk, Err(e)),
                },
    {
        proof {
            assert forall|folding: Folding| #[trigger]
                folds_as(*fold, folding) implies meaning::outcome(
                folding,
                *chunk,
                model::chunk(folding, *chunk),
            ) by {
                meaning::lemma_chunk(folding, *chunk);
            }
        }
        let mut compiler: Compiler<'a> = Compiler {
            functions: TopStack::new(CompilerFunction::new()),
        };
        proof {
            compiler.lemma_top();
            assert(compiler.model() =~= seq![FunctionModel::start(seq![])]);
        }
        match compiler.block(fold, &chunk.block) {
            Ok(()) => {
                proof {
                    compiler.lemma_top();
                    soundness::lemma_chunk(compiler.model());
                }
                Ok(compiler.functions.top.to_proto())
            },
            Err(e) => Err(e),
        }
    }
}

/// What the result of compiling a chunk is.
pub open spec fn proto_result(result: Result<FunctionProto<'_>, CompilerError>) -> Result<
    ProtoView,
    CompilerError,
> {
    match result {
        Ok(proto) => Ok(proto@),
        Err(e) => Err(e),
    }
}

/// Compiles a chunk to a function. Operators between values that are known when the chunk is
/// compiled are left to `fold`, which says what they give, or that this is not known before the
/// chunk runs.
pub fn compile_chunk<'a, F: Fn(BinaryOperator, Value<'a>, Value<'a>) -> Option<Value<'a>>>(
    chunk: &'a Chunk,
    fold: F,
) -> (compiled: Result<FunctionProto<'a>, CompilerError>)
    requires
        folds_all(fold),
    ensures
        compiled matches Ok(proto) ==> validity::valid_chunk(proto@),
        forall|folding: Folding| #[trigger]
            folds_as(fold, folding) ==> proto_result(compiled) == model::chunk(folding, *chunk),
        forall|folding: Folding| #[trigger]
            folds_as(fold, folding) ==> match compiled {
                Ok(proto) => meaning::outcome(folding, *chunk, Ok(proto@)),
                Err(e) => meaning::outcome(folding, *chunk, Err(e)),
            },
{
    Compiler::compile(&fold, chunk)
}

} // verus!
