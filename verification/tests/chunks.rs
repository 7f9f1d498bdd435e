//! What chunks compile to.

use lua_compiler::ast::{
    AssignmentStatement, AssignmentTarget, Block, CallSuffix, Chunk, Expression, FieldSuffix,
    FunctionCallStatement, FunctionDefinition, FunctionName, FunctionStatement, HeadExpression,
    LocalStatement, PrimaryExpression, ReturnStatement, SimpleExpression, Statement, SuffixPart,
    SuffixedExpression,
};
use lua_compiler::compiler::compile_chunk;
use lua_compiler::error::{CompilerError, CompilerLimit, Unsupported};
use lua_compiler::function::{FunctionProto, UpValueDescriptor};
use lua_compiler::opcode::{OpCode, VarCount};
use lua_compiler::operators::{BinaryOperator, UnaryOperator};
use lua_compiler::value::{ConstantValue, Value};

fn simple(e: SimpleExpression) -> Expression {
    Expression { head: Box::new(HeadExpression::Simple(e)), tail: vec![] }
}

fn integer(i: i64) -> Expression {
    simple(SimpleExpression::Integer(i))
}

fn string(s: &str) -> Expression {
    simple(SimpleExpression::String(s.as_bytes().to_vec()))
}

fn float(f: f64) -> Expression {
    simple(SimpleExpression::Float(f.to_bits()))
}

fn nil() -> Expression {
    simple(SimpleExpression::Nil)
}

fn suffixed(name: &str) -> SuffixedExpression {
    SuffixedExpression { primary: PrimaryExpression::Name(bytes(name)), suffixes: vec![] }
}

fn var(name: &str) -> Expression {
    simple(SimpleExpression::Suffixed(suffixed(name)))
}

fn grouped(e: Expression) -> Expression {
    simple(SimpleExpression::Suffixed(SuffixedExpression {
        primary: PrimaryExpression::GroupedExpression(e),
        suffixes: vec![],
    }))
}

fn binary(left: Expression, operator: BinaryOperator, right: Expression) -> Expression {
    let mut e = left;
    e.tail.push((operator, right));
    e
}

fn sum(left: Expression, right: Expression) -> Expression {
    binary(left, BinaryOperator::Add, right)
}

fn bytes(name: &str) -> Vec<u8> {
    name.as_bytes().to_vec()
}

fn all_bytes(names: &[&str]) -> Vec<Vec<u8>> {
    names.iter().map(|name| bytes(name)).collect()
}

fn local(names: &[&str], values: Vec<Expression>) -> Statement {
    Statement::LocalStatement(LocalStatement { names: all_bytes(names), values })
}

fn numbered_locals(prefix: &str, count: usize) -> Statement {
    let names = (0..count).map(|i| bytes(&format!("{}{}", prefix, i))).collect();
    Statement::LocalStatement(LocalStatement { names, values: vec![] })
}

fn assign(names: &[&str], values: Vec<Expression>) -> Statement {
    let targets = names.iter().map(|name| AssignmentTarget::Name(bytes(name))).collect();
    Statement::Assignment(AssignmentStatement { targets, values })
}

fn call(name: &str, arguments: Vec<Expression>) -> Statement {
    Statement::FunctionCall(FunctionCallStatement {
        head: suffixed(name),
        call: CallSuffix::Function(arguments),
    })
}

fn definition(name: &str, parameters: &[&str], body: Block) -> FunctionStatement {
    FunctionStatement {
        name: FunctionName { name: bytes(name), fields: vec![], method: None },
        definition: FunctionDefinition {
            parameters: all_bytes(parameters),
            has_varargs: false,
            body,
        },
    }
}

fn function(name: &str, parameters: &[&str], body: Block) -> Statement {
    Statement::LocalFunction(definition(name, parameters, body))
}

fn body(statements: Vec<Statement>) -> Block {
    Block { statements, return_statement: None }
}

fn returning(statements: Vec<Statement>, returns: Vec<Expression>) -> Block {
    Block { statements, return_statement: Some(ReturnStatement { returns }) }
}

fn chunk(statements: Vec<Statement>) -> Chunk {
    Chunk { block: body(statements) }
}

fn chunk_returning(statements: Vec<Statement>, returns: Vec<Expression>) -> Chunk {
    Chunk { block: returning(statements, returns) }
}

/// Adds integers.
fn add<'a>(operator: BinaryOperator, a: Value<'a>, b: Value<'a>) -> Option<Value<'a>> {
    match (operator, a, b) {
        (BinaryOperator::Add, Value::Integer(a), Value::Integer(b)) => {
            Some(Value::Integer(a.wrapping_add(b)))
        }
        _ => None,
    }
}

/// Folds nothing.
fn never<'a>(_: BinaryOperator, _: Value<'a>, _: Value<'a>) -> Option<Value<'a>> {
    None
}

fn compiled(chunk: &Chunk) -> FunctionProto<'_> {
    compile_chunk(chunk, add).unwrap()
}

fn error(chunk: &Chunk) -> CompilerError {
    compile_chunk(chunk, add).unwrap_err()
}

fn limit(chunk: &Chunk) -> CompilerLimit {
    match error(chunk) {
        CompilerError::Limit(limit) => limit,
        CompilerError::Unsupported(u) => panic!("{:?}", u),
    }
}

fn unsupported(chunk: &Chunk) -> Unsupported {
    match error(chunk) {
        CompilerError::Unsupported(u) => u,
        CompilerError::Limit(limit) => panic!("{:?}", limit),
    }
}

fn ret(start: u8, count: u8) -> OpCode {
    OpCode::Return { start, count: VarCount(count) }
}

fn same(a: Value<'_>, b: Value<'_>) -> bool {
    ConstantValue(a) == ConstantValue(b)
}

fn same_all(a: &[Value<'_>], b: &[Value<'_>]) -> bool {
    a.len() == b.len() && (0..a.len()).all(|i| same(a[i], b[i]))
}

/// The registers and upvalues of a function that runs.
struct Running<'a> {
    registers: Vec<Value<'a>>,
    upvalues: Vec<Value<'a>>,
}

/// Runs code that neither calls nor makes functions, and gives back what it returns.
fn run<'a>(proto: &FunctionProto<'a>, running: &mut Running<'a>) -> Vec<Value<'a>> {
    running.registers.resize(proto.stack_size as usize, Value::Boolean(false));
    let plus = |a: Value<'a>, b: Value<'a>| add(BinaryOperator::Add, a, b).unwrap();
    for opcode in &proto.opcodes {
        let registers = &mut running.registers;
        match *opcode {
            OpCode::Move { dest, source } => registers[dest as usize] = registers[source as usize],
            OpCode::LoadConstant { dest, constant } => {
                registers[dest as usize] = proto.constants[constant as usize]
            }
            OpCode::LoadBool { dest, value, skip_next } => {
                assert!(!skip_next);
                registers[dest as usize] = Value::Boolean(value)
            }
            OpCode::LoadNil { dest, count } => {
                for i in 0..count as usize {
                    registers[dest as usize + i] = Value::Nil;
                }
            }
            OpCode::GetUpValue { source, dest } => {
                registers[dest as usize] = running.upvalues[source as usize]
            }
            OpCode::SetUpValue { source, dest } => {
                running.upvalues[dest as usize] = registers[source as usize]
            }
            OpCode::AddRR { dest, left, right } => {
                registers[dest as usize] = plus(registers[left as usize], registers[right as usize])
            }
            OpCode::AddRC { dest, left, right } => {
                registers[dest as usize] =
                    plus(registers[left as usize], proto.constants[right as usize])
            }
            OpCode::AddCR { dest, left, right } => {
                registers[dest as usize] =
                    plus(proto.constants[left as usize], registers[right as usize])
            }
            OpCode::Return { start, count } => {
                let start = start as usize;
                return registers[start..start + count.0 as usize].to_vec();
            }
            OpCode::Call { .. } | OpCode::Closure { .. } => panic!("{:?}", opcode),
        }
    }
    panic!("no return")
}

fn run_chunk<'a>(proto: &FunctionProto<'a>) -> Vec<Value<'a>> {
    run(proto, &mut Running { registers: vec![], upvalues: vec![] })
}

#[test]
fn empty_chunk_returns_nothing() {
    let c = chunk(vec![]);
    let proto = compiled(&c);
    assert_eq!(proto.opcodes, vec![ret(0, 0)]);
    assert_eq!(proto.fixed_params, 0);
    assert!(!proto.has_varargs);
    assert_eq!(proto.stack_size, 0);
    assert!(proto.constants.is_empty());
    assert!(proto.upvalues.is_empty());
    assert!(proto.prototypes.is_empty());
}

#[test]
fn return_without_values() {
    let c = chunk_returning(vec![], vec![]);
    assert_eq!(compiled(&c).opcodes, vec![ret(0, 0)]);
}

#[test]
fn return_of_a_constant() {
    let c = chunk_returning(vec![], vec![integer(7)]);
    let proto = compiled(&c);
    assert_eq!(proto.opcodes, vec![OpCode::LoadConstant { dest: 0, constant: 0 }, ret(0, 1)]);
    assert_eq!(proto.stack_size, 1);
    assert!(same_all(&proto.constants, &[Value::Integer(7)]));
}

#[test]
fn return_of_a_local_uses_its_register() {
    let c = chunk_returning(vec![local(&["a", "b"], vec![integer(1), integer(2)])], vec![var("b")]);
    let proto = compiled(&c);
    assert_eq!(
        proto.opcodes,
        vec![
            OpCode::LoadConstant { dest: 0, constant: 0 },
            OpCode::LoadConstant { dest: 1, constant: 1 },
            ret(1, 1),
        ]
    );
    assert_eq!(proto.stack_size, 2);
}

#[test]
fn return_of_several_values_is_contiguous() {
    let c = chunk_returning(
        vec![local(&["a"], vec![integer(1)]), local(&["b"], vec![var("a")])],
        vec![sum(var("a"), var("b")), var("a")],
    );
    let proto = compiled(&c);
    assert_eq!(
        proto.opcodes,
        vec![
            OpCode::LoadConstant { dest: 0, constant: 0 },
            OpCode::Move { dest: 1, source: 0 },
            OpCode::AddRR { dest: 2, left: 0, right: 1 },
            OpCode::Move { dest: 3, source: 0 },
            ret(2, 2),
        ]
    );
    assert_eq!(proto.stack_size, 4);
    assert!(same_all(&run_chunk(&proto), &[Value::Integer(2), Value::Integer(1)]));
}

#[test]
fn known_operands_are_folded() {
    let c = chunk_returning(vec![], vec![sum(integer(1), integer(2))]);
    let proto = compiled(&c);
    assert_eq!(proto.opcodes, vec![OpCode::LoadConstant { dest: 0, constant: 0 }, ret(0, 1)]);
    assert!(same_all(&proto.constants, &[Value::Integer(3)]));
}

#[test]
fn known_operands_that_cannot_be_folded_are_added() {
    let c = chunk_returning(vec![], vec![sum(integer(1), integer(2))]);
    let proto = compile_chunk(&c, never).unwrap();
    assert_eq!(
        proto.opcodes,
        vec![
            OpCode::LoadConstant { dest: 0, constant: 0 },
            OpCode::AddRC { dest: 0, left: 0, right: 1 },
            ret(0, 1),
        ]
    );
    assert!(same_all(&proto.constants, &[Value::Integer(1), Value::Integer(2)]));
    assert_eq!(proto.stack_size, 1);
    assert!(same_all(&run_chunk(&proto), &[Value::Integer(3)]));
}

#[test]
fn folding_is_asked_with_both_values_in_order() {
    let c = chunk_returning(vec![], vec![binary(integer(1), BinaryOperator::Concat, string("x"))]);
    let proto = compile_chunk(&c, |operator, a, b| {
        assert_eq!(operator, BinaryOperator::Concat);
        assert!(same(a, Value::Integer(1)));
        assert!(same(b, Value::String(b"x")));
        Some(Value::Boolean(true))
    })
    .unwrap();
    assert_eq!(
        proto.opcodes,
        vec![OpCode::LoadBool { dest: 0, value: true, skip_next: false }, ret(0, 1)]
    );
    assert!(proto.constants.is_empty());
}

#[test]
fn operators_are_applied_from_left_to_right() {
    let mut e = sum(integer(1), integer(2));
    e.tail.push((BinaryOperator::Add, var("a")));
    let c = chunk_returning(vec![local(&["a"], vec![integer(4)])], vec![e]);
    let proto = compiled(&c);
    assert_eq!(
        proto.opcodes,
        vec![
            OpCode::LoadConstant { dest: 0, constant: 0 },
            OpCode::AddCR { dest: 1, left: 1, right: 0 },
            ret(1, 1),
        ]
    );
    assert!(same_all(&proto.constants, &[Value::Integer(4), Value::Integer(3)]));
    assert!(same_all(&run_chunk(&proto), &[Value::Integer(7)]));
}

#[test]
fn sum_of_a_register_and_a_constant() {
    let c = chunk_returning(vec![local(&["a"], vec![integer(4)])], vec![sum(var("a"), integer(1))]);
    let proto = compiled(&c);
    assert_eq!(
        proto.opcodes,
        vec![
            OpCode::LoadConstant { dest: 0, constant: 0 },
            OpCode::AddRC { dest: 1, left: 0, right: 1 },
            ret(1, 1),
        ]
    );
    assert_eq!(proto.stack_size, 2);
}

#[test]
fn grouped_sums_reuse_registers() {
    let c = chunk_returning(
        vec![local(&["a"], vec![integer(1)])],
        vec![sum(
            grouped(sum(var("a"), var("a"))),
            grouped(sum(var("a"), grouped(sum(var("a"), integer(5))))),
        )],
    );
    let proto = compiled(&c);
    assert_eq!(
        proto.opcodes,
        vec![
            OpCode::LoadConstant { dest: 0, constant: 0 },
            OpCode::AddRR { dest: 1, left: 0, right: 0 },
            OpCode::AddRC { dest: 2, left: 0, right: 1 },
            OpCode::AddRR { dest: 2, left: 0, right: 2 },
            OpCode::AddRR { dest: 1, left: 1, right: 2 },
            ret(1, 1),
        ]
    );
    assert_eq!(proto.stack_size, 3);
    assert!(same_all(&run_chunk(&proto), &[Value::Integer(9)]));
}

#[test]
fn locals_without_values_are_nil() {
    let c = chunk(vec![local(&["a", "b", "c"], vec![])]);
    let proto = compiled(&c);
    assert_eq!(proto.opcodes, vec![OpCode::LoadNil { dest: 0, count: 3 }, ret(0, 0)]);
    assert_eq!(proto.stack_size, 3);
}

#[test]
fn locals_beyond_the_values_are_nil() {
    let c = chunk_returning(
        vec![local(&["a", "b", "c"], vec![integer(1)])],
        vec![var("a"), var("b"), var("c")],
    );
    let proto = compiled(&c);
    assert_eq!(
        proto.opcodes[..2],
        [OpCode::LoadConstant { dest: 0, constant: 0 }, OpCode::LoadNil { dest: 1, count: 2 }]
    );
    assert!(same_all(&run_chunk(&proto), &[Value::Integer(1), Value::Nil, Value::Nil]));
}

#[test]
fn values_beyond_the_locals_are_evaluated() {
    let c = chunk(vec![
        local(&["a"], vec![]),
        local(&["b"], vec![var("a"), sum(var("a"), var("a"))]),
    ]);
    let proto = compiled(&c);
    assert_eq!(
        proto.opcodes,
        vec![
            OpCode::LoadNil { dest: 0, count: 1 },
            OpCode::Move { dest: 1, source: 0 },
            OpCode::AddRR { dest: 2, left: 0, right: 0 },
            ret(0, 0),
        ]
    );
    assert_eq!(proto.stack_size, 3);
}

#[test]
fn consecutive_nils_are_loaded_at_once() {
    let c = chunk(vec![
        local(&["a"], vec![]),
        local(&["b"], vec![nil()]),
        local(&["c"], vec![simple(SimpleExpression::True)]),
        local(&["d"], vec![]),
        assign(&["a"], vec![nil()]),
    ]);
    assert_eq!(
        compiled(&c).opcodes,
        vec![
            OpCode::LoadNil { dest: 0, count: 2 },
            OpCode::LoadBool { dest: 2, value: true, skip_next: false },
            OpCode::LoadNil { dest: 3, count: 1 },
            OpCode::LoadNil { dest: 0, count: 1 },
            ret(0, 0),
        ]
    );
}

#[test]
fn temporaries_become_locals() {
    let c = chunk_returning(
        vec![local(&["a"], vec![integer(1)]), local(&["b"], vec![sum(var("a"), integer(1))])],
        vec![var("b")],
    );
    let proto = compiled(&c);
    assert_eq!(
        proto.opcodes,
        vec![
            OpCode::LoadConstant { dest: 0, constant: 0 },
            OpCode::AddRC { dest: 1, left: 0, right: 0 },
            ret(1, 1),
        ]
    );
    assert!(same_all(&run_chunk(&proto), &[Value::Integer(2)]));
}

#[test]
fn later_locals_hide_earlier_ones() {
    let c = chunk_returning(
        vec![local(&["a"], vec![integer(1)]), local(&["a"], vec![sum(var("a"), integer(1))])],
        vec![var("a")],
    );
    let proto = compiled(&c);
    assert_eq!(proto.opcodes.last(), Some(&ret(1, 1)));
    assert!(same_all(&run_chunk(&proto), &[Value::Integer(2)]));
}

#[test]
fn assignment_to_locals() {
    let c = chunk_returning(
        vec![
            local(&["a", "b"], vec![]),
            assign(&["a", "b"], vec![integer(5)]),
            assign(&["b"], vec![sum(var("a"), var("a"))]),
            assign(&["a"], vec![var("b")]),
        ],
        vec![var("a"), var("b")],
    );
    let proto = compiled(&c);
    assert_eq!(
        proto.opcodes,
        vec![
            OpCode::LoadNil { dest: 0, count: 2 },
            OpCode::LoadConstant { dest: 0, constant: 0 },
            OpCode::LoadNil { dest: 1, count: 1 },
            OpCode::AddRR { dest: 2, left: 0, right: 0 },
            OpCode::Move { dest: 1, source: 2 },
            OpCode::Move { dest: 0, source: 1 },
            OpCode::Move { dest: 2, source: 0 },
            OpCode::Move { dest: 3, source: 1 },
            ret(2, 2),
        ]
    );
    assert!(same_all(&run_chunk(&proto), &[Value::Integer(10), Value::Integer(10)]));
}

#[test]
fn assignment_goes_target_by_target() {
    let c = chunk_returning(
        vec![
            local(&["a", "b"], vec![integer(1), integer(2)]),
            assign(&["a", "b"], vec![var("b"), var("a")]),
        ],
        vec![var("a"), var("b")],
    );
    let proto = compiled(&c);
    assert!(same_all(&run_chunk(&proto), &[Value::Integer(2), Value::Integer(2)]));
}

#[test]
fn values_beyond_the_targets_are_left_out() {
    let c = chunk(vec![local(&["a"], vec![]), assign(&["a"], vec![integer(1), var("unknown")])]);
    assert_eq!(
        compiled(&c).opcodes,
        vec![
            OpCode::LoadNil { dest: 0, count: 1 },
            OpCode::LoadConstant { dest: 0, constant: 0 },
            ret(0, 0),
        ]
    );
}

#[test]
fn call_of_a_local() {
    let c = chunk(vec![
        local(&["f"], vec![]),
        call("f", vec![integer(1), var("f"), sum(var("f"), var("f"))]),
        local(&["g"], vec![var("f")]),
    ]);
    let proto = compiled(&c);
    assert_eq!(
        proto.opcodes,
        vec![
            OpCode::LoadNil { dest: 0, count: 1 },
            OpCode::Move { dest: 1, source: 0 },
            OpCode::LoadConstant { dest: 2, constant: 0 },
            OpCode::Move { dest: 3, source: 0 },
            OpCode::AddRR { dest: 4, left: 0, right: 0 },
            OpCode::Call { func: 1, args: VarCount(3), returns: VarCount(0) },
            OpCode::Move { dest: 1, source: 0 },
            ret(0, 0),
        ]
    );
    assert_eq!(proto.stack_size, 5);
}

#[test]
fn function_with_a_captured_local() {
    let c = chunk_returning(
        vec![
            local(&["x"], vec![integer(1)]),
            function("g", &["p"], returning(vec![], vec![sum(var("p"), var("x"))])),
        ],
        vec![var("g")],
    );
    let proto = compiled(&c);
    assert_eq!(
        proto.opcodes,
        vec![
            OpCode::LoadConstant { dest: 0, constant: 0 },
            OpCode::Closure { proto: 0, dest: 1 },
            ret(1, 1),
        ]
    );
    let inner = &proto.prototypes[0];
    assert_eq!(
        inner.opcodes,
        vec![
            OpCode::GetUpValue { source: 0, dest: 1 },
            OpCode::AddRR { dest: 1, left: 0, right: 1 },
            ret(1, 1),
        ]
    );
    assert_eq!(inner.fixed_params, 1);
    assert_eq!(inner.stack_size, 2);
    assert_eq!(inner.upvalues, vec![UpValueDescriptor::ParentLocal(0)]);
    let mut running =
        Running { registers: vec![Value::Integer(40)], upvalues: vec![Value::Integer(2)] };
    assert!(same_all(&run(inner, &mut running), &[Value::Integer(42)]));
}

#[test]
fn variables_are_captured_through_all_functions_between() {
    let innermost = body(vec![assign(&["x"], vec![integer(2)]), assign(&["x"], vec![var("y")])]);
    let middle = body(vec![local(&["y"], vec![]), function("g", &[], innermost)]);
    let c = chunk(vec![local(&["w", "x"], vec![]), function("f", &[], middle)]);
    let proto = compiled(&c);
    let f = &proto.prototypes[0];
    assert_eq!(f.upvalues, vec![UpValueDescriptor::ParentLocal(1)]);
    assert_eq!(
        f.opcodes,
        vec![
            OpCode::LoadNil { dest: 0, count: 1 },
            OpCode::Closure { proto: 0, dest: 1 },
            ret(0, 0),
        ]
    );
    let g = &f.prototypes[0];
    assert_eq!(g.upvalues, vec![UpValueDescriptor::Outer(0), UpValueDescriptor::ParentLocal(0)]);
    assert_eq!(
        g.opcodes,
        vec![
            OpCode::LoadConstant { dest: 0, constant: 0 },
            OpCode::SetUpValue { source: 0, dest: 0 },
            OpCode::GetUpValue { source: 1, dest: 0 },
            OpCode::SetUpValue { source: 0, dest: 0 },
            ret(0, 0),
        ]
    );
    assert_eq!(g.stack_size, 1);
    let mut running = Running { registers: vec![], upvalues: vec![Value::Nil, Value::Integer(9)] };
    run(g, &mut running);
    assert!(same_all(&running.upvalues, &[Value::Integer(9), Value::Integer(9)]));
}

#[test]
fn upvalues_of_the_function_around_are_captured_again() {
    let first = body(vec![assign(&["x"], vec![nil()])]);
    let second = body(vec![assign(&["x"], vec![nil()])]);
    let f = body(vec![function("a", &[], first), function("b", &[], second)]);
    let c = chunk(vec![local(&["x"], vec![]), function("f", &[], f)]);
    let proto = compiled(&c);
    let f = &proto.prototypes[0];
    assert_eq!(f.upvalues, vec![UpValueDescriptor::ParentLocal(0)]);
    assert_eq!(f.prototypes[0].upvalues, vec![UpValueDescriptor::Outer(0)]);
    assert_eq!(f.prototypes[1].upvalues, vec![UpValueDescriptor::Outer(0)]);
}

#[test]
fn parameters_are_the_first_locals() {
    let inner = returning(
        vec![assign(&["b"], vec![sum(var("a"), var("b"))])],
        vec![var("b"), var("a")],
    );
    let c = chunk(vec![function("f", &["a", "b"], inner)]);
    let proto = compiled(&c);
    let f = &proto.prototypes[0];
    assert_eq!(f.fixed_params, 2);
    assert_eq!(
        f.opcodes,
        vec![
            OpCode::AddRR { dest: 2, left: 0, right: 1 },
            OpCode::Move { dest: 1, source: 2 },
            OpCode::Move { dest: 2, source: 1 },
            OpCode::Move { dest: 3, source: 0 },
            ret(2, 2),
        ]
    );
    let mut running =
        Running { registers: vec![Value::Integer(3), Value::Integer(4)], upvalues: vec![] };
    assert!(same_all(&run(f, &mut running), &[Value::Integer(7), Value::Integer(3)]));
}

#[test]
fn local_function_is_not_visible_in_its_body() {
    let c = chunk(vec![function("f", &[], body(vec![call("f", vec![])]))]);
    assert_eq!(unsupported(&c), Unsupported::GlobalVariable);
}

#[test]
fn constants_are_shared() {
    let c = chunk(vec![local(
        &["a", "b", "c", "d", "e", "f", "g", "h"],
        vec![
            integer(1),
            string("s"),
            integer(1),
            string("s"),
            float(1.0),
            float(0.0),
            float(-0.0),
            float(1.0),
        ],
    )]);
    let proto = compiled(&c);
    assert!(same_all(
        &proto.constants,
        &[
            Value::Integer(1),
            Value::String(b"s"),
            Value::Number(1.0f64.to_bits()),
            Value::Number(0.0f64.to_bits()),
            Value::Number((-0.0f64).to_bits()),
        ]
    ));
    let indices: Vec<OpCode> = vec![0, 1, 0, 1, 2, 3, 4, 2]
        .into_iter()
        .enumerate()
        .map(|(dest, constant)| OpCode::LoadConstant { dest: dest as u8, constant })
        .collect();
    assert_eq!(proto.opcodes[..8], indices[..]);
}

#[test]
fn nan_is_one_constant() {
    let c = chunk(vec![local(&["a", "b"], vec![float(f64::NAN), float(f64::NAN)])]);
    assert_eq!(compiled(&c).constants.len(), 1);
}

#[test]
fn literals_are_loaded() {
    let c = chunk_returning(
        vec![],
        vec![
            nil(),
            simple(SimpleExpression::True),
            simple(SimpleExpression::False),
            integer(-3),
            float(2.5),
            string("text"),
        ],
    );
    let proto = compiled(&c);
    assert!(same_all(
        &run_chunk(&proto),
        &[
            Value::Nil,
            Value::Boolean(true),
            Value::Boolean(false),
            Value::Integer(-3),
            Value::Number(2.5f64.to_bits()),
            Value::String(b"text"),
        ]
    ));
}

#[test]
fn unsupported_parts_are_named() {
    let other = chunk(vec![Statement::Other]);
    assert_eq!(unsupported(&other), Unsupported::Statement);

    let method = chunk(vec![
        local(&["f"], vec![]),
        Statement::FunctionCall(FunctionCallStatement {
            head: suffixed("f"),
            call: CallSuffix::Method(bytes("m"), vec![]),
        }),
    ]);
    assert_eq!(unsupported(&method), Unsupported::MethodCall);

    let global = chunk(vec![assign(&["g"], vec![])]);
    assert_eq!(unsupported(&global), Unsupported::GlobalAssignment);

    let field = chunk(vec![
        local(&["t"], vec![]),
        Statement::Assignment(AssignmentStatement {
            targets: vec![AssignmentTarget::Field(
                suffixed("t"),
                FieldSuffix::Named(bytes("field")),
            )],
            values: vec![],
        }),
    ]);
    assert_eq!(unsupported(&field), Unsupported::AssignmentTarget);

    let mut varargs = definition("f", &[], body(vec![]));
    varargs.definition.has_varargs = true;
    varargs.name.fields.push(bytes("field"));
    let varargs = chunk(vec![Statement::LocalFunction(varargs)]);
    assert_eq!(unsupported(&varargs), Unsupported::VarArgs);

    let mut fields = definition("f", &[], body(vec![]));
    fields.name.fields.push(bytes("field"));
    fields.name.method = Some(bytes("m"));
    let fields = chunk(vec![Statement::LocalFunction(fields)]);
    assert_eq!(unsupported(&fields), Unsupported::FunctionNameFields);

    let mut method = definition("f", &[], body(vec![]));
    method.name.method = Some(bytes("m"));
    let method = chunk(vec![Statement::LocalFunction(method)]);
    assert_eq!(unsupported(&method), Unsupported::FunctionNameMethod);

    let unary = chunk_returning(
        vec![],
        vec![Expression {
            head: Box::new(HeadExpression::UnaryOperator(
                UnaryOperator::Minus,
                Box::new(integer(1)),
            )),
            tail: vec![],
        }],
    );
    assert_eq!(unsupported(&unary), Unsupported::UnaryOperator);

    let table = chunk_returning(vec![], vec![simple(SimpleExpression::Other)]);
    assert_eq!(unsupported(&table), Unsupported::SimpleExpression);

    let mut index = suffixed("unknown");
    index.suffixes.push(SuffixPart::Field(FieldSuffix::Indexed(integer(1))));
    let index = chunk_returning(vec![], vec![simple(SimpleExpression::Suffixed(index))]);
    assert_eq!(unsupported(&index), Unsupported::ExpressionSuffixes);

    let unknown = chunk_returning(vec![], vec![var("unknown")]);
    assert_eq!(unsupported(&unknown), Unsupported::GlobalVariable);

    let product = chunk_returning(vec![], vec![binary(integer(2), BinaryOperator::Mul, integer(3))]);
    assert_eq!(unsupported(&product), Unsupported::BinaryOperator);
}

#[test]
fn the_first_error_counts() {
    let c = chunk_returning(
        vec![local(&["a"], vec![]), Statement::Other, assign(&["g"], vec![])],
        vec![var("unknown")],
    );
    assert_eq!(unsupported(&c), Unsupported::Statement);
}

#[test]
fn errors_have_messages() {
    let limits = [
        (CompilerLimit::Registers, "insufficient available registers"),
        (CompilerLimit::UpValues, "too many upvalues"),
        (CompilerLimit::Returns, "too many returns"),
        (CompilerLimit::FixedParameters, "too many fixed parameters"),
        (CompilerLimit::Functions, "too many inner functions"),
        (CompilerLimit::Constants, "too many constants"),
    ];
    for (limit, message) in limits.iter() {
        assert_eq!(limit.message(), *message);
        assert_eq!(CompilerError::Limit(*limit).message(), *message);
    }
    let parts = [
        (Unsupported::Statement, "unsupported statement type"),
        (Unsupported::MethodCall, "method unsupported"),
        (Unsupported::GlobalAssignment, "global variables unsupported"),
        (Unsupported::AssignmentTarget, "unimplemented assignment target"),
        (Unsupported::VarArgs, "no varargs support"),
        (Unsupported::FunctionNameFields, "no function name fields support"),
        (Unsupported::FunctionNameMethod, "no method support"),
        (Unsupported::UnaryOperator, "no unary operator support yet"),
        (Unsupported::SimpleExpression, "unsupported simple expression"),
        (Unsupported::ExpressionSuffixes, "no support for expression suffixes yet"),
        (Unsupported::GlobalVariable, "no support for globals"),
        (Unsupported::BinaryOperator, "unsupported binary operator"),
    ];
    for (part, message) in parts.iter() {
        assert_eq!(part.message(), *message);
        assert_eq!(CompilerError::Unsupported(*part).message(), *message);
    }
}

#[test]
fn all_registers_can_be_locals() {
    let c = chunk_returning(vec![numbered_locals("v", 256)], vec![var("v255")]);
    let proto = compiled(&c);
    assert_eq!(
        proto.opcodes,
        vec![
            OpCode::LoadNil { dest: 0, count: 255 },
            OpCode::LoadNil { dest: 255, count: 1 },
            ret(255, 1),
        ]
    );
    assert_eq!(proto.stack_size, 256);
}

#[test]
fn no_more_locals_than_registers() {
    let c = chunk(vec![numbered_locals("v", 257)]);
    assert_eq!(limit(&c), CompilerLimit::Registers);
    let c = chunk(vec![numbered_locals("v", 256), local(&["w"], vec![integer(1)])]);
    assert_eq!(limit(&c), CompilerLimit::Registers);
}

#[test]
fn no_register_is_left_for_a_sum() {
    let c = chunk_returning(vec![numbered_locals("v", 256)], vec![sum(var("v0"), var("v1"))]);
    assert_eq!(limit(&c), CompilerLimit::Registers);
    let c = chunk_returning(vec![numbered_locals("v", 256)], vec![integer(1)]);
    assert_eq!(limit(&c), CompilerLimit::Registers);
}

#[test]
fn the_last_register_can_be_called() {
    let c = chunk(vec![numbered_locals("v", 255), call("v3", vec![])]);
    let proto = compiled(&c);
    assert_eq!(
        proto.opcodes,
        vec![
            OpCode::LoadNil { dest: 0, count: 255 },
            OpCode::Move { dest: 255, source: 3 },
            OpCode::Call { func: 255, args: VarCount(0), returns: VarCount(0) },
            ret(0, 0),
        ]
    );
    assert_eq!(proto.stack_size, 256);
    let c = chunk(vec![numbered_locals("v", 255), call("v3", vec![integer(1)])]);
    assert_eq!(limit(&c), CompilerLimit::Registers);
}

#[test]
fn number_of_returns_is_limited() {
    let many = |count: usize| chunk_returning(vec![], (0..count).map(|_| nil()).collect());
    let c = many(254);
    assert_eq!(compiled(&c).opcodes, vec![OpCode::LoadNil { dest: 0, count: 254 }, ret(0, 254)]);
    assert_eq!(limit(&many(255)), CompilerLimit::Returns);
    assert_eq!(limit(&many(256)), CompilerLimit::Returns);
    assert_eq!(limit(&many(300)), CompilerLimit::Returns);
}

#[test]
fn number_of_arguments_is_limited() {
    let many = |count: usize| {
        chunk(vec![function("f", &["g"], body(vec![call("g", (0..count).map(|_| nil()).collect())]))])
    };
    let c = many(254);
    assert_eq!(
        compiled(&c).prototypes[0].opcodes,
        vec![
            OpCode::Move { dest: 1, source: 0 },
            OpCode::LoadNil { dest: 2, count: 254 },
            OpCode::Call { func: 1, args: VarCount(254), returns: VarCount(0) },
            ret(0, 0),
        ]
    );
    assert_eq!(limit(&many(255)), CompilerLimit::Registers);
    assert_eq!(limit(&many(256)), CompilerLimit::FixedParameters);
    let from_outside = |count: usize| {
        let inner = body(vec![call("x", (0..count).map(|_| nil()).collect())]);
        chunk(vec![local(&["x"], vec![]), function("f", &[], inner)])
    };
    assert_eq!(limit(&from_outside(255)), CompilerLimit::FixedParameters);
}

#[test]
fn number_of_parameters_is_limited() {
    let many = |count: usize| {
        let names: Vec<String> = (0..count).map(|i| format!("p{}", i)).collect();
        let names: Vec<&str> = names.iter().map(|name| name.as_str()).collect();
        chunk(vec![function("f", &names, returning(vec![], vec![var("p0")]))])
    };
    let c = many(255);
    let proto = compiled(&c);
    assert_eq!(proto.prototypes[0].fixed_params, 255);
    assert_eq!(proto.prototypes[0].stack_size, 255);
    assert_eq!(proto.prototypes[0].opcodes, vec![ret(0, 1)]);
    assert_eq!(limit(&many(256)), CompilerLimit::FixedParameters);
}

#[test]
fn number_of_upvalues_is_limited() {
    let many = |count: usize| {
        let mut statements: Vec<Statement> = vec![];
        for i in 0..count {
            let name = if i < 200 { format!("a{}", i) } else { format!("b{}", i - 200) };
            statements.push(assign(&[&name], vec![]));
        }
        let middle = body(vec![numbered_locals("b", 100), function("g", &[], body(statements))]);
        chunk(vec![numbered_locals("a", 200), function("f", &[], middle)])
    };
    let c = many(256);
    let proto = compiled(&c);
    let g = &proto.prototypes[0].prototypes[0];
    assert_eq!(g.upvalues.len(), 256);
    assert_eq!(g.upvalues[199], UpValueDescriptor::Outer(199));
    assert_eq!(g.upvalues[255], UpValueDescriptor::ParentLocal(55));
    assert_eq!(limit(&many(257)), CompilerLimit::UpValues);
}

#[test]
fn number_of_functions_is_limited_by_the_registers() {
    let many = |count: usize| chunk((0..count).map(|_| function("f", &[], body(vec![]))).collect());
    let c = many(256);
    let proto = compiled(&c);
    assert_eq!(proto.prototypes.len(), 256);
    assert_eq!(proto.opcodes[255], OpCode::Closure { proto: 255, dest: 255 });
    assert_eq!(limit(&many(257)), CompilerLimit::Registers);
}

#[test]
fn number_of_constants_is_limited() {
    let many = |count: i64| {
        let mut statements = vec![local(&["a"], vec![])];
        for i in 0..count {
            statements.push(assign(&["a"], vec![integer(i)]));
        }
        chunk(statements)
    };
    let c = many(65536);
    let proto = compiled(&c);
    assert_eq!(proto.constants.len(), 65536);
    assert_eq!(proto.opcodes[65536], OpCode::LoadConstant { dest: 0, constant: 65535 });
    assert_eq!(limit(&many(65537)), CompilerLimit::Constants);
}

#[test]
fn straight_code_returns_what_it_says() {
    let c = chunk_returning(
        vec![
            local(&["a", "b"], vec![integer(1), integer(10)]),
            local(&["c"], vec![sum(var("a"), grouped(sum(var("b"), integer(100))))]),
            assign(&["a"], vec![sum(var("c"), var("c"))]),
            local(&["b"], vec![sum(integer(1000), var("b"))]),
            assign(&["c", "b"], vec![sum(var("a"), var("b"))]),
        ],
        vec![var("a"), var("b"), var("c"), sum(var("a"), var("c"))],
    );
    let expected =
        [Value::Integer(222), Value::Nil, Value::Integer(1232), Value::Integer(1454)];
    assert!(same_all(&run_chunk(&compile_chunk(&c, add).unwrap()), &expected));
    assert!(same_all(&run_chunk(&compile_chunk(&c, never).unwrap()), &expected));
}

/// Checks that a function refers only to what it and the function around it have.
fn check_references(proto: &FunctionProto<'_>, registers_around: usize, upvalues_around: usize) {
    let registers = proto.stack_size as usize;
    assert!(registers <= 256);
    assert!(proto.fixed_params as usize <= registers);
    assert!(matches!(proto.opcodes.last(), Some(OpCode::Return { .. })));
    for i in 0..proto.constants.len() {
        for j in 0..i {
            assert!(!same(proto.constants[i], proto.constants[j]));
        }
    }
    let register = |r: u8| assert!((r as usize) < registers);
    let constant = |c: u16| assert!((c as usize) < proto.constants.len());
    let upvalue = |u: u8| assert!((u as usize) < proto.upvalues.len());
    for opcode in &proto.opcodes {
        match *opcode {
            OpCode::Move { dest, source } => {
                register(dest);
                register(source);
            }
            OpCode::LoadConstant { dest, constant: c } => {
                register(dest);
                constant(c);
            }
            OpCode::LoadBool { dest, .. } => register(dest),
            OpCode::LoadNil { dest, count } => {
                assert!(count > 0);
                assert!(dest as usize + count as usize <= registers);
            }
            OpCode::GetUpValue { source, dest } => {
                upvalue(source);
                register(dest);
            }
            OpCode::SetUpValue { source, dest } => {
                register(source);
                upvalue(dest);
            }
            OpCode::Closure { proto: p, dest } => {
                assert!((p as usize) < proto.prototypes.len());
                register(dest);
            }
            OpCode::Call { func, args, returns } => {
                register(func);
                assert!(func as usize + 1 + args.0 as usize <= registers);
                assert!(func as usize + returns.0 as usize <= registers);
            }
            OpCode::Return { start, count } => {
                assert!(count.0 == 0 || start as usize + count.0 as usize <= registers);
            }
            OpCode::AddRR { dest, left, right } => {
                register(dest);
                register(left);
                register(right);
            }
            OpCode::AddRC { dest, left, right } => {
                register(dest);
                register(left);
                constant(right);
            }
            OpCode::AddCR { dest, left, right } => {
                register(dest);
                constant(left);
                register(right);
            }
        }
    }
    for descriptor in &proto.upvalues {
        match *descriptor {
            UpValueDescriptor::ParentLocal(r) => assert!((r as usize) < registers_around),
            UpValueDescriptor::Outer(u) => assert!((u as usize) < upvalues_around),
        }
    }
    for inner in &proto.prototypes {
        check_references(inner, registers, proto.upvalues.len());
    }
}

#[test]
fn compiled_functions_refer_to_what_they_have() {
    let deepest = returning(
        vec![
            assign(&["x", "q"], vec![sum(var("p"), sum(var("y"), integer(3)))]),
            call("f", vec![var("x"), sum(integer(1), var("q"))]),
        ],
        vec![var("p"), sum(var("x"), var("y")), string("end")],
    );
    let middle = returning(
        vec![local(&["y", "q"], vec![var("p")]), function("g", &["r"], deepest)],
        vec![var("g")],
    );
    let c = chunk_returning(
        vec![
            numbered_locals("v", 100),
            local(&["f", "x"], vec![]),
            function("h", &["p"], middle),
            call("h", vec![float(0.5), var("v99"), nil()]),
        ],
        vec![sum(var("v0"), grouped(sum(var("v1"), var("x"))))],
    );
    let proto = compiled(&c);
    check_references(&proto, 0, 0);
    let proto = compile_chunk(&c, never).unwrap();
    check_references(&proto, 0, 0);
    let g = &proto.prototypes[0].prototypes[0];
    assert_eq!(
        g.upvalues,
        vec![
            UpValueDescriptor::ParentLocal(0),
            UpValueDescriptor::ParentLocal(1),
            UpValueDescriptor::Outer(0),
            UpValueDescriptor::ParentLocal(2),
            UpValueDescriptor::Outer(1),
        ]
    );
}
