//! Equality and hashes of constants, and counts of values.

use std::collections::hash_map::DefaultHasher;
use std::hash::Hasher;

use lua_compiler::opcode::VarCount;
use lua_compiler::value::{same_bytes, ConstantValue, Value};

fn samples() -> Vec<Value<'static>> {
    vec![
        Value::Nil,
        Value::Boolean(false),
        Value::Boolean(true),
        Value::Integer(0),
        Value::Integer(1),
        Value::Integer(-1),
        Value::Number(0),
        Value::Number(1),
        Value::Number(0.0f64.to_bits() ^ (-0.0f64).to_bits()),
        Value::Number(f64::NAN.to_bits()),
        Value::String(b""),
        Value::String(b"a"),
        Value::String(b"ab"),
        Value::Table(0),
        Value::Table(1),
        Value::Closure(0),
        Value::Closure(1),
    ]
}

fn hash(value: Value<'_>) -> u64 {
    let mut state = DefaultHasher::new();
    ConstantValue(value).hash(&mut state);
    state.finish()
}

#[test]
fn constants_are_equal_only_if_they_are_identical() {
    let values = samples();
    for i in 0..values.len() {
        for j in 0..values.len() {
            assert_eq!(ConstantValue(values[i]) == ConstantValue(values[j]), i == j);
        }
    }
}

#[test]
fn equal_strings_are_equal_constants() {
    let owned: Vec<u8> = vec![97, 98];
    assert!(ConstantValue(Value::String(&owned)) == ConstantValue(Value::String(b"ab")));
    assert_eq!(hash(Value::String(&owned)), hash(Value::String(b"ab")));
}

#[test]
fn hashes_tell_constants_apart() {
    let values = samples();
    for i in 0..values.len() {
        for j in 0..values.len() {
            assert_eq!(hash(values[i]) == hash(values[j]), i == j);
        }
    }
}

#[test]
fn bytes_are_compared_in_full() {
    assert!(same_bytes(b"", b""));
    assert!(same_bytes(b"name", b"name"));
    assert!(!same_bytes(b"name", b"nam"));
    assert!(!same_bytes(b"name", b"nama"));
}

#[test]
fn counts_of_values_end_below_the_largest_byte() {
    assert_eq!(VarCount::make_zero(), VarCount(0));
    assert_eq!(VarCount::make_constant(0), Some(VarCount(0)));
    assert_eq!(VarCount::make_constant(254), Some(VarCount(254)));
    assert_eq!(VarCount::make_constant(255), None);
}
