//! The values that a compiled function can hold as constants.

use std::collections::hash_map::DefaultHasher;
use std::hash::Hasher;
use vstd::prelude::*;

verus! {

/// A value that is known when a chunk is compiled. Strings are slices of the syntax tree that they
/// come from.
#[derive(Debug, Clone, Copy)]
pub enum Value<'a> {
    Nil,
    Boolean(bool),
    Integer(i64),
    /// The bits of a double precision number.
    Number(u64),
    String(&'a [u8]),
    /// The identity of a table.
    Table(u64),
    /// The identity of a closure.
    Closure(u64),
}

/// What a [`Value`] is, with strings as sequences of bytes.
pub enum ValueView {
    Nil,
    Boolean(bool),
    Integer(i64),
    Number(u64),
    String(Seq<u8>),
    Table(u64),
    Closure(u64),
}

impl<'a> View for Value<'a> {
    type V = ValueView;

    open spec fn view(&self) -> ValueView {
        match *self {
            Value::Nil => ValueView::Nil,
            Value::Boolean(b) => ValueView::Boolean(b),
            Value::Integer(i) => ValueView::Integer(i),
            Value::Number(n) => ValueView::Number(n),
            Value::String(s) => ValueView::String(s@),
            Value::Table(t) => ValueView::Table(t),
            Value::Closure(c) => ValueView::Closure(c),
        }
    }
}

/// What a value that may be missing is.
pub open spec fn option_view(value: Option<Value<'_>>) -> Option<ValueView> {
    match value {
        Some(value) => Some(value@),
        None => None,
    }
}

/// Whether two strings hold the same bytes.
pub fn same_bytes(a: &[u8], b: &[u8]) -> (same: bool)
    ensures
        same == (a@ == b@),
{
    if a.len() != b.len() {
        return false;
    }
    let mut i: usize = 0;
    while i < a.len()
        invariant
            i <= a@.len(),
            a@.len() == b@.len(),
            forall|j: int| 0 <= j < i ==> a@[j] == b@[j],
        decreases a@.len() - i,
    {
        if a[i] != b[i] {
            return false;
        }
        i += 1;
    }
    assert(a@ =~= b@);
    true
}

/// Value which can be hashed and compared, where values are equal only when they are bit for bit
/// identical.
#[derive(Debug, Clone, Copy)]
pub struct ConstantValue<'a>(pub Value<'a>);

impl<'a> ConstantValue<'a> {
    /// Whether two values are bit for bit the same.
    pub open spec fn identical(self, other: ConstantValue<'a>) -> bool {
        self.0@ == other.0@
    }
}

impl<'a> PartialEq for ConstantValue<'a> {
    fn eq(&self, other: &ConstantValue<'a>) -> (same: bool) {
        match (self.0, other.0) {
            (Value::Nil, Value::Nil) => true,
            (Value::Nil, _) => false,

            (Value::Boolean(a), Value::Boolean(b)) => a == b,
            (Value::Boolean(_), _) => false,

            (Value::Integer(a), Value::Integer(b)) => a == b,
            (Value::Integer(_), _) => false,

            (Value::Number(a), Value::Number(b)) => a == b,
            (Value::Number(_), _) => false,

            (Value::String(a), Value::String(b)) => same_bytes(a, b),
            (Value::String(_), _) => false,

            (Value::Table(a), Value::Table(b)) => a == b,
            (Value::Table(_), _) => false,

            (Value::Closure(a), Value::Closure(b)) => a == b,
            (Value::Closure(_), _) => false,
        }
    }
}

impl<'a> vstd::std_specs::cmp::PartialEqSpecImpl for ConstantValue<'a> {
    open spec fn obeys_eq_spec() -> bool {
        true
    }

    open spec fn eq_spec(&self, other: &ConstantValue<'a>) -> bool {
        self.identical(*other)
    }
}

impl<'a> Eq for ConstantValue<'a> {

}

/// The bytes that tell the kinds of values apart in a hash.
pub open spec fn kind_bytes(kind: u32) -> Seq<u8> {
    vstd::bytes::spec_u32_to_le_bytes(kind)
}

/// The bytes of a number in a hash.
pub open spec fn word_bytes(word: u64) -> Seq<u8> {
    vstd::bytes::spec_u64_to_le_bytes(word)
}

/// The writes by which a value is hashed: its kind, then what it holds.
pub open spec fn hash_writes(value: ValueView) -> Seq<Seq<u8>> {
    match value {
        ValueView::Nil => seq![kind_bytes(0)],
        ValueView::Boolean(b) => seq![
            kind_bytes(1),
            seq![
                if b {
                    1u8
                } else {
                    0u8
                },
            ],
        ],
        ValueView::Integer(i) => seq![kind_bytes(2), word_bytes(i as u64)],
        ValueView::Number(n) => seq![kind_bytes(3), word_bytes(n)],
        ValueView::String(s) => seq![kind_bytes(4), s],
        ValueView::Table(t) => seq![kind_bytes(5), word_bytes(t)],
        ValueView::Closure(c) => seq![kind_bytes(6), word_bytes(c)],
    }
}

/// Hashes the kind of a value.
fn hash_kind(kind: u32, state: &mut DefaultHasher)
    ensures
        final(state)@ == old(state)@.push(kind_bytes(kind)),
{
    let bytes: Vec<u8> = vstd::bytes::u32_to_le_bytes(kind);
    state.write(bytes.as_slice());
}

/// Hashes a number.
fn hash_word(word: u64, state: &mut DefaultHasher)
    ensures
        final(state)@ == old(state)@.push(word_bytes(word)),
{
    let bytes: Vec<u8> = vstd::bytes::u64_to_le_bytes(word);
    state.write(bytes.as_slice());
}

impl<'a> ConstantValue<'a> {
    /// Feeds the value to a hasher.
    pub fn hash(&self, state: &mut DefaultHasher)
        ensures
            final(state)@ == old(state)@ + hash_writes(self.0@),
    {
        match self.0 {
            Value::Nil => {
                hash_kind(0, state);
            },
            Value::Boolean(b) => {
                hash_kind(1, state);
                let byte: u8 = if b {
                    1
                } else {
                    0
                };
                let bytes: Vec<u8> = vec![byte];
                assert(bytes@ =~= seq![byte]);
                state.write(bytes.as_slice());
            },
            Value::Integer(i) => {
                hash_kind(2, state);
                hash_word(#[verifier::truncate] (i as u64), state);
            },
            Value::Number(n) => {
                hash_kind(3, state);
                hash_word(n, state);
            },
            Value::String(s) => {
                hash_kind(4, state);
                state.write(s);
            },
            Value::Table(t) => {
                hash_kind(5, state);
                hash_word(t, state);
            },
            Value::Closure(c) => {
                hash_kind(6, state);
                hash_word(c, state);
            },
        }
        assert(state@ =~= old(state)@ + hash_writes(self.0@));
    }
}

/// Equality of constants is an equivalence.
pub proof fn law_constant_equality<'a>(
    a: ConstantValue<'a>,
    b: ConstantValue<'a>,
    c: ConstantValue<'a>,
)
    ensures
        a.identical(a),
        a.identical(b) ==> b.identical(a),
        a.identical(b) && b.identical(c) ==> a.identical(c),
{
}

/// The number by which the kind of a value is told apart in a hash.
spec fn kind(value: ValueView) -> u32 {
    match value {
        ValueView::Nil => 0,
        ValueView::Boolean(_) => 1,
        ValueView::Integer(_) => 2,
        ValueView::Number(_) => 3,
        ValueView::String(_) => 4,
        ValueView::Table(_) => 5,
        ValueView::Closure(_) => 6,
    }
}

/// Two constants feed a hasher the same bytes exactly if they are equal.
pub proof fn law_constant_hash<'a>(a: ConstantValue<'a>, b: ConstantValue<'a>)
    ensures
        hash_writes(a.0@) == hash_writes(b.0@) <==> a.identical(b),
{
    let x = hash_writes(a.0@);
    let y = hash_writes(b.0@);
    if x == y {
        vstd::bytes::lemma_auto_spec_u32_to_from_le_bytes();
        vstd::bytes::lemma_auto_spec_u64_to_from_le_bytes();
        assert(x[0] == kind_bytes(kind(a.0@)));
        assert(y[0] == kind_bytes(kind(b.0@)));
        assert(kind(a.0@) == kind(b.0@));
        if !(a.0 is Nil) {
            assert(x[1] == y[1]);
        }
        match (a.0@, b.0@) {
            (ValueView::Boolean(_), ValueView::Boolean(_)) => {
                assert(x[1][0] == y[1][0]);
            },
            (ValueView::Integer(i), ValueView::Integer(j)) => {
                assert(i == j) by (bit_vector)
                    requires
                        i as u64 == j as u64,
                ;
            },
            _ => {},
        }
    }
}

} // verus!
