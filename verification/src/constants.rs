//! The constants of one function.

use std::collections::hash_map::DefaultHasher;
use std::collections::HashMap;
use std::hash::Hasher;
use vstd::prelude::*;

use crate::function;
use crate::opcode::Constant;
use crate::value::{self, ConstantValue, Value, ValueView};

verus! {

broadcast use vstd::std_specs::hash::group_hash_axioms;

/// The hash of a value.
pub open spec fn hash_of(value: ValueView) -> u64 {
    <DefaultHasher as vstd::std_specs::hash::DefaultHasherAdditionalSpecFns>::spec_finish(
        value::hash_writes(value),
    )
}

/// The hash of a value.
fn hash_value(value: Value<'_>) -> (hash: u64)
    ensures
        hash == hash_of(value@),
{
    let mut state: DefaultHasher = DefaultHasher::new();
    ConstantValue(value).hash(&mut state);
    assert(state@ =~= value::hash_writes(value@));
    state.finish()
}

/// The constants of a function in the order of their indices, with the index of each to be found by
/// its hash. No constant is there twice.
pub struct ConstantTable<'a> {
    values: Vec<Value<'a>>,
    // The indices of the values that have a hash
    buckets: HashMap<u64, Vec<Constant>>,
}

impl<'a> View for ConstantTable<'a> {
    type V = Seq<ValueView>;

    closed spec fn view(&self) -> Seq<ValueView> {
        function::value_views(self.values@)
    }
}

impl<'a> ConstantTable<'a> {
    /// Every bucket holds the indices of the values with its hash, and no others.
    closed spec fn buckets_agree(&self) -> bool {
        &&& forall|h: u64, j: int|
            self.buckets@.contains_key(h) && 0 <= j < self.buckets@[h]@.len() ==> {
                let c = #[trigger] self.buckets@[h]@[j];
                c < self.values@.len() && hash_of(self.values@[c as int]@) == h
            }
        &&& forall|c: int|
            0 <= c < self.values@.len() ==> {
                let h = hash_of(#[trigger] self.values@[c]@);
                self.buckets@.contains_key(h) && exists|j: int|
                    0 <= j < self.buckets@[h]@.len() && self.buckets@[h]@[j] == c
            }
    }

    /// The invariant of the table.
    pub closed spec fn wf(&self) -> bool {
        &&& self@.no_duplicates()
        &&& self@.len() <= Constant::MAX + 1
        &&& self.buckets_agree()
    }

    /// What the invariant says of the constants.
    pub proof fn lemma_wf(&self)
        requires
            self.wf(),
        ensures
            self@.no_duplicates(),
            self@.len() <= Constant::MAX + 1,
    {
    }

    /// A table without constants.
    pub fn new() -> (table: ConstantTable<'a>)
        ensures
            table.wf(),
            table@ == Seq::<ValueView>::empty(),
    {
        let table = ConstantTable { values: Vec::new(), buckets: HashMap::new() };
        assert(table@ =~= Seq::<ValueView>::empty());
        table
    }

    /// The number of constants.
    pub fn len(&self) -> (len: usize)
        ensures
            len == self@.len(),
    {
        self.values.len()
    }

    /// The index of a value, if it is in the table.
    pub fn get(&self, value: Value<'a>) -> (index: Option<Constant>)
        requires
            self.wf(),
        ensures
            match index {
                Some(index) => index < self@.len() && self@[index as int] == value@,
                None => !self@.contains(value@),
            },
    {
        let hash: u64 = hash_value(value);
        match self.buckets.get(&hash) {
            Some(bucket) => {
                let mut j: usize = 0;
                while j < bucket.len()
                    invariant
                        j <= bucket@.len(),
                        self.wf(),
                        hash == hash_of(value@),
                        self.buckets@.contains_key(hash),
                        *bucket == self.buckets@[hash],
                        forall|k: int| 0 <= k < j ==> self@[bucket@[k] as int] != value@,
                    decreases bucket@.len() - j,
                {
                    let index: Constant = bucket[j];
                    assert(self.buckets@[hash]@[j as int] == index);
                    if ConstantValue(self.values[index as usize]) == ConstantValue(value) {
                        return Some(index);
                    }
                    j += 1;
                }
                assert forall|c: int| 0 <= c < self@.len() implies self@[c] != value@ by {
                    assert(self@[c] == self.values@[c]@);
                }
                None
            },
            None => {
                assert forall|c: int| 0 <= c < self@.len() implies self@[c] != value@ by {
                    assert(self@[c] == self.values@[c]@);
                }
                None
            },
        }
    }

    /// Puts a value that is not in the table yet at its end, under the index that it then has.
    pub fn insert(&mut self, value: Value<'a>, index: Constant)
        requires
            old(self).wf(),
            !old(self)@.contains(value@),
            index == old(self)@.len(),
        ensures
            final(self).wf(),
            final(self)@ == old(self)@.push(value@),
    {
        let hash: u64 = hash_value(value);
        let mut bucket: Vec<Constant> = match self.buckets.remove(&hash) {
            Some(bucket) => bucket,
            None => Vec::new(),
        };
        let ghost bucket_before = bucket@;
        bucket.push(index);
        self.buckets.insert(hash, bucket);
        self.values.push(value);
        assert(self@ =~= old(self)@.push(value@));
        proof {
            let before = *old(self);
            assert forall|i: int, j: int|
                0 <= i < self@.len() && 0 <= j < self@.len() && i != j implies self@[i]
                != self@[j] by {
                assert(i < index ==> before@[i] == self@[i] && before@.contains(self@[i]));
                assert(j < index ==> before@[j] == self@[j] && before@.contains(self@[j]));
            }
            assert(self.buckets@[hash]@ == bucket_before.push(index));
            assert(before.buckets@.contains_key(hash) ==> bucket_before
                == before.buckets@[hash]@);
            assert forall|h: u64, j: int|
                self.buckets@.contains_key(h) && 0 <= j < self.buckets@[h]@.len() implies {
                let c = #[trigger] self.buckets@[h]@[j];
                c < self.values@.len() && hash_of(self.values@[c as int]@) == h
            } by {
                let c = self.buckets@[h]@[j];
                if h == hash {
                    if j < bucket_before.len() {
                        assert(before.buckets@[h]@[j] == c);
                    }
                } else {
                    assert(before.buckets@[h]@[j] == c);
                }
            }
            assert forall|c: int| 0 <= c < self.values@.len() implies {
                let h = hash_of(#[trigger] self.values@[c]@);
                self.buckets@.contains_key(h) && exists|j: int|
                    0 <= j < self.buckets@[h]@.len() && self.buckets@[h]@[j] == c
            } by {
                let h = hash_of(self.values@[c]@);
                if c == index {
                    assert(self.buckets@[h]@[bucket_before.len() as int] == c);
                } else {
                    assert(before.values@[c] == self.values@[c]);
                    let j = choose|j: int|
                        0 <= j < before.buckets@[h]@.len() && before.buckets@[h]@[j] == c;
                    assert(self.buckets@[h]@[j] == c);
                }
            }
            assert(self@.no_duplicates());
            assert(self@.len() <= Constant::MAX + 1);
            assert(self.buckets_agree());
        }
    }

    /// Gives the constants out in the order of their indices.
    pub fn into_values(self) -> (values: Vec<Value<'a>>)
        ensures
            function::value_views(values@) == self@,
    {
        self.values
    }
}

} // verus!
