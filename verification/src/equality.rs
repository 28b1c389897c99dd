//! Deep equality of decoded nodes: two nodes are equal when they have the same model.
use crate::value::{
    lemma_records_of, lemma_trees_of, records_of, seqs_of, texts_of, trees_of, Compound, Value,
};
use vstd::prelude::*;
use vstd::std_specs::cmp::{PartialEqSpec, PartialEqSpecImpl};

verus! {

/// Whether `==` on `T` is equality of values.
spec fn plain_equality<T: PartialEq>() -> bool {
    &&& T::obeys_eq_spec()
    &&& forall|x: T, y: T| #[trigger] x.eq_spec(&y) <==> x == y
}

/// Whether two vectors of plain items hold the same items.
fn same_items<T: PartialEq>(a: &Vec<T>, b: &Vec<T>) -> (r: bool)
    requires
        plain_equality::<T>(),
    ensures
        r == (a@ == b@),
{
    let r = *a == *b;
    proof {
        if r {
            assert(a@ =~= b@);
        }
    }
    r
}

/// Whether two vectors of vectors of plain items hold the same items.
fn same_arrays<T: PartialEq>(a: &Vec<Vec<T>>, b: &Vec<Vec<T>>) -> (r: bool)
    requires
        plain_equality::<T>(),
    ensures
        r == (seqs_of(a@) == seqs_of(b@)),
{
    if a.len() != b.len() {
        assert(seqs_of(a@).len() != seqs_of(b@).len());
        return false;
    }
    let mut i: usize = 0;
    while i < a.len()
        invariant
            i <= a.len(),
            a.len() == b.len(),
            plain_equality::<T>(),
            forall|j: int| 0 <= j < i ==> a@[j]@ == b@[j]@,
        decreases a.len() - i,
    {
        if !same_items(&a[i], &b[i]) {
            assert(seqs_of(a@)[i as int] != seqs_of(b@)[i as int]);
            return false;
        }
        i += 1;
    }
    assert(seqs_of(a@) =~= seqs_of(b@));
    true
}

/// Whether two vectors of strings hold the same texts.
fn same_texts(a: &Vec<String>, b: &Vec<String>) -> (r: bool)
    ensures
        r == (texts_of(a@) == texts_of(b@)),
{
    if a.len() != b.len() {
        assert(texts_of(a@).len() != texts_of(b@).len());
        return false;
    }
    let mut i: usize = 0;
    while i < a.len()
        invariant
            i <= a.len(),
            a.len() == b.len(),
            forall|j: int| 0 <= j < i ==> a@[j]@ == b@[j]@,
        decreases a.len() - i,
    {
        if a[i] != b[i] {
            assert(texts_of(a@)[i as int] != texts_of(b@)[i as int]);
            return false;
        }
        i += 1;
    }
    assert(texts_of(a@) =~= texts_of(b@));
    true
}

impl Value {
    /// Whether two nodes have the same shape and hold the same values; records are
    /// compared field by field, whatever the order in which each keeps its fields.
    #[verifier::loop_isolation(false)]
    pub(crate) fn same(&self, other: &Value) -> (r: bool)
        ensures
            r == (self@ == other@),
        decreases self,
    {
        match (self, other) {
            (Value::Byte(a), Value::Byte(b)) => *a == *b,
            (Value::Short(a), Value::Short(b)) => *a == *b,
            (Value::Int(a), Value::Int(b)) => *a == *b,
            (Value::Long(a), Value::Long(b)) => *a == *b,
            (Value::Float(a), Value::Float(b)) => *a == *b,
            (Value::Double(a), Value::Double(b)) => *a == *b,
            (Value::ByteArray(a), Value::ByteArray(b)) => same_items(a, b),
            (Value::Str(a), Value::Str(b)) => *a == *b,
            (Value::Compound(a), Value::Compound(b)) => a.same(b),
            (Value::IntArray(a), Value::IntArray(b)) => same_items(a, b),
            (Value::LongArray(a), Value::LongArray(b)) => same_items(a, b),
            (Value::EndList, Value::EndList) => true,
            (Value::EmptyByteList, Value::EmptyByteList) => true,
            (Value::ByteList(a), Value::ByteList(b)) => same_items(a, b),
            (Value::ShortList(a), Value::ShortList(b)) => same_items(a, b),
            (Value::IntList(a), Value::IntList(b)) => same_items(a, b),
            (Value::LongList(a), Value::LongList(b)) => same_items(a, b),
            (Value::FloatList(a), Value::FloatList(b)) => same_items(a, b),
            (Value::DoubleList(a), Value::DoubleList(b)) => same_items(a, b),
            (Value::ByteArrayList(a), Value::ByteArrayList(b)) => same_arrays(a, b),
            (Value::StrList(a), Value::StrList(b)) => same_texts(a, b),
            (Value::ListList(a), Value::ListList(b)) => {
                proof {
                    lemma_trees_of(a@);
                    lemma_trees_of(b@);
                }
                if a.len() != b.len() {
                    return false;
                }
                let mut i: usize = 0;
                while i < a.len()
                    invariant
                        i <= a.len(),
                        forall|j: int| 0 <= j < i ==> a@[j]@ == b@[j]@,
                    decreases a.len() - i,
                {
                    if !a[i].same(&b[i]) {
                        assert(trees_of(a@)[i as int] != trees_of(b@)[i as int]);
                        return false;
                    }
                    i += 1;
                }
                assert(trees_of(a@) =~= trees_of(b@));
                true
            },
            (Value::CompoundList(a), Value::CompoundList(b)) => {
                proof {
                    lemma_records_of(a@);
                    lemma_records_of(b@);
                }
                if a.len() != b.len() {
                    return false;
                }
                let mut i: usize = 0;
                while i < a.len()
                    invariant
                        i <= a.len(),
                        forall|j: int| 0 <= j < i ==> a@[j]@ == b@[j]@,
                    decreases a.len() - i,
                {
                    if !a[i].same(&b[i]) {
                        assert(records_of(a@)[i as int] != records_of(b@)[i as int]);
                        return false;
                    }
                    i += 1;
                }
                assert(records_of(a@) =~= records_of(b@));
                true
            },
            (Value::IntArrayList(a), Value::IntArrayList(b)) => same_arrays(a, b),
            (Value::LongArrayList(a), Value::LongArrayList(b)) => same_arrays(a, b),
            _ => false,
        }
    }
}

impl PartialEq for Value {
    /// Whether the two nodes have the same model.
    fn eq(&self, other: &Value) -> (r: bool) {
        self.same(other)
    }
}

impl PartialEqSpecImpl for Value {
    open spec fn obeys_eq_spec() -> bool {
        true
    }

    open spec fn eq_spec(&self, other: &Value) -> bool {
        self@ == other@
    }
}

impl PartialEq for Compound {
    /// Whether the two records have the same fields.
    fn eq(&self, other: &Compound) -> (r: bool) {
        self.same(other)
    }
}

impl PartialEqSpecImpl for Compound {
    open spec fn obeys_eq_spec() -> bool {
        true
    }

    open spec fn eq_spec(&self, other: &Compound) -> bool {
        self@ == other@
    }
}

} // verus!
