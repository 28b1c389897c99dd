//! The tree of decoded nodes and its mathematical model.
use crate::text::same_text;
use vstd::prelude::*;

verus! {

/// The mathematical model of a decoded node: what a [`Value`] is, apart from how it is
/// held in memory. Contracts speak of nodes by their model.
///
/// A vector is a sequence here, a string the sequence of its characters, and a record
/// the map from its names to the models of its values. The two floating-point kinds
/// are modelled by the bit pattern of the number.
pub enum Tree {
    Byte(i8),
    Short(i16),
    Int(i32),
    Long(i64),
    Float(u32),
    Double(u64),
    ByteArray(Seq<i8>),
    Str(Seq<char>),
    Compound(Map<Seq<char>, Tree>),
    IntArray(Seq<i32>),
    LongArray(Seq<i64>),
    EndList,
    EmptyByteList,
    ByteList(Seq<i8>),
    ShortList(Seq<i16>),
    IntList(Seq<i32>),
    LongList(Seq<i64>),
    FloatList(Seq<u32>),
    DoubleList(Seq<u64>),
    ByteArrayList(Seq<Seq<i8>>),
    StrList(Seq<Seq<char>>),
    ListList(Seq<Tree>),
    CompoundList(Seq<Map<Seq<char>, Tree>>),
    IntArrayList(Seq<Seq<i32>>),
    LongArrayList(Seq<Seq<i64>>),
}

/// A record: a finite mapping from names to nodes, with one node for a name.
///
/// What the record holds is its view, a map. The order in which it keeps its fields
/// means nothing: two records with the same fields are equal.
#[derive(Debug)]
pub struct Compound {
    entries: Vec<(String, Value)>,
}

/// A decoded node.
///
/// Two nodes are equal when they have the same shape and hold the same values; records
/// are compared field by field, in whatever order each keeps its fields. A clone is a
/// deep copy.
#[derive(Debug)]
pub enum Value {
    Byte(i8),
    Short(i16),
    Int(i32),
    Long(i64),
    /// A single-precision number, held as its bit pattern, which is what the stream
    /// carries.
    Float(u32),
    /// A double-precision number, held as its bit pattern.
    Double(u64),
    ByteArray(Vec<i8>),
    Str(String),
    Compound(Compound),
    IntArray(Vec<i32>),
    LongArray(Vec<i64>),
    /// The list of nothing: a list whose element tag is the terminator.
    EndList,
    /// The empty list of bytes, which producers also write for an empty list of any
    /// other kind. It is kept apart from `ByteList`, and every list accessor takes it
    /// for an empty list of its own kind.
    EmptyByteList,
    ByteList(Vec<i8>),
    ShortList(Vec<i16>),
    IntList(Vec<i32>),
    LongList(Vec<i64>),
    /// Single-precision numbers, each held as its bit pattern.
    FloatList(Vec<u32>),
    /// Double-precision numbers, each held as its bit pattern.
    DoubleList(Vec<u64>),
    ByteArrayList(Vec<Vec<i8>>),
    StrList(Vec<String>),
    /// Lists of any kinds, each with its own element tag and count.
    ListList(Vec<Value>),
    CompoundList(Vec<Compound>),
    IntArrayList(Vec<Vec<i32>>),
    LongArrayList(Vec<Vec<i64>>),
}

/// The contents of each vector of `vs`.
pub open spec fn seqs_of<T>(vs: Seq<Vec<T>>) -> Seq<Seq<T>> {
    vs.map_values(|v: Vec<T>| v@)
}

/// The characters of each string of `vs`.
pub open spec fn texts_of(vs: Seq<String>) -> Seq<Seq<char>> {
    vs.map_values(|s: String| s@)
}

/// The model of each node of `vs`.
pub open spec fn trees_of(vs: Seq<Value>) -> Seq<Tree>
    decreases vs,
{
    if vs.len() == 0 {
        Seq::empty()
    } else {
        trees_of(vs.drop_last()).push(vs.last()@)
    }
}

/// The record that the entries `es` make up when they are added in order.
spec fn record_of(es: Seq<(String, Value)>) -> Map<Seq<char>, Tree>
    decreases es,
{
    if es.len() == 0 {
        Map::empty()
    } else {
        record_of(es.drop_last()).insert(es.last().0@, es.last().1@)
    }
}

/// The model of each record of `cs`.
pub open spec fn records_of(cs: Seq<Compound>) -> Seq<Map<Seq<char>, Tree>>
    decreases cs,
{
    if cs.len() == 0 {
        Seq::empty()
    } else {
        records_of(cs.drop_last()).push(cs.last()@)
    }
}

impl View for Compound {
    type V = Map<Seq<char>, Tree>;

    /// The map from the names of the fields to the models of their values.
    closed spec fn view(&self) -> Map<Seq<char>, Tree>
        decreases self,
    {
        record_of(self.entries@)
    }
}

impl View for Value {
    type V = Tree;

    /// The model of the node.
    open spec fn view(&self) -> Tree
        decreases self,
    {
        match self {
            Value::Byte(x) => Tree::Byte(*x),
            Value::Short(x) => Tree::Short(*x),
            Value::Int(x) => Tree::Int(*x),
            Value::Long(x) => Tree::Long(*x),
            Value::Float(x) => Tree::Float(*x),
            Value::Double(x) => Tree::Double(*x),
            Value::ByteArray(x) => Tree::ByteArray(x@),
            Value::Str(x) => Tree::Str(x@),
            Value::Compound(x) => Tree::Compound(x@),
            Value::IntArray(x) => Tree::IntArray(x@),
            Value::LongArray(x) => Tree::LongArray(x@),
            Value::EndList => Tree::EndList,
            Value::EmptyByteList => Tree::EmptyByteList,
            Value::ByteList(x) => Tree::ByteList(x@),
            Value::ShortList(x) => Tree::ShortList(x@),
            Value::IntList(x) => Tree::IntList(x@),
            Value::LongList(x) => Tree::LongList(x@),
            Value::FloatList(x) => Tree::FloatList(x@),
            Value::DoubleList(x) => Tree::DoubleList(x@),
            Value::ByteArrayList(x) => Tree::ByteArrayList(seqs_of(x@)),
            Value::StrList(x) => Tree::StrList(texts_of(x@)),
            Value::ListList(x) => Tree::ListList(trees_of(x@)),
            Value::CompoundList(x) => Tree::CompoundList(records_of(x@)),
            Value::IntArrayList(x) => Tree::IntArrayList(seqs_of(x@)),
            Value::LongArrayList(x) => Tree::LongArrayList(seqs_of(x@)),
        }
    }
}

/// The model of a sequence of nodes, node by node.
pub proof fn lemma_trees_of(vs: Seq<Value>)
    ensures
        trees_of(vs).len() == vs.len(),
        forall|i: int| 0 <= i < vs.len() ==> #[trigger] trees_of(vs)[i] == vs[i]@,
    decreases vs.len(),
{
    if vs.len() > 0 {
        lemma_trees_of(vs.drop_last());
        reveal_with_fuel(trees_of, 2);
    }
}

/// The model of a sequence of nodes that is one longer.
pub proof fn lemma_trees_of_push(vs: Seq<Value>, v: Value)
    ensures
        trees_of(vs.push(v)) == trees_of(vs).push(v@),
{
    assert(vs.push(v).drop_last() =~= vs);
}

/// The model of a sequence of records, record by record.
pub proof fn lemma_records_of(cs: Seq<Compound>)
    ensures
        records_of(cs).len() == cs.len(),
        forall|i: int| 0 <= i < cs.len() ==> #[trigger] records_of(cs)[i] == cs[i]@,
    decreases cs.len(),
{
    if cs.len() > 0 {
        lemma_records_of(cs.drop_last());
        reveal_with_fuel(records_of, 2);
    }
}

/// The model of a sequence of records that is one longer.
pub proof fn lemma_records_of_push(cs: Seq<Compound>, c: Compound)
    ensures
        records_of(cs.push(c)) == records_of(cs).push(c@),
{
    assert(cs.push(c).drop_last() =~= cs);
}

/// No two entries carry the same name.
spec fn distinct_names(es: Seq<(String, Value)>) -> bool {
    forall|i: int, j: int| 0 <= i < j < es.len() ==> es[i].0@ != es[j].0@
}

/// Some entry carries the name `k`.
spec fn has_name(es: Seq<(String, Value)>, k: Seq<char>) -> bool {
    exists|i: int| 0 <= i < es.len() && #[trigger] es[i].0@ == k
}

/// The record of entries, of which there is at least one: the record of all but the last,
/// with the last added.
proof fn lemma_record_of_unfold(es: Seq<(String, Value)>)
    requires
        es.len() > 0,
    ensures
        record_of(es) == record_of(es.drop_last()).insert(es.last().0@, es.last().1@),
{
}

/// The record of entries that are one longer.
proof fn lemma_record_of_push(es: Seq<(String, Value)>, e: (String, Value))
    ensures
        record_of(es.push(e)) == record_of(es).insert(e.0@, e.1@),
{
    assert(es.push(e).drop_last() =~= es);
}

/// A record has the names of its entries, and no others.
proof fn lemma_record_of_dom(es: Seq<(String, Value)>)
    ensures
        record_of(es).dom().finite(),
        forall|k: Seq<char>| #[trigger] record_of(es).contains_key(k) <==> has_name(es, k),
    decreases es.len(),
{
    if es.len() > 0 {
        let init = es.drop_last();
        lemma_record_of_dom(init);
        lemma_record_of_unfold(es);
        assert forall|k: Seq<char>| #[trigger] record_of(es).contains_key(k) <==> has_name(
            es,
            k,
        ) by {
            if has_name(es, k) {
                let i = choose|i: int| 0 <= i < es.len() && #[trigger] es[i].0@ == k;
                if i < es.len() - 1 {
                    assert(init[i].0@ == k);
                    assert(has_name(init, k));
                }
            }
            if record_of(es).contains_key(k) {
                if k == es.last().0@ {
                    assert(es[es.len() - 1].0@ == k);
                } else {
                    assert(has_name(init, k));
                    let i = choose|i: int| 0 <= i < init.len() && #[trigger] init[i].0@ == k;
                    assert(es[i].0@ == k);
                }
            }
        }
    }
}

/// Where no name occurs twice, a record maps the name of each entry to its value.
proof fn lemma_record_of_value(es: Seq<(String, Value)>, i: int)
    requires
        distinct_names(es),
        0 <= i < es.len(),
    ensures
        record_of(es).contains_key(es[i].0@),
        record_of(es)[es[i].0@] == es[i].1@,
    decreases es.len(),
{
    let init = es.drop_last();
    lemma_record_of_unfold(es);
    if i < es.len() - 1 {
        assert(distinct_names(init)) by {
            assert forall|a: int, b: int| 0 <= a < b < init.len() implies init[a].0@
                != init[b].0@ by {
                assert(es[a].0@ != es[b].0@);
            }
        }
        lemma_record_of_value(init, i);
        assert(es[i].0@ != es[es.len() - 1].0@);
    }
}

/// Where no name occurs twice, a record has as many fields as entries.
proof fn lemma_record_of_len(es: Seq<(String, Value)>)
    requires
        distinct_names(es),
    ensures
        record_of(es).dom().finite(),
        record_of(es).dom().len() == es.len(),
    decreases es.len(),
{
    lemma_record_of_dom(es);
    if es.len() > 0 {
        let init = es.drop_last();
        lemma_record_of_unfold(es);
        assert(distinct_names(init)) by {
            assert forall|a: int, b: int| 0 <= a < b < init.len() implies init[a].0@
                != init[b].0@ by {
                assert(es[a].0@ != es[b].0@);
            }
        }
        lemma_record_of_len(init);
        lemma_record_of_dom(init);
        let k = es.last().0@;
        if has_name(init, k) {
            let i = choose|i: int| 0 <= i < init.len() && #[trigger] init[i].0@ == k;
            assert(es[i].0@ != es[es.len() - 1].0@);
        }
        assert(!record_of(init).dom().contains(k));
        assert(record_of(es).dom() =~= record_of(init).dom().insert(k));
    } else {
        assert(record_of(es).dom() =~= Set::<Seq<char>>::empty());
    }
}

/// Putting another value in the place of an entry sets the field of that name.
proof fn lemma_record_of_update(es: Seq<(String, Value)>, i: int, e: (String, Value))
    requires
        distinct_names(es),
        0 <= i < es.len(),
        es[i].0@ == e.0@,
    ensures
        distinct_names(es.update(i, e)),
        record_of(es.update(i, e)) == record_of(es).insert(e.0@, e.1@),
    decreases es.len(),
{
    let up = es.update(i, e);
    assert(distinct_names(up)) by {
        assert forall|a: int, b: int| 0 <= a < b < up.len() implies up[a].0@ != up[b].0@ by {
            assert(es[a].0@ != es[b].0@);
        }
    }
    let init = es.drop_last();
    lemma_record_of_unfold(es);
    lemma_record_of_unfold(up);
    if i == es.len() - 1 {
        assert(up.drop_last() =~= init);
        assert(record_of(up) =~= record_of(es).insert(e.0@, e.1@));
    } else {
        assert(distinct_names(init)) by {
            assert forall|a: int, b: int| 0 <= a < b < init.len() implies init[a].0@
                != init[b].0@ by {
                assert(es[a].0@ != es[b].0@);
            }
        }
        lemma_record_of_update(init, i, e);
        assert(up.drop_last() =~= init.update(i, e));
        assert(up.last() == es.last());
        assert(es[i].0@ != es[es.len() - 1].0@);
        assert(record_of(up) =~= record_of(es).insert(e.0@, e.1@));
    }
}

impl Compound {
    /// No name occurs twice among the entries.
    #[verifier::type_invariant]
    spec fn names_are_distinct(&self) -> bool {
        distinct_names(self.entries@)
    }

    /// The empty record.
    pub fn new() -> (r: Compound)
        ensures
            r@ == Map::<Seq<char>, Tree>::empty(),
    {
        Compound { entries: Vec::new() }
    }

    /// Number of fields.
    pub fn len(&self) -> (n: usize)
        ensures
            self@.dom().finite(),
            n == self@.dom().len(),
    {
        proof {
            use_type_invariant(self);
            lemma_record_of_len(self.entries@);
        }
        self.entries.len()
    }

    /// Whether the record has no field.
    pub fn is_empty(&self) -> (b: bool)
        ensures
            b == (self@ == Map::<Seq<char>, Tree>::empty()),
    {
        proof {
            use_type_invariant(self);
            lemma_record_of_len(self.entries@);
            if self.entries@.len() == 0 {
                assert(self@ =~= Map::<Seq<char>, Tree>::empty());
            }
        }
        self.entries.len() == 0
    }

    /// Position of the entry named `name`, if the record has one.
    fn position(&self, name: &str) -> (r: Option<usize>)
        ensures
            match r {
                Some(i) => i < self.entries@.len() && self.entries@[i as int].0@ == name@,
                None => !has_name(self.entries@, name@),
            },
    {
        let mut i: usize = 0;
        while i < self.entries.len()
            invariant
                i <= self.entries@.len(),
                forall|j: int| 0 <= j < i ==> self.entries@[j].0@ != name@,
            decreases self.entries@.len() - i,
        {
            if same_text(self.entries[i].0.as_str(), name) {
                return Some(i);
            }
            i += 1;
        }
        None
    }

    /// The field named `name`: exact, case-sensitive match.
    pub fn get(&self, name: &str) -> (r: Option<&Value>)
        ensures
            match r {
                Some(v) => self@.contains_key(name@) && v@ == self@[name@],
                None => !self@.contains_key(name@),
            },
    {
        proof {
            use_type_invariant(self);
            lemma_record_of_dom(self.entries@);
        }
        match self.position(name) {
            Some(i) => {
                proof {
                    lemma_record_of_value(self.entries@, i as int);
                }
                Some(&self.entries[i].1)
            },
            None => None,
        }
    }

    /// Whether the record has a field named `name`.
    pub fn contains_key(&self, name: &str) -> (b: bool)
        ensures
            b == self@.contains_key(name@),
    {
        proof {
            use_type_invariant(self);
            lemma_record_of_dom(self.entries@);
        }
        match self.position(name) {
            Some(i) => {
                proof {
                    lemma_record_of_value(self.entries@, i as int);
                }
                true
            },
            None => false,
        }
    }

    /// Sets the field `key` to `value`. A field of that name that was there before is
    /// overwritten, and its former value is returned.
    pub fn insert(&mut self, key: String, value: Value) -> (prev: Option<Value>)
        ensures
            final(self)@ == old(self)@.insert(key@, value@),
            match prev {
                Some(p) => old(self)@.contains_key(key@) && p@ == old(self)@[key@],
                None => !old(self)@.contains_key(key@),
            },
    {
        proof {
            use_type_invariant(&*self);
            lemma_record_of_dom(self.entries@);
        }
        let found = self.position(key.as_str());
        let ghost before = self.entries@;
        let mut es: Vec<(String, Value)> = Vec::new();
        core::mem::swap(&mut self.entries, &mut es);
        let prev = match found {
            Some(i) => {
                let mut entry = (key, value);
                proof {
                    lemma_record_of_value(before, i as int);
                    lemma_record_of_update(before, i as int, entry);
                }
                es.set_and_swap(i, &mut entry);
                Some(entry.1)
            },
            None => {
                proof {
                    lemma_record_of_push(before, (key, value));
                    assert forall|a: int, b: int|
                        0 <= a < b < before.push((key, value)).len() implies before.push(
                        (key, value),
                    )[a].0@ != before.push((key, value))[b].0@ by {
                        if b == before.len() {
                            assert(before[a].0@ != key@);
                        }
                    }
                }
                es.push((key, value));
                None
            },
        };
        core::mem::swap(&mut self.entries, &mut es);
        prev
    }

    /// The fields, each once, in no particular order.
    pub fn entries(&self) -> (r: &[(String, Value)])
        ensures
            self@.dom().finite(),
            r@.len() == self@.dom().len(),
            forall|i: int|
                0 <= i < r@.len() ==> self@.contains_key(#[trigger] r@[i].0@) && self@[r@[i].0@]
                    == r@[i].1@,
            forall|i: int, j: int| 0 <= i < j < r@.len() ==> r@[i].0@ != r@[j].0@,
            forall|name: Seq<char>|
                self@.contains_key(name) ==> exists|i: int|
                    0 <= i < r@.len() && #[trigger] r@[i].0@ == name,
    {
        proof {
            use_type_invariant(self);
            lemma_record_of_len(self.entries@);
            lemma_record_of_dom(self.entries@);
            assert forall|i: int| 0 <= i < self.entries@.len() implies self@.contains_key(
                #[trigger] self.entries@[i].0@,
            ) && self@[self.entries@[i].0@] == self.entries@[i].1@ by {
                lemma_record_of_value(self.entries@, i);
            }
        }
        self.entries.as_slice()
    }
}

/// Entries that agree name by name and value by value make up the same record.
proof fn lemma_record_of_same(a: Seq<(String, Value)>, b: Seq<(String, Value)>)
    requires
        a.len() == b.len(),
        forall|i: int| 0 <= i < a.len() ==> a[i].0@ == b[i].0@ && a[i].1@ == b[i].1@,
    ensures
        record_of(a) == record_of(b),
        distinct_names(a) ==> distinct_names(b),
    decreases a.len(),
{
    reveal_with_fuel(record_of, 2);
    if a.len() > 0 {
        lemma_record_of_same(a.drop_last(), b.drop_last());
    }
    if distinct_names(a) {
        assert forall|i: int, j: int| 0 <= i < j < b.len() implies b[i].0@ != b[j].0@ by {
            assert(a[i].0@ != a[j].0@);
        }
    }
}

/// A copy of a vector of plain items.
fn copy_items<T: Copy>(items: &Vec<T>) -> (r: Vec<T>)
    ensures
        r@ == items@,
{
    let mut out: Vec<T> = Vec::new();
    let mut i: usize = 0;
    while i < items.len()
        invariant
            i <= items.len(),
            out@ == items@.take(i as int),
        decreases items.len() - i,
    {
        out.push(items[i]);
        assert(items@.take(i + 1) =~= items@.take(i as int).push(items@[i as int]));
        i += 1;
    }
    assert(items@.take(items.len() as int) =~= items@);
    out
}

/// A copy of a vector of vectors of plain items.
fn copy_arrays<T: Copy>(arrays: &Vec<Vec<T>>) -> (r: Vec<Vec<T>>)
    ensures
        seqs_of(r@) == seqs_of(arrays@),
{
    let mut out: Vec<Vec<T>> = Vec::new();
    let mut i: usize = 0;
    while i < arrays.len()
        invariant
            i <= arrays.len(),
            seqs_of(out@) == seqs_of(arrays@).take(i as int),
        decreases arrays.len() - i,
    {
        let one = copy_items(&arrays[i]);
        proof {
            assert(seqs_of(out@.push(one)) =~= seqs_of(out@).push(one@));
            assert(seqs_of(arrays@).take(i + 1) =~= seqs_of(arrays@).take(i as int).push(
                arrays@[i as int]@,
            ));
        }
        out.push(one);
        i += 1;
    }
    assert(seqs_of(arrays@).take(arrays.len() as int) =~= seqs_of(arrays@));
    out
}

/// A copy of a vector of strings.
fn copy_texts(texts: &Vec<String>) -> (r: Vec<String>)
    ensures
        texts_of(r@) == texts_of(texts@),
{
    let mut out: Vec<String> = Vec::new();
    let mut i: usize = 0;
    while i < texts.len()
        invariant
            i <= texts.len(),
            texts_of(out@) == texts_of(texts@).take(i as int),
        decreases texts.len() - i,
    {
        let one = texts[i].clone();
        proof {
            assert(texts_of(out@.push(one)) =~= texts_of(out@).push(one@));
            assert(texts_of(texts@).take(i + 1) =~= texts_of(texts@).take(i as int).push(
                texts@[i as int]@,
            ));
        }
        out.push(one);
        i += 1;
    }
    assert(texts_of(texts@).take(texts.len() as int) =~= texts_of(texts@));
    out
}

impl Compound {
    /// A deep copy: a record with the same fields.
    fn duplicate(&self) -> (r: Compound)
        ensures
            r@ == self@,
        decreases self,
    {
        proof {
            use_type_invariant(self);
        }
        let mut out: Vec<(String, Value)> = Vec::new();
        let mut i: usize = 0;
        while i < self.entries.len()
            invariant
                i <= self.entries@.len(),
                out@.len() == i,
                forall|j: int|
                    0 <= j < i ==> out@[j].0@ == self.entries@[j].0@ && out@[j].1@
                        == self.entries@[j].1@,
            decreases self.entries@.len() - i,
        {
            let name = self.entries[i].0.clone();
            let value = self.entries[i].1.duplicate();
            out.push((name, value));
            i += 1;
        }
        proof {
            lemma_record_of_same(self.entries@, out@);
        }
        Compound { entries: out }
    }
}

impl Value {
    /// A deep copy: a node with the same model.
    #[verifier::loop_isolation(false)]
    fn duplicate(&self) -> (r: Value)
        ensures
            r@ == self@,
        decreases self,
    {
        match self {
            Value::Byte(x) => Value::Byte(*x),
            Value::Short(x) => Value::Short(*x),
            Value::Int(x) => Value::Int(*x),
            Value::Long(x) => Value::Long(*x),
            Value::Float(x) => Value::Float(*x),
            Value::Double(x) => Value::Double(*x),
            Value::ByteArray(x) => Value::ByteArray(copy_items(x)),
            Value::Str(x) => Value::Str(x.clone()),
            Value::Compound(x) => Value::Compound(x.duplicate()),
            Value::IntArray(x) => Value::IntArray(copy_items(x)),
            Value::LongArray(x) => Value::LongArray(copy_items(x)),
            Value::EndList => Value::EndList,
            Value::EmptyByteList => Value::EmptyByteList,
            Value::ByteList(x) => Value::ByteList(copy_items(x)),
            Value::ShortList(x) => Value::ShortList(copy_items(x)),
            Value::IntList(x) => Value::IntList(copy_items(x)),
            Value::LongList(x) => Value::LongList(copy_items(x)),
            Value::FloatList(x) => Value::FloatList(copy_items(x)),
            Value::DoubleList(x) => Value::DoubleList(copy_items(x)),
            Value::ByteArrayList(x) => Value::ByteArrayList(copy_arrays(x)),
            Value::StrList(x) => Value::StrList(copy_texts(x)),
            Value::ListList(x) => {
                let mut out: Vec<Value> = Vec::new();
                let mut i: usize = 0;
                while i < x.len()
                    invariant
                        i <= x.len(),
                        out@.len() == i,
                        forall|j: int| 0 <= j < i ==> out@[j]@ == x@[j]@,
                    decreases x.len() - i,
                {
                    let one = x[i].duplicate();
                    out.push(one);
                    i += 1;
                }
                proof {
                    lemma_trees_of(out@);
                    lemma_trees_of(x@);
                    assert(trees_of(out@) =~= trees_of(x@));
                }
                Value::ListList(out)
            },
            Value::CompoundList(x) => {
                let mut out: Vec<Compound> = Vec::new();
                let mut i: usize = 0;
                while i < x.len()
                    invariant
                        i <= x.len(),
                        out@.len() == i,
                        forall|j: int| 0 <= j < i ==> out@[j]@ == x@[j]@,
                    decreases x.len() - i,
                {
                    let one = x[i].duplicate();
                    out.push(one);
                    i += 1;
                }
                proof {
                    lemma_records_of(out@);
                    lemma_records_of(x@);
                    assert(records_of(out@) =~= records_of(x@));
                }
                Value::CompoundList(out)
            },
            Value::IntArrayList(x) => Value::IntArrayList(copy_arrays(x)),
            Value::LongArrayList(x) => Value::LongArrayList(copy_arrays(x)),
        }
    }
}

impl Clone for Compound {
    /// A deep copy.
    fn clone(&self) -> (r: Compound)
        ensures
            r@ == self@,
    {
        self.duplicate()
    }
}

impl Clone for Value {
    /// A deep copy.
    fn clone(&self) -> (r: Value)
        ensures
            r@ == self@,
    {
        self.duplicate()
    }
}

impl Compound {
    /// Whether two records hold the same fields, in whatever order each keeps them.
    pub(crate) fn same(&self, other: &Compound) -> (r: bool)
        ensures
            r == (self@ == other@),
        decreases self,
    {
        proof {
            use_type_invariant(self);
            use_type_invariant(other);
            lemma_record_of_len(self.entries@);
            lemma_record_of_len(other.entries@);
            lemma_record_of_dom(self.entries@);
            lemma_record_of_dom(other.entries@);
        }
        if self.entries.len() != other.entries.len() {
            return false;
        }
        let mut i: usize = 0;
        while i < self.entries.len()
            invariant
                i <= self.entries@.len(),
                distinct_names(self.entries@),
                distinct_names(other.entries@),
                forall|k: Seq<char>| #[trigger]
                    record_of(other.entries@).contains_key(k) <==> has_name(other.entries@, k),
                forall|j: int|
                    0 <= j < i ==> other@.contains_key(#[trigger] self.entries@[j].0@)
                        && other@[self.entries@[j].0@] == self.entries@[j].1@,
            decreases self.entries@.len() - i,
        {
            proof {
                lemma_record_of_value(self.entries@, i as int);
            }
            match other.position(self.entries[i].0.as_str()) {
                None => {
                    proof {
                        let name = self.entries@[i as int].0@;
                        assert(self@.contains_key(name));
                        assert(!record_of(other.entries@).contains_key(name));
                    }
                    return false;
                },
                Some(at) => {
                    proof {
                        lemma_record_of_value(other.entries@, at as int);
                    }
                    if !self.entries[i].1.same(&other.entries[at].1) {
                        return false;
                    }
                },
            }
            i += 1;
        }
        proof {
            assert forall|k: Seq<char>| self@.contains_key(k) implies other@.contains_key(k)
                && self@[k] == other@[k] by {
                let j = choose|j: int|
                    0 <= j < self.entries@.len() && #[trigger] self.entries@[j].0@ == k;
                lemma_record_of_value(self.entries@, j);
            }
            assert(self@.dom().subset_of(other@.dom()));
            vstd::set_lib::lemma_subset_equality(self@.dom(), other@.dom());
            assert(self@ =~= other@);
        }
        true
    }
}

} // verus!
