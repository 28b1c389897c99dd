//! The shape of trees: under which tag a node stands, how deep it nests, and what the
//! data model asks of it.
//!
//! What the decoder builds keeps to the data model: a node is of the kind that its tag
//! announced, a list of lists holds lists, records are finite, and nothing nests deeper
//! than the decoder was allowed to descend.
use crate::decode::Tag;
use crate::grammar::{
    announced, decoded, parse_elements, parse_entry, parse_i32, parse_list, parse_lists,
    parse_payload, parse_record, parse_records, parse_root, parse_text, tag_of_byte, Record,
};
use crate::value::Tree;
use vstd::prelude::*;

verus! {

/// The tag under which a node stands in a stream. Every kind of list stands under the
/// list tag.
pub open spec fn tag_of(t: Tree) -> Tag {
    match t {
        Tree::Byte(_) => Tag::Byte,
        Tree::Short(_) => Tag::Short,
        Tree::Int(_) => Tag::Int,
        Tree::Long(_) => Tag::Long,
        Tree::Float(_) => Tag::Float,
        Tree::Double(_) => Tag::Double,
        Tree::ByteArray(_) => Tag::ByteArray,
        Tree::Str(_) => Tag::Str,
        Tree::Compound(_) => Tag::Compound,
        Tree::IntArray(_) => Tag::IntArray,
        Tree::LongArray(_) => Tag::LongArray,
        _ => Tag::List,
    }
}

/// No node stands under the terminator.
pub proof fn lemma_tag_of_is_no_terminator(t: Tree)
    ensures
        tag_of(t) != Tag::End,
{
}

/// Whether a node is a list of some kind.
pub open spec fn is_list(t: Tree) -> bool {
    tag_of(t) == Tag::List
}

/// Whether a node, read as the value of an entry, nests no deeper than `room` levels:
/// a list or a record takes one level, and what it holds takes the levels below.
pub open spec fn within(t: Tree, room: nat) -> bool
    decreases t, 2nat,
{
    match t {
        Tree::Compound(fields) => room > 0 && record_within(fields, (room - 1) as nat),
        _ => is_list(t) ==> room > 0 && list_within(t, (room - 1) as nat),
    }
}

/// Whether the elements of a list nest no deeper than `room` levels.
pub open spec fn list_within(t: Tree, room: nat) -> bool
    decreases t, 1nat,
{
    match t {
        Tree::ListList(ts) => lists_within(ts, room),
        Tree::CompoundList(ms) => records_within(ms, room),
        _ => true,
    }
}

/// Whether lists that are the elements of a list nest no deeper than `room` levels: each
/// takes one level, and its elements take the levels below.
pub open spec fn lists_within(ts: Seq<Tree>, room: nat) -> bool
    decreases ts, 0nat,
{
    ts.len() > 0 ==> room > 0 && forall|i: int|
        0 <= i < ts.len() ==> list_within(#[trigger] ts[i], (room - 1) as nat)
}

/// Whether records that are the elements of a list nest no deeper than `room` levels:
/// each takes one level, and its fields take the levels below.
pub open spec fn records_within(ms: Seq<Record>, room: nat) -> bool
    decreases ms, 0nat,
{
    ms.len() > 0 ==> room > 0 && forall|i: int|
        0 <= i < ms.len() ==> record_within(#[trigger] ms[i], (room - 1) as nat)
}

/// Whether the fields of a record nest no deeper than `room` levels.
pub open spec fn record_within(fields: Record, room: nat) -> bool
    decreases fields, 0nat,
{
    &&& fields.dom().finite()
    &&& forall|name: Seq<char>| #[trigger]
        fields.contains_key(name) ==> within(fields[name], room)
}

/// Whether a node keeps to the data model, with everything below it: a list of lists
/// holds nothing but lists, and a record has finitely many fields.
pub open spec fn well_formed(t: Tree) -> bool
    decreases t, 0nat,
{
    match t {
        Tree::Compound(fields) => record_well_formed(fields),
        Tree::ListList(ts) => forall|i: int|
            0 <= i < ts.len() ==> is_list(#[trigger] ts[i]) && well_formed(ts[i]),
        Tree::CompoundList(ms) => forall|i: int|
            0 <= i < ms.len() ==> record_well_formed(#[trigger] ms[i]),
        _ => true,
    }
}

/// Whether a record keeps to the data model, with everything below it.
pub open spec fn record_well_formed(fields: Record) -> bool
    decreases fields, 1nat,
{
    &&& fields.dom().finite()
    &&& forall|name: Seq<char>| #[trigger]
        fields.contains_key(name) ==> well_formed(fields[name])
}

/// A payload that was read is a node of the kind that its tag announced, it keeps to
/// the data model, and it nests no deeper than there was room.
pub proof fn lemma_payload_shape(tag: Tag, s: Seq<u8>, room: nat)
    requires
        parse_payload(tag, s, room) is Ok,
    ensures
        tag_of(parse_payload(tag, s, room)->Ok_0.0) == tag,
        well_formed(parse_payload(tag, s, room)->Ok_0.0),
        within(parse_payload(tag, s, room)->Ok_0.0, room),
    decreases s.len(), 0nat, 1nat,
{
    match tag {
        Tag::List => {
            lemma_list_shape(s, (room - 1) as nat);
        },
        Tag::Compound => {
            lemma_record_shape(s, Map::empty(), (room - 1) as nat);
        },
        _ => {},
    }
}

/// A list payload that was read is a list, it keeps to the data model, and its elements
/// nest no deeper than there was room.
pub proof fn lemma_list_shape(s: Seq<u8>, room: nat)
    requires
        parse_list(s, room) is Ok,
    ensures
        is_list(parse_list(s, room)->Ok_0.0),
        well_formed(parse_list(s, room)->Ok_0.0),
        list_within(parse_list(s, room)->Ok_0.0, room),
    decreases s.len(), 0nat, 0nat,
{
    let element = tag_of_byte(s[0])->Some_0;
    let count = parse_i32(s.skip(1))->Ok_0.0;
    let body = parse_i32(s.skip(1))->Ok_0.1;
    lemma_elements_shape(element, count, body, room);
}

/// The same for the elements of a list.
proof fn lemma_elements_shape(element: Tag, count: i32, s: Seq<u8>, room: nat)
    requires
        parse_elements(element, count, s, room) is Ok,
    ensures
        is_list(parse_elements(element, count, s, room)->Ok_0.0),
        well_formed(parse_elements(element, count, s, room)->Ok_0.0),
        list_within(parse_elements(element, count, s, room)->Ok_0.0, room),
    decreases s.len(), 1nat, 0nat,
{
    let n = announced(count);
    match element {
        Tag::List => {
            lemma_lists_shape(s, n, room);
        },
        Tag::Compound => {
            lemma_records_shape(s, n, room);
        },
        _ => {},
    }
}

/// Lists that were read back to back are as many as were asked for, each is a list and
/// keeps to the data model, and none nests deeper than there was room.
proof fn lemma_lists_shape(s: Seq<u8>, n: nat, room: nat)
    requires
        parse_lists(s, n, room) is Ok,
    ensures
        parse_lists(s, n, room)->Ok_0.0.len() == n,
        n > 0 ==> room > 0,
        forall|i: int|
            0 <= i < n ==> {
                let t = #[trigger] parse_lists(s, n, room)->Ok_0.0[i];
                is_list(t) && well_formed(t) && list_within(t, (room - 1) as nat)
            },
    decreases s.len(), 0nat, n + 1,
{
    reveal_with_fuel(parse_lists, 2);
    if n > 0 {
        let below = (room - 1) as nat;
        let first = parse_list(s, below)->Ok_0.0;
        let rest = parse_list(s, below)->Ok_0.1;
        let m = (n - 1) as nat;
        let others = parse_lists(rest, m, room)->Ok_0.0;
        lemma_list_shape(s, below);
        lemma_lists_shape(rest, m, room);
        let all = seq![first] + others;
        assert(parse_lists(s, n, room)->Ok_0.0 == all);
        assert forall|i: int| 0 <= i < all.len() implies is_list(#[trigger] all[i])
            && well_formed(all[i]) && list_within(all[i], below) by {
            if i > 0 {
                assert(all[i] == others[i - 1]);
            }
        }
    }
}

/// Records that were read back to back are as many as were asked for, each keeps to the
/// data model, and none nests deeper than there was room.
proof fn lemma_records_shape(s: Seq<u8>, n: nat, room: nat)
    requires
        parse_records(s, n, room) is Ok,
    ensures
        parse_records(s, n, room)->Ok_0.0.len() == n,
        n > 0 ==> room > 0,
        forall|i: int|
            0 <= i < n ==> {
                let m = #[trigger] parse_records(s, n, room)->Ok_0.0[i];
                record_well_formed(m) && record_within(m, (room - 1) as nat)
            },
    decreases s.len(), 0nat, n + 1,
{
    reveal_with_fuel(parse_records, 2);
    if n > 0 {
        let below = (room - 1) as nat;
        let first = parse_record(s, Map::empty(), below)->Ok_0.0;
        let rest = parse_record(s, Map::empty(), below)->Ok_0.1;
        let m = (n - 1) as nat;
        let others = parse_records(rest, m, room)->Ok_0.0;
        lemma_record_shape(s, Map::empty(), below);
        lemma_records_shape(rest, m, room);
        let all = seq![first] + others;
        assert(parse_records(s, n, room)->Ok_0.0 == all);
        assert forall|i: int| 0 <= i < all.len() implies record_well_formed(#[trigger] all[i])
            && record_within(all[i], below) by {
            if i > 0 {
                assert(all[i] == others[i - 1]);
            }
        }
    }
}

/// A record payload that was read into a record that keeps to the data model gives a
/// record that keeps to it, and nothing in it nests deeper than there was room.
pub proof fn lemma_record_shape(s: Seq<u8>, fields: Record, room: nat)
    requires
        parse_record(s, fields, room) is Ok,
        record_well_formed(fields),
        record_within(fields, room),
    ensures
        record_well_formed(parse_record(s, fields, room)->Ok_0.0),
        record_within(parse_record(s, fields, room)->Ok_0.0, room),
    decreases s.len(), 0nat, 0nat,
{
    reveal_with_fuel(parse_record, 2);
    let tag = tag_of_byte(s[0])->Some_0;
    if tag != Tag::End {
        let entry = parse_entry(tag, s.skip(1), room)->Ok_0;
        lemma_entry_shape(tag, s.skip(1), fields, room);
        lemma_record_shape(entry.1, fields.insert(entry.0.0, entry.0.1), room);
    }
}

/// A tagged entry that was read, added to a record that keeps to the data model, gives
/// a record that keeps to it.
proof fn lemma_entry_shape(tag: Tag, s: Seq<u8>, fields: Record, room: nat)
    requires
        parse_entry(tag, s, room) is Ok,
        record_well_formed(fields),
        record_within(fields, room),
    ensures
        record_well_formed(
            fields.insert(
                parse_entry(tag, s, room)->Ok_0.0.0,
                parse_entry(tag, s, room)->Ok_0.0.1,
            ),
        ),
        record_within(
            fields.insert(
                parse_entry(tag, s, room)->Ok_0.0.0,
                parse_entry(tag, s, room)->Ok_0.0.1,
            ),
            room,
        ),
    decreases s.len(), 0nat, 2nat,
{
    let after_name = parse_text(s)->Ok_0.1;
    lemma_payload_shape(tag, after_name, room);
}

/// A stream that decodes gives a root record that keeps to the data model, and nothing
/// below the root nests deeper than the decoder was allowed to descend.
pub proof fn lemma_decoded_shape(s: Seq<u8>, max_depth: nat)
    requires
        decoded(s, max_depth) is Ok,
    ensures
        decoded(s, max_depth)->Ok_0 is Compound,
        well_formed(decoded(s, max_depth)->Ok_0),
        record_within(decoded(s, max_depth)->Ok_0->Compound_0, max_depth),
{
    lemma_root_shape(s, Map::empty(), max_depth);
}

/// The same for the top level, whatever was read into the root record before.
proof fn lemma_root_shape(s: Seq<u8>, fields: Record, room: nat)
    requires
        parse_root(s, fields, room) is Ok,
        record_well_formed(fields),
        record_within(fields, room),
    ensures
        record_well_formed(parse_root(s, fields, room)->Ok_0),
        record_within(parse_root(s, fields, room)->Ok_0, room),
    decreases s.len(),
{
    reveal_with_fuel(parse_root, 2);
    if s.len() >= 1 {
        let tag = tag_of_byte(s[0])->Some_0;
        if tag == Tag::End {
            lemma_root_shape(s.skip(1), fields, room);
        } else {
            let entry = parse_entry(tag, s.skip(1), room)->Ok_0;
            lemma_entry_shape(tag, s.skip(1), fields, room);
            lemma_root_shape(entry.1, fields.insert(entry.0.0, entry.0.1), room);
        }
    }
}

} // verus!
