//! Properties of the wire grammar.
use crate::decode::{DecodeError, Tag};
use crate::encode::{
    encodable, entry_bytes, lemma_entry_round_trip, lemma_round_trip, payload_bytes, text_fits,
};
use crate::shape::{lemma_tag_of_is_no_terminator, tag_of, within};
use crate::grammar::{
    decoded, parse_list, parse_lists, parse_payload, parse_record, parse_records, parse_root,
    Record,
};
use crate::value::Tree;
use vstd::prelude::*;

verus! {

/// A stream without a single byte decodes to the empty root record.
pub proof fn lemma_empty_stream(max_depth: nat)
    ensures
        decoded(Seq::<u8>::empty(), max_depth) == Ok::<Tree, DecodeError>(
            Tree::Compound(Map::empty()),
        ),
{
}

/// A list whose element tag is the terminator is the list of nothing, whatever its count
/// says; no element is read.
pub proof fn lemma_terminator_list(s: Seq<u8>, room: nat)
    requires
        s.len() >= 5,
        s[0] == 0,
    ensures
        parse_list(s, room) == Ok::<(Tree, Seq<u8>), DecodeError>((Tree::EndList, s.skip(5))),
{
    assert(s.skip(1).skip(4) =~= s.skip(5));
}

/// A list whose element tag is the byte tag and whose count is zero is the empty list of
/// any kind.
pub proof fn lemma_empty_byte_list(s: Seq<u8>, room: nat)
    requires
        s.len() >= 5,
        s[0] == 1,
        s[1] == 0 && s[2] == 0 && s[3] == 0 && s[4] == 0,
    ensures
        parse_list(s, room) == Ok::<(Tree, Seq<u8>), DecodeError>(
            (Tree::EmptyByteList, s.skip(5)),
        ),
{
    assert(s.skip(1).skip(4) =~= s.skip(5));
    let b = s.skip(1).take(4);
    assert(b[0] == 0 && b[1] == 0 && b.skip(2)[0] == 0 && b.skip(2)[1] == 0);
}

/// A byte above 12 where a tag is expected stops decoding with that byte as an unknown
/// tag: at the top level, inside a record, and as the element tag of a list.
pub proof fn lemma_unknown_tag(s: Seq<u8>, fields: Record, room: nat)
    requires
        s.len() >= 1,
        s[0] > 12,
    ensures
        parse_root(s, fields, room) == Err::<Record, DecodeError>(
            DecodeError::UnknownTag(s[0]),
        ),
        parse_record(s, fields, room) == Err::<(Record, Seq<u8>), DecodeError>(
            DecodeError::UnknownTag(s[0]),
        ),
        parse_list(s, room) == Err::<(Tree, Seq<u8>), DecodeError>(
            DecodeError::UnknownTag(s[0]),
        ),
        decoded(s, room) == Err::<Tree, DecodeError>(DecodeError::UnknownTag(s[0])),
{
}

/// Reading one entry adds it to the fields read before and goes on with what follows
/// it, whatever wrote the payload, as long as the payload reads as `value`.
proof fn lemma_step(
    name: Seq<char>,
    tag: Tag,
    payload: Seq<u8>,
    value: Tree,
    tail: Seq<u8>,
    fields: Record,
    room: nat,
)
    requires
        text_fits(name),
        tag != Tag::End,
        parse_payload(tag, payload + tail, room) == Ok::<(Tree, Seq<u8>), DecodeError>(
            (value, tail),
        ),
    ensures
        parse_record(entry_bytes(name, tag, payload) + tail, fields, room) == parse_record(
            tail,
            fields.insert(name, value),
            room,
        ),
        parse_root(entry_bytes(name, tag, payload) + tail, fields, room) == parse_root(
            tail,
            fields.insert(name, value),
            room,
        ),
{
    reveal_with_fuel(parse_record, 2);
    reveal_with_fuel(parse_root, 2);
    lemma_entry_round_trip(name, tag, payload, value, tail, room);
}

/// Reading one entry, inside a record and at the top level, adds it to the fields read
/// before and goes on with what follows it.
pub proof fn lemma_entry_step(
    name: Seq<char>,
    value: Tree,
    tail: Seq<u8>,
    fields: Record,
    room: nat,
)
    requires
        text_fits(name),
        encodable(value),
        within(value, room),
    ensures
        parse_record(
            entry_bytes(name, tag_of(value), payload_bytes(value)) + tail,
            fields,
            room,
        ) == parse_record(tail, fields.insert(name, value), room),
        parse_root(entry_bytes(name, tag_of(value), payload_bytes(value)) + tail, fields, room)
            == parse_root(tail, fields.insert(name, value), room),
{
    lemma_round_trip(value, tail, room);
    lemma_tag_of_is_no_terminator(value);
    lemma_step(name, tag_of(value), payload_bytes(value), value, tail, fields, room);
}

/// Of two entries in a row with one name the later one stays: inside a record and at
/// the top level, reading both leaves what reading the second alone leaves.
pub proof fn lemma_later_entry_wins(
    name: Seq<char>,
    first: Tree,
    second: Tree,
    tail: Seq<u8>,
    fields: Record,
    room: nat,
)
    requires
        text_fits(name),
        encodable(first),
        encodable(second),
        within(first, room),
        within(second, room),
    ensures
        parse_record(
            entry_bytes(name, tag_of(first), payload_bytes(first)) + (entry_bytes(
                name,
                tag_of(second),
                payload_bytes(second),
            ) + tail),
            fields,
            room,
        ) == parse_record(tail, fields.insert(name, second), room),
        parse_root(
            entry_bytes(name, tag_of(first), payload_bytes(first)) + (entry_bytes(
                name,
                tag_of(second),
                payload_bytes(second),
            ) + tail),
            fields,
            room,
        ) == parse_root(tail, fields.insert(name, second), room),
{
    let two = entry_bytes(name, tag_of(second), payload_bytes(second));
    lemma_entry_step(name, first, two + tail, fields, room);
    lemma_entry_step(name, second, tail, fields.insert(name, first), room);
    assert(fields.insert(name, first).insert(name, second) == fields.insert(name, second)) by {
        lemma_insert_twice(fields, name, first, second);
    }
}

/// Setting a name twice leaves the second value.
proof fn lemma_insert_twice(fields: Record, name: Seq<char>, first: Tree, second: Tree)
    ensures
        fields.insert(name, first).insert(name, second) == fields.insert(name, second),
{
    assert(fields.insert(name, first).insert(name, second) =~= fields.insert(name, second));
}

/// A list or a record where no level is left stops decoding, before a byte of it is
/// read: as the value of an entry, and as an element of a list.
pub proof fn lemma_too_deep(s: Seq<u8>, n: nat)
    requires
        n > 0,
    ensures
        parse_payload(Tag::List, s, 0) == Err::<(Tree, Seq<u8>), DecodeError>(
            DecodeError::TooDeep,
        ),
        parse_payload(Tag::Compound, s, 0) == Err::<(Tree, Seq<u8>), DecodeError>(
            DecodeError::TooDeep,
        ),
        parse_lists(s, n, 0) == Err::<(Seq<Tree>, Seq<u8>), DecodeError>(DecodeError::TooDeep),
        parse_records(s, n, 0) == Err::<(Seq<Record>, Seq<u8>), DecodeError>(
            DecodeError::TooDeep,
        ),
{
}

} // verus!
