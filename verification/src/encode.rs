//! The encoder, as a mathematical function from trees to bytes, and the proof that
//! decoding undoes it.
//!
//! Nothing here runs: the library only decodes. The encoder says what bytes stand for a
//! tree, so that the decoder can be held to it.
use crate::decode::{DecodeError, Tag};
use crate::grammar::{
    announced, decoded, parse_byte_array, parse_double, parse_elements, parse_entry,
    parse_float, parse_i16, parse_i32, parse_i64, parse_i8, parse_int_array, parse_list,
    parse_lists, parse_long_array, parse_payload, parse_record, parse_records, parse_root,
    parse_text, repeat, tag_of_byte, u16_be, u32_be, u64_be, Parsed, Record,
};
use crate::shape::{
    is_list, list_within, lists_within, record_within, records_within, tag_of, within,
};
use crate::value::Tree;
use vstd::prelude::*;
use vstd::utf8::{encode_utf8, encode_utf8_decode_utf8, encode_utf8_valid_utf8};

verus! {

/// The unsigned number below `modulus` that stands for `x` in two's complement.
pub open spec fn unsigned(x: int, modulus: int) -> int {
    if x < 0 {
        x + modulus
    } else {
        x
    }
}

/// Two bytes, big-endian, for a number below 2^16.
pub open spec fn u16_bytes(x: int) -> Seq<u8> {
    seq![(x / 0x100) as u8, (x % 0x100) as u8]
}

/// Four bytes, big-endian, for a number below 2^32.
pub open spec fn u32_bytes(x: int) -> Seq<u8> {
    u16_bytes(x / 0x1_0000) + u16_bytes(x % 0x1_0000)
}

/// Eight bytes, big-endian, for a number below 2^64.
pub open spec fn u64_bytes(x: int) -> Seq<u8> {
    u32_bytes(x / 0x1_0000_0000) + u32_bytes(x % 0x1_0000_0000)
}

/// The byte of a signed 8-bit integer.
pub open spec fn i8_bytes(x: i8) -> Seq<u8> {
    seq![unsigned(x as int, 0x100) as u8]
}

/// The two bytes of a signed 16-bit integer.
pub open spec fn i16_bytes(x: i16) -> Seq<u8> {
    u16_bytes(unsigned(x as int, 0x1_0000))
}

/// The four bytes of a signed 32-bit integer.
pub open spec fn i32_bytes(x: i32) -> Seq<u8> {
    u32_bytes(unsigned(x as int, 0x1_0000_0000))
}

/// The eight bytes of a signed 64-bit integer.
pub open spec fn i64_bytes(x: i64) -> Seq<u8> {
    u64_bytes(unsigned(x as int, 0x1_0000_0000_0000_0000))
}

/// The four bytes of the bit pattern of a single-precision number.
pub open spec fn float_bytes(x: u32) -> Seq<u8> {
    u32_bytes(x as int)
}

/// The eight bytes of the bit pattern of a double-precision number.
pub open spec fn double_bytes(x: u64) -> Seq<u8> {
    u64_bytes(x as int)
}

/// Whether a text fits the 16-bit length that precedes it.
pub open spec fn text_fits(t: Seq<char>) -> bool {
    encode_utf8(t).len() <= 0xFFFF
}

/// A text: the length of its UTF-8 form in two bytes, then that form.
pub open spec fn text_bytes(t: Seq<char>) -> Seq<u8> {
    u16_bytes(encode_utf8(t).len() as int) + encode_utf8(t)
}

/// Joining is associative.
proof fn lemma_join_assoc<T>(a: Seq<T>, b: Seq<T>, c: Seq<T>)
    ensures
        (a + b) + c == a + (b + c),
{
    assert((a + b) + c =~= a + (b + c));
}

/// Joining nothing to the front changes nothing.
proof fn lemma_join_nothing<T>(a: Seq<T>)
    ensures
        Seq::<T>::empty() + a == a,
{
    assert(Seq::<T>::empty() + a =~= a);
}

/// A sequence that is not empty is its first item followed by the others.
proof fn lemma_first_and_others<T>(xs: Seq<T>)
    requires
        xs.len() > 0,
    ensures
        seq![xs[0]] + xs.drop_first() == xs,
{
    assert(seq![xs[0]] + xs.drop_first() =~= xs);
}

/// What follows the first byte, and the first byte.
proof fn lemma_after_first_byte(b: u8, rest: Seq<u8>)
    ensures
        (seq![b] + rest).skip(1) == rest,
        (seq![b] + rest)[0] == b,
        (seq![b] + rest).len() == rest.len() + 1,
{
    assert((seq![b] + rest).skip(1) =~= rest);
}

/// The two bytes of a number below 2^16 spell that number, and come off the front whole.
proof fn lemma_u16_round_trip(x: int, rest: Seq<u8>)
    requires
        0 <= x < 0x1_0000,
    ensures
        (u16_bytes(x) + rest).take(2) == u16_bytes(x),
        (u16_bytes(x) + rest).skip(2) == rest,
        u16_be(u16_bytes(x)) == x,
        u16_bytes(x).len() == 2,
{
    assert((u16_bytes(x) + rest).take(2) =~= u16_bytes(x));
    assert((u16_bytes(x) + rest).skip(2) =~= rest);
}

/// The four bytes of a number below 2^32 spell that number, and come off the front whole.
proof fn lemma_u32_round_trip(x: int, rest: Seq<u8>)
    requires
        0 <= x < 0x1_0000_0000,
    ensures
        (u32_bytes(x) + rest).take(4) == u32_bytes(x),
        (u32_bytes(x) + rest).skip(4) == rest,
        u32_be(u32_bytes(x)) == x,
        u32_bytes(x).len() == 4,
{
    let hi = x / 0x1_0000;
    let lo = x % 0x1_0000;
    lemma_u16_round_trip(hi, u16_bytes(lo));
    lemma_u16_round_trip(lo, Seq::empty());
    assert(u32_bytes(x).skip(2) =~= u16_bytes(lo));
    assert(u16_be(u32_bytes(x)) == u16_be(u16_bytes(hi)));
    assert((u32_bytes(x) + rest).take(4) =~= u32_bytes(x));
    assert((u32_bytes(x) + rest).skip(4) =~= rest);
}

/// The eight bytes of a number below 2^64 spell that number, and come off the front whole.
proof fn lemma_u64_round_trip(x: int, rest: Seq<u8>)
    requires
        0 <= x < 0x1_0000_0000_0000_0000,
    ensures
        (u64_bytes(x) + rest).take(8) == u64_bytes(x),
        (u64_bytes(x) + rest).skip(8) == rest,
        u64_be(u64_bytes(x)) == x,
        u64_bytes(x).len() == 8,
{
    let hi = x / 0x1_0000_0000;
    let lo = x % 0x1_0000_0000;
    lemma_u32_round_trip(hi, u32_bytes(lo));
    lemma_u32_round_trip(lo, Seq::empty());
    assert(u64_bytes(x).skip(4) =~= u32_bytes(lo));
    assert(u32_be(u64_bytes(x)) == u32_be(u32_bytes(hi))) by {
        assert(u64_bytes(x).skip(2) =~= u32_bytes(hi).skip(2) + u32_bytes(lo));
        assert(u32_bytes(hi).skip(2) =~= u16_bytes(hi % 0x1_0000));
        lemma_u16_round_trip(hi % 0x1_0000, u32_bytes(lo));
        lemma_u16_round_trip(hi / 0x1_0000, u16_bytes(hi % 0x1_0000) + u32_bytes(lo));
    }
    assert((u64_bytes(x) + rest).take(8) =~= u64_bytes(x));
    assert((u64_bytes(x) + rest).skip(8) =~= rest);
}

/// Decoding undoes the encoding of a signed 8-bit integer.
pub proof fn lemma_i8_round_trip(x: i8, rest: Seq<u8>)
    ensures
        parse_i8(i8_bytes(x) + rest) == Ok::<(i8, Seq<u8>), DecodeError>((x, rest)),
{
    let s = i8_bytes(x) + rest;
    assert(s.take(1) =~= i8_bytes(x));
    assert(s.skip(1) =~= rest);
}

/// Decoding undoes the encoding of a signed 16-bit integer.
pub proof fn lemma_i16_round_trip(x: i16, rest: Seq<u8>)
    ensures
        parse_i16(i16_bytes(x) + rest) == Ok::<(i16, Seq<u8>), DecodeError>((x, rest)),
{
    lemma_u16_round_trip(unsigned(x as int, 0x1_0000), rest);
}

/// Decoding undoes the encoding of a signed 32-bit integer.
pub proof fn lemma_i32_round_trip(x: i32, rest: Seq<u8>)
    ensures
        parse_i32(i32_bytes(x) + rest) == Ok::<(i32, Seq<u8>), DecodeError>((x, rest)),
{
    lemma_u32_round_trip(unsigned(x as int, 0x1_0000_0000), rest);
}

/// Decoding undoes the encoding of a signed 64-bit integer.
pub proof fn lemma_i64_round_trip(x: i64, rest: Seq<u8>)
    ensures
        parse_i64(i64_bytes(x) + rest) == Ok::<(i64, Seq<u8>), DecodeError>((x, rest)),
{
    lemma_u64_round_trip(unsigned(x as int, 0x1_0000_0000_0000_0000), rest);
}

/// Decoding undoes the encoding of a single-precision bit pattern.
pub proof fn lemma_float_round_trip(x: u32, rest: Seq<u8>)
    ensures
        parse_float(float_bytes(x) + rest) == Ok::<(u32, Seq<u8>), DecodeError>((x, rest)),
{
    lemma_u32_round_trip(x as int, rest);
}

/// Decoding undoes the encoding of a double-precision bit pattern.
pub proof fn lemma_double_round_trip(x: u64, rest: Seq<u8>)
    ensures
        parse_double(double_bytes(x) + rest) == Ok::<(u64, Seq<u8>), DecodeError>((x, rest)),
{
    lemma_u64_round_trip(x as int, rest);
}

/// Decoding undoes the encoding of a text that fits.
pub proof fn lemma_text_round_trip(t: Seq<char>, rest: Seq<u8>)
    requires
        text_fits(t),
    ensures
        parse_text(text_bytes(t) + rest) == Ok::<(Seq<char>, Seq<u8>), DecodeError>((t, rest)),
{
    let body = encode_utf8(t);
    let s = text_bytes(t) + rest;
    lemma_u16_round_trip(body.len() as int, body + rest);
    assert(s =~= u16_bytes(body.len() as int) + (body + rest));
    assert((body + rest).take(body.len() as int) =~= body);
    assert((body + rest).skip(body.len() as int) =~= rest);
    encode_utf8_valid_utf8(t);
    encode_utf8_decode_utf8(t);
}

/// The byte that stands for a tag.
pub open spec fn tag_byte(tag: Tag) -> u8 {
    match tag {
        Tag::End => 0,
        Tag::Byte => 1,
        Tag::Short => 2,
        Tag::Int => 3,
        Tag::Long => 4,
        Tag::Float => 5,
        Tag::Double => 6,
        Tag::ByteArray => 7,
        Tag::Str => 8,
        Tag::List => 9,
        Tag::Compound => 10,
        Tag::IntArray => 11,
        Tag::LongArray => 12,
    }
}

/// Whether a number of items fits the signed 32-bit count that precedes them.
pub open spec fn count_fits(n: nat) -> bool {
    n <= 0x7FFF_FFFF
}

/// The items of `xs`, each written by `item`, back to back.
pub open spec fn each_bytes<T>(item: spec_fn(T) -> Seq<u8>, xs: Seq<T>) -> Seq<u8>
    decreases xs.len(),
{
    if xs.len() == 0 {
        Seq::empty()
    } else {
        item(xs[0]) + each_bytes(item, xs.drop_first())
    }
}

/// An array: the count, then the items.
pub open spec fn array_bytes<T>(item: spec_fn(T) -> Seq<u8>, xs: Seq<T>) -> Seq<u8> {
    i32_bytes(xs.len() as i32) + each_bytes(item, xs)
}

/// An array of signed bytes.
pub open spec fn byte_array_bytes(xs: Seq<i8>) -> Seq<u8> {
    array_bytes(|x: i8| i8_bytes(x), xs)
}

/// An array of signed 32-bit integers.
pub open spec fn int_array_bytes(xs: Seq<i32>) -> Seq<u8> {
    array_bytes(|x: i32| i32_bytes(x), xs)
}

/// An array of signed 64-bit integers.
pub open spec fn long_array_bytes(xs: Seq<i64>) -> Seq<u8> {
    array_bytes(|x: i64| i64_bytes(x), xs)
}

/// What opens a list payload: the element tag and the count.
pub open spec fn list_head(element: Tag, n: nat) -> Seq<u8> {
    seq![tag_byte(element)] + i32_bytes(n as i32)
}

/// Whether the encoder can write a node so that it reads back as itself: counts and text
/// lengths fit their prefixes, records are finite, a list of bytes is not empty (an empty
/// one reads back as the empty list of any kind), and a list of lists holds lists.
pub open spec fn encodable(t: Tree) -> bool
    decreases t,
{
    match t {
        Tree::ByteArray(xs) => count_fits(xs.len()),
        Tree::IntArray(xs) => count_fits(xs.len()),
        Tree::LongArray(xs) => count_fits(xs.len()),
        Tree::Str(text) => text_fits(text),
        Tree::Compound(fields) => record_encodable(fields),
        Tree::ByteList(xs) => 0 < xs.len() && count_fits(xs.len()),
        Tree::ShortList(xs) => count_fits(xs.len()),
        Tree::IntList(xs) => count_fits(xs.len()),
        Tree::LongList(xs) => count_fits(xs.len()),
        Tree::FloatList(xs) => count_fits(xs.len()),
        Tree::DoubleList(xs) => count_fits(xs.len()),
        Tree::ByteArrayList(xs) => count_fits(xs.len()) && forall|i: int|
            0 <= i < xs.len() ==> count_fits(#[trigger] xs[i].len()),
        Tree::IntArrayList(xs) => count_fits(xs.len()) && forall|i: int|
            0 <= i < xs.len() ==> count_fits(#[trigger] xs[i].len()),
        Tree::LongArrayList(xs) => count_fits(xs.len()) && forall|i: int|
            0 <= i < xs.len() ==> count_fits(#[trigger] xs[i].len()),
        Tree::StrList(xs) => count_fits(xs.len()) && forall|i: int|
            0 <= i < xs.len() ==> text_fits(#[trigger] xs[i]),
        Tree::ListList(ts) => count_fits(ts.len()) && forall|i: int|
            0 <= i < ts.len() ==> is_list(#[trigger] ts[i]) && encodable(ts[i]),
        Tree::CompoundList(ms) => count_fits(ms.len()) && forall|i: int|
            0 <= i < ms.len() ==> record_encodable(#[trigger] ms[i]),
        _ => true,
    }
}

/// Whether the encoder can write a record: it is finite, and each name and value can be
/// written.
pub open spec fn record_encodable(fields: Record) -> bool
    decreases fields,
{
    &&& fields.dom().finite()
    &&& forall|name: Seq<char>| #[trigger]
        fields.contains_key(name) ==> text_fits(name) && encodable(fields[name])
}

/// The payload of a node.
pub open spec fn payload_bytes(t: Tree) -> Seq<u8>
    decreases t, 0nat,
{
    match t {
        Tree::Byte(x) => i8_bytes(x),
        Tree::Short(x) => i16_bytes(x),
        Tree::Int(x) => i32_bytes(x),
        Tree::Long(x) => i64_bytes(x),
        Tree::Float(x) => float_bytes(x),
        Tree::Double(x) => double_bytes(x),
        Tree::ByteArray(xs) => byte_array_bytes(xs),
        Tree::Str(text) => text_bytes(text),
        Tree::Compound(fields) => record_bytes(fields),
        Tree::IntArray(xs) => int_array_bytes(xs),
        Tree::LongArray(xs) => long_array_bytes(xs),
        Tree::EndList => list_head(Tag::End, 0),
        Tree::EmptyByteList => list_head(Tag::Byte, 0),
        Tree::ByteList(xs) => list_head(Tag::Byte, xs.len()) + each_bytes(
            |x: i8| i8_bytes(x),
            xs,
        ),
        Tree::ShortList(xs) => list_head(Tag::Short, xs.len()) + each_bytes(
            |x: i16| i16_bytes(x),
            xs,
        ),
        Tree::IntList(xs) => list_head(Tag::Int, xs.len()) + each_bytes(
            |x: i32| i32_bytes(x),
            xs,
        ),
        Tree::LongList(xs) => list_head(Tag::Long, xs.len()) + each_bytes(
            |x: i64| i64_bytes(x),
            xs,
        ),
        Tree::FloatList(xs) => list_head(Tag::Float, xs.len()) + each_bytes(
            |x: u32| float_bytes(x),
            xs,
        ),
        Tree::DoubleList(xs) => list_head(Tag::Double, xs.len()) + each_bytes(
            |x: u64| double_bytes(x),
            xs,
        ),
        Tree::ByteArrayList(xs) => list_head(Tag::ByteArray, xs.len()) + each_bytes(
            |x: Seq<i8>| byte_array_bytes(x),
            xs,
        ),
        Tree::StrList(xs) => list_head(Tag::Str, xs.len()) + each_bytes(
            |x: Seq<char>| text_bytes(x),
            xs,
        ),
        Tree::ListList(ts) => list_head(Tag::List, ts.len()) + lists_bytes(ts),
        Tree::CompoundList(ms) => list_head(Tag::Compound, ms.len()) + records_bytes(ms),
        Tree::IntArrayList(xs) => list_head(Tag::IntArray, xs.len()) + each_bytes(
            |x: Seq<i32>| int_array_bytes(x),
            xs,
        ),
        Tree::LongArrayList(xs) => list_head(Tag::LongArray, xs.len()) + each_bytes(
            |x: Seq<i64>| long_array_bytes(x),
            xs,
        ),
    }
}

/// List payloads back to back.
pub open spec fn lists_bytes(ts: Seq<Tree>) -> Seq<u8>
    decreases ts, 0nat,
{
    if ts.len() == 0 {
        Seq::empty()
    } else {
        payload_bytes(ts[0]) + lists_bytes(ts.drop_first())
    }
}

/// Record payloads back to back.
pub open spec fn records_bytes(ms: Seq<Record>) -> Seq<u8>
    decreases ms, 0nat,
{
    if ms.len() == 0 {
        Seq::empty()
    } else {
        record_bytes(ms[0]) + records_bytes(ms.drop_first())
    }
}

/// A tagged entry: the tag byte, the name, the payload.
pub open spec fn entry_bytes(name: Seq<char>, payload_tag: Tag, payload: Seq<u8>) -> Seq<u8> {
    seq![tag_byte(payload_tag)] + text_bytes(name) + payload
}

/// The entries of `fields` that `names` lists, in that order.
pub open spec fn fields_bytes(fields: Record, names: Seq<Seq<char>>) -> Seq<u8>
    decreases fields, names.len(),
{
    if names.len() == 0 {
        Seq::empty()
    } else if fields.dom().finite() && fields.contains_key(names[0]) {
        entry_bytes(names[0], tag_of(fields[names[0]]), payload_bytes(fields[names[0]]))
            + fields_bytes(fields, names.drop_first())
    } else {
        fields_bytes(fields, names.drop_first())
    }
}

/// A record payload: the entries, in some order, then the terminator.
pub open spec fn record_bytes(fields: Record) -> Seq<u8>
    decreases fields, fields.dom().to_seq().len() + 1,
{
    fields_bytes(fields, fields.dom().to_seq()) + seq![0u8]
}

/// A whole stream for the root record: its entries, in some order, and no terminator.
pub open spec fn root_bytes(fields: Record) -> Seq<u8> {
    fields_bytes(fields, fields.dom().to_seq())
}

/// The byte of a tag stands for that tag.
pub proof fn lemma_tag_byte_round_trip(tag: Tag)
    ensures
        tag_of_byte(tag_byte(tag)) == Some(tag),
{
}

/// Reading as many items as were written, each by the reader that undoes its writer,
/// gives the items back.
proof fn lemma_each_round_trip<T>(
    parse: spec_fn(Seq<u8>) -> Parsed<T>,
    bytes: spec_fn(T) -> Seq<u8>,
    xs: Seq<T>,
    rest: Seq<u8>,
)
    requires
        forall|i: int, r: Seq<u8>|
            0 <= i < xs.len() ==> #[trigger] parse(bytes(xs[i]) + r) == Ok::<
                (T, Seq<u8>),
                DecodeError,
            >((xs[i], r)),
    ensures
        repeat(parse, each_bytes(bytes, xs) + rest, xs.len()) == Ok::<
            (Seq<T>, Seq<u8>),
            DecodeError,
        >((xs, rest)),
    decreases xs.len(),
{
    if xs.len() == 0 {
        lemma_join_nothing(rest);
        assert(xs =~= Seq::<T>::empty());
    } else {
        let tail = xs.drop_first();
        let after = each_bytes(bytes, tail) + rest;
        lemma_join_assoc(bytes(xs[0]), each_bytes(bytes, tail), rest);
        assert(parse(bytes(xs[0]) + after) == Ok::<(T, Seq<u8>), DecodeError>((xs[0], after)));
        assert forall|i: int, r: Seq<u8>| 0 <= i < tail.len() implies #[trigger] parse(
            bytes(tail[i]) + r,
        ) == Ok::<(T, Seq<u8>), DecodeError>((tail[i], r)) by {
            assert(tail[i] == xs[i + 1]);
            assert(parse(bytes(xs[i + 1]) + r) == Ok::<(T, Seq<u8>), DecodeError>((xs[i + 1], r)));
        }
        lemma_each_round_trip(parse, bytes, tail, rest);
        lemma_first_and_others(xs);
    }
}

/// Decoding undoes the encoding of signed 8-bit integers written back to back.
proof fn lemma_i8s_round_trip(xs: Seq<i8>, rest: Seq<u8>)
    ensures
        repeat(
            |r: Seq<u8>| parse_i8(r),
            each_bytes(|x: i8| i8_bytes(x), xs) + rest,
            xs.len(),
        ) == Ok::<(Seq<i8>, Seq<u8>), DecodeError>((xs, rest)),
{
    let parse = |r: Seq<u8>| parse_i8(r);
    let bytes = |x: i8| i8_bytes(x);
    assert forall|i: int, r: Seq<u8>| 0 <= i < xs.len() implies #[trigger] parse(
        bytes(xs[i]) + r,
    ) == Ok::<(i8, Seq<u8>), DecodeError>((xs[i], r)) by {
        lemma_i8_round_trip(xs[i], r);
    }
    lemma_each_round_trip(parse, bytes, xs, rest);
}

/// Decoding undoes the encoding of signed 16-bit integers written back to back.
proof fn lemma_i16s_round_trip(xs: Seq<i16>, rest: Seq<u8>)
    ensures
        repeat(
            |r: Seq<u8>| parse_i16(r),
            each_bytes(|x: i16| i16_bytes(x), xs) + rest,
            xs.len(),
        ) == Ok::<(Seq<i16>, Seq<u8>), DecodeError>((xs, rest)),
{
    let parse = |r: Seq<u8>| parse_i16(r);
    let bytes = |x: i16| i16_bytes(x);
    assert forall|i: int, r: Seq<u8>| 0 <= i < xs.len() implies #[trigger] parse(
        bytes(xs[i]) + r,
    ) == Ok::<(i16, Seq<u8>), DecodeError>((xs[i], r)) by {
        lemma_i16_round_trip(xs[i], r);
    }
    lemma_each_round_trip(parse, bytes, xs, rest);
}

/// Decoding undoes the encoding of signed 32-bit integers written back to back.
proof fn lemma_i32s_round_trip(xs: Seq<i32>, rest: Seq<u8>)
    ensures
        repeat(
            |r: Seq<u8>| parse_i32(r),
            each_bytes(|x: i32| i32_bytes(x), xs) + rest,
            xs.len(),
        ) == Ok::<(Seq<i32>, Seq<u8>), DecodeError>((xs, rest)),
{
    let parse = |r: Seq<u8>| parse_i32(r);
    let bytes = |x: i32| i32_bytes(x);
    assert forall|i: int, r: Seq<u8>| 0 <= i < xs.len() implies #[trigger] parse(
        bytes(xs[i]) + r,
    ) == Ok::<(i32, Seq<u8>), DecodeError>((xs[i], r)) by {
        lemma_i32_round_trip(xs[i], r);
    }
    lemma_each_round_trip(parse, bytes, xs, rest);
}

/// Decoding undoes the encoding of signed 64-bit integers written back to back.
proof fn lemma_i64s_round_trip(xs: Seq<i64>, rest: Seq<u8>)
    ensures
        repeat(
            |r: Seq<u8>| parse_i64(r),
            each_bytes(|x: i64| i64_bytes(x), xs) + rest,
            xs.len(),
        ) == Ok::<(Seq<i64>, Seq<u8>), DecodeError>((xs, rest)),
{
    let parse = |r: Seq<u8>| parse_i64(r);
    let bytes = |x: i64| i64_bytes(x);
    assert forall|i: int, r: Seq<u8>| 0 <= i < xs.len() implies #[trigger] parse(
        bytes(xs[i]) + r,
    ) == Ok::<(i64, Seq<u8>), DecodeError>((xs[i], r)) by {
        lemma_i64_round_trip(xs[i], r);
    }
    lemma_each_round_trip(parse, bytes, xs, rest);
}

/// Decoding undoes the encoding of single-precision bit patterns written back to back.
proof fn lemma_floats_round_trip(xs: Seq<u32>, rest: Seq<u8>)
    ensures
        repeat(
            |r: Seq<u8>| parse_float(r),
            each_bytes(|x: u32| float_bytes(x), xs) + rest,
            xs.len(),
        ) == Ok::<(Seq<u32>, Seq<u8>), DecodeError>((xs, rest)),
{
    let parse = |r: Seq<u8>| parse_float(r);
    let bytes = |x: u32| float_bytes(x);
    assert forall|i: int, r: Seq<u8>| 0 <= i < xs.len() implies #[trigger] parse(
        bytes(xs[i]) + r,
    ) == Ok::<(u32, Seq<u8>), DecodeError>((xs[i], r)) by {
        lemma_float_round_trip(xs[i], r);
    }
    lemma_each_round_trip(parse, bytes, xs, rest);
}

/// Decoding undoes the encoding of double-precision bit patterns written back to back.
proof fn lemma_doubles_round_trip(xs: Seq<u64>, rest: Seq<u8>)
    ensures
        repeat(
            |r: Seq<u8>| parse_double(r),
            each_bytes(|x: u64| double_bytes(x), xs) + rest,
            xs.len(),
        ) == Ok::<(Seq<u64>, Seq<u8>), DecodeError>((xs, rest)),
{
    let parse = |r: Seq<u8>| parse_double(r);
    let bytes = |x: u64| double_bytes(x);
    assert forall|i: int, r: Seq<u8>| 0 <= i < xs.len() implies #[trigger] parse(
        bytes(xs[i]) + r,
    ) == Ok::<(u64, Seq<u8>), DecodeError>((xs[i], r)) by {
        lemma_double_round_trip(xs[i], r);
    }
    lemma_each_round_trip(parse, bytes, xs, rest);
}

/// Decoding undoes the encoding of texts written back to back.
proof fn lemma_texts_round_trip(xs: Seq<Seq<char>>, rest: Seq<u8>)
    requires
        forall|i: int| 0 <= i < xs.len() ==> text_fits(#[trigger] xs[i]),
    ensures
        repeat(
            |r: Seq<u8>| parse_text(r),
            each_bytes(|x: Seq<char>| text_bytes(x), xs) + rest,
            xs.len(),
        ) == Ok::<(Seq<Seq<char>>, Seq<u8>), DecodeError>((xs, rest)),
{
    let parse = |r: Seq<u8>| parse_text(r);
    let bytes = |x: Seq<char>| text_bytes(x);
    assert forall|i: int, r: Seq<u8>| 0 <= i < xs.len() implies #[trigger] parse(
        bytes(xs[i]) + r,
    ) == Ok::<(Seq<char>, Seq<u8>), DecodeError>((xs[i], r)) by {
        lemma_text_round_trip(xs[i], r);
    }
    lemma_each_round_trip(parse, bytes, xs, rest);
}

/// Decoding undoes the encoding of an array whose count fits.
pub proof fn lemma_byte_array_round_trip(xs: Seq<i8>, rest: Seq<u8>)
    requires
        count_fits(xs.len()),
    ensures
        parse_byte_array(byte_array_bytes(xs) + rest) == Ok::<
            (Seq<i8>, Seq<u8>),
            DecodeError,
        >((xs, rest)),
{
    let body = each_bytes(|x: i8| i8_bytes(x), xs);
    lemma_i32_round_trip(xs.len() as i32, body + rest);
    lemma_join_assoc(i32_bytes(xs.len() as i32), body, rest);
    lemma_i8s_round_trip(xs, rest);
}

/// Decoding undoes the encoding of an array whose count fits.
pub proof fn lemma_int_array_round_trip(xs: Seq<i32>, rest: Seq<u8>)
    requires
        count_fits(xs.len()),
    ensures
        parse_int_array(int_array_bytes(xs) + rest) == Ok::<
            (Seq<i32>, Seq<u8>),
            DecodeError,
        >((xs, rest)),
{
    let body = each_bytes(|x: i32| i32_bytes(x), xs);
    lemma_i32_round_trip(xs.len() as i32, body + rest);
    lemma_join_assoc(i32_bytes(xs.len() as i32), body, rest);
    lemma_i32s_round_trip(xs, rest);
}

/// Decoding undoes the encoding of an array whose count fits.
pub proof fn lemma_long_array_round_trip(xs: Seq<i64>, rest: Seq<u8>)
    requires
        count_fits(xs.len()),
    ensures
        parse_long_array(long_array_bytes(xs) + rest) == Ok::<
            (Seq<i64>, Seq<u8>),
            DecodeError,
        >((xs, rest)),
{
    let body = each_bytes(|x: i64| i64_bytes(x), xs);
    lemma_i32_round_trip(xs.len() as i32, body + rest);
    lemma_join_assoc(i32_bytes(xs.len() as i32), body, rest);
    lemma_i64s_round_trip(xs, rest);
}

/// Decoding undoes the encoding of arrays of signed bytes written back to back.
proof fn lemma_byte_arrays_round_trip(xs: Seq<Seq<i8>>, rest: Seq<u8>)
    requires
        forall|i: int| 0 <= i < xs.len() ==> count_fits(#[trigger] xs[i].len()),
    ensures
        repeat(
            |r: Seq<u8>| parse_byte_array(r),
            each_bytes(|x: Seq<i8>| byte_array_bytes(x), xs) + rest,
            xs.len(),
        ) == Ok::<(Seq<Seq<i8>>, Seq<u8>), DecodeError>((xs, rest)),
{
    let parse = |r: Seq<u8>| parse_byte_array(r);
    let bytes = |x: Seq<i8>| byte_array_bytes(x);
    assert forall|i: int, r: Seq<u8>| 0 <= i < xs.len() implies #[trigger] parse(
        bytes(xs[i]) + r,
    ) == Ok::<(Seq<i8>, Seq<u8>), DecodeError>((xs[i], r)) by {
        lemma_byte_array_round_trip(xs[i], r);
    }
    lemma_each_round_trip(parse, bytes, xs, rest);
}

/// Decoding undoes the encoding of arrays of signed 32-bit integers written back to
/// back.
proof fn lemma_int_arrays_round_trip(xs: Seq<Seq<i32>>, rest: Seq<u8>)
    requires
        forall|i: int| 0 <= i < xs.len() ==> count_fits(#[trigger] xs[i].len()),
    ensures
        repeat(
            |r: Seq<u8>| parse_int_array(r),
            each_bytes(|x: Seq<i32>| int_array_bytes(x), xs) + rest,
            xs.len(),
        ) == Ok::<(Seq<Seq<i32>>, Seq<u8>), DecodeError>((xs, rest)),
{
    let parse = |r: Seq<u8>| parse_int_array(r);
    let bytes = |x: Seq<i32>| int_array_bytes(x);
    assert forall|i: int, r: Seq<u8>| 0 <= i < xs.len() implies #[trigger] parse(
        bytes(xs[i]) + r,
    ) == Ok::<(Seq<i32>, Seq<u8>), DecodeError>((xs[i], r)) by {
        lemma_int_array_round_trip(xs[i], r);
    }
    lemma_each_round_trip(parse, bytes, xs, rest);
}

/// Decoding undoes the encoding of arrays of signed 64-bit integers written back to
/// back.
proof fn lemma_long_arrays_round_trip(xs: Seq<Seq<i64>>, rest: Seq<u8>)
    requires
        forall|i: int| 0 <= i < xs.len() ==> count_fits(#[trigger] xs[i].len()),
    ensures
        repeat(
            |r: Seq<u8>| parse_long_array(r),
            each_bytes(|x: Seq<i64>| long_array_bytes(x), xs) + rest,
            xs.len(),
        ) == Ok::<(Seq<Seq<i64>>, Seq<u8>), DecodeError>((xs, rest)),
{
    let parse = |r: Seq<u8>| parse_long_array(r);
    let bytes = |x: Seq<i64>| long_array_bytes(x);
    assert forall|i: int, r: Seq<u8>| 0 <= i < xs.len() implies #[trigger] parse(
        bytes(xs[i]) + r,
    ) == Ok::<(Seq<i64>, Seq<u8>), DecodeError>((xs[i], r)) by {
        lemma_long_array_round_trip(xs[i], r);
    }
    lemma_each_round_trip(parse, bytes, xs, rest);
}

/// After the head of a list payload come its elements.
proof fn lemma_list_head(element: Tag, n: nat, body: Seq<u8>, room: nat)
    requires
        count_fits(n),
    ensures
        parse_list(list_head(element, n) + body, room) == parse_elements(
            element,
            n as i32,
            body,
            room,
        ),
        announced(n as i32) == n,
{
    lemma_i32_round_trip(n as i32, body);
    lemma_join_assoc(seq![tag_byte(element)], i32_bytes(n as i32), body);
    lemma_after_first_byte(tag_byte(element), i32_bytes(n as i32) + body);
    lemma_tag_byte_round_trip(element);
}

/// The record that comes of adding to `start` the entries of `fields` that `names`
/// lists, in that order.
pub open spec fn added(start: Record, fields: Record, names: Seq<Seq<char>>) -> Record
    decreases names.len(),
{
    if names.len() == 0 {
        start
    } else {
        added(start.insert(names[0], fields[names[0]]), fields, names.drop_first())
    }
}

/// What `added` holds: the listed entries of `fields`, and besides them what `start` held.
proof fn lemma_added(start: Record, fields: Record, names: Seq<Seq<char>>)
    ensures
        forall|k: Seq<char>| #[trigger]
            added(start, fields, names).contains_key(k) <==> start.contains_key(k)
                || names.contains(k),
        forall|k: Seq<char>|
            names.contains(k) ==> #[trigger] added(start, fields, names)[k] == fields[k],
        forall|k: Seq<char>|
            !names.contains(k) ==> #[trigger] added(start, fields, names)[k] == start[k],
    decreases names.len(),
{
    if names.len() > 0 {
        let tail = names.drop_first();
        let next = start.insert(names[0], fields[names[0]]);
        let all = added(start, fields, names);
        assert(all == added(next, fields, tail));
        lemma_added(next, fields, tail);
        assert forall|k: Seq<char>| names.contains(k) <==> k == names[0] || tail.contains(k) by {
            if names.contains(k) {
                let i = choose|i: int| 0 <= i < names.len() && names[i] == k;
                if i > 0 {
                    assert(tail[i - 1] == k);
                }
            }
            if tail.contains(k) {
                let i = choose|i: int| 0 <= i < tail.len() && tail[i] == k;
                assert(names[i + 1] == k);
            }
        }
        assert forall|k: Seq<char>| all.contains_key(k) <==> start.contains_key(k)
            || names.contains(k) by {
            assert(all.contains_key(k) <==> next.contains_key(k) || tail.contains(k));
        }
        assert forall|k: Seq<char>| names.contains(k) implies all[k] == fields[k] by {
            if !tail.contains(k) {
                assert(all[k] == next[k]);
            }
        }
        assert forall|k: Seq<char>| !names.contains(k) implies all[k] == start[k] by {
            assert(all[k] == next[k]);
        }
    }
}

/// Adding every entry of a finite record to the empty record gives the record.
proof fn lemma_added_all(fields: Record)
    requires
        fields.dom().finite(),
    ensures
        added(Map::empty(), fields, fields.dom().to_seq()) == fields,
        forall|i: int|
            0 <= i < fields.dom().to_seq().len() ==> fields.contains_key(
                #[trigger] fields.dom().to_seq()[i],
            ),
{
    let names = fields.dom().to_seq();
    fields.dom().lemma_to_seq_to_set_id();
    assert forall|k: Seq<char>| names.contains(k) <==> fields.contains_key(k) by {
        assert(names.to_set().contains(k) <==> names.contains(k));
    }
    assert forall|i: int| 0 <= i < names.len() implies fields.contains_key(
        #[trigger] names[i],
    ) by {
        assert(names.contains(names[i]));
    }
    lemma_added(Map::empty(), fields, names);
    assert(added(Map::empty(), fields, names) =~= fields);
}

/// Decoding undoes the encoding of a list of signed bytes that is not empty.
proof fn lemma_byte_list_round_trip(xs: Seq<i8>, rest: Seq<u8>, room: nat)
    requires
        count_fits(xs.len()),
        xs.len() > 0,
    ensures
        parse_list(payload_bytes(Tree::ByteList(xs)) + rest, room) == Ok::<
            (Tree, Seq<u8>),
            DecodeError,
        >((Tree::ByteList(xs), rest)),
{
    let body = each_bytes(|x: i8| i8_bytes(x), xs);
    lemma_list_head(Tag::Byte, xs.len(), body + rest, room);
    lemma_join_assoc(list_head(Tag::Byte, xs.len()), body, rest);
    lemma_i8s_round_trip(xs, rest);
}

/// Decoding undoes the encoding of a list of signed 16-bit integers.
proof fn lemma_short_list_round_trip(xs: Seq<i16>, rest: Seq<u8>, room: nat)
    requires
        count_fits(xs.len()),
    ensures
        parse_list(payload_bytes(Tree::ShortList(xs)) + rest, room) == Ok::<
            (Tree, Seq<u8>),
            DecodeError,
        >((Tree::ShortList(xs), rest)),
{
    let body = each_bytes(|x: i16| i16_bytes(x), xs);
    lemma_list_head(Tag::Short, xs.len(), body + rest, room);
    lemma_join_assoc(list_head(Tag::Short, xs.len()), body, rest);
    lemma_i16s_round_trip(xs, rest);
}

/// Decoding undoes the encoding of a list of signed 32-bit integers.
proof fn lemma_int_list_round_trip(xs: Seq<i32>, rest: Seq<u8>, room: nat)
    requires
        count_fits(xs.len()),
    ensures
        parse_list(payload_bytes(Tree::IntList(xs)) + rest, room) == Ok::<
            (Tree, Seq<u8>),
            DecodeError,
        >((Tree::IntList(xs), rest)),
{
    let body = each_bytes(|x: i32| i32_bytes(x), xs);
    lemma_list_head(Tag::Int, xs.len(), body + rest, room);
    lemma_join_assoc(list_head(Tag::Int, xs.len()), body, rest);
    lemma_i32s_round_trip(xs, rest);
}

/// Decoding undoes the encoding of a list of signed 64-bit integers.
proof fn lemma_long_list_round_trip(xs: Seq<i64>, rest: Seq<u8>, room: nat)
    requires
        count_fits(xs.len()),
    ensures
        parse_list(payload_bytes(Tree::LongList(xs)) + rest, room) == Ok::<
            (Tree, Seq<u8>),
            DecodeError,
        >((Tree::LongList(xs), rest)),
{
    let body = each_bytes(|x: i64| i64_bytes(x), xs);
    lemma_list_head(Tag::Long, xs.len(), body + rest, room);
    lemma_join_assoc(list_head(Tag::Long, xs.len()), body, rest);
    lemma_i64s_round_trip(xs, rest);
}

/// Decoding undoes the encoding of a list of single-precision bit patterns.
proof fn lemma_float_list_round_trip(xs: Seq<u32>, rest: Seq<u8>, room: nat)
    requires
        count_fits(xs.len()),
    ensures
        parse_list(payload_bytes(Tree::FloatList(xs)) + rest, room) == Ok::<
            (Tree, Seq<u8>),
            DecodeError,
        >((Tree::FloatList(xs), rest)),
{
    let body = each_bytes(|x: u32| float_bytes(x), xs);
    lemma_list_head(Tag::Float, xs.len(), body + rest, room);
    lemma_join_assoc(list_head(Tag::Float, xs.len()), body, rest);
    lemma_floats_round_trip(xs, rest);
}

/// Decoding undoes the encoding of a list of double-precision bit patterns.
proof fn lemma_double_list_round_trip(xs: Seq<u64>, rest: Seq<u8>, room: nat)
    requires
        count_fits(xs.len()),
    ensures
        parse_list(payload_bytes(Tree::DoubleList(xs)) + rest, room) == Ok::<
            (Tree, Seq<u8>),
            DecodeError,
        >((Tree::DoubleList(xs), rest)),
{
    let body = each_bytes(|x: u64| double_bytes(x), xs);
    lemma_list_head(Tag::Double, xs.len(), body + rest, room);
    lemma_join_assoc(list_head(Tag::Double, xs.len()), body, rest);
    lemma_doubles_round_trip(xs, rest);
}

/// Decoding undoes the encoding of a list of arrays of signed bytes.
proof fn lemma_byte_array_list_round_trip(xs: Seq<Seq<i8>>, rest: Seq<u8>, room: nat)
    requires
        count_fits(xs.len()),
        forall|i: int| 0 <= i < xs.len() ==> count_fits(#[trigger] xs[i].len()),
    ensures
        parse_list(payload_bytes(Tree::ByteArrayList(xs)) + rest, room) == Ok::<
            (Tree, Seq<u8>),
            DecodeError,
        >((Tree::ByteArrayList(xs), rest)),
{
    let body = each_bytes(|x: Seq<i8>| byte_array_bytes(x), xs);
    lemma_list_head(Tag::ByteArray, xs.len(), body + rest, room);
    lemma_join_assoc(list_head(Tag::ByteArray, xs.len()), body, rest);
    lemma_byte_arrays_round_trip(xs, rest);
}

/// Decoding undoes the encoding of a list of texts.
proof fn lemma_str_list_round_trip(xs: Seq<Seq<char>>, rest: Seq<u8>, room: nat)
    requires
        count_fits(xs.len()),
        forall|i: int| 0 <= i < xs.len() ==> text_fits(#[trigger] xs[i]),
    ensures
        parse_list(payload_bytes(Tree::StrList(xs)) + rest, room) == Ok::<
            (Tree, Seq<u8>),
            DecodeError,
        >((Tree::StrList(xs), rest)),
{
    let body = each_bytes(|x: Seq<char>| text_bytes(x), xs);
    lemma_list_head(Tag::Str, xs.len(), body + rest, room);
    lemma_join_assoc(list_head(Tag::Str, xs.len()), body, rest);
    lemma_texts_round_trip(xs, rest);
}

/// Decoding undoes the encoding of a list of arrays of signed 32-bit integers.
proof fn lemma_int_array_list_round_trip(xs: Seq<Seq<i32>>, rest: Seq<u8>, room: nat)
    requires
        count_fits(xs.len()),
        forall|i: int| 0 <= i < xs.len() ==> count_fits(#[trigger] xs[i].len()),
    ensures
        parse_list(payload_bytes(Tree::IntArrayList(xs)) + rest, room) == Ok::<
            (Tree, Seq<u8>),
            DecodeError,
        >((Tree::IntArrayList(xs), rest)),
{
    let body = each_bytes(|x: Seq<i32>| int_array_bytes(x), xs);
    lemma_list_head(Tag::IntArray, xs.len(), body + rest, room);
    lemma_join_assoc(list_head(Tag::IntArray, xs.len()), body, rest);
    lemma_int_arrays_round_trip(xs, rest);
}

/// Decoding undoes the encoding of a list of arrays of signed 64-bit integers.
proof fn lemma_long_array_list_round_trip(xs: Seq<Seq<i64>>, rest: Seq<u8>, room: nat)
    requires
        count_fits(xs.len()),
        forall|i: int| 0 <= i < xs.len() ==> count_fits(#[trigger] xs[i].len()),
    ensures
        parse_list(payload_bytes(Tree::LongArrayList(xs)) + rest, room) == Ok::<
            (Tree, Seq<u8>),
            DecodeError,
        >((Tree::LongArrayList(xs), rest)),
{
    let body = each_bytes(|x: Seq<i64>| long_array_bytes(x), xs);
    lemma_list_head(Tag::LongArray, xs.len(), body + rest, room);
    lemma_join_assoc(list_head(Tag::LongArray, xs.len()), body, rest);
    lemma_long_arrays_round_trip(xs, rest);
}

/// Decoding undoes the encoding of a list of lists.
proof fn lemma_list_list_round_trip(ts: Seq<Tree>, rest: Seq<u8>, room: nat)
    requires
        count_fits(ts.len()),
        forall|i: int| 0 <= i < ts.len() ==> is_list(#[trigger] ts[i]) && encodable(ts[i]),
        lists_within(ts, room),
    ensures
        parse_list(payload_bytes(Tree::ListList(ts)) + rest, room) == Ok::<
            (Tree, Seq<u8>),
            DecodeError,
        >((Tree::ListList(ts), rest)),
    decreases ts, 1nat,
{
    let body = lists_bytes(ts);
    lemma_list_head(Tag::List, ts.len(), body + rest, room);
    lemma_join_assoc(list_head(Tag::List, ts.len()), body, rest);
    lemma_lists_round_trip(ts, rest, room);
}

/// Decoding undoes the encoding of a list of records.
proof fn lemma_compound_list_round_trip(ms: Seq<Record>, rest: Seq<u8>, room: nat)
    requires
        count_fits(ms.len()),
        forall|i: int| 0 <= i < ms.len() ==> record_encodable(#[trigger] ms[i]),
        records_within(ms, room),
    ensures
        parse_list(payload_bytes(Tree::CompoundList(ms)) + rest, room) == Ok::<
            (Tree, Seq<u8>),
            DecodeError,
        >((Tree::CompoundList(ms), rest)),
    decreases ms, 1nat,
{
    let body = records_bytes(ms);
    lemma_list_head(Tag::Compound, ms.len(), body + rest, room);
    lemma_join_assoc(list_head(Tag::Compound, ms.len()), body, rest);
    lemma_records_round_trip(ms, rest, room);
}

/// Decoding undoes the encoding of the list of nothing.
proof fn lemma_end_list_round_trip(rest: Seq<u8>, room: nat)
    ensures
        parse_list(payload_bytes(Tree::EndList) + rest, room) == Ok::<
            (Tree, Seq<u8>),
            DecodeError,
        >((Tree::EndList, rest)),
{
    lemma_list_head(Tag::End, 0, rest, room);
}

/// Decoding undoes the encoding of the empty list of any kind.
proof fn lemma_empty_byte_list_round_trip(rest: Seq<u8>, room: nat)
    ensures
        parse_list(payload_bytes(Tree::EmptyByteList) + rest, room) == Ok::<
            (Tree, Seq<u8>),
            DecodeError,
        >((Tree::EmptyByteList, rest)),
{
    lemma_list_head(Tag::Byte, 0, rest, room);
}

/// Decoding undoes encoding: the payload of a node that the encoder can write, read under
/// the node's tag with room for the levels to which the node nests, gives the node back
/// and leaves what follows the payload.
pub proof fn lemma_round_trip(t: Tree, rest: Seq<u8>, room: nat)
    requires
        encodable(t),
        within(t, room),
    ensures
        parse_payload(tag_of(t), payload_bytes(t) + rest, room) == Ok::<
            (Tree, Seq<u8>),
            DecodeError,
        >((t, rest)),
    decreases t, 2nat,
{
    let below = (room - 1) as nat;
    match t {
        Tree::Byte(x) => lemma_i8_round_trip(x, rest),
        Tree::Short(x) => lemma_i16_round_trip(x, rest),
        Tree::Int(x) => lemma_i32_round_trip(x, rest),
        Tree::Long(x) => lemma_i64_round_trip(x, rest),
        Tree::Float(x) => lemma_float_round_trip(x, rest),
        Tree::Double(x) => lemma_double_round_trip(x, rest),
        Tree::ByteArray(xs) => lemma_byte_array_round_trip(xs, rest),
        Tree::Str(text) => lemma_text_round_trip(text, rest),
        Tree::Compound(fields) => lemma_record_round_trip(fields, rest, below),
        Tree::IntArray(xs) => lemma_int_array_round_trip(xs, rest),
        Tree::LongArray(xs) => lemma_long_array_round_trip(xs, rest),
        Tree::EndList => lemma_end_list_round_trip(rest, below),
        Tree::EmptyByteList => lemma_empty_byte_list_round_trip(rest, below),
        Tree::ByteList(xs) => lemma_byte_list_round_trip(xs, rest, below),
        Tree::ShortList(xs) => lemma_short_list_round_trip(xs, rest, below),
        Tree::IntList(xs) => lemma_int_list_round_trip(xs, rest, below),
        Tree::LongList(xs) => lemma_long_list_round_trip(xs, rest, below),
        Tree::FloatList(xs) => lemma_float_list_round_trip(xs, rest, below),
        Tree::DoubleList(xs) => lemma_double_list_round_trip(xs, rest, below),
        Tree::ByteArrayList(xs) => lemma_byte_array_list_round_trip(xs, rest, below),
        Tree::StrList(xs) => lemma_str_list_round_trip(xs, rest, below),
        Tree::ListList(ts) => lemma_list_list_round_trip(ts, rest, below),
        Tree::CompoundList(ms) => lemma_compound_list_round_trip(ms, rest, below),
        Tree::IntArrayList(xs) => lemma_int_array_list_round_trip(xs, rest, below),
        Tree::LongArrayList(xs) => lemma_long_array_list_round_trip(xs, rest, below),
    }
}

/// Decoding undoes the encoding of list payloads written back to back.
proof fn lemma_lists_round_trip(ts: Seq<Tree>, rest: Seq<u8>, room: nat)
    requires
        forall|i: int| 0 <= i < ts.len() ==> is_list(#[trigger] ts[i]) && encodable(ts[i]),
        lists_within(ts, room),
    ensures
        parse_lists(lists_bytes(ts) + rest, ts.len(), room) == Ok::<
            (Seq<Tree>, Seq<u8>),
            DecodeError,
        >((ts, rest)),
    decreases ts, 0nat,
{
    reveal_with_fuel(parse_lists, 2);
    if ts.len() == 0 {
        lemma_join_nothing(rest);
        assert(ts =~= Seq::<Tree>::empty());
    } else {
        let tail = ts.drop_first();
        let after = lists_bytes(tail) + rest;
        lemma_join_assoc(payload_bytes(ts[0]), lists_bytes(tail), rest);
        assert(within(ts[0], room));
        lemma_round_trip(ts[0], after, room);
        assert(parse_list(payload_bytes(ts[0]) + after, (room - 1) as nat) == parse_payload(
            Tag::List,
            payload_bytes(ts[0]) + after,
            room,
        ));
        assert forall|i: int| 0 <= i < tail.len() implies is_list(#[trigger] tail[i])
            && encodable(tail[i]) && list_within(tail[i], (room - 1) as nat) by {
            assert(tail[i] == ts[i + 1]);
        }
        lemma_lists_round_trip(tail, rest, room);
        lemma_first_and_others(ts);
    }
}

/// Decoding undoes the encoding of record payloads written back to back.
proof fn lemma_records_round_trip(ms: Seq<Record>, rest: Seq<u8>, room: nat)
    requires
        forall|i: int| 0 <= i < ms.len() ==> record_encodable(#[trigger] ms[i]),
        records_within(ms, room),
    ensures
        parse_records(records_bytes(ms) + rest, ms.len(), room) == Ok::<
            (Seq<Record>, Seq<u8>),
            DecodeError,
        >((ms, rest)),
    decreases ms, 0nat,
{
    reveal_with_fuel(parse_records, 2);
    if ms.len() == 0 {
        lemma_join_nothing(rest);
        assert(ms =~= Seq::<Record>::empty());
    } else {
        let tail = ms.drop_first();
        let after = records_bytes(tail) + rest;
        lemma_join_assoc(record_bytes(ms[0]), records_bytes(tail), rest);
        lemma_record_round_trip(ms[0], after, (room - 1) as nat);
        assert forall|i: int| 0 <= i < tail.len() implies record_encodable(
            #[trigger] tail[i],
        ) && record_within(tail[i], (room - 1) as nat) by {
            assert(tail[i] == ms[i + 1]);
        }
        lemma_records_round_trip(tail, rest, room);
        lemma_first_and_others(ms);
    }
}

/// Decoding undoes the encoding of a record payload.
proof fn lemma_record_round_trip(fields: Record, rest: Seq<u8>, room: nat)
    requires
        record_encodable(fields),
        record_within(fields, room),
    ensures
        parse_record(record_bytes(fields) + rest, Map::empty(), room) == Ok::<
            (Record, Seq<u8>),
            DecodeError,
        >((fields, rest)),
    decreases fields, fields.dom().to_seq().len() + 1,
{
    let names = fields.dom().to_seq();
    lemma_added_all(fields);
    lemma_fields_round_trip(fields, names, Map::empty(), rest, room);
    lemma_join_assoc(fields_bytes(fields, names), seq![0u8], rest);
}

/// Decoding the listed entries of a record, then the terminator, adds the entries to
/// what was read before.
proof fn lemma_fields_round_trip(
    fields: Record,
    names: Seq<Seq<char>>,
    start: Record,
    rest: Seq<u8>,
    room: nat,
)
    requires
        record_encodable(fields),
        record_within(fields, room),
        forall|i: int| 0 <= i < names.len() ==> fields.contains_key(#[trigger] names[i]),
    ensures
        parse_record(fields_bytes(fields, names) + (seq![0u8] + rest), start, room) == Ok::<
            (Record, Seq<u8>),
            DecodeError,
        >((added(start, fields, names), rest)),
    decreases fields, names.len(),
{
    reveal_with_fuel(parse_record, 2);
    let s = fields_bytes(fields, names) + (seq![0u8] + rest);
    if names.len() == 0 {
        lemma_join_nothing(seq![0u8] + rest);
        lemma_after_first_byte(0u8, rest);
    } else {
        let name = names[0];
        let value = fields[name];
        let tail = names.drop_first();
        let after = fields_bytes(fields, tail) + (seq![0u8] + rest);
        assert(fields.contains_key(name));
        lemma_round_trip(value, after, room);
        lemma_entry_round_trip(name, tag_of(value), payload_bytes(value), value, after, room);
        lemma_join_assoc(
            entry_bytes(name, tag_of(value), payload_bytes(value)),
            fields_bytes(fields, tail),
            seq![0u8] + rest,
        );
        assert forall|i: int| 0 <= i < tail.len() implies fields.contains_key(
            #[trigger] tail[i],
        ) by {
            assert(tail[i] == names[i + 1]);
        }
        lemma_fields_round_trip(fields, tail, start.insert(name, value), rest, room);
    }
}

/// What a tagged entry reads as: its tag byte stands for its tag, and what follows the
/// tag byte gives the name and the value.
pub proof fn lemma_entry_round_trip(
    name: Seq<char>,
    tag: Tag,
    payload: Seq<u8>,
    value: Tree,
    after: Seq<u8>,
    room: nat,
)
    requires
        text_fits(name),
        parse_payload(tag, payload + after, room) == Ok::<(Tree, Seq<u8>), DecodeError>(
            (value, after),
        ),
    ensures
        (entry_bytes(name, tag, payload) + after).len() >= 1,
        tag_of_byte((entry_bytes(name, tag, payload) + after)[0]) == Some(tag),
        parse_entry(tag, (entry_bytes(name, tag, payload) + after).skip(1), room) == Ok::<
            ((Seq<char>, Tree), Seq<u8>),
            DecodeError,
        >(((name, value), after)),
        after.len() < (entry_bytes(name, tag, payload) + after).len(),
{
    let body = payload + after;
    lemma_join_assoc(seq![tag_byte(tag)] + text_bytes(name), payload, after);
    lemma_join_assoc(seq![tag_byte(tag)], text_bytes(name), body);
    lemma_after_first_byte(tag_byte(tag), text_bytes(name) + body);
    lemma_tag_byte_round_trip(tag);
    lemma_text_round_trip(name, body);
    lemma_u16_round_trip(encode_utf8(name).len() as int, encode_utf8(name));
}

/// Decoding the listed entries of a record at the top level, where the stream then ends,
/// adds the entries to what was read before.
proof fn lemma_root_round_trip(
    fields: Record,
    names: Seq<Seq<char>>,
    start: Record,
    room: nat,
)
    requires
        record_encodable(fields),
        record_within(fields, room),
        forall|i: int| 0 <= i < names.len() ==> fields.contains_key(#[trigger] names[i]),
    ensures
        parse_root(fields_bytes(fields, names), start, room) == Ok::<Record, DecodeError>(
            added(start, fields, names),
        ),
    decreases names.len(),
{
    reveal_with_fuel(parse_root, 2);
    let s = fields_bytes(fields, names);
    if names.len() > 0 {
        let name = names[0];
        let value = fields[name];
        let tail = names.drop_first();
        let after = fields_bytes(fields, tail);
        assert(fields.contains_key(name));
        lemma_round_trip(value, after, room);
        lemma_entry_round_trip(name, tag_of(value), payload_bytes(value), value, after, room);
        assert forall|i: int| 0 <= i < tail.len() implies fields.contains_key(
            #[trigger] tail[i],
        ) by {
            assert(tail[i] == names[i + 1]);
        }
        lemma_root_round_trip(fields, tail, start.insert(name, value), room);
    }
}

/// Decoding undoes encoding, for a whole stream: the stream that the encoder writes for
/// a root record decodes to that record, when the decoder may descend as deep as the
/// record nests.
pub proof fn lemma_decode_undoes_encode(fields: Record, max_depth: nat)
    requires
        record_encodable(fields),
        record_within(fields, max_depth),
    ensures
        decoded(root_bytes(fields), max_depth) == Ok::<Tree, DecodeError>(
            Tree::Compound(fields),
        ),
{
    lemma_added_all(fields);
    lemma_root_round_trip(fields, fields.dom().to_seq(), Map::empty(), max_depth);
}

} // verus!
