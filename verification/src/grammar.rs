//! The wire grammar, as mathematical functions from bytes to trees.
//!
//! Every function here takes the bytes that are still unread and says what a
//! reader standing there obtains: the value read together with the bytes left
//! over, or the error on which decoding stops. All multi-byte integers are
//! big-endian; nothing is padded or aligned.
//!
//! Lists and records nest. The functions that read them take the number of levels that
//! they may still descend, and a list or a record that lies deeper stops decoding.
use crate::decode::{DecodeError, Tag};
use crate::value::Tree;
use vstd::prelude::*;
use vstd::utf8::{decode_utf8, valid_utf8};

verus! {

/// What reading yields: a value and the unread rest, or the error that ends decoding.
pub type Parsed<T> = Result<(T, Seq<u8>), DecodeError>;

/// A record in the model.
pub type Record = Map<Seq<char>, Tree>;

/// The tag that a byte stands for; bytes above 12 stand for none.
pub open spec fn tag_of_byte(b: u8) -> Option<Tag> {
    if b == 0 {
        Some(Tag::End)
    } else if b == 1 {
        Some(Tag::Byte)
    } else if b == 2 {
        Some(Tag::Short)
    } else if b == 3 {
        Some(Tag::Int)
    } else if b == 4 {
        Some(Tag::Long)
    } else if b == 5 {
        Some(Tag::Float)
    } else if b == 6 {
        Some(Tag::Double)
    } else if b == 7 {
        Some(Tag::ByteArray)
    } else if b == 8 {
        Some(Tag::Str)
    } else if b == 9 {
        Some(Tag::List)
    } else if b == 10 {
        Some(Tag::Compound)
    } else if b == 11 {
        Some(Tag::IntArray)
    } else if b == 12 {
        Some(Tag::LongArray)
    } else {
        None
    }
}

/// The unsigned number that the first two bytes of `s` spell.
pub open spec fn u16_be(s: Seq<u8>) -> int {
    s[0] as int * 0x100 + s[1] as int
}

/// The unsigned number that the first four bytes of `s` spell.
pub open spec fn u32_be(s: Seq<u8>) -> int {
    u16_be(s) * 0x1_0000 + u16_be(s.skip(2))
}

/// The unsigned number that the first eight bytes of `s` spell.
pub open spec fn u64_be(s: Seq<u8>) -> int {
    u32_be(s) * 0x1_0000_0000 + u32_be(s.skip(4))
}

/// Two's complement: the signed reading of `x`, an unsigned number below `modulus`.
pub open spec fn signed(x: int, modulus: int) -> int {
    if 2 * x >= modulus {
        x - modulus
    } else {
        x
    }
}

/// Cuts the first `n` bytes off `s`; the stream has ended too early if it holds fewer.
pub open spec fn take_bytes(s: Seq<u8>, n: int) -> Parsed<Seq<u8>> {
    if s.len() < n {
        Err(DecodeError::UnexpectedEnd)
    } else {
        Ok((s.take(n), s.skip(n)))
    }
}

/// A signed 8-bit integer: one byte.
pub open spec fn parse_i8(s: Seq<u8>) -> Parsed<i8> {
    match take_bytes(s, 1) {
        Ok((b, rest)) => Ok((signed(b[0] as int, 0x100) as i8, rest)),
        Err(e) => Err(e),
    }
}

/// A signed 16-bit integer: two bytes.
pub open spec fn parse_i16(s: Seq<u8>) -> Parsed<i16> {
    match take_bytes(s, 2) {
        Ok((b, rest)) => Ok((signed(u16_be(b), 0x1_0000) as i16, rest)),
        Err(e) => Err(e),
    }
}

/// A signed 32-bit integer: four bytes.
pub open spec fn parse_i32(s: Seq<u8>) -> Parsed<i32> {
    match take_bytes(s, 4) {
        Ok((b, rest)) => Ok((signed(u32_be(b), 0x1_0000_0000) as i32, rest)),
        Err(e) => Err(e),
    }
}

/// A signed 64-bit integer: eight bytes.
pub open spec fn parse_i64(s: Seq<u8>) -> Parsed<i64> {
    match take_bytes(s, 8) {
        Ok((b, rest)) => Ok((signed(u64_be(b), 0x1_0000_0000_0000_0000) as i64, rest)),
        Err(e) => Err(e),
    }
}

/// The bit pattern of a single-precision number: four bytes.
pub open spec fn parse_float(s: Seq<u8>) -> Parsed<u32> {
    match take_bytes(s, 4) {
        Ok((b, rest)) => Ok((u32_be(b) as u32, rest)),
        Err(e) => Err(e),
    }
}

/// The bit pattern of a double-precision number: eight bytes.
pub open spec fn parse_double(s: Seq<u8>) -> Parsed<u64> {
    match take_bytes(s, 8) {
        Ok((b, rest)) => Ok((u64_be(b) as u64, rest)),
        Err(e) => Err(e),
    }
}

/// A text: an unsigned 16-bit length, then that many bytes, which must be valid UTF-8.
pub open spec fn parse_text(s: Seq<u8>) -> Parsed<Seq<char>> {
    match take_bytes(s, 2) {
        Ok((len, after_len)) => match take_bytes(after_len, u16_be(len)) {
            Ok((bytes, rest)) => if valid_utf8(bytes) {
                Ok((decode_utf8(bytes), rest))
            } else {
                Err(DecodeError::InvalidUTF8)
            },
            Err(e) => Err(e),
        },
        Err(e) => Err(e),
    }
}

/// `n` items read back to back, each by `item`.
pub open spec fn repeat<T>(item: spec_fn(Seq<u8>) -> Parsed<T>, s: Seq<u8>, n: nat) -> Parsed<
    Seq<T>,
>
    decreases n,
{
    if n == 0 {
        Ok((Seq::empty(), s))
    } else {
        match item(s) {
            Ok((first, rest)) => match repeat(item, rest, (n - 1) as nat) {
                Ok((others, end)) => Ok((seq![first] + others, end)),
                Err(e) => Err(e),
            },
            Err(e) => Err(e),
        }
    }
}

/// How many items a signed count announces: a negative count announces none.
pub open spec fn announced(count: i32) -> nat {
    if count > 0 {
        count as nat
    } else {
        0
    }
}

/// An array: a signed 32-bit count, then that many items, each read by `item`.
pub open spec fn parse_array<T>(item: spec_fn(Seq<u8>) -> Parsed<T>, s: Seq<u8>) -> Parsed<
    Seq<T>,
> {
    match parse_i32(s) {
        Ok((count, rest)) => repeat(item, rest, announced(count)),
        Err(e) => Err(e),
    }
}

/// An array of signed bytes.
pub open spec fn parse_byte_array(s: Seq<u8>) -> Parsed<Seq<i8>> {
    parse_array(|r: Seq<u8>| parse_i8(r), s)
}

/// An array of signed 32-bit integers.
pub open spec fn parse_int_array(s: Seq<u8>) -> Parsed<Seq<i32>> {
    parse_array(|r: Seq<u8>| parse_i32(r), s)
}

/// An array of signed 64-bit integers.
pub open spec fn parse_long_array(s: Seq<u8>) -> Parsed<Seq<i64>> {
    parse_array(|r: Seq<u8>| parse_i64(r), s)
}

/// The value of `p` wrapped by `wrap`; the rest and the error pass unchanged.
pub open spec fn wrapped<A, B>(p: Parsed<A>, wrap: spec_fn(A) -> B) -> Parsed<B> {
    match p {
        Ok((a, rest)) => Ok((wrap(a), rest)),
        Err(e) => Err(e),
    }
}

/// The payload that follows a tag (and, inside a record, a name), where lists and
/// records may nest `room` levels deep from here on: the payload itself, if it is a list
/// or a record, takes one of these levels.
///
/// The terminator has no payload: asking for one is answered like an unknown tag.
pub open spec fn parse_payload(tag: Tag, s: Seq<u8>, room: nat) -> Parsed<Tree>
    decreases s.len(), 0nat, 1nat,
{
    match tag {
        Tag::End => Err(DecodeError::UnknownTag(0)),
        Tag::Byte => wrapped(parse_i8(s), |x: i8| Tree::Byte(x)),
        Tag::Short => wrapped(parse_i16(s), |x: i16| Tree::Short(x)),
        Tag::Int => wrapped(parse_i32(s), |x: i32| Tree::Int(x)),
        Tag::Long => wrapped(parse_i64(s), |x: i64| Tree::Long(x)),
        Tag::Float => wrapped(parse_float(s), |x: u32| Tree::Float(x)),
        Tag::Double => wrapped(parse_double(s), |x: u64| Tree::Double(x)),
        Tag::ByteArray => wrapped(parse_byte_array(s), |x: Seq<i8>| Tree::ByteArray(x)),
        Tag::Str => wrapped(parse_text(s), |x: Seq<char>| Tree::Str(x)),
        Tag::List => if room == 0 {
            Err(DecodeError::TooDeep)
        } else {
            parse_list(s, (room - 1) as nat)
        },
        Tag::Compound => if room == 0 {
            Err(DecodeError::TooDeep)
        } else {
            wrapped(
                parse_record(s, Map::empty(), (room - 1) as nat),
                |x: Record| Tree::Compound(x),
            )
        },
        Tag::IntArray => wrapped(parse_int_array(s), |x: Seq<i32>| Tree::IntArray(x)),
        Tag::LongArray => wrapped(parse_long_array(s), |x: Seq<i64>| Tree::LongArray(x)),
    }
}

/// A list payload: the element tag, a signed 32-bit count, then the elements, unnamed.
/// Lists and records may nest `room` levels deep inside the list.
pub open spec fn parse_list(s: Seq<u8>, room: nat) -> Parsed<Tree>
    decreases s.len(), 0nat, 0nat,
{
    if s.len() < 1 {
        Err(DecodeError::UnexpectedEnd)
    } else {
        match tag_of_byte(s[0]) {
            None => Err(DecodeError::UnknownTag(s[0])),
            Some(element) => match parse_i32(s.skip(1)) {
                Ok((count, body)) => parse_elements(element, count, body, room),
                Err(e) => Err(e),
            },
        }
    }
}

/// The elements of a list, after its element tag and its count.
///
/// An element tag that is the terminator gives the list of nothing whatever the count,
/// and no element is read; the byte tag with a count of exactly zero gives the empty
/// list of any kind. A negative count announces no element.
pub open spec fn parse_elements(element: Tag, count: i32, s: Seq<u8>, room: nat) -> Parsed<
    Tree,
>
    decreases s.len(), 1nat, 0nat,
{
    let n = announced(count);
    match element {
        Tag::End => Ok((Tree::EndList, s)),
        Tag::Byte => if count == 0 {
            Ok((Tree::EmptyByteList, s))
        } else {
            wrapped(repeat(|r: Seq<u8>| parse_i8(r), s, n), |x: Seq<i8>| Tree::ByteList(x))
        },
        Tag::Short => wrapped(
            repeat(|r: Seq<u8>| parse_i16(r), s, n),
            |x: Seq<i16>| Tree::ShortList(x),
        ),
        Tag::Int => wrapped(
            repeat(|r: Seq<u8>| parse_i32(r), s, n),
            |x: Seq<i32>| Tree::IntList(x),
        ),
        Tag::Long => wrapped(
            repeat(|r: Seq<u8>| parse_i64(r), s, n),
            |x: Seq<i64>| Tree::LongList(x),
        ),
        Tag::Float => wrapped(
            repeat(|r: Seq<u8>| parse_float(r), s, n),
            |x: Seq<u32>| Tree::FloatList(x),
        ),
        Tag::Double => wrapped(
            repeat(|r: Seq<u8>| parse_double(r), s, n),
            |x: Seq<u64>| Tree::DoubleList(x),
        ),
        Tag::ByteArray => wrapped(
            repeat(|r: Seq<u8>| parse_byte_array(r), s, n),
            |x: Seq<Seq<i8>>| Tree::ByteArrayList(x),
        ),
        Tag::Str => wrapped(
            repeat(|r: Seq<u8>| parse_text(r), s, n),
            |x: Seq<Seq<char>>| Tree::StrList(x),
        ),
        Tag::List => wrapped(parse_lists(s, n, room), |x: Seq<Tree>| Tree::ListList(x)),
        Tag::Compound => wrapped(
            parse_records(s, n, room),
            |x: Seq<Record>| Tree::CompoundList(x),
        ),
        Tag::IntArray => wrapped(
            repeat(|r: Seq<u8>| parse_int_array(r), s, n),
            |x: Seq<Seq<i32>>| Tree::IntArrayList(x),
        ),
        Tag::LongArray => wrapped(
            repeat(|r: Seq<u8>| parse_long_array(r), s, n),
            |x: Seq<Seq<i64>>| Tree::LongArrayList(x),
        ),
    }
}

/// `n` list payloads back to back, each of which takes one of the `room` levels that
/// are left.
///
/// A reader never leaves more bytes than it was given
/// ([`crate::truncation::lemma_readers_consume`]); the test for that is here so that the
/// definition is well-founded.
pub open spec fn parse_lists(s: Seq<u8>, n: nat, room: nat) -> Parsed<Seq<Tree>>
    decreases s.len(), 0nat, n + 1,
{
    if n == 0 {
        Ok((Seq::empty(), s))
    } else if room == 0 {
        Err(DecodeError::TooDeep)
    } else {
        match parse_list(s, (room - 1) as nat) {
            Ok((first, rest)) => if rest.len() <= s.len() {
                match parse_lists(rest, (n - 1) as nat, room) {
                    Ok((others, end)) => Ok((seq![first] + others, end)),
                    Err(e) => Err(e),
                }
            } else {
                Err(DecodeError::UnexpectedEnd)
            },
            Err(e) => Err(e),
        }
    }
}

/// `n` record payloads back to back, each of which takes one of the `room` levels that
/// are left.
///
/// The test on the rest's length is there for the same reason as in [`parse_lists`].
pub open spec fn parse_records(s: Seq<u8>, n: nat, room: nat) -> Parsed<Seq<Record>>
    decreases s.len(), 0nat, n + 1,
{
    if n == 0 {
        Ok((Seq::empty(), s))
    } else if room == 0 {
        Err(DecodeError::TooDeep)
    } else {
        match parse_record(s, Map::empty(), (room - 1) as nat) {
            Ok((first, rest)) => if rest.len() <= s.len() {
                match parse_records(rest, (n - 1) as nat, room) {
                    Ok((others, end)) => Ok((seq![first] + others, end)),
                    Err(e) => Err(e),
                }
            } else {
                Err(DecodeError::UnexpectedEnd)
            },
            Err(e) => Err(e),
        }
    }
}

/// What follows the tag byte of a tagged entry: the name, then the payload.
pub open spec fn parse_entry(tag: Tag, s: Seq<u8>, room: nat) -> Parsed<(Seq<char>, Tree)>
    decreases s.len(), 0nat, 2nat,
{
    match parse_text(s) {
        Ok((name, after_name)) => match parse_payload(tag, after_name, room) {
            Ok((value, rest)) => Ok(((name, value), rest)),
            Err(e) => Err(e),
        },
        Err(e) => Err(e),
    }
}

/// A record payload: tagged entries up to the terminator, added to `fields` in the order
/// read, so that of two entries with one name the later one stays.
///
/// The stream may not end before the terminator. Lists and records may nest `room`
/// levels deep inside the record. The test on the rest's length is there for the same
/// reason as in [`parse_lists`].
pub open spec fn parse_record(s: Seq<u8>, fields: Record, room: nat) -> Parsed<Record>
    decreases s.len(), 0nat, 0nat,
{
    if s.len() < 1 {
        Err(DecodeError::UnexpectedEnd)
    } else {
        match tag_of_byte(s[0]) {
            None => Err(DecodeError::UnknownTag(s[0])),
            Some(Tag::End) => Ok((fields, s.skip(1))),
            Some(tag) => match parse_entry(tag, s.skip(1), room) {
                Ok(((name, value), rest)) => if rest.len() < s.len() {
                    parse_record(rest, fields.insert(name, value), room)
                } else {
                    Err(DecodeError::UnexpectedEnd)
                },
                Err(e) => Err(e),
            },
        }
    }
}

/// The top level: tagged entries until the stream ends, gathered into one record.
///
/// Here the end of the stream before a tag byte is the regular end, and a terminator is
/// an entry without name and payload that adds nothing. Lists and records may nest
/// `room` levels deep below the top level.
pub open spec fn parse_root(s: Seq<u8>, fields: Record, room: nat) -> Result<
    Record,
    DecodeError,
>
    decreases s.len(),
{
    if s.len() < 1 {
        Ok(fields)
    } else {
        match tag_of_byte(s[0]) {
            None => Err(DecodeError::UnknownTag(s[0])),
            Some(Tag::End) => parse_root(s.skip(1), fields, room),
            Some(tag) => match parse_entry(tag, s.skip(1), room) {
                Ok(((name, value), rest)) => if rest.len() < s.len() {
                    parse_root(rest, fields.insert(name, value), room)
                } else {
                    Err(DecodeError::UnexpectedEnd)
                },
                Err(e) => Err(e),
            },
        }
    }
}

/// What a whole stream decodes to when lists and records may nest `max_depth` levels
/// deep below the root record: the root record, or the first error met.
pub open spec fn decoded(s: Seq<u8>, max_depth: nat) -> Result<Tree, DecodeError> {
    match parse_root(s, Map::empty(), max_depth) {
        Ok(fields) => Ok(Tree::Compound(fields)),
        Err(e) => Err(e),
    }
}

} // verus!
