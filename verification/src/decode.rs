//! The decoder: from bytes to a tree.
//!
//! The decoder reads the stream once, front to back, and looks no further ahead than
//! the tag byte that tells it what follows. Each of its steps is held to the function
//! of [`crate::grammar`] that says what the step reads.
use crate::grammar::{
    announced, decoded, parse_byte_array, parse_double, parse_elements, parse_entry,
    parse_float, parse_i16, parse_i32, parse_i64, parse_i8, parse_int_array, parse_list,
    parse_lists, parse_long_array, parse_payload, parse_record, parse_records, parse_root,
    parse_text, repeat, tag_of_byte, take_bytes, u16_be, u32_be, u64_be, Parsed, Record,
};
use crate::text::text_of_bytes;
use crate::value::{
    lemma_records_of_push, lemma_trees_of_push, records_of, seqs_of, texts_of, trees_of,
    Compound, Tree, Value,
};
use vstd::prelude::*;
use vstd::slice::{slice_subrange, slice_to_vec};

verus! {

/// Why decoding stopped.
#[derive(Debug, Clone, Copy, PartialEq, Eq)]
pub enum DecodeError {
    /// The stream ended inside a structure that needed more bytes.
    UnexpectedEnd,
    /// The bytes of a name or of a string are not valid UTF-8.
    InvalidUTF8,
    /// A tag byte outside the known range; the byte is kept.
    UnknownTag(u8),
    /// Lists and records nest deeper than the decoder was allowed to descend.
    TooDeep,
}

/// How deep lists and records may nest below the root record, unless the caller says
/// otherwise.
pub const MAX_DEPTH: usize = 512;

/// The kind of payload that a tag byte announces.
#[derive(Debug, Clone, Copy, PartialEq, Eq)]
pub enum Tag {
    End,
    Byte,
    Short,
    Int,
    Long,
    Float,
    Double,
    ByteArray,
    Str,
    List,
    Compound,
    IntArray,
    LongArray,
}

impl Tag {
    /// The tag that the byte `b` stands for.
    pub fn from_byte(b: u8) -> (r: Result<Tag, DecodeError>)
        ensures
            match tag_of_byte(b) {
                Some(tag) => r == Ok::<Tag, DecodeError>(tag),
                None => r == Err::<Tag, DecodeError>(DecodeError::UnknownTag(b)),
            },
    {
        match b {
            0 => Ok(Tag::End),
            1 => Ok(Tag::Byte),
            2 => Ok(Tag::Short),
            3 => Ok(Tag::Int),
            4 => Ok(Tag::Long),
            5 => Ok(Tag::Float),
            6 => Ok(Tag::Double),
            7 => Ok(Tag::ByteArray),
            8 => Ok(Tag::Str),
            9 => Ok(Tag::List),
            10 => Ok(Tag::Compound),
            11 => Ok(Tag::IntArray),
            12 => Ok(Tag::LongArray),
            _ => Err(DecodeError::UnknownTag(b)),
        }
    }
}

/// What a read did: `r` is the value that the grammar gives (`p`), and `after` the rest
/// that it leaves; or `r` is the error that the grammar gives.
spec fn reads<T>(r: Result<T, DecodeError>, after: Seq<u8>, p: Parsed<T>) -> bool {
    match p {
        Ok((value, rest)) => r == Ok::<T, DecodeError>(value) && after == rest,
        Err(e) => r == Err::<T, DecodeError>(e),
    }
}

/// As [`reads`], for a value that is compared by its view.
spec fn reads_view<T: View>(
    r: Result<T, DecodeError>,
    after: Seq<u8>,
    p: Parsed<T::V>,
) -> bool {
    match p {
        Ok((value, rest)) => r is Ok && r->Ok_0@ == value && after == rest,
        Err(e) => r == Err::<T, DecodeError>(e),
    }
}

/// Midway through reading `n` items from `start`: the items read so far are `done`, the
/// reader stands at `now`, and `k` items are still to be read.
spec fn partway<T>(
    item: spec_fn(Seq<u8>) -> Parsed<T>,
    start: Seq<u8>,
    n: nat,
    done: Seq<T>,
    now: Seq<u8>,
    k: nat,
) -> bool {
    match repeat(item, now, k) {
        Ok((more, end)) => repeat(item, start, n) == Ok::<(Seq<T>, Seq<u8>), DecodeError>(
            (done + more, end),
        ),
        Err(e) => repeat(item, start, n) == Err::<(Seq<T>, Seq<u8>), DecodeError>(e),
    }
}

/// Before the first item is read, nothing is done and all is still to be read.
proof fn lemma_partway_begin<T>(item: spec_fn(Seq<u8>) -> Parsed<T>, start: Seq<u8>, n: nat)
    ensures
        partway(item, start, n, Seq::<T>::empty(), start, n),
{
    match repeat(item, start, n) {
        Ok((more, end)) => {
            assert(Seq::<T>::empty() + more =~= more);
        },
        Err(e) => {},
    }
}

/// Reading one item more: it joins the items that are done, or its error is the error
/// of the whole.
proof fn lemma_partway_step<T>(
    item: spec_fn(Seq<u8>) -> Parsed<T>,
    start: Seq<u8>,
    n: nat,
    done: Seq<T>,
    now: Seq<u8>,
    k: nat,
)
    requires
        partway(item, start, n, done, now, k),
        k > 0,
    ensures
        match item(now) {
            Ok((x, rest)) => partway(item, start, n, done.push(x), rest, (k - 1) as nat),
            Err(e) => repeat(item, start, n) == Err::<(Seq<T>, Seq<u8>), DecodeError>(e),
        },
{
    match item(now) {
        Ok((x, rest)) => {
            match repeat(item, rest, (k - 1) as nat) {
                Ok((more, end)) => {
                    assert(done + (seq![x] + more) =~= done.push(x) + more);
                },
                Err(e) => {},
            }
        },
        Err(e) => {},
    }
}

/// When nothing is left to be read, the items that are done are what the whole gives.
proof fn lemma_partway_end<T>(
    item: spec_fn(Seq<u8>) -> Parsed<T>,
    start: Seq<u8>,
    n: nat,
    done: Seq<T>,
    now: Seq<u8>,
)
    requires
        partway(item, start, n, done, now, 0),
    ensures
        repeat(item, start, n) == Ok::<(Seq<T>, Seq<u8>), DecodeError>((done, now)),
{
    assert(done + Seq::<T>::empty() =~= done);
}

/// As [`reads`], for a value that is compared by its `model`.
spec fn reads_as<T, M>(
    r: Result<T, DecodeError>,
    model: spec_fn(T) -> M,
    after: Seq<u8>,
    p: Parsed<M>,
) -> bool {
    match p {
        Ok((value, rest)) => r is Ok && model(r->Ok_0) == value && after == rest,
        Err(e) => r == Err::<T, DecodeError>(e),
    }
}

/// A reader over a stream of bytes that was read into memory.
pub struct Parser<'a> {
    data: &'a [u8],
    pos: usize,
    max_depth: usize,
}

impl<'a> Parser<'a> {
    /// The reader stands inside its data, or at their end.
    #[verifier::type_invariant]
    spec fn position_in_range(&self) -> bool {
        self.pos <= self.data@.len()
    }

    /// The bytes that have not been read yet.
    pub closed spec fn remaining(&self) -> Seq<u8> {
        self.data@.skip(self.pos as int)
    }

    /// How deep lists and records may nest below the root record.
    pub closed spec fn max_depth(&self) -> nat {
        self.max_depth as nat
    }

    /// The reader `self` is `before` after it has read on: the same data, no further back,
    /// the same bound on the depth.
    spec fn follows(&self, before: &Parser<'a>) -> bool {
        self.data == before.data && self.pos >= before.pos && self.max_depth
            == before.max_depth
    }

    /// A reader that stands at the start of `data` and descends [`MAX_DEPTH`] levels.
    pub fn new(data: &'a [u8]) -> (p: Parser<'a>)
        ensures
            p.remaining() == data@,
            p.max_depth() == MAX_DEPTH,
    {
        Parser::with_max_depth(data, MAX_DEPTH)
    }

    /// A reader that stands at the start of `data` and descends `max_depth` levels.
    pub fn with_max_depth(data: &'a [u8], max_depth: usize) -> (p: Parser<'a>)
        ensures
            p.remaining() == data@,
            p.max_depth() == max_depth,
    {
        assert(data@.skip(0) =~= data@);
        Parser { data, pos: 0, max_depth }
    }

    /// Reads `n` bytes and returns where in the data they start.
    fn take(&mut self, n: usize) -> (r: Result<usize, DecodeError>)
        ensures
            final(self).follows(old(self)),
            final(self).pos <= final(self).data@.len(),
            match take_bytes(old(self).remaining(), n as int) {
                Ok((bytes, rest)) => {
                    &&& r == Ok::<usize, DecodeError>(old(self).pos)
                    &&& final(self).pos == old(self).pos + n
                    &&& final(self).remaining() == rest
                    &&& bytes == old(self).data@.subrange(old(self).pos as int, old(self).pos + n)
                },
                Err(e) => r == Err::<usize, DecodeError>(e),
            },
    {
        proof {
            use_type_invariant(&*self);
        }
        if self.data.len() - self.pos < n {
            return Err(DecodeError::UnexpectedEnd);
        }
        let start = self.pos;
        self.pos = start + n;
        proof {
            let s = self.data@.skip(start as int);
            assert(s.take(n as int) =~= self.data@.subrange(start as int, start + n));
            assert(s.skip(n as int) =~= self.data@.skip(start + n));
        }
        Ok(start)
    }

    /// Reads one byte.
    fn read_u8(&mut self) -> (r: Result<u8, DecodeError>)
        ensures
            final(self).follows(old(self)),
            match take_bytes(old(self).remaining(), 1) {
                Ok((bytes, rest)) => {
                    &&& r == Ok::<u8, DecodeError>(bytes[0])
                    &&& final(self).remaining() == rest
                    &&& final(self).pos > old(self).pos
                },
                Err(e) => r == Err::<u8, DecodeError>(e),
            },
    {
        match self.take(1) {
            Ok(at) => Ok(self.data[at]),
            Err(e) => Err(e),
        }
    }

    /// Reads an unsigned 16-bit number.
    fn read_u16(&mut self) -> (r: Result<u16, DecodeError>)
        ensures
            final(self).follows(old(self)),
            match take_bytes(old(self).remaining(), 2) {
                Ok((bytes, rest)) => {
                    &&& r == Ok::<u16, DecodeError>(u16_be(bytes) as u16)
                    &&& final(self).remaining() == rest
                    &&& final(self).pos > old(self).pos
                },
                Err(e) => r == Err::<u16, DecodeError>(e),
            },
    {
        match self.take(2) {
            Ok(at) => {
                let hi = self.data[at] as u16;
                let lo = self.data[at + 1] as u16;
                Ok(hi * 0x100 + lo)
            },
            Err(e) => Err(e),
        }
    }

    /// Reads an unsigned 32-bit number.
    fn read_u32(&mut self) -> (r: Result<u32, DecodeError>)
        ensures
            final(self).follows(old(self)),
            match take_bytes(old(self).remaining(), 4) {
                Ok((bytes, rest)) => {
                    &&& r == Ok::<u32, DecodeError>(u32_be(bytes) as u32)
                    &&& final(self).remaining() == rest
                    &&& final(self).pos > old(self).pos
                },
                Err(e) => r == Err::<u32, DecodeError>(e),
            },
    {
        match self.take(4) {
            Ok(at) => {
                let b0 = self.data[at] as u32;
                let b1 = self.data[at + 1] as u32;
                let b2 = self.data[at + 2] as u32;
                let b3 = self.data[at + 3] as u32;
                Ok((b0 * 0x100 + b1) * 0x1_0000 + (b2 * 0x100 + b3))
            },
            Err(e) => Err(e),
        }
    }

    /// Reads an unsigned 64-bit number.
    fn read_u64(&mut self) -> (r: Result<u64, DecodeError>)
        ensures
            final(self).follows(old(self)),
            match take_bytes(old(self).remaining(), 8) {
                Ok((bytes, rest)) => {
                    &&& r == Ok::<u64, DecodeError>(u64_be(bytes) as u64)
                    &&& final(self).remaining() == rest
                    &&& final(self).pos > old(self).pos
                },
                Err(e) => r == Err::<u64, DecodeError>(e),
            },
    {
        match self.take(8) {
            Ok(at) => {
                let b0 = self.data[at] as u64;
                let b1 = self.data[at + 1] as u64;
                let b2 = self.data[at + 2] as u64;
                let b3 = self.data[at + 3] as u64;
                let b4 = self.data[at + 4] as u64;
                let b5 = self.data[at + 5] as u64;
                let b6 = self.data[at + 6] as u64;
                let b7 = self.data[at + 7] as u64;
                let hi: u64 = (b0 * 0x100 + b1) * 0x1_0000 + (b2 * 0x100 + b3);
                let lo: u64 = (b4 * 0x100 + b5) * 0x1_0000 + (b6 * 0x100 + b7);
                Ok(hi * 0x1_0000_0000 + lo)
            },
            Err(e) => Err(e),
        }
    }

    /// Reads a signed 8-bit integer.
    fn read_i8(&mut self) -> (r: Result<i8, DecodeError>)
        ensures
            final(self).follows(old(self)),
            reads(r, final(self).remaining(), parse_i8(old(self).remaining())),
    {
        match self.read_u8() {
            Ok(x) => Ok(
                if x >= 0x80 {
                    (x as i16 - 0x100) as i8
                } else {
                    x as i8
                },
            ),
            Err(e) => Err(e),
        }
    }

    /// Reads a signed 16-bit integer.
    fn read_i16(&mut self) -> (r: Result<i16, DecodeError>)
        ensures
            final(self).follows(old(self)),
            reads(r, final(self).remaining(), parse_i16(old(self).remaining())),
    {
        match self.read_u16() {
            Ok(x) => Ok(
                if x >= 0x8000 {
                    (x as i32 - 0x1_0000) as i16
                } else {
                    x as i16
                },
            ),
            Err(e) => Err(e),
        }
    }

    /// Reads a signed 32-bit integer.
    fn read_i32(&mut self) -> (r: Result<i32, DecodeError>)
        ensures
            final(self).follows(old(self)),
            reads(r, final(self).remaining(), parse_i32(old(self).remaining())),
    {
        match self.read_u32() {
            Ok(x) => Ok(
                if x >= 0x8000_0000 {
                    (x as i64 - 0x1_0000_0000) as i32
                } else {
                    x as i32
                },
            ),
            Err(e) => Err(e),
        }
    }

    /// Reads a signed 64-bit integer.
    fn read_i64(&mut self) -> (r: Result<i64, DecodeError>)
        ensures
            final(self).follows(old(self)),
            reads(r, final(self).remaining(), parse_i64(old(self).remaining())),
    {
        match self.read_u64() {
            Ok(x) => Ok(
                if x >= 0x8000_0000_0000_0000 {
                    (x as i128 - 0x1_0000_0000_0000_0000) as i64
                } else {
                    x as i64
                },
            ),
            Err(e) => Err(e),
        }
    }

    /// Reads the bit pattern of a single-precision number.
    fn read_float(&mut self) -> (r: Result<u32, DecodeError>)
        ensures
            final(self).follows(old(self)),
            reads(r, final(self).remaining(), parse_float(old(self).remaining())),
    {
        self.read_u32()
    }

    /// Reads the bit pattern of a double-precision number.
    fn read_double(&mut self) -> (r: Result<u64, DecodeError>)
        ensures
            final(self).follows(old(self)),
            reads(r, final(self).remaining(), parse_double(old(self).remaining())),
    {
        self.read_u64()
    }

    /// Reads a length-prefixed text.
    fn read_text(&mut self) -> (r: Result<String, DecodeError>)
        ensures
            final(self).follows(old(self)),
            reads_view(r, final(self).remaining(), parse_text(old(self).remaining())),
    {
        let len = match self.read_u16() {
            Ok(len) => len as usize,
            Err(e) => {
                return Err(e);
            },
        };
        let at = match self.take(len) {
            Ok(at) => at,
            Err(e) => {
                return Err(e);
            },
        };
        let bytes = slice_to_vec(slice_subrange(self.data, at, at + len));
        match text_of_bytes(bytes) {
            Some(text) => Ok(text),
            None => Err(DecodeError::InvalidUTF8),
        }
    }

    /// Reads `n` signed 8-bit integers.
    #[verifier::loop_isolation(false)]
    fn read_i8s(&mut self, n: usize) -> (r: Result<Vec<i8>, DecodeError>)
        ensures
            final(self).follows(old(self)),
            reads_as(
                r,
                |v: Vec<i8>| v@,
                final(self).remaining(),
                repeat(|s: Seq<u8>| parse_i8(s), old(self).remaining(), n as nat),
            ),
    {
        let ghost item = |s: Seq<u8>| parse_i8(s);
        let ghost start = self.remaining();
        let ghost before = *self;
        let mut out: Vec<i8> = Vec::new();
        let mut i: usize = 0;
        proof {
            lemma_partway_begin(item, start, n as nat);
        }
        while i < n
            invariant
                i <= n,
                self.follows(&before),
                partway(item, start, n as nat, out@, self.remaining(), (n - i) as nat),
            decreases n - i,
        {
            proof {
                lemma_partway_step(
                    item,
                    start,
                    n as nat,
                    out@,
                    self.remaining(),
                    (n - i) as nat,
                );
            }
            match self.read_i8() {
                Ok(x) => {
                    out.push(x);
                },
                Err(e) => {
                    return Err(e);
                },
            }
            i += 1;
        }
        proof {
            lemma_partway_end(item, start, n as nat, out@, self.remaining());
        }
        Ok(out)
    }

    /// Reads `n` signed 16-bit integers.
    #[verifier::loop_isolation(false)]
    fn read_i16s(&mut self, n: usize) -> (r: Result<Vec<i16>, DecodeError>)
        ensures
            final(self).follows(old(self)),
            reads_as(
                r,
                |v: Vec<i16>| v@,
                final(self).remaining(),
                repeat(|s: Seq<u8>| parse_i16(s), old(self).remaining(), n as nat),
            ),
    {
        let ghost item = |s: Seq<u8>| parse_i16(s);
        let ghost start = self.remaining();
        let ghost before = *self;
        let mut out: Vec<i16> = Vec::new();
        let mut i: usize = 0;
        proof {
            lemma_partway_begin(item, start, n as nat);
        }
        while i < n
            invariant
                i <= n,
                self.follows(&before),
                partway(item, start, n as nat, out@, self.remaining(), (n - i) as nat),
            decreases n - i,
        {
            proof {
                lemma_partway_step(
                    item,
                    start,
                    n as nat,
                    out@,
                    self.remaining(),
                    (n - i) as nat,
                );
            }
            match self.read_i16() {
                Ok(x) => {
                    out.push(x);
                },
                Err(e) => {
                    return Err(e);
                },
            }
            i += 1;
        }
        proof {
            lemma_partway_end(item, start, n as nat, out@, self.remaining());
        }
        Ok(out)
    }

    /// Reads `n` signed 32-bit integers.
    #[verifier::loop_isolation(false)]
    fn read_i32s(&mut self, n: usize) -> (r: Result<Vec<i32>, DecodeError>)
        ensures
            final(self).follows(old(self)),
            reads_as(
                r,
                |v: Vec<i32>| v@,
                final(self).remaining(),
                repeat(|s: Seq<u8>| parse_i32(s), old(self).remaining(), n as nat),
            ),
    {
        let ghost item = |s: Seq<u8>| parse_i32(s);
        let ghost start = self.remaining();
        let ghost before = *self;
        let mut out: Vec<i32> = Vec::new();
        let mut i: usize = 0;
        proof {
            lemma_partway_begin(item, start, n as nat);
        }
        while i < n
            invariant
                i <= n,
                self.follows(&before),
                partway(item, start, n as nat, out@, self.remaining(), (n - i) as nat),
            decreases n - i,
        {
            proof {
                lemma_partway_step(
                    item,
                    start,
                    n as nat,
                    out@,
                    self.remaining(),
                    (n - i) as nat,
                );
            }
            match self.read_i32() {
                Ok(x) => {
                    out.push(x);
                },
                Err(e) => {
                    return Err(e);
                },
            }
            i += 1;
        }
        proof {
            lemma_partway_end(item, start, n as nat, out@, self.remaining());
        }
        Ok(out)
    }

    /// Reads `n` signed 64-bit integers.
    #[verifier::loop_isolation(false)]
    fn read_i64s(&mut self, n: usize) -> (r: Result<Vec<i64>, DecodeError>)
        ensures
            final(self).follows(old(self)),
            reads_as(
                r,
                |v: Vec<i64>| v@,
                final(self).remaining(),
                repeat(|s: Seq<u8>| parse_i64(s), old(self).remaining(), n as nat),
            ),
    {
        let ghost item = |s: Seq<u8>| parse_i64(s);
        let ghost start = self.remaining();
        let ghost before = *self;
        let mut out: Vec<i64> = Vec::new();
        let mut i: usize = 0;
        proof {
            lemma_partway_begin(item, start, n as nat);
        }
        while i < n
            invariant
                i <= n,
                self.follows(&before),
                partway(item, start, n as nat, out@, self.remaining(), (n - i) as nat),
            decreases n - i,
        {
            proof {
                lemma_partway_step(
                    item,
                    start,
                    n as nat,
                    out@,
                    self.remaining(),
                    (n - i) as nat,
                );
            }
            match self.read_i64() {
                Ok(x) => {
                    out.push(x);
                },
                Err(e) => {
                    return Err(e);
                },
            }
            i += 1;
        }
        proof {
            lemma_partway_end(item, start, n as nat, out@, self.remaining());
        }
        Ok(out)
    }

    /// Reads the bit patterns of `n` single-precision numbers.
    #[verifier::loop_isolation(false)]
    fn read_floats(&mut self, n: usize) -> (r: Result<Vec<u32>, DecodeError>)
        ensures
            final(self).follows(old(self)),
            reads_as(
                r,
                |v: Vec<u32>| v@,
                final(self).remaining(),
                repeat(|s: Seq<u8>| parse_float(s), old(self).remaining(), n as nat),
            ),
    {
        let ghost item = |s: Seq<u8>| parse_float(s);
        let ghost start = self.remaining();
        let ghost before = *self;
        let mut out: Vec<u32> = Vec::new();
        let mut i: usize = 0;
        proof {
            lemma_partway_begin(item, start, n as nat);
        }
        while i < n
            invariant
                i <= n,
                self.follows(&before),
                partway(item, start, n as nat, out@, self.remaining(), (n - i) as nat),
            decreases n - i,
        {
            proof {
                lemma_partway_step(
                    item,
                    start,
                    n as nat,
                    out@,
                    self.remaining(),
                    (n - i) as nat,
                );
            }
            match self.read_float() {
                Ok(x) => {
                    out.push(x);
                },
                Err(e) => {
                    return Err(e);
                },
            }
            i += 1;
        }
        proof {
            lemma_partway_end(item, start, n as nat, out@, self.remaining());
        }
        Ok(out)
    }

    /// Reads the bit patterns of `n` double-precision numbers.
    #[verifier::loop_isolation(false)]
    fn read_doubles(&mut self, n: usize) -> (r: Result<Vec<u64>, DecodeError>)
        ensures
            final(self).follows(old(self)),
            reads_as(
                r,
                |v: Vec<u64>| v@,
                final(self).remaining(),
                repeat(|s: Seq<u8>| parse_double(s), old(self).remaining(), n as nat),
            ),
    {
        let ghost item = |s: Seq<u8>| parse_double(s);
        let ghost start = self.remaining();
        let ghost before = *self;
        let mut out: Vec<u64> = Vec::new();
        let mut i: usize = 0;
        proof {
            lemma_partway_begin(item, start, n as nat);
        }
        while i < n
            invariant
                i <= n,
                self.follows(&before),
                partway(item, start, n as nat, out@, self.remaining(), (n - i) as nat),
            decreases n - i,
        {
            proof {
                lemma_partway_step(
                    item,
                    start,
                    n as nat,
                    out@,
                    self.remaining(),
                    (n - i) as nat,
                );
            }
            match self.read_double() {
                Ok(x) => {
                    out.push(x);
                },
                Err(e) => {
                    return Err(e);
                },
            }
            i += 1;
        }
        proof {
            lemma_partway_end(item, start, n as nat, out@, self.remaining());
        }
        Ok(out)
    }

    /// Reads `n` length-prefixed texts.
    #[verifier::loop_isolation(false)]
    fn read_texts(&mut self, n: usize) -> (r: Result<Vec<String>, DecodeError>)
        ensures
            final(self).follows(old(self)),
            reads_as(
                r,
                |v: Vec<String>| texts_of(v@),
                final(self).remaining(),
                repeat(|s: Seq<u8>| parse_text(s), old(self).remaining(), n as nat),
            ),
    {
        let ghost item = |s: Seq<u8>| parse_text(s);
        let ghost start = self.remaining();
        let ghost before = *self;
        let mut out: Vec<String> = Vec::new();
        let mut i: usize = 0;
        proof {
            lemma_partway_begin(item, start, n as nat);
        }
        while i < n
            invariant
                i <= n,
                self.follows(&before),
                partway(item, start, n as nat, texts_of(out@), self.remaining(), (n - i) as nat),
            decreases n - i,
        {
            proof {
                lemma_partway_step(
                    item,
                    start,
                    n as nat,
                    texts_of(out@),
                    self.remaining(),
                    (n - i) as nat,
                );
            }
            match self.read_text() {
                Ok(x) => {
                    proof {
                        assert(texts_of(out@.push(x)) =~= texts_of(out@).push(x@));
                    }
                    out.push(x);
                },
                Err(e) => {
                    return Err(e);
                },
            }
            i += 1;
        }
        proof {
            lemma_partway_end(item, start, n as nat, texts_of(out@), self.remaining());
        }
        Ok(out)
    }

    /// Reads a signed 32-bit count, and says how many items it announces.
    fn read_count(&mut self) -> (r: Result<(i32, usize), DecodeError>)
        ensures
            final(self).follows(old(self)),
            match parse_i32(old(self).remaining()) {
                Ok((count, rest)) => r == Ok::<(i32, usize), DecodeError>(
                    (count, announced(count) as usize),
                ) && final(self).remaining() == rest,
                Err(e) => r == Err::<(i32, usize), DecodeError>(e),
            },
    {
        let count = self.read_i32()?;
        if count > 0 {
            Ok((count, count as usize))
        } else {
            Ok((count, 0))
        }
    }

    /// Reads an array of signed bytes.
    fn read_byte_array(&mut self) -> (r: Result<Vec<i8>, DecodeError>)
        ensures
            final(self).follows(old(self)),
            reads_view(r, final(self).remaining(), parse_byte_array(old(self).remaining())),
    {
        let n = self.read_count()?.1;
        self.read_i8s(n)
    }

    /// Reads an array of signed 32-bit integers.
    fn read_int_array(&mut self) -> (r: Result<Vec<i32>, DecodeError>)
        ensures
            final(self).follows(old(self)),
            reads_view(r, final(self).remaining(), parse_int_array(old(self).remaining())),
    {
        let n = self.read_count()?.1;
        self.read_i32s(n)
    }

    /// Reads an array of signed 64-bit integers.
    fn read_long_array(&mut self) -> (r: Result<Vec<i64>, DecodeError>)
        ensures
            final(self).follows(old(self)),
            reads_view(r, final(self).remaining(), parse_long_array(old(self).remaining())),
    {
        let n = self.read_count()?.1;
        self.read_i64s(n)
    }

    /// Reads `n` arrays of signed bytes.
    #[verifier::loop_isolation(false)]
    fn read_byte_arrays(&mut self, n: usize) -> (r: Result<Vec<Vec<i8>>, DecodeError>)
        ensures
            final(self).follows(old(self)),
            reads_as(
                r,
                |v: Vec<Vec<i8>>| seqs_of(v@),
                final(self).remaining(),
                repeat(|s: Seq<u8>| parse_byte_array(s), old(self).remaining(), n as nat),
            ),
    {
        let ghost item = |s: Seq<u8>| parse_byte_array(s);
        let ghost start = self.remaining();
        let ghost before = *self;
        let mut out: Vec<Vec<i8>> = Vec::new();
        let mut i: usize = 0;
        proof {
            lemma_partway_begin(item, start, n as nat);
        }
        while i < n
            invariant
                i <= n,
                self.follows(&before),
                partway(item, start, n as nat, seqs_of(out@), self.remaining(), (n - i) as nat),
            decreases n - i,
        {
            proof {
                lemma_partway_step(
                    item,
                    start,
                    n as nat,
                    seqs_of(out@),
                    self.remaining(),
                    (n - i) as nat,
                );
            }
            match self.read_byte_array() {
                Ok(x) => {
                    proof {
                        assert(seqs_of(out@.push(x)) =~= seqs_of(out@).push(x@));
                    }
                    out.push(x);
                },
                Err(e) => {
                    return Err(e);
                },
            }
            i += 1;
        }
        proof {
            lemma_partway_end(item, start, n as nat, seqs_of(out@), self.remaining());
        }
        Ok(out)
    }

    /// Reads `n` arrays of signed 32-bit integers.
    #[verifier::loop_isolation(false)]
    fn read_int_arrays(&mut self, n: usize) -> (r: Result<Vec<Vec<i32>>, DecodeError>)
        ensures
            final(self).follows(old(self)),
            reads_as(
                r,
                |v: Vec<Vec<i32>>| seqs_of(v@),
                final(self).remaining(),
                repeat(|s: Seq<u8>| parse_int_array(s), old(self).remaining(), n as nat),
            ),
    {
        let ghost item = |s: Seq<u8>| parse_int_array(s);
        let ghost start = self.remaining();
        let ghost before = *self;
        let mut out: Vec<Vec<i32>> = Vec::new();
        let mut i: usize = 0;
        proof {
            lemma_partway_begin(item, start, n as nat);
        }
        while i < n
            invariant
                i <= n,
                self.follows(&before),
                partway(item, start, n as nat, seqs_of(out@), self.remaining(), (n - i) as nat),
            decreases n - i,
        {
            proof {
                lemma_partway_step(
                    item,
                    start,
                    n as nat,
                    seqs_of(out@),
                    self.remaining(),
                    (n - i) as nat,
                );
            }
            match self.read_int_array() {
                Ok(x) => {
                    proof {
                        assert(seqs_of(out@.push(x)) =~= seqs_of(out@).push(x@));
                    }
                    out.push(x);
                },
                Err(e) => {
                    return Err(e);
                },
            }
            i += 1;
        }
        proof {
            lemma_partway_end(item, start, n as nat, seqs_of(out@), self.remaining());
        }
        Ok(out)
    }

    /// Reads `n` arrays of signed 64-bit integers.
    #[verifier::loop_isolation(false)]
    fn read_long_arrays(&mut self, n: usize) -> (r: Result<Vec<Vec<i64>>, DecodeError>)
        ensures
            final(self).follows(old(self)),
            reads_as(
                r,
                |v: Vec<Vec<i64>>| seqs_of(v@),
                final(self).remaining(),
                repeat(|s: Seq<u8>| parse_long_array(s), old(self).remaining(), n as nat),
            ),
    {
        let ghost item = |s: Seq<u8>| parse_long_array(s);
        let ghost start = self.remaining();
        let ghost before = *self;
        let mut out: Vec<Vec<i64>> = Vec::new();
        let mut i: usize = 0;
        proof {
            lemma_partway_begin(item, start, n as nat);
        }
        while i < n
            invariant
                i <= n,
                self.follows(&before),
                partway(item, start, n as nat, seqs_of(out@), self.remaining(), (n - i) as nat),
            decreases n - i,
        {
            proof {
                lemma_partway_step(
                    item,
                    start,
                    n as nat,
                    seqs_of(out@),
                    self.remaining(),
                    (n - i) as nat,
                );
            }
            match self.read_long_array() {
                Ok(x) => {
                    proof {
                        assert(seqs_of(out@.push(x)) =~= seqs_of(out@).push(x@));
                    }
                    out.push(x);
                },
                Err(e) => {
                    return Err(e);
                },
            }
            i += 1;
        }
        proof {
            lemma_partway_end(item, start, n as nat, seqs_of(out@), self.remaining());
        }
        Ok(out)
    }

    /// Reads the payload that `tag` announces, descending at most `room` levels.
    fn read_payload(&mut self, tag: Tag, room: usize) -> (r: Result<Value, DecodeError>)
        ensures
            final(self).follows(old(self)),
            reads_view(
                r,
                final(self).remaining(),
                parse_payload(tag, old(self).remaining(), room as nat),
            ),
        decreases old(self).remaining().len(), 0nat, 1nat,
    {
        match tag {
            Tag::End => Err(DecodeError::UnknownTag(0)),
            Tag::Byte => Ok(Value::Byte(self.read_i8()?)),
            Tag::Short => Ok(Value::Short(self.read_i16()?)),
            Tag::Int => Ok(Value::Int(self.read_i32()?)),
            Tag::Long => Ok(Value::Long(self.read_i64()?)),
            Tag::Float => Ok(Value::Float(self.read_float()?)),
            Tag::Double => Ok(Value::Double(self.read_double()?)),
            Tag::ByteArray => Ok(Value::ByteArray(self.read_byte_array()?)),
            Tag::Str => Ok(Value::Str(self.read_text()?)),
            Tag::List => if room == 0 {
                Err(DecodeError::TooDeep)
            } else {
                self.read_list(room - 1)
            },
            Tag::Compound => if room == 0 {
                Err(DecodeError::TooDeep)
            } else {
                Ok(Value::Compound(self.read_record(room - 1)?))
            },
            Tag::IntArray => Ok(Value::IntArray(self.read_int_array()?)),
            Tag::LongArray => Ok(Value::LongArray(self.read_long_array()?)),
        }
    }

    /// Reads a list payload: element tag, count, elements.
    fn read_list(&mut self, room: usize) -> (r: Result<Value, DecodeError>)
        ensures
            final(self).follows(old(self)),
            reads_view(
                r,
                final(self).remaining(),
                parse_list(old(self).remaining(), room as nat),
            ),
        decreases old(self).remaining().len(), 0nat, 0nat,
    {
        proof {
            use_type_invariant(&*self);
        }
        let element = Tag::from_byte(self.read_u8()?)?;
        let (count, n) = self.read_count()?;
        proof {
            use_type_invariant(&*self);
        }
        self.read_elements(element, count, n, room)
    }

    /// Reads the elements of a list whose element tag and count were read.
    fn read_elements(&mut self, element: Tag, count: i32, n: usize, room: usize) -> (r: Result<
        Value,
        DecodeError,
    >)
        requires
            n == announced(count),
        ensures
            final(self).follows(old(self)),
            reads_view(
                r,
                final(self).remaining(),
                parse_elements(element, count, old(self).remaining(), room as nat),
            ),
        decreases old(self).remaining().len(), 1nat, 0nat,
    {
        match element {
            Tag::End => Ok(Value::EndList),
            Tag::Byte => if count == 0 {
                Ok(Value::EmptyByteList)
            } else {
                Ok(Value::ByteList(self.read_i8s(n)?))
            },
            Tag::Short => Ok(Value::ShortList(self.read_i16s(n)?)),
            Tag::Int => Ok(Value::IntList(self.read_i32s(n)?)),
            Tag::Long => Ok(Value::LongList(self.read_i64s(n)?)),
            Tag::Float => Ok(Value::FloatList(self.read_floats(n)?)),
            Tag::Double => Ok(Value::DoubleList(self.read_doubles(n)?)),
            Tag::ByteArray => Ok(Value::ByteArrayList(self.read_byte_arrays(n)?)),
            Tag::Str => Ok(Value::StrList(self.read_texts(n)?)),
            Tag::List => Ok(Value::ListList(self.read_lists(n, room)?)),
            Tag::Compound => Ok(Value::CompoundList(self.read_records(n, room)?)),
            Tag::IntArray => Ok(Value::IntArrayList(self.read_int_arrays(n)?)),
            Tag::LongArray => Ok(Value::LongArrayList(self.read_long_arrays(n)?)),
        }
    }

    /// Reads `n` list payloads.
    #[verifier::loop_isolation(false)]
    fn read_lists(&mut self, n: usize, room: usize) -> (r: Result<Vec<Value>, DecodeError>)
        ensures
            final(self).follows(old(self)),
            reads_as(
                r,
                |v: Vec<Value>| trees_of(v@),
                final(self).remaining(),
                parse_lists(old(self).remaining(), n as nat, room as nat),
            ),
        decreases old(self).remaining().len(), 0nat, n + 1,
    {
        let ghost start = self.remaining();
        let ghost before = *self;
        let ghost depth = room as nat;
        let mut out: Vec<Value> = Vec::new();
        let mut i: usize = 0;
        proof {
            use_type_invariant(&*self);
            match parse_lists(start, n as nat, depth) {
                Ok((more, end)) => {
                    assert(trees_of(out@) + more =~= more);
                },
                Err(e) => {},
            }
        }
        while i < n
            invariant
                i <= n,
                self.follows(&before),
                match parse_lists(self.remaining(), (n - i) as nat, depth) {
                    Ok((more, end)) => parse_lists(start, n as nat, depth) == Ok::<
                        (Seq<Tree>, Seq<u8>),
                        DecodeError,
                    >((trees_of(out@) + more, end)),
                    Err(e) => parse_lists(start, n as nat, depth) == Err::<
                        (Seq<Tree>, Seq<u8>),
                        DecodeError,
                    >(e),
                },
            decreases n - i,
        {
            let ghost done = trees_of(out@);
            proof {
                use_type_invariant(&*self);
                reveal_with_fuel(parse_lists, 2);
            }
            if room == 0 {
                return Err(DecodeError::TooDeep);
            }
            match self.read_list(room - 1) {
                Ok(x) => {
                    proof {
                        use_type_invariant(&*self);
                        lemma_trees_of_push(out@, x);
                        match parse_lists(self.remaining(), (n - i - 1) as nat, depth) {
                            Ok((more, end)) => {
                                assert(done + (seq![x@] + more) =~= done.push(x@) + more);
                            },
                            Err(e) => {},
                        }
                    }
                    out.push(x);
                },
                Err(e) => {
                    return Err(e);
                },
            }
            i += 1;
        }
        proof {
            assert(trees_of(out@) + Seq::<Tree>::empty() =~= trees_of(out@));
        }
        Ok(out)
    }

    /// Reads `n` record payloads.
    #[verifier::loop_isolation(false)]
    fn read_records(&mut self, n: usize, room: usize) -> (r: Result<Vec<Compound>, DecodeError>)
        ensures
            final(self).follows(old(self)),
            reads_as(
                r,
                |v: Vec<Compound>| records_of(v@),
                final(self).remaining(),
                parse_records(old(self).remaining(), n as nat, room as nat),
            ),
        decreases old(self).remaining().len(), 0nat, n + 1,
    {
        let ghost start = self.remaining();
        let ghost before = *self;
        let ghost depth = room as nat;
        let mut out: Vec<Compound> = Vec::new();
        let mut i: usize = 0;
        proof {
            use_type_invariant(&*self);
            match parse_records(start, n as nat, depth) {
                Ok((more, end)) => {
                    assert(records_of(out@) + more =~= more);
                },
                Err(e) => {},
            }
        }
        while i < n
            invariant
                i <= n,
                self.follows(&before),
                match parse_records(self.remaining(), (n - i) as nat, depth) {
                    Ok((more, end)) => parse_records(start, n as nat, depth) == Ok::<
                        (Seq<Record>, Seq<u8>),
                        DecodeError,
                    >((records_of(out@) + more, end)),
                    Err(e) => parse_records(start, n as nat, depth) == Err::<
                        (Seq<Record>, Seq<u8>),
                        DecodeError,
                    >(e),
                },
            decreases n - i,
        {
            let ghost done = records_of(out@);
            proof {
                use_type_invariant(&*self);
                reveal_with_fuel(parse_records, 2);
            }
            if room == 0 {
                return Err(DecodeError::TooDeep);
            }
            match self.read_record(room - 1) {
                Ok(x) => {
                    proof {
                        use_type_invariant(&*self);
                        lemma_records_of_push(out@, x);
                        match parse_records(self.remaining(), (n - i - 1) as nat, depth) {
                            Ok((more, end)) => {
                                assert(done + (seq![x@] + more) =~= done.push(x@) + more);
                            },
                            Err(e) => {},
                        }
                    }
                    out.push(x);
                },
                Err(e) => {
                    return Err(e);
                },
            }
            i += 1;
        }
        proof {
            assert(records_of(out@) + Seq::<Record>::empty() =~= records_of(out@));
        }
        Ok(out)
    }

    /// Reads what follows the tag byte of a tagged entry: the name and the payload.
    fn read_entry(&mut self, tag: Tag, room: usize) -> (r: Result<(String, Value), DecodeError>)
        ensures
            final(self).follows(old(self)),
            reads_as(
                r,
                |e: (String, Value)| (e.0@, e.1@),
                final(self).remaining(),
                parse_entry(tag, old(self).remaining(), room as nat),
            ),
        decreases old(self).remaining().len(), 0nat, 2nat,
    {
        let name = self.read_text()?;
        let value = self.read_payload(tag, room)?;
        Ok((name, value))
    }

    /// Reads a record payload: tagged entries up to the terminator.
    #[verifier::loop_isolation(false)]
    fn read_record(&mut self, room: usize) -> (r: Result<Compound, DecodeError>)
        ensures
            final(self).follows(old(self)),
            reads_view(
                r,
                final(self).remaining(),
                parse_record(old(self).remaining(), Map::empty(), room as nat),
            ),
        decreases old(self).remaining().len(), 0nat, 0nat,
    {
        let ghost start = self.remaining();
        let ghost before = *self;
        let ghost depth = room as nat;
        let mut fields = Compound::new();
        proof {
            use_type_invariant(&*self);
        }
        loop
            invariant
                self.follows(&before),
                parse_record(start, Map::empty(), depth) == parse_record(
                    self.remaining(),
                    fields@,
                    depth,
                ),
            decreases self.remaining().len(),
        {
            proof {
                use_type_invariant(&*self);
                reveal_with_fuel(parse_record, 2);
            }
            let tag = Tag::from_byte(self.read_u8()?)?;
            match tag {
                Tag::End => {
                    return Ok(fields);
                },
                _ => {
                    let (name, value) = self.read_entry(tag, room)?;
                    proof {
                        use_type_invariant(&*self);
                    }
                    fields.insert(name, value);
                },
            }
        }
    }

    /// Decodes the rest of the stream: tagged entries up to its end, gathered into one
    /// record. A terminator at this level is passed over.
    ///
    /// On success nothing is left unread. After an error the reader stands at no
    /// particular place.
    #[verifier::loop_isolation(false)]
    pub fn parse(&mut self) -> (r: Result<Value, DecodeError>)
        ensures
            match decoded(old(self).remaining(), old(self).max_depth()) {
                Ok(tree) => r is Ok && r->Ok_0@ == tree && final(self).remaining().len() == 0,
                Err(e) => r == Err::<Value, DecodeError>(e),
            },
            final(self).max_depth() == old(self).max_depth(),
    {
        let ghost start = self.remaining();
        let ghost before = *self;
        let ghost depth = self.max_depth as nat;
        let room = self.max_depth;
        let mut fields = Compound::new();
        loop
            invariant
                self.follows(&before),
                self.max_depth == room,
                parse_root(start, Map::empty(), depth) == parse_root(
                    self.remaining(),
                    fields@,
                    depth,
                ),
            decreases self.remaining().len(),
        {
            proof {
                use_type_invariant(&*self);
                reveal_with_fuel(parse_root, 2);
            }
            if self.pos == self.data.len() {
                return Ok(Value::Compound(fields));
            }
            let tag = Tag::from_byte(self.read_u8()?)?;
            match tag {
                Tag::End => {
                    proof {
                        use_type_invariant(&*self);
                    }
                },
                _ => {
                    let (name, value) = self.read_entry(tag, room)?;
                    proof {
                        use_type_invariant(&*self);
                    }
                    fields.insert(name, value);
                },
            }
        }
    }
}

/// Decodes a whole stream: the root record, or the error on which decoding stops.
///
/// The stream is read as tagged entries up to its end, which gather into one record. The
/// end of the stream before a tag byte is the regular end; anywhere else it is
/// [`DecodeError::UnexpectedEnd`]. Below the root record, lists and records may nest
/// [`MAX_DEPTH`] levels deep; deeper ones stop decoding with [`DecodeError::TooDeep`].
pub fn parse(data: &[u8]) -> (r: Result<Value, DecodeError>)
    ensures
        match decoded(data@, MAX_DEPTH as nat) {
            Ok(tree) => r is Ok && r->Ok_0@ == tree,
            Err(e) => r == Err::<Value, DecodeError>(e),
        },
{
    let mut parser = Parser::new(data);
    parser.parse()
}

/// Decodes a whole stream as [`parse`] does, with lists and records nesting at most
/// `max_depth` levels deep below the root record.
///
/// The decoder descends one level of calls for each level of nesting: the bound is what
/// keeps it from exhausting the stack on input that nests without end.
pub fn parse_within(data: &[u8], max_depth: usize) -> (r: Result<Value, DecodeError>)
    ensures
        match decoded(data@, max_depth as nat) {
            Ok(tree) => r is Ok && r->Ok_0@ == tree,
            Err(e) => r == Err::<Value, DecodeError>(e),
        },
{
    let mut parser = Parser::with_max_depth(data, max_depth);
    parser.parse()
}

} // verus!
