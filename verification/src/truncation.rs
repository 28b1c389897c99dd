//! What a reader obtains depends on the bytes it consumes and on nothing behind them, and
//! a stream that breaks off inside a value is told apart from one that ends after it.
use crate::decode::{DecodeError, Tag};
use crate::grammar::{
    announced, parse_array, parse_byte_array, parse_double, parse_elements, parse_entry,
    parse_float, parse_i16, parse_i32, parse_i64, parse_i8, parse_int_array, parse_list,
    parse_lists, parse_long_array, parse_payload, parse_record, parse_records, parse_root,
    parse_text, repeat, tag_of_byte, wrapped, Parsed, Record,
};
use crate::value::Tree;
use vstd::prelude::*;

verus! {

/// The streams `s` and `t` start with the same `k` bytes.
pub open spec fn agrees(s: Seq<u8>, t: Seq<u8>, k: int) -> bool {
    0 <= k <= s.len() && k <= t.len() && t.take(k) == s.take(k)
}

/// The stream `t` is the stream `s` broken off before its byte `k`.
pub open spec fn cut_short(s: Seq<u8>, t: Seq<u8>, k: int) -> bool {
    t.len() < k && t.len() <= s.len() && t == s.take(t.len() as int)
}

/// The outcome `pt` of a reader on `t` goes with its outcome `ps` on `s`: where the
/// reader succeeds on `s`, what it leaves is `s` without the bytes it consumed; on a
/// stream that starts with those bytes it obtains the same value and consumes as much;
/// and on `s` broken off inside those bytes it meets the end of the stream.
pub open spec fn coherent<T>(s: Seq<u8>, ps: Parsed<T>, t: Seq<u8>, pt: Parsed<T>) -> bool {
    ps matches Ok((value, rest)) ==> {
        let k = s.len() - rest.len();
        &&& 0 <= k
        &&& rest == s.skip(k)
        &&& (agrees(s, t, k) ==> pt == Ok::<(T, Seq<u8>), DecodeError>((value, t.skip(k))))
        &&& (cut_short(s, t, k) ==> pt == Err::<(T, Seq<u8>), DecodeError>(
            DecodeError::UnexpectedEnd,
        ))
    }
}

/// A stream that shares `k` bytes with another shares any fewer.
proof fn lemma_agrees_less(s: Seq<u8>, t: Seq<u8>, k: int, j: int)
    requires
        agrees(s, t, k),
        0 <= j <= k,
    ensures
        agrees(s, t, j),
{
    assert(t.take(j) =~= t.take(k).take(j));
    assert(s.take(j) =~= s.take(k).take(j));
}

/// Of streams that share `j + k` bytes, what follows the first `j` shares `k` bytes.
proof fn lemma_agrees_after(s: Seq<u8>, t: Seq<u8>, j: int, k: int)
    requires
        agrees(s, t, j + k),
        0 <= j,
        0 <= k,
    ensures
        agrees(s.skip(j), t.skip(j), k),
        t.skip(j).skip(k) == t.skip(j + k),
        s.skip(j).skip(k) == s.skip(j + k),
{
    assert(t.skip(j).take(k) =~= t.take(j + k).skip(j));
    assert(s.skip(j).take(k) =~= s.take(j + k).skip(j));
    assert(t.skip(j).skip(k) =~= t.skip(j + k));
    assert(s.skip(j).skip(k) =~= s.skip(j + k));
}

/// A stream broken off at or after its byte `j` shares `j` bytes with the whole, and
/// what follows them is what follows them in the whole, broken off.
proof fn lemma_cut_after(s: Seq<u8>, t: Seq<u8>, j: int, k: int)
    requires
        cut_short(s, t, j + k),
        0 <= j <= t.len(),
    ensures
        agrees(s, t, j),
        cut_short(s.skip(j), t.skip(j), k),
{
    assert(t.take(j) =~= s.take(j));
    assert(t.skip(j) =~= s.skip(j).take(t.len() - j));
}

/// Streams that share a byte start with the same byte.
proof fn lemma_agrees_first_byte(s: Seq<u8>, t: Seq<u8>, k: int)
    requires
        agrees(s, t, k),
        k >= 1,
    ensures
        t.len() >= 1,
        t[0] == s[0],
{
    assert(t[0] == t.take(k)[0]);
    assert(s[0] == s.take(k)[0]);
}

/// A stream that was broken off starts with the same byte as the whole, if it has one.
proof fn lemma_cut_first_byte(s: Seq<u8>, t: Seq<u8>, k: int)
    requires
        cut_short(s, t, k),
        t.len() >= 1,
    ensures
        t[0] == s[0],
{
    assert(t[0] == s.take(t.len() as int)[0]);
}

/// Reading a signed 8-bit integer is coherent.
pub proof fn lemma_i8_coherent(s: Seq<u8>, t: Seq<u8>)
    ensures
        coherent(s, parse_i8(s), t, parse_i8(t)),
{
}

/// Reading a signed 16-bit integer is coherent.
pub proof fn lemma_i16_coherent(s: Seq<u8>, t: Seq<u8>)
    ensures
        coherent(s, parse_i16(s), t, parse_i16(t)),
{
}

/// Reading a signed 32-bit integer is coherent.
pub proof fn lemma_i32_coherent(s: Seq<u8>, t: Seq<u8>)
    ensures
        coherent(s, parse_i32(s), t, parse_i32(t)),
{
}

/// Reading a signed 64-bit integer is coherent.
pub proof fn lemma_i64_coherent(s: Seq<u8>, t: Seq<u8>)
    ensures
        coherent(s, parse_i64(s), t, parse_i64(t)),
{
}

/// Reading a single-precision bit pattern is coherent.
pub proof fn lemma_float_coherent(s: Seq<u8>, t: Seq<u8>)
    ensures
        coherent(s, parse_float(s), t, parse_float(t)),
{
}

/// Reading a double-precision bit pattern is coherent.
pub proof fn lemma_double_coherent(s: Seq<u8>, t: Seq<u8>)
    ensures
        coherent(s, parse_double(s), t, parse_double(t)),
{
}

/// Reading a text is coherent.
pub proof fn lemma_text_coherent(s: Seq<u8>, t: Seq<u8>)
    ensures
        coherent(s, parse_text(s), t, parse_text(t)),
{
    match parse_text(s) {
        Ok((text, rest)) => {
            let len = crate::grammar::u16_be(s.take(2));
            let k = 2 + len;
            assert(s.skip(2).skip(len) =~= s.skip(k));
            if agrees(s, t, k) {
                lemma_agrees_less(s, t, k, 2);
                lemma_agrees_after(s, t, 2, len);
            }
            if cut_short(s, t, k) {
                if t.len() >= 2 {
                    lemma_cut_after(s, t, 2, len);
                }
            }
        },
        Err(_) => {},
    }
}

/// Two readers in a row: where the first is coherent on the streams, and the second on
/// what the first leaves of them, the pair is coherent.
proof fn lemma_sequence<A, B>(
    s: Seq<u8>,
    t: Seq<u8>,
    first_s: Parsed<A>,
    first_t: Parsed<A>,
    second_s: Parsed<B>,
    second_t: Parsed<B>,
)
    requires
        first_s is Ok,
        second_s is Ok,
        coherent(s, first_s, t, first_t),
        coherent(
            first_s->Ok_0.1,
            second_s,
            t.skip(s.len() - first_s->Ok_0.1.len()),
            second_t,
        ),
    ensures
        ({
            let a = first_s->Ok_0.0;
            let b = second_s->Ok_0.0;
            let end = second_s->Ok_0.1;
            let k1 = s.len() - first_s->Ok_0.1.len();
            let k = s.len() - end.len();
            &&& 0 <= k1 <= k
            &&& end == s.skip(k)
            &&& agrees(s, t, k) ==> first_t == Ok::<(A, Seq<u8>), DecodeError>((a, t.skip(k1)))
                && second_t == Ok::<(B, Seq<u8>), DecodeError>((b, t.skip(k)))
            &&& cut_short(s, t, k) ==> first_t == Err::<(A, Seq<u8>), DecodeError>(
                DecodeError::UnexpectedEnd,
            ) || (first_t == Ok::<(A, Seq<u8>), DecodeError>((a, t.skip(k1))) && second_t
                == Err::<(B, Seq<u8>), DecodeError>(DecodeError::UnexpectedEnd))
        }),
{
    let r1 = first_s->Ok_0.1;
    let end = second_s->Ok_0.1;
    let k1 = s.len() - r1.len();
    let k2 = r1.len() - end.len();
    let k = k1 + k2;
    assert(s.skip(k1).skip(k2) =~= s.skip(k));
    if agrees(s, t, k) {
        lemma_agrees_less(s, t, k, k1);
        lemma_agrees_after(s, t, k1, k2);
    }
    if cut_short(s, t, k) {
        if t.len() >= k1 {
            lemma_cut_after(s, t, k1, k2);
        }
    }
}

/// Whether a reader is coherent on every pair of streams.
pub open spec fn coherent_reader<T>(item: spec_fn(Seq<u8>) -> Parsed<T>) -> bool {
    forall|a: Seq<u8>, b: Seq<u8>| #[trigger] coherent(a, item(a), b, item(b))
}

/// Reading a number of items with a coherent reader is coherent.
pub proof fn lemma_repeat_coherent<T>(
    item: spec_fn(Seq<u8>) -> Parsed<T>,
    s: Seq<u8>,
    t: Seq<u8>,
    n: nat,
)
    requires
        coherent_reader(item),
    ensures
        coherent(s, repeat(item, s, n), t, repeat(item, t, n)),
    decreases n,
{
    if n == 0 {
        assert(s.skip(0) =~= s);
        assert(t.skip(0) =~= t);
    } else {
        assert(coherent(s, item(s), t, item(t)));
        match item(s) {
            Ok((x, r1)) => {
                let m = (n - 1) as nat;
                let t1 = t.skip(s.len() - r1.len());
                lemma_repeat_coherent(item, r1, t1, m);
                if repeat(item, r1, m) is Ok {
                    lemma_sequence(
                        s,
                        t,
                        item(s),
                        item(t),
                        repeat(item, r1, m),
                        repeat(item, t1, m),
                    );
                }
            },
            Err(_) => {},
        }
    }
}

/// Reading an array with a coherent reader for its items is coherent.
pub proof fn lemma_array_coherent<T>(item: spec_fn(Seq<u8>) -> Parsed<T>, s: Seq<u8>, t: Seq<u8>)
    requires
        coherent_reader(item),
    ensures
        coherent(s, parse_array(item, s), t, parse_array(item, t)),
{
    lemma_i32_coherent(s, t);
    match parse_i32(s) {
        Ok((count, r1)) => {
            let n = announced(count);
            let t1 = t.skip(s.len() - r1.len());
            lemma_repeat_coherent(item, r1, t1, n);
            if repeat(item, r1, n) is Ok {
                lemma_sequence(
                    s,
                    t,
                    parse_i32(s),
                    parse_i32(t),
                    repeat(item, r1, n),
                    repeat(item, t1, n),
                );
            }
        },
        Err(_) => {},
    }
}

/// Reading an array of signed bytes is coherent.
pub proof fn lemma_byte_array_coherent(s: Seq<u8>, t: Seq<u8>)
    ensures
        coherent(s, parse_byte_array(s), t, parse_byte_array(t)),
{
    let item = |r: Seq<u8>| parse_i8(r);
    assert forall|a: Seq<u8>, b: Seq<u8>| #[trigger] coherent(a, item(a), b, item(b)) by {
        lemma_i8_coherent(a, b);
    }
    lemma_array_coherent(item, s, t);
}

/// Reading an array of signed 32-bit integers is coherent.
pub proof fn lemma_int_array_coherent(s: Seq<u8>, t: Seq<u8>)
    ensures
        coherent(s, parse_int_array(s), t, parse_int_array(t)),
{
    let item = |r: Seq<u8>| parse_i32(r);
    assert forall|a: Seq<u8>, b: Seq<u8>| #[trigger] coherent(a, item(a), b, item(b)) by {
        lemma_i32_coherent(a, b);
    }
    lemma_array_coherent(item, s, t);
}

/// Reading an array of signed 64-bit integers is coherent.
pub proof fn lemma_long_array_coherent(s: Seq<u8>, t: Seq<u8>)
    ensures
        coherent(s, parse_long_array(s), t, parse_long_array(t)),
{
    let item = |r: Seq<u8>| parse_i64(r);
    assert forall|a: Seq<u8>, b: Seq<u8>| #[trigger] coherent(a, item(a), b, item(b)) by {
        lemma_i64_coherent(a, b);
    }
    lemma_array_coherent(item, s, t);
}

/// Wrapping the value that a reader obtains keeps the reader coherent.
proof fn lemma_wrapped_coherent<A, B>(
    s: Seq<u8>,
    ps: Parsed<A>,
    t: Seq<u8>,
    pt: Parsed<A>,
    wrap: spec_fn(A) -> B,
)
    requires
        coherent(s, ps, t, pt),
    ensures
        coherent(s, wrapped(ps, wrap), t, wrapped(pt, wrap)),
{
}

/// A reader that starts behind the first byte, seen from the first byte: on a stream
/// without a single byte it meets the end.
proof fn lemma_behind_first_byte<T>(s: Seq<u8>, t: Seq<u8>, ps: Parsed<T>, pt: Parsed<T>)
    requires
        s.len() >= 1,
        ps is Ok,
        coherent(s.skip(1), ps, t.skip(1), pt),
    ensures
        coherent(
            s,
            ps,
            t,
            if t.len() < 1 {
                Err::<(T, Seq<u8>), DecodeError>(DecodeError::UnexpectedEnd)
            } else {
                pt
            },
        ),
        s.len() - ps->Ok_0.1.len() >= 1,
{
    let rest = ps->Ok_0.1;
    let k = s.len() - rest.len();
    let inner = k - 1;
    assert(s.skip(1).skip(inner) =~= s.skip(k));
    if agrees(s, t, k) {
        lemma_agrees_less(s, t, k, 1);
        lemma_agrees_after(s, t, 1, inner);
    }
    if cut_short(s, t, k) && t.len() >= 1 {
        lemma_cut_after(s, t, 1, inner);
    }
}

/// Reading signed 8-bit integers back to back is coherent.
proof fn lemma_i8s_coherent(s: Seq<u8>, t: Seq<u8>, n: nat)
    ensures
        coherent(
            s,
            repeat(|r: Seq<u8>| parse_i8(r), s, n),
            t,
            repeat(|r: Seq<u8>| parse_i8(r), t, n),
        ),
{
    let item = |r: Seq<u8>| parse_i8(r);
    assert forall|a: Seq<u8>, b: Seq<u8>| #[trigger] coherent(a, item(a), b, item(b)) by {
        lemma_i8_coherent(a, b);
    }
    lemma_repeat_coherent(item, s, t, n);
}

/// Reading signed 16-bit integers back to back is coherent.
proof fn lemma_i16s_coherent(s: Seq<u8>, t: Seq<u8>, n: nat)
    ensures
        coherent(
            s,
            repeat(|r: Seq<u8>| parse_i16(r), s, n),
            t,
            repeat(|r: Seq<u8>| parse_i16(r), t, n),
        ),
{
    let item = |r: Seq<u8>| parse_i16(r);
    assert forall|a: Seq<u8>, b: Seq<u8>| #[trigger] coherent(a, item(a), b, item(b)) by {
        lemma_i16_coherent(a, b);
    }
    lemma_repeat_coherent(item, s, t, n);
}

/// Reading signed 32-bit integers back to back is coherent.
proof fn lemma_i32s_coherent(s: Seq<u8>, t: Seq<u8>, n: nat)
    ensures
        coherent(
            s,
            repeat(|r: Seq<u8>| parse_i32(r), s, n),
            t,
            repeat(|r: Seq<u8>| parse_i32(r), t, n),
        ),
{
    let item = |r: Seq<u8>| parse_i32(r);
    assert forall|a: Seq<u8>, b: Seq<u8>| #[trigger] coherent(a, item(a), b, item(b)) by {
        lemma_i32_coherent(a, b);
    }
    lemma_repeat_coherent(item, s, t, n);
}

/// Reading signed 64-bit integers back to back is coherent.
proof fn lemma_i64s_coherent(s: Seq<u8>, t: Seq<u8>, n: nat)
    ensures
        coherent(
            s,
            repeat(|r: Seq<u8>| parse_i64(r), s, n),
            t,
            repeat(|r: Seq<u8>| parse_i64(r), t, n),
        ),
{
    let item = |r: Seq<u8>| parse_i64(r);
    assert forall|a: Seq<u8>, b: Seq<u8>| #[trigger] coherent(a, item(a), b, item(b)) by {
        lemma_i64_coherent(a, b);
    }
    lemma_repeat_coherent(item, s, t, n);
}

/// Reading single-precision bit patterns back to back is coherent.
proof fn lemma_floats_coherent(s: Seq<u8>, t: Seq<u8>, n: nat)
    ensures
        coherent(
            s,
            repeat(|r: Seq<u8>| parse_float(r), s, n),
            t,
            repeat(|r: Seq<u8>| parse_float(r), t, n),
        ),
{
    let item = |r: Seq<u8>| parse_float(r);
    assert forall|a: Seq<u8>, b: Seq<u8>| #[trigger] coherent(a, item(a), b, item(b)) by {
        lemma_float_coherent(a, b);
    }
    lemma_repeat_coherent(item, s, t, n);
}

/// Reading double-precision bit patterns back to back is coherent.
proof fn lemma_doubles_coherent(s: Seq<u8>, t: Seq<u8>, n: nat)
    ensures
        coherent(
            s,
            repeat(|r: Seq<u8>| parse_double(r), s, n),
            t,
            repeat(|r: Seq<u8>| parse_double(r), t, n),
        ),
{
    let item = |r: Seq<u8>| parse_double(r);
    assert forall|a: Seq<u8>, b: Seq<u8>| #[trigger] coherent(a, item(a), b, item(b)) by {
        lemma_double_coherent(a, b);
    }
    lemma_repeat_coherent(item, s, t, n);
}

/// Reading texts back to back is coherent.
proof fn lemma_texts_coherent(s: Seq<u8>, t: Seq<u8>, n: nat)
    ensures
        coherent(
            s,
            repeat(|r: Seq<u8>| parse_text(r), s, n),
            t,
            repeat(|r: Seq<u8>| parse_text(r), t, n),
        ),
{
    let item = |r: Seq<u8>| parse_text(r);
    assert forall|a: Seq<u8>, b: Seq<u8>| #[trigger] coherent(a, item(a), b, item(b)) by {
        lemma_text_coherent(a, b);
    }
    lemma_repeat_coherent(item, s, t, n);
}

/// Reading arrays of signed bytes back to back is coherent.
proof fn lemma_byte_arrays_coherent(s: Seq<u8>, t: Seq<u8>, n: nat)
    ensures
        coherent(
            s,
            repeat(|r: Seq<u8>| parse_byte_array(r), s, n),
            t,
            repeat(|r: Seq<u8>| parse_byte_array(r), t, n),
        ),
{
    let item = |r: Seq<u8>| parse_byte_array(r);
    assert forall|a: Seq<u8>, b: Seq<u8>| #[trigger] coherent(a, item(a), b, item(b)) by {
        lemma_byte_array_coherent(a, b);
    }
    lemma_repeat_coherent(item, s, t, n);
}

/// Reading arrays of signed 32-bit integers back to back is coherent.
proof fn lemma_int_arrays_coherent(s: Seq<u8>, t: Seq<u8>, n: nat)
    ensures
        coherent(
            s,
            repeat(|r: Seq<u8>| parse_int_array(r), s, n),
            t,
            repeat(|r: Seq<u8>| parse_int_array(r), t, n),
        ),
{
    let item = |r: Seq<u8>| parse_int_array(r);
    assert forall|a: Seq<u8>, b: Seq<u8>| #[trigger] coherent(a, item(a), b, item(b)) by {
        lemma_int_array_coherent(a, b);
    }
    lemma_repeat_coherent(item, s, t, n);
}

/// Reading arrays of signed 64-bit integers back to back is coherent.
proof fn lemma_long_arrays_coherent(s: Seq<u8>, t: Seq<u8>, n: nat)
    ensures
        coherent(
            s,
            repeat(|r: Seq<u8>| parse_long_array(r), s, n),
            t,
            repeat(|r: Seq<u8>| parse_long_array(r), t, n),
        ),
{
    let item = |r: Seq<u8>| parse_long_array(r);
    assert forall|a: Seq<u8>, b: Seq<u8>| #[trigger] coherent(a, item(a), b, item(b)) by {
        lemma_long_array_coherent(a, b);
    }
    lemma_repeat_coherent(item, s, t, n);
}

/// Reading the payload under a tag is coherent.
pub proof fn lemma_payload_coherent(tag: Tag, s: Seq<u8>, t: Seq<u8>, room: nat)
    ensures
        coherent(s, parse_payload(tag, s, room), t, parse_payload(tag, t, room)),
    decreases s.len(), 0nat, 1nat,
{
    match tag {
        Tag::End => {},
        Tag::Byte => {
            lemma_i8_coherent(s, t);
        },
        Tag::Short => {
            lemma_i16_coherent(s, t);
        },
        Tag::Int => {
            lemma_i32_coherent(s, t);
        },
        Tag::Long => {
            lemma_i64_coherent(s, t);
        },
        Tag::Float => {
            lemma_float_coherent(s, t);
        },
        Tag::Double => {
            lemma_double_coherent(s, t);
        },
        Tag::ByteArray => {
            lemma_byte_array_coherent(s, t);
        },
        Tag::Str => {
            lemma_text_coherent(s, t);
        },
        Tag::List => {
            if room > 0 {
                lemma_list_coherent(s, t, (room - 1) as nat);
            }
        },
        Tag::Compound => {
            if room > 0 {
                lemma_record_coherent(s, t, Map::empty(), (room - 1) as nat);
                lemma_wrapped_coherent(
                    s,
                    parse_record(s, Map::empty(), (room - 1) as nat),
                    t,
                    parse_record(t, Map::empty(), (room - 1) as nat),
                    |x: Record| Tree::Compound(x),
                );
            }
        },
        Tag::IntArray => {
            lemma_int_array_coherent(s, t);
        },
        Tag::LongArray => {
            lemma_long_array_coherent(s, t);
        },
    }
}

/// Reading a list payload is coherent.
pub proof fn lemma_list_coherent(s: Seq<u8>, t: Seq<u8>, room: nat)
    ensures
        coherent(s, parse_list(s, room), t, parse_list(t, room)),
    decreases s.len(), 0nat, 0nat,
{
    if parse_list(s, room) is Ok {
        let element = tag_of_byte(s[0])->Some_0;
        let count = parse_i32(s.skip(1))->Ok_0.0;
        let body = parse_i32(s.skip(1))->Ok_0.1;
        lemma_i32_coherent(s.skip(1), t.skip(1));
        lemma_behind_first_byte(s, t, parse_i32(s.skip(1)), parse_i32(t.skip(1)));
        let head_t = if t.len() < 1 {
            Err::<(i32, Seq<u8>), DecodeError>(DecodeError::UnexpectedEnd)
        } else {
            parse_i32(t.skip(1))
        };
        let body_t = t.skip(s.len() - body.len());
        lemma_elements_coherent(element, count, body, body_t, room);
        lemma_sequence(
            s,
            t,
            parse_i32(s.skip(1)),
            head_t,
            parse_elements(element, count, body, room),
            parse_elements(element, count, body_t, room),
        );
        let k = s.len() - parse_list(s, room)->Ok_0.1.len();
        if agrees(s, t, k) {
            lemma_agrees_first_byte(s, t, k);
        }
        if cut_short(s, t, k) && t.len() >= 1 {
            lemma_cut_first_byte(s, t, k);
        }
    }
}

/// Reading the elements of a list is coherent.
pub proof fn lemma_elements_coherent(
    element: Tag,
    count: i32,
    s: Seq<u8>,
    t: Seq<u8>,
    room: nat,
)
    ensures
        coherent(
            s,
            parse_elements(element, count, s, room),
            t,
            parse_elements(element, count, t, room),
        ),
    decreases s.len(), 1nat, 0nat,
{
    let n = announced(count);
    assert(s.skip(0) =~= s);
    assert(t.skip(0) =~= t);
    match element {
        Tag::End => {},
        Tag::Byte => {
            if count != 0 {
                lemma_i8s_coherent(s, t, n);
                lemma_wrapped_coherent(
                    s,
                    repeat(|r: Seq<u8>| parse_i8(r), s, n),
                    t,
                    repeat(|r: Seq<u8>| parse_i8(r), t, n),
                    |x: Seq<i8>| Tree::ByteList(x),
                );
            }
        },
        Tag::Short => {
            lemma_i16s_coherent(s, t, n);
            lemma_wrapped_coherent(
                s,
                repeat(|r: Seq<u8>| parse_i16(r), s, n),
                t,
                repeat(|r: Seq<u8>| parse_i16(r), t, n),
                |x: Seq<i16>| Tree::ShortList(x),
            );
        },
        Tag::Int => {
            lemma_i32s_coherent(s, t, n);
            lemma_wrapped_coherent(
                s,
                repeat(|r: Seq<u8>| parse_i32(r), s, n),
                t,
                repeat(|r: Seq<u8>| parse_i32(r), t, n),
                |x: Seq<i32>| Tree::IntList(x),
            );
        },
        Tag::Long => {
            lemma_i64s_coherent(s, t, n);
            lemma_wrapped_coherent(
                s,
                repeat(|r: Seq<u8>| parse_i64(r), s, n),
                t,
                repeat(|r: Seq<u8>| parse_i64(r), t, n),
                |x: Seq<i64>| Tree::LongList(x),
            );
        },
        Tag::Float => {
            lemma_floats_coherent(s, t, n);
            lemma_wrapped_coherent(
                s,
                repeat(|r: Seq<u8>| parse_float(r), s, n),
                t,
                repeat(|r: Seq<u8>| parse_float(r), t, n),
                |x: Seq<u32>| Tree::FloatList(x),
            );
        },
        Tag::Double => {
            lemma_doubles_coherent(s, t, n);
            lemma_wrapped_coherent(
                s,
                repeat(|r: Seq<u8>| parse_double(r), s, n),
                t,
                repeat(|r: Seq<u8>| parse_double(r), t, n),
                |x: Seq<u64>| Tree::DoubleList(x),
            );
        },
        Tag::ByteArray => {
            lemma_byte_arrays_coherent(s, t, n);
            lemma_wrapped_coherent(
                s,
                repeat(|r: Seq<u8>| parse_byte_array(r), s, n),
                t,
                repeat(|r: Seq<u8>| parse_byte_array(r), t, n),
                |x: Seq<Seq<i8>>| Tree::ByteArrayList(x),
            );
        },
        Tag::Str => {
            lemma_texts_coherent(s, t, n);
            lemma_wrapped_coherent(
                s,
                repeat(|r: Seq<u8>| parse_text(r), s, n),
                t,
                repeat(|r: Seq<u8>| parse_text(r), t, n),
                |x: Seq<Seq<char>>| Tree::StrList(x),
            );
        },
        Tag::List => {
            lemma_lists_coherent(s, t, n, room);
            lemma_wrapped_coherent(
                s,
                parse_lists(s, n, room),
                t,
                parse_lists(t, n, room),
                |x: Seq<Tree>| Tree::ListList(x),
            );
        },
        Tag::Compound => {
            lemma_records_coherent(s, t, n, room);
            lemma_wrapped_coherent(
                s,
                parse_records(s, n, room),
                t,
                parse_records(t, n, room),
                |x: Seq<Record>| Tree::CompoundList(x),
            );
        },
        Tag::IntArray => {
            lemma_int_arrays_coherent(s, t, n);
            lemma_wrapped_coherent(
                s,
                repeat(|r: Seq<u8>| parse_int_array(r), s, n),
                t,
                repeat(|r: Seq<u8>| parse_int_array(r), t, n),
                |x: Seq<Seq<i32>>| Tree::IntArrayList(x),
            );
        },
        Tag::LongArray => {
            lemma_long_arrays_coherent(s, t, n);
            lemma_wrapped_coherent(
                s,
                repeat(|r: Seq<u8>| parse_long_array(r), s, n),
                t,
                repeat(|r: Seq<u8>| parse_long_array(r), t, n),
                |x: Seq<Seq<i64>>| Tree::LongArrayList(x),
            );
        },
    }
}

/// Reading list payloads back to back is coherent.
pub proof fn lemma_lists_coherent(s: Seq<u8>, t: Seq<u8>, n: nat, room: nat)
    ensures
        coherent(s, parse_lists(s, n, room), t, parse_lists(t, n, room)),
    decreases s.len(), 0nat, n + 1,
{
    reveal_with_fuel(parse_lists, 2);
    if n == 0 {
        assert(s.skip(0) =~= s);
        assert(t.skip(0) =~= t);
    } else if room > 0 {
        let below = (room - 1) as nat;
        lemma_list_coherent(s, t, below);
        match parse_list(s, below) {
            Ok((first, r1)) => {
                let m = (n - 1) as nat;
                let t1 = t.skip(s.len() - r1.len());
                if r1.len() <= s.len() {
                    lemma_lists_coherent(r1, t1, m, room);
                    if parse_lists(r1, m, room) is Ok {
                        lemma_sequence(
                            s,
                            t,
                            parse_list(s, below),
                            parse_list(t, below),
                            parse_lists(r1, m, room),
                            parse_lists(t1, m, room),
                        );
                    }
                }
            },
            Err(_) => {},
        }
    }
}

/// Reading record payloads back to back is coherent.
pub proof fn lemma_records_coherent(s: Seq<u8>, t: Seq<u8>, n: nat, room: nat)
    ensures
        coherent(s, parse_records(s, n, room), t, parse_records(t, n, room)),
    decreases s.len(), 0nat, n + 1,
{
    reveal_with_fuel(parse_records, 2);
    if n == 0 {
        assert(s.skip(0) =~= s);
        assert(t.skip(0) =~= t);
    } else if room > 0 {
        let below = (room - 1) as nat;
        lemma_record_coherent(s, t, Map::empty(), below);
        match parse_record(s, Map::empty(), below) {
            Ok((first, r1)) => {
                let m = (n - 1) as nat;
                let t1 = t.skip(s.len() - r1.len());
                if r1.len() <= s.len() {
                    lemma_records_coherent(r1, t1, m, room);
                    if parse_records(r1, m, room) is Ok {
                        lemma_sequence(
                            s,
                            t,
                            parse_record(s, Map::empty(), below),
                            parse_record(t, Map::empty(), below),
                            parse_records(r1, m, room),
                            parse_records(t1, m, room),
                        );
                    }
                }
            },
            Err(_) => {},
        }
    }
}

/// Reading the name and the payload of a tagged entry is coherent.
pub proof fn lemma_entry_coherent(tag: Tag, s: Seq<u8>, t: Seq<u8>, room: nat)
    ensures
        coherent(s, parse_entry(tag, s, room), t, parse_entry(tag, t, room)),
    decreases s.len(), 0nat, 2nat,
{
    lemma_text_coherent(s, t);
    match parse_text(s) {
        Ok((name, after_name)) => {
            let t1 = t.skip(s.len() - after_name.len());
            if after_name.len() < s.len() {
                lemma_payload_coherent(tag, after_name, t1, room);
                if parse_payload(tag, after_name, room) is Ok {
                    lemma_sequence(
                        s,
                        t,
                        parse_text(s),
                        parse_text(t),
                        parse_payload(tag, after_name, room),
                        parse_payload(tag, t1, room),
                    );
                }
            }
        },
        Err(_) => {},
    }
}

/// Reading a record payload is coherent, whatever was read into the record before.
pub proof fn lemma_record_coherent(s: Seq<u8>, t: Seq<u8>, fields: Record, room: nat)
    ensures
        coherent(s, parse_record(s, fields, room), t, parse_record(t, fields, room)),
    decreases s.len(), 0nat, 0nat,
{
    reveal_with_fuel(parse_record, 2);
    if parse_record(s, fields, room) is Ok {
        let tag = tag_of_byte(s[0])->Some_0;
        if tag == Tag::End {
            if agrees(s, t, 1) {
                lemma_agrees_first_byte(s, t, 1);
            }
        } else {
            let entry_s = parse_entry(tag, s.skip(1), room);
            let name = entry_s->Ok_0.0.0;
            let value = entry_s->Ok_0.0.1;
            let rest = entry_s->Ok_0.1;
            let more = fields.insert(name, value);
            lemma_entry_coherent(tag, s.skip(1), t.skip(1), room);
            lemma_behind_first_byte(s, t, entry_s, parse_entry(tag, t.skip(1), room));
            let entry_t = if t.len() < 1 {
                Err::<((Seq<char>, Tree), Seq<u8>), DecodeError>(DecodeError::UnexpectedEnd)
            } else {
                parse_entry(tag, t.skip(1), room)
            };
            let t1 = t.skip(s.len() - rest.len());
            lemma_record_coherent(rest, t1, more, room);
            lemma_sequence(
                s,
                t,
                entry_s,
                entry_t,
                parse_record(rest, more, room),
                parse_record(t1, more, room),
            );
            let k = s.len() - parse_record(s, fields, room)->Ok_0.1.len();
            if agrees(s, t, k) {
                lemma_agrees_first_byte(s, t, k);
            }
            if cut_short(s, t, k) && t.len() >= 1 {
                lemma_cut_first_byte(s, t, k);
            }
        }
    }
}

/// A payload that was read took at least one byte off the front of the stream, and left
/// the stream behind those bytes.
pub proof fn lemma_payload_consumes(tag: Tag, s: Seq<u8>, room: nat)
    requires
        parse_payload(tag, s, room) is Ok,
    ensures
        parse_payload(tag, s, room)->Ok_0.1.len() < s.len(),
        parse_payload(tag, s, room)->Ok_0.1 == s.skip(
            s.len() - parse_payload(tag, s, room)->Ok_0.1.len(),
        ),
{
    let nothing = Seq::<u8>::empty();
    lemma_payload_coherent(tag, s, nothing, room);
    lemma_nothing_to_read(tag, room);
    let k = s.len() - parse_payload(tag, s, room)->Ok_0.1.len();
    if k == 0 {
        assert(nothing.take(0) =~= s.take(0));
    }
}

/// The readers that the grammar calls one after another each leave less than they were
/// given: the tests on lengths in the grammar of lists, records and the top level never
/// fail.
pub proof fn lemma_readers_consume(tag: Tag, s: Seq<u8>, fields: Record, room: nat)
    ensures
        parse_list(s, room) is Ok ==> parse_list(s, room)->Ok_0.1.len() < s.len(),
        parse_record(s, fields, room) is Ok ==> parse_record(s, fields, room)->Ok_0.1.len()
            < s.len(),
        parse_entry(tag, s, room) is Ok ==> parse_entry(tag, s, room)->Ok_0.1.len() < s.len(),
{
    if parse_list(s, room) is Ok {
        let element = tag_of_byte(s[0])->Some_0;
        let count = parse_i32(s.skip(1))->Ok_0.0;
        let body = parse_i32(s.skip(1))->Ok_0.1;
        lemma_elements_coherent(element, count, body, body, room);
    }
    if parse_record(s, fields, room) is Ok {
        let nothing = Seq::<u8>::empty();
        lemma_record_coherent(s, nothing, fields, room);
        assert(parse_record(nothing, fields, room) is Err);
        if parse_record(s, fields, room)->Ok_0.1.len() == s.len() {
            assert(nothing.take(0) =~= s.take(0));
        }
    }
    if parse_entry(tag, s, room) is Ok {
        let after_name = parse_text(s)->Ok_0.1;
        lemma_payload_coherent(tag, after_name, after_name, room);
    }
}

/// No payload can be read from a stream without a single byte.
proof fn lemma_nothing_to_read(tag: Tag, room: nat)
    ensures
        parse_payload(tag, Seq::<u8>::empty(), room) is Err,
{
}

/// What a payload reads as depends on the bytes it consumes alone: with anything else
/// behind them in place of the rest, the same value is read and that is left.
pub proof fn lemma_payload_ignores_what_follows(
    tag: Tag,
    s: Seq<u8>,
    other: Seq<u8>,
    room: nat,
)
    requires
        parse_payload(tag, s, room) is Ok,
    ensures
        ({
            let value = parse_payload(tag, s, room)->Ok_0.0;
            let k = s.len() - parse_payload(tag, s, room)->Ok_0.1.len();
            parse_payload(tag, s.take(k) + other, room) == Ok::<(Tree, Seq<u8>), DecodeError>(
                (value, other),
            )
        }),
{
    let k = s.len() - parse_payload(tag, s, room)->Ok_0.1.len();
    let t = s.take(k) + other;
    lemma_payload_coherent(tag, s, t, room);
    assert(t.take(k) =~= s.take(k));
    assert(t.skip(k) =~= other);
}

/// A stream that breaks off inside a payload cannot be read as that payload: the reader
/// meets the end of the stream, wherever inside the payload the break is.
pub proof fn lemma_truncated_payload(tag: Tag, s: Seq<u8>, j: int, room: nat)
    requires
        parse_payload(tag, s, room) is Ok,
        0 <= j < s.len() - parse_payload(tag, s, room)->Ok_0.1.len(),
    ensures
        parse_payload(tag, s.take(j), room) == Err::<(Tree, Seq<u8>), DecodeError>(
            DecodeError::UnexpectedEnd,
        ),
{
    lemma_payload_coherent(tag, s, s.take(j), room);
    assert(s.take(j).len() == j);
}

/// A stream that breaks off inside a tagged entry, behind its tag byte, cannot be
/// decoded: at the top level and inside a record, the reader meets the end of the
/// stream.
pub proof fn lemma_truncated_entry(s: Seq<u8>, fields: Record, j: int, room: nat)
    requires
        s.len() >= 1,
        tag_of_byte(s[0]) is Some,
        tag_of_byte(s[0]) != Some(Tag::End),
        parse_entry(tag_of_byte(s[0])->Some_0, s.skip(1), room) is Ok,
        1 <= j < s.len() - parse_entry(tag_of_byte(s[0])->Some_0, s.skip(1), room)->Ok_0.1.len(),
    ensures
        parse_root(s.take(j), fields, room) == Err::<Record, DecodeError>(
            DecodeError::UnexpectedEnd,
        ),
        parse_record(s.take(j), fields, room) == Err::<(Record, Seq<u8>), DecodeError>(
            DecodeError::UnexpectedEnd,
        ),
{
    let tag = tag_of_byte(s[0])->Some_0;
    let t = s.take(j);
    lemma_entry_coherent(tag, s.skip(1), t.skip(1), room);
    assert(t.skip(1) =~= s.skip(1).take(j - 1));
    assert(t[0] == s[0]);
}

/// A stream that decodes, broken off anywhere, decodes as well (when the break is
/// between two entries of the top level) or ends too early; it gives no other error.
pub proof fn lemma_truncated_stream(s: Seq<u8>, fields: Record, j: int, room: nat)
    requires
        parse_root(s, fields, room) is Ok,
        0 <= j <= s.len(),
    ensures
        parse_root(s.take(j), fields, room) is Ok || parse_root(s.take(j), fields, room)
            == Err::<Record, DecodeError>(DecodeError::UnexpectedEnd),
    decreases s.len(),
{
    reveal_with_fuel(parse_root, 2);
    let t = s.take(j);
    if j >= 1 {
        assert(t[0] == s[0]);
        let tag = tag_of_byte(s[0])->Some_0;
        if tag == Tag::End {
            assert(t.skip(1) =~= s.skip(1).take(j - 1));
            lemma_truncated_stream(s.skip(1), fields, j - 1, room);
        } else {
            let entry = parse_entry(tag, s.skip(1), room);
            let rest = entry->Ok_0.1;
            let k = s.len() - rest.len();
            let more = fields.insert(entry->Ok_0.0.0, entry->Ok_0.0.1);
            lemma_entry_coherent(tag, s.skip(1), t.skip(1), room);
            assert(t.skip(1) =~= s.skip(1).take(j - 1));
            if j >= k {
                assert(t.skip(1).take(k - 1) =~= s.skip(1).take(k - 1));
                assert(t.skip(1).skip(k - 1) =~= rest.take(j - k));
                lemma_truncated_stream(rest, more, j - k, room);
            }
        }
    }
}

} // verus!
