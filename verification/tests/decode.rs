use raw_nbt::decode::{parse, parse_within, DecodeError, Parser, Tag, MAX_DEPTH};
use raw_nbt::{Compound, Value};

fn root_of(bytes: &[u8]) -> Compound {
    match parse(bytes) {
        Ok(Value::Compound(fields)) => fields,
        Ok(other) => panic!("the root is a record, not {:?}", other),
        Err(e) => panic!("decoding failed: {:?}", e),
    }
}

/// One top-level entry named "v" with the given tag and payload.
fn entry(tag: u8, payload: &[u8]) -> Vec<u8> {
    let mut bytes = vec![tag, 0x00, 0x01, b'v'];
    bytes.extend_from_slice(payload);
    bytes
}

/// The value of the only top-level entry of a stream made by `entry`.
fn value_of(tag: u8, payload: &[u8]) -> Value {
    let root = root_of(&entry(tag, payload));
    assert_eq!(root.len(), 1);
    root.get("v").expect("the entry is named v").clone()
}

fn error_of(tag: u8, payload: &[u8]) -> DecodeError {
    parse(&entry(tag, payload)).unwrap_err()
}

#[test]
fn empty_stream_is_an_empty_record() {
    let root = root_of(&[]);
    assert!(root.is_empty());
    assert_eq!(root.len(), 0);
    assert_eq!(parse(&[]).unwrap(), Value::Compound(Compound::new()));
}

#[test]
fn tag_bytes_stand_for_tags() {
    let tags = [
        Tag::End,
        Tag::Byte,
        Tag::Short,
        Tag::Int,
        Tag::Long,
        Tag::Float,
        Tag::Double,
        Tag::ByteArray,
        Tag::Str,
        Tag::List,
        Tag::Compound,
        Tag::IntArray,
        Tag::LongArray,
    ];
    for (b, tag) in tags.iter().enumerate() {
        assert_eq!(Tag::from_byte(b as u8), Ok(*tag));
    }
    for b in 13..=255u8 {
        assert_eq!(Tag::from_byte(b), Err(DecodeError::UnknownTag(b)));
    }
}

#[test]
fn unknown_top_level_tag() {
    assert_eq!(parse(&[13]).unwrap_err(), DecodeError::UnknownTag(13));
    assert_eq!(parse(&[0xFF, 0x00, 0x00]).unwrap_err(), DecodeError::UnknownTag(0xFF));
}

#[test]
fn unknown_tag_is_told_before_the_name_is_read() {
    // The name that would follow is cut short; the tag decides.
    assert_eq!(parse(&[13, 0x00]).unwrap_err(), DecodeError::UnknownTag(13));
}

#[test]
fn unknown_tag_inside_a_record() {
    let bytes = [0x0A, 0x00, 0x00, 0x0D, 0x00, 0x00, 0x00];
    assert_eq!(parse(&bytes).unwrap_err(), DecodeError::UnknownTag(13));
}

#[test]
fn unknown_element_tag_of_a_list() {
    assert_eq!(error_of(9, &[0x0D, 0, 0, 0, 0]), DecodeError::UnknownTag(13));
    // The count that would follow is missing; the tag decides.
    assert_eq!(error_of(9, &[0x63]), DecodeError::UnknownTag(0x63));
}

#[test]
fn terminator_at_the_top_level_is_passed_over() {
    let mut bytes = vec![0x00];
    bytes.extend_from_slice(&entry(1, &[7]));
    bytes.push(0x00);
    bytes.push(0x00);
    let root = root_of(&bytes);
    assert_eq!(root.len(), 1);
    assert_eq!(root.get("v"), Some(&Value::Byte(7)));
    assert!(root_of(&[0x00]).is_empty());
}

#[test]
fn record_with_one_byte_field() {
    // compound, empty name; inside it: byte, name "x", 42; terminator
    let bytes = [0x0A, 0x00, 0x00, 0x01, 0x00, 0x01, 0x78, 0x2A, 0x00];
    let root = root_of(&bytes);
    assert_eq!(root.len(), 1);
    let mut inner = Compound::new();
    inner.insert("x".to_string(), Value::Byte(42));
    assert_eq!(root.get(""), Some(&Value::Compound(inner)));
    let x = parse(&bytes).unwrap().get("").unwrap().get("x").unwrap().byte().unwrap();
    assert_eq!(x, 42);
}

#[test]
fn name_length_counts_bytes_of_the_name() {
    // As above, but the length of the inner name says 3: the name is then "x\0*", the
    // byte that follows is the value 0, and the record is never closed.
    let bytes = [0x0A, 0x00, 0x00, 0x01, 0x00, 0x03, 0x78, 0x00, 0x2A, 0x00];
    assert_eq!(parse(&bytes).unwrap_err(), DecodeError::UnexpectedEnd);
    // Closed, it decodes.
    let mut closed = bytes.to_vec();
    closed.push(0x00);
    let root = root_of(&closed);
    let inner = root.get("").unwrap().compound().unwrap();
    assert_eq!(inner.len(), 1);
    assert_eq!(inner.get("x\u{0}*"), Some(&Value::Byte(0)));
}

#[test]
fn top_level_entries_gather_into_one_record() {
    let mut bytes = Vec::new();
    bytes.extend_from_slice(&[0x01, 0x00, 0x01, b'a', 0x01]);
    bytes.extend_from_slice(&[0x02, 0x00, 0x01, b'b', 0x00, 0x02]);
    bytes.extend_from_slice(&[0x08, 0x00, 0x01, b'c', 0x00, 0x02, b'h', b'i']);
    let root = root_of(&bytes);
    assert_eq!(root.len(), 3);
    assert_eq!(root.get("a"), Some(&Value::Byte(1)));
    assert_eq!(root.get("b"), Some(&Value::Short(2)));
    assert_eq!(root.get("c"), Some(&Value::Str("hi".to_string())));
    assert_eq!(root.get("d"), None);
}

#[test]
fn signed_integers_are_big_endian_twos_complement() {
    assert_eq!(value_of(1, &[0x7F]), Value::Byte(127));
    assert_eq!(value_of(1, &[0x80]), Value::Byte(-128));
    assert_eq!(value_of(1, &[0xFF]), Value::Byte(-1));
    assert_eq!(value_of(2, &[0x01, 0x02]), Value::Short(0x0102));
    assert_eq!(value_of(2, &[0xFF, 0xFE]), Value::Short(-2));
    assert_eq!(value_of(2, &[0x80, 0x00]), Value::Short(i16::MIN));
    assert_eq!(value_of(3, &[0x01, 0x02, 0x03, 0x04]), Value::Int(0x0102_0304));
    assert_eq!(value_of(3, &[0xFF, 0xFF, 0xFF, 0xFF]), Value::Int(-1));
    assert_eq!(value_of(3, &[0x80, 0x00, 0x00, 0x00]), Value::Int(i32::MIN));
    assert_eq!(value_of(3, &[0x7F, 0xFF, 0xFF, 0xFF]), Value::Int(i32::MAX));
    assert_eq!(
        value_of(4, &[0x01, 0x02, 0x03, 0x04, 0x05, 0x06, 0x07, 0x08]),
        Value::Long(0x0102_0304_0506_0708)
    );
    assert_eq!(value_of(4, &[0xFF; 8]), Value::Long(-1));
    assert_eq!(value_of(4, &[0x80, 0, 0, 0, 0, 0, 0, 0]), Value::Long(i64::MIN));
    assert_eq!(
        value_of(4, &[0x7F, 0xFF, 0xFF, 0xFF, 0xFF, 0xFF, 0xFF, 0xFF]),
        Value::Long(i64::MAX)
    );
}

#[test]
fn floating_point_numbers_keep_their_bit_pattern() {
    let bits = value_of(5, &[0x3F, 0xC0, 0x00, 0x00]).float().unwrap();
    assert_eq!(bits, 0x3FC0_0000);
    assert_eq!(f32::from_bits(bits), 1.5f32);
    let bits = value_of(6, &[0xC0, 0x04, 0x00, 0x00, 0x00, 0x00, 0x00, 0x00]).double().unwrap();
    assert_eq!(bits, 0xC004_0000_0000_0000);
    assert_eq!(f64::from_bits(bits), -2.5f64);
    // A NaN is kept bit for bit.
    let nan = value_of(5, &[0x7F, 0xC0, 0x12, 0x34]);
    assert_eq!(nan, Value::Float(0x7FC0_1234));
    assert!(f32::from_bits(nan.float().unwrap()).is_nan());
}

#[test]
fn arrays_are_a_count_and_items() {
    assert_eq!(value_of(7, &[0, 0, 0, 3, 1, 0xFF, 0x80]), Value::ByteArray(vec![1, -1, -128]));
    assert_eq!(value_of(7, &[0, 0, 0, 0]), Value::ByteArray(vec![]));
    assert_eq!(
        value_of(11, &[0, 0, 0, 2, 0, 0, 0, 1, 0xFF, 0xFF, 0xFF, 0xFE]),
        Value::IntArray(vec![1, -2])
    );
    assert_eq!(
        value_of(12, &[0, 0, 0, 1, 0xFF, 0xFF, 0xFF, 0xFF, 0xFF, 0xFF, 0xFF, 0xFD]),
        Value::LongArray(vec![-3])
    );
}

#[test]
fn negative_count_announces_no_item() {
    assert_eq!(value_of(7, &[0xFF, 0xFF, 0xFF, 0xFF]), Value::ByteArray(vec![]));
    assert_eq!(value_of(11, &[0x80, 0, 0, 0]), Value::IntArray(vec![]));
    assert_eq!(value_of(9, &[2, 0xFF, 0xFF, 0xFF, 0xFF]), Value::ShortList(vec![]));
    assert_eq!(value_of(9, &[1, 0xFF, 0xFF, 0xFF, 0xFF]), Value::ByteList(vec![]));
    assert_eq!(value_of(9, &[9, 0xFF, 0xFF, 0xFF, 0xFF]), Value::ListList(vec![]));
}

#[test]
fn count_larger_than_the_stream_ends_early() {
    assert_eq!(error_of(7, &[0x7F, 0xFF, 0xFF, 0xFF, 1, 2, 3]), DecodeError::UnexpectedEnd);
    assert_eq!(error_of(9, &[10, 0x7F, 0xFF, 0xFF, 0xFF]), DecodeError::UnexpectedEnd);
}

#[test]
fn strings_are_utf8() {
    assert_eq!(value_of(8, &[0, 0]), Value::Str(String::new()));
    assert_eq!(value_of(8, &[0, 5, b'h', b'e', b'l', b'l', b'o']), Value::Str("hello".into()));
    // two bytes for one character, three for the next, four for the last
    let bytes = [0, 9, 0xC3, 0xA9, 0xE2, 0x82, 0xAC, 0xF0, 0x9F, 0x98, 0x80];
    let text = value_of(8, &bytes);
    assert_eq!(text.str().unwrap(), "\u{e9}\u{20ac}\u{1f600}");
    assert_eq!(text.str().unwrap().chars().count(), 3);
}

#[test]
fn invalid_utf8_is_an_error() {
    assert_eq!(error_of(8, &[0, 1, 0xFF]), DecodeError::InvalidUTF8);
    assert_eq!(error_of(8, &[0, 2, 0xC3, 0x28]), DecodeError::InvalidUTF8);
    // an overlong form and a surrogate
    assert_eq!(error_of(8, &[0, 2, 0xC0, 0x80]), DecodeError::InvalidUTF8);
    assert_eq!(error_of(8, &[0, 3, 0xED, 0xA0, 0x80]), DecodeError::InvalidUTF8);
    // a character cut in two by the length
    assert_eq!(error_of(8, &[0, 1, 0xC3, 0xA9]), DecodeError::InvalidUTF8);
    // in a name
    assert_eq!(parse(&[1, 0, 1, 0x80, 5]).unwrap_err(), DecodeError::InvalidUTF8);
    // in a list of strings
    assert_eq!(error_of(9, &[8, 0, 0, 0, 1, 0, 1, 0xFF]), DecodeError::InvalidUTF8);
}

#[test]
fn the_end_of_the_stream_comes_before_the_text_is_judged() {
    assert_eq!(error_of(8, &[0, 3, 0xFF]), DecodeError::UnexpectedEnd);
}

#[test]
fn terminator_tagged_list_is_the_list_of_nothing() {
    assert_eq!(value_of(9, &[0, 0, 0, 0, 0]), Value::EndList);
    assert_eq!(value_of(9, &[0, 0, 0, 0, 5]), Value::EndList);
    assert_eq!(value_of(9, &[0, 0x7F, 0xFF, 0xFF, 0xFF]), Value::EndList);
    assert_eq!(value_of(9, &[0, 0xFF, 0xFF, 0xFF, 0xFF]), Value::EndList);
    // No element is read: what follows is the next entry.
    let mut bytes = entry(9, &[0, 0, 0, 0, 2]);
    bytes.extend_from_slice(&[1, 0, 1, b'w', 9]);
    let root = root_of(&bytes);
    assert_eq!(root.len(), 2);
    assert_eq!(root.get("v"), Some(&Value::EndList));
    assert_eq!(root.get("w"), Some(&Value::Byte(9)));
}

#[test]
fn empty_byte_list_is_the_empty_list_of_any_kind() {
    let empty = value_of(9, &[1, 0, 0, 0, 0]);
    assert_eq!(empty, Value::EmptyByteList);
    assert_ne!(empty, Value::ByteList(vec![]));
    assert_ne!(empty, Value::EndList);
    assert!(empty.byte_list().unwrap().is_empty());
    assert!(empty.short_list().unwrap().is_empty());
    assert!(empty.int_list().unwrap().is_empty());
    assert!(empty.long_list().unwrap().is_empty());
    assert!(empty.float_list().unwrap().is_empty());
    assert!(empty.double_list().unwrap().is_empty());
    assert!(empty.byte_array_list().unwrap().is_empty());
    assert!(empty.str_list().unwrap().is_empty());
    assert!(empty.list_list().unwrap().is_empty());
    assert!(empty.compound_list().unwrap().is_empty());
    assert!(empty.int_array_list().unwrap().is_empty());
    assert!(empty.long_array_list().unwrap().is_empty());
}

#[test]
fn lists_of_numbers() {
    assert_eq!(value_of(9, &[1, 0, 0, 0, 2, 5, 0xFB]), Value::ByteList(vec![5, -5]));
    assert_eq!(value_of(9, &[2, 0, 0, 0, 2, 0, 1, 0xFF, 0xFF]), Value::ShortList(vec![1, -1]));
    assert_eq!(value_of(9, &[2, 0, 0, 0, 0]), Value::ShortList(vec![]));
    assert_eq!(value_of(9, &[3, 0, 0, 0, 1, 0, 0, 1, 0]), Value::IntList(vec![256]));
    assert_eq!(
        value_of(9, &[4, 0, 0, 0, 1, 0, 0, 0, 0, 0, 0, 0, 9]),
        Value::LongList(vec![9])
    );
    assert_eq!(
        value_of(9, &[5, 0, 0, 0, 2, 0x3F, 0x80, 0, 0, 0xBF, 0x80, 0, 0]),
        Value::FloatList(vec![1.0f32.to_bits(), (-1.0f32).to_bits()])
    );
    assert_eq!(
        value_of(9, &[6, 0, 0, 0, 1, 0x40, 0x09, 0x21, 0xFB, 0x54, 0x44, 0x2D, 0x18]),
        Value::DoubleList(vec![std::f64::consts::PI.to_bits()])
    );
}

#[test]
fn lists_of_arrays_and_strings() {
    assert_eq!(
        value_of(9, &[7, 0, 0, 0, 2, 0, 0, 0, 1, 9, 0, 0, 0, 0]),
        Value::ByteArrayList(vec![vec![9], vec![]])
    );
    assert_eq!(
        value_of(9, &[8, 0, 0, 0, 2, 0, 1, b'a', 0, 2, b'b', b'c']),
        Value::StrList(vec!["a".to_string(), "bc".to_string()])
    );
    assert_eq!(
        value_of(9, &[11, 0, 0, 0, 1, 0, 0, 0, 2, 0, 0, 0, 1, 0, 0, 0, 2]),
        Value::IntArrayList(vec![vec![1, 2]])
    );
    assert_eq!(
        value_of(9, &[12, 0, 0, 0, 1, 0, 0, 0, 1, 0, 0, 0, 0, 0, 0, 0, 3]),
        Value::LongArrayList(vec![vec![3]])
    );
}

#[test]
fn lists_of_lists_and_of_records() {
    let lists = value_of(
        9,
        &[9, 0, 0, 0, 3, 2, 0, 0, 0, 1, 0, 7, 0, 0, 0, 0, 9, 1, 0, 0, 0, 0],
    );
    assert_eq!(
        lists,
        Value::ListList(vec![Value::ShortList(vec![7]), Value::EndList, Value::EmptyByteList])
    );
    let records = value_of(9, &[10, 0, 0, 0, 2, 1, 0, 1, b'k', 3, 0, 0]);
    let mut first = Compound::new();
    first.insert("k".to_string(), Value::Byte(3));
    assert_eq!(records, Value::CompoundList(vec![first, Compound::new()]));
}

#[test]
fn records_nest() {
    let bytes = [
        0x0A, 0, 1, b'a', // record a
        0x0A, 0, 1, b'b', // record b in a
        0x03, 0, 1, b'n', 0, 0, 0, 5, // int n in b
        0x00, // end of b
        0x01, 0, 1, b'c', 1, // byte c in a
        0x00, // end of a
    ];
    let root = parse(&bytes).unwrap();
    assert_eq!(root.get("a").unwrap().get("b").unwrap().get("n").unwrap().int32().unwrap(), 5);
    assert_eq!(root.get("a").unwrap().get("c").unwrap().byte().unwrap(), 1);
    assert_eq!(root.get("a").unwrap().compound().unwrap().len(), 2);
}

#[test]
fn of_two_entries_with_one_name_the_second_stays() {
    let bytes = [
        0x0A, 0, 0, // unnamed record
        0x01, 0, 1, b'k', 1, // byte k = 1
        0x03, 0, 1, b'k', 0, 0, 0, 2, // int k = 2
        0x00,
    ];
    let root = root_of(&bytes);
    let inner = root.get("").unwrap().compound().unwrap();
    assert_eq!(inner.len(), 1);
    assert_eq!(inner.get("k"), Some(&Value::Int(2)));
    // the same at the top level, with another entry between the two
    let bytes = [1, 0, 1, b'k', 1, 1, 0, 1, b'j', 5, 1, 0, 1, b'k', 3];
    let root = root_of(&bytes);
    assert_eq!(root.len(), 2);
    assert_eq!(root.get("k"), Some(&Value::Byte(3)));
    assert_eq!(root.get("j"), Some(&Value::Byte(5)));
}

#[test]
fn a_record_must_be_closed() {
    assert_eq!(parse(&[0x0A, 0, 0]).unwrap_err(), DecodeError::UnexpectedEnd);
    assert_eq!(parse(&[0x0A, 0, 0, 1, 0, 1, b'x', 1]).unwrap_err(), DecodeError::UnexpectedEnd);
}

#[test]
fn every_cut_inside_an_entry_ends_early() {
    let payloads: Vec<(u8, Vec<u8>)> = vec![
        (1, vec![1]),
        (2, vec![1, 2]),
        (3, vec![1, 2, 3, 4]),
        (4, vec![1, 2, 3, 4, 5, 6, 7, 8]),
        (5, vec![1, 2, 3, 4]),
        (6, vec![1, 2, 3, 4, 5, 6, 7, 8]),
        (7, vec![0, 0, 0, 2, 1, 2]),
        (8, vec![0, 3, b'a', b'b', b'c']),
        (9, vec![3, 0, 0, 0, 2, 0, 0, 0, 1, 0, 0, 0, 2]),
        (9, vec![8, 0, 0, 0, 2, 0, 1, b'a', 0, 1, b'b']),
        (9, vec![9, 0, 0, 0, 2, 1, 0, 0, 0, 1, 4, 0, 0, 0, 0, 0]),
        (9, vec![10, 0, 0, 0, 2, 1, 0, 1, b'k', 3, 0, 0]),
        (10, vec![8, 0, 1, b's', 0, 1, b't', 9, 0, 1, b'l', 0, 0, 0, 0, 0, 0]),
        (11, vec![0, 0, 0, 1, 1, 2, 3, 4]),
        (12, vec![0, 0, 0, 1, 1, 2, 3, 4, 5, 6, 7, 8]),
    ];
    for (tag, payload) in payloads {
        let whole = entry(tag, &payload);
        assert!(parse(&whole).is_ok(), "tag {} decodes", tag);
        for cut in 1..whole.len() {
            assert_eq!(
                parse(&whole[..cut]).unwrap_err(),
                DecodeError::UnexpectedEnd,
                "tag {} cut at {}",
                tag,
                cut
            );
        }
    }
}

#[test]
fn a_cut_between_top_level_entries_is_a_regular_end() {
    let mut bytes = entry(1, &[1]);
    let first = bytes.len();
    bytes.extend_from_slice(&[2, 0, 1, b'w', 0, 2]);
    for cut in 0..=bytes.len() {
        match parse(&bytes[..cut]) {
            Ok(Value::Compound(fields)) => {
                assert!(cut == 0 || cut == first || cut == bytes.len());
                let expected = if cut == 0 { 0 } else if cut == first { 1 } else { 2 };
                assert_eq!(fields.len(), expected);
            },
            Ok(_) => panic!("the root is a record"),
            Err(e) => assert_eq!(e, DecodeError::UnexpectedEnd),
        }
    }
}

#[test]
fn what_follows_an_entry_does_not_change_it() {
    let mut bytes = entry(9, &[2, 0, 0, 0, 1, 0, 7]);
    let alone = root_of(&bytes);
    bytes.extend_from_slice(&[1, 0, 1, b'w', 1]);
    let followed = root_of(&bytes);
    assert_eq!(alone.get("v"), followed.get("v"));
    assert_eq!(followed.get("v"), Some(&Value::ShortList(vec![7])));
}

#[test]
fn a_parser_reads_its_stream_once() {
    let bytes = entry(1, &[1]);
    let mut parser = Parser::new(&bytes);
    let first = parser.parse().unwrap();
    assert_eq!(first.get("v").unwrap(), &Value::Byte(1));
    // Nothing is left: the rest decodes to the empty record.
    assert_eq!(parser.parse().unwrap(), Value::Compound(Compound::new()));
}

/// An entry "v" that holds `depth` records, one in the other, the innermost empty.
fn nested_records(depth: usize) -> Vec<u8> {
    let mut bytes = Vec::new();
    for _ in 0..depth {
        bytes.extend_from_slice(&[10, 0, 1, b'v']);
    }
    for _ in 0..depth {
        bytes.push(0);
    }
    bytes
}

/// An entry "v" that holds `depth` lists, one in the other, the innermost a list of one
/// byte.
fn nested_lists(depth: usize) -> Vec<u8> {
    let mut bytes = vec![9, 0, 1, b'v'];
    for _ in 1..depth {
        bytes.extend_from_slice(&[9, 0, 0, 0, 1]);
    }
    bytes.extend_from_slice(&[1, 0, 0, 0, 1, 7]);
    bytes
}

fn depth_of(value: &Value) -> usize {
    match value {
        Value::Compound(fields) => {
            1 + fields.entries().iter().map(|e| depth_of(&e.1)).max().unwrap_or(0)
        },
        Value::ListList(items) => 1 + items.iter().map(depth_of).max().unwrap_or(0),
        Value::CompoundList(items) => {
            1 + items
                .iter()
                .map(|c| 1 + c.entries().iter().map(|e| depth_of(&e.1)).max().unwrap_or(0))
                .max()
                .unwrap_or(0)
        },
        Value::EndList
        | Value::EmptyByteList
        | Value::ByteList(_)
        | Value::ShortList(_)
        | Value::IntList(_)
        | Value::LongList(_)
        | Value::FloatList(_)
        | Value::DoubleList(_)
        | Value::ByteArrayList(_)
        | Value::StrList(_)
        | Value::IntArrayList(_)
        | Value::LongArrayList(_) => 1,
        _ => 0,
    }
}

#[test]
fn scalars_need_no_depth() {
    let mut bytes = entry(1, &[1]);
    bytes.extend_from_slice(&[8, 0, 1, b's', 0, 1, b'x']);
    bytes.extend_from_slice(&[7, 0, 1, b'a', 0, 0, 0, 1, 9]);
    let root = parse_within(&bytes, 0).unwrap();
    assert_eq!(root.compound().unwrap().len(), 3);
    assert!(parse_within(&[], 0).unwrap().compound().unwrap().is_empty());
}

#[test]
fn a_list_or_a_record_takes_one_level() {
    let list = entry(9, &[1, 0, 0, 0, 1, 7]);
    assert_eq!(parse_within(&list, 0), Err(DecodeError::TooDeep));
    assert!(parse_within(&list, 1).is_ok());
    let empty_list = entry(9, &[0, 0, 0, 0, 0]);
    assert_eq!(parse_within(&empty_list, 0), Err(DecodeError::TooDeep));
    assert_eq!(parse_within(&empty_list, 1).unwrap().get("v").unwrap(), &Value::EndList);
    let record = entry(10, &[0]);
    assert_eq!(parse_within(&record, 0), Err(DecodeError::TooDeep));
    assert!(parse_within(&record, 1).is_ok());
}

#[test]
fn elements_that_are_lists_or_records_take_one_level_more() {
    let lists = entry(9, &[9, 0, 0, 0, 1, 1, 0, 0, 0, 0]);
    assert_eq!(parse_within(&lists, 1), Err(DecodeError::TooDeep));
    assert_eq!(
        parse_within(&lists, 2).unwrap().get("v").unwrap(),
        &Value::ListList(vec![Value::EmptyByteList])
    );
    let records = entry(9, &[10, 0, 0, 0, 1, 0]);
    assert_eq!(parse_within(&records, 1), Err(DecodeError::TooDeep));
    assert_eq!(
        parse_within(&records, 2).unwrap().get("v").unwrap(),
        &Value::CompoundList(vec![Compound::new()])
    );
    // Where no element is announced, none is too deep.
    let no_lists = entry(9, &[9, 0, 0, 0, 0]);
    assert_eq!(parse_within(&no_lists, 1).unwrap().get("v").unwrap(), &Value::ListList(vec![]));
    let no_records = entry(9, &[10, 0xFF, 0xFF, 0xFF, 0xFF]);
    assert_eq!(
        parse_within(&no_records, 1).unwrap().get("v").unwrap(),
        &Value::CompoundList(vec![])
    );
}

#[test]
fn too_deep_is_told_before_the_nested_value_is_read() {
    // the record that is too deep is cut short, and in a list it has an unknown tag
    assert_eq!(parse_within(&[10, 0, 1, b'v'], 0), Err(DecodeError::TooDeep));
    assert_eq!(parse_within(&entry(9, &[10, 0, 0, 0, 1, 0xFF]), 1), Err(DecodeError::TooDeep));
    // the name of the entry comes first
    assert_eq!(parse_within(&[10, 0, 9, b'v'], 0), Err(DecodeError::UnexpectedEnd));
}

#[test]
fn nesting_up_to_the_bound_decodes() {
    for depth in [1, 2, 3, 17, MAX_DEPTH] {
        let root = parse(&nested_records(depth)).unwrap();
        assert_eq!(depth_of(&root), depth + 1, "records, depth {}", depth);
        let root = parse(&nested_lists(depth)).unwrap();
        assert_eq!(depth_of(&root), depth + 1, "lists, depth {}", depth);
    }
    for limit in [1, 5, 40] {
        assert!(parse_within(&nested_records(limit), limit).is_ok());
        assert!(parse_within(&nested_lists(limit), limit).is_ok());
        assert_eq!(parse_within(&nested_records(limit + 1), limit), Err(DecodeError::TooDeep));
        assert_eq!(parse_within(&nested_lists(limit + 1), limit), Err(DecodeError::TooDeep));
    }
}

#[test]
fn nesting_beyond_the_bound_stops_decoding() {
    assert_eq!(parse(&nested_records(MAX_DEPTH + 1)), Err(DecodeError::TooDeep));
    assert_eq!(parse(&nested_lists(MAX_DEPTH + 1)), Err(DecodeError::TooDeep));
    assert_eq!(parse(&nested_records(200_000)), Err(DecodeError::TooDeep));
    assert_eq!(parse(&nested_lists(200_000)), Err(DecodeError::TooDeep));
    // also where the stream breaks off before it closes what it opened
    let mut open = Vec::new();
    for _ in 0..100_000 {
        open.extend_from_slice(&[10, 0, 0]);
    }
    assert_eq!(parse(&open), Err(DecodeError::TooDeep));
    assert_eq!(MAX_DEPTH, 512);
}

#[test]
fn a_parser_keeps_its_bound() {
    let bytes = nested_records(3);
    assert_eq!(Parser::with_max_depth(&bytes, 2).parse(), Err(DecodeError::TooDeep));
    assert!(Parser::with_max_depth(&bytes, 3).parse().is_ok());
    assert!(Parser::new(&bytes).parse().is_ok());
}
