use raw_nbt::decode::{parse, DecodeError};
use raw_nbt::{Compound, Value};

fn count(n: usize, out: &mut Vec<u8>) {
    out.extend_from_slice(&(n as i32).to_be_bytes());
}

fn text(s: &str, out: &mut Vec<u8>) {
    out.extend_from_slice(&(s.len() as u16).to_be_bytes());
    out.extend_from_slice(s.as_bytes());
}

fn tag_of(value: &Value) -> u8 {
    match value {
        Value::Byte(_) => 1,
        Value::Short(_) => 2,
        Value::Int(_) => 3,
        Value::Long(_) => 4,
        Value::Float(_) => 5,
        Value::Double(_) => 6,
        Value::ByteArray(_) => 7,
        Value::Str(_) => 8,
        Value::Compound(_) => 10,
        Value::IntArray(_) => 11,
        Value::LongArray(_) => 12,
        _ => 9,
    }
}

fn fields(record: &Compound, out: &mut Vec<u8>) {
    for (name, value) in record.entries() {
        out.push(tag_of(value));
        text(name, out);
        payload(value, out);
    }
}

fn list_head(element: u8, n: usize, out: &mut Vec<u8>) {
    out.push(element);
    count(n, out);
}

/// A test-only encoder: the payload of a node.
fn payload(value: &Value, out: &mut Vec<u8>) {
    match value {
        Value::Byte(x) => out.extend_from_slice(&x.to_be_bytes()),
        Value::Short(x) => out.extend_from_slice(&x.to_be_bytes()),
        Value::Int(x) => out.extend_from_slice(&x.to_be_bytes()),
        Value::Long(x) => out.extend_from_slice(&x.to_be_bytes()),
        Value::Float(x) => out.extend_from_slice(&x.to_be_bytes()),
        Value::Double(x) => out.extend_from_slice(&x.to_be_bytes()),
        Value::ByteArray(xs) => {
            count(xs.len(), out);
            xs.iter().for_each(|x| out.extend_from_slice(&x.to_be_bytes()));
        },
        Value::Str(s) => text(s, out),
        Value::Compound(record) => {
            fields(record, out);
            out.push(0);
        },
        Value::IntArray(xs) => {
            count(xs.len(), out);
            xs.iter().for_each(|x| out.extend_from_slice(&x.to_be_bytes()));
        },
        Value::LongArray(xs) => {
            count(xs.len(), out);
            xs.iter().for_each(|x| out.extend_from_slice(&x.to_be_bytes()));
        },
        Value::EndList => list_head(0, 0, out),
        Value::EmptyByteList => list_head(1, 0, out),
        Value::ByteList(xs) => {
            list_head(1, xs.len(), out);
            xs.iter().for_each(|x| out.extend_from_slice(&x.to_be_bytes()));
        },
        Value::ShortList(xs) => {
            list_head(2, xs.len(), out);
            xs.iter().for_each(|x| out.extend_from_slice(&x.to_be_bytes()));
        },
        Value::IntList(xs) => {
            list_head(3, xs.len(), out);
            xs.iter().for_each(|x| out.extend_from_slice(&x.to_be_bytes()));
        },
        Value::LongList(xs) => {
            list_head(4, xs.len(), out);
            xs.iter().for_each(|x| out.extend_from_slice(&x.to_be_bytes()));
        },
        Value::FloatList(xs) => {
            list_head(5, xs.len(), out);
            xs.iter().for_each(|x| out.extend_from_slice(&x.to_be_bytes()));
        },
        Value::DoubleList(xs) => {
            list_head(6, xs.len(), out);
            xs.iter().for_each(|x| out.extend_from_slice(&x.to_be_bytes()));
        },
        Value::ByteArrayList(xs) => {
            list_head(7, xs.len(), out);
            xs.iter().for_each(|x| payload(&Value::ByteArray(x.clone()), out));
        },
        Value::StrList(xs) => {
            list_head(8, xs.len(), out);
            xs.iter().for_each(|x| text(x, out));
        },
        Value::ListList(xs) => {
            list_head(9, xs.len(), out);
            xs.iter().for_each(|x| payload(x, out));
        },
        Value::CompoundList(xs) => {
            list_head(10, xs.len(), out);
            xs.iter().for_each(|x| payload(&Value::Compound(x.clone()), out));
        },
        Value::IntArrayList(xs) => {
            list_head(11, xs.len(), out);
            xs.iter().for_each(|x| payload(&Value::IntArray(x.clone()), out));
        },
        Value::LongArrayList(xs) => {
            list_head(12, xs.len(), out);
            xs.iter().for_each(|x| payload(&Value::LongArray(x.clone()), out));
        },
    }
}

fn stream(root: &Compound) -> Vec<u8> {
    let mut out = Vec::new();
    fields(root, &mut out);
    out
}

fn record(entries: Vec<(&str, Value)>) -> Compound {
    let mut out = Compound::new();
    for (name, value) in entries {
        out.insert(name.to_string(), value);
    }
    out
}

fn sample() -> Compound {
    let player = record(vec![
        ("Name", Value::Str("St\u{e9}ve \u{1f600}".to_string())),
        ("Health", Value::Float(19.5f32.to_bits())),
        ("Pos", Value::DoubleList(vec![1.5f64.to_bits(), (-64.0f64).to_bits(), f64::NAN.to_bits()])),
        ("Inventory", Value::CompoundList(vec![
            record(vec![("id", Value::Short(-3)), ("Count", Value::Byte(64))]),
            Compound::new(),
            record(vec![("tag", Value::Compound(record(vec![("ench", Value::EndList)])))]),
        ])),
        ("", Value::EmptyByteList),
    ]);
    record(vec![
        ("byte", Value::Byte(i8::MIN)),
        ("short", Value::Short(i16::MAX)),
        ("int", Value::Int(i32::MIN)),
        ("long", Value::Long(i64::MAX)),
        ("float", Value::Float(f32::INFINITY.to_bits())),
        ("double", Value::Double((-0.0f64).to_bits())),
        ("bytes", Value::ByteArray(vec![-1, 0, 1])),
        ("ints", Value::IntArray(vec![i32::MIN, 0, i32::MAX])),
        ("longs", Value::LongArray(vec![i64::MIN, 0, i64::MAX])),
        ("no bytes", Value::ByteArray(vec![])),
        ("text", Value::Str(String::new())),
        ("byte list", Value::ByteList(vec![1, 2, 3])),
        ("short list", Value::ShortList(vec![])),
        ("int list", Value::IntList(vec![-1])),
        ("long list", Value::LongList(vec![1 << 40])),
        ("float list", Value::FloatList(vec![0, u32::MAX])),
        ("byte arrays", Value::ByteArrayList(vec![vec![], vec![1], vec![2, 3]])),
        ("int arrays", Value::IntArrayList(vec![vec![7; 5]])),
        ("long arrays", Value::LongArrayList(vec![vec![], vec![-9]])),
        ("strings", Value::StrList(vec!["".into(), "a".into(), "\u{4e16}\u{754c}".into()])),
        ("lists", Value::ListList(vec![
            Value::EndList,
            Value::EmptyByteList,
            Value::ListList(vec![Value::ListList(vec![]), Value::StrList(vec!["deep".into()])]),
            Value::CompoundList(vec![record(vec![("k", Value::LongArray(vec![1]))])]),
        ])),
        ("Player", Value::Compound(player)),
    ])
}

#[test]
fn decoding_undoes_encoding() {
    let root = sample();
    let bytes = stream(&root);
    assert_eq!(parse(&bytes), Ok(Value::Compound(root)));
}

#[test]
fn decoding_undoes_encoding_of_each_field_alone() {
    let root = sample();
    for (name, value) in root.entries() {
        let alone = record(vec![(name.as_str(), value.clone())]);
        assert_eq!(parse(&stream(&alone)), Ok(Value::Compound(alone)), "field {:?}", name);
    }
}

#[test]
fn an_empty_list_of_bytes_reads_back_as_the_empty_list_of_any_kind() {
    let root = record(vec![("v", Value::ByteList(vec![]))]);
    let back = parse(&stream(&root)).unwrap();
    assert_eq!(back.get("v").unwrap(), &Value::EmptyByteList);
}

#[test]
fn a_broken_off_stream_never_decodes_to_something_else() {
    let root = sample();
    let bytes = stream(&root);
    let mut boundaries = 0;
    for cut in 0..bytes.len() {
        match parse(&bytes[..cut]) {
            Ok(Value::Compound(part)) => {
                // a regular end between two top-level entries: what was read is right
                boundaries += 1;
                assert!(part.len() < root.len());
                for (name, value) in part.entries() {
                    assert_eq!(root.get(name), Some(value));
                }
            },
            Ok(other) => panic!("the root is a record, not {:?}", other),
            Err(e) => assert_eq!(e, DecodeError::UnexpectedEnd, "cut at {}", cut),
        }
    }
    assert_eq!(boundaries, root.len());
}

#[test]
fn a_broken_off_payload_ends_early() {
    let root = sample();
    for (name, value) in root.entries() {
        let mut whole = vec![10, 0, 0];
        let inner = record(vec![(name.as_str(), value.clone())]);
        fields(&inner, &mut whole);
        whole.push(0);
        assert!(parse(&whole).is_ok());
        for cut in 1..whole.len() {
            assert_eq!(parse(&whole[..cut]), Err(DecodeError::UnexpectedEnd), "{:?} at {}", name, cut);
        }
    }
}

/// A small generator of numbers that is the same on every run.
struct Numbers(u64);

impl Numbers {
    fn next(&mut self) -> u64 {
        self.0 = self.0.wrapping_mul(6364136223846793005).wrapping_add(1442695040888963407);
        self.0 >> 24
    }

    fn below(&mut self, n: u64) -> u64 {
        self.next() % n
    }

    fn text(&mut self) -> String {
        let alphabet = ['a', 'b', 'Z', '0', ' ', '\u{e9}', '\u{4e16}', '\u{1f600}', '\u{0}'];
        (0..self.below(6)).map(|_| alphabet[self.below(9) as usize]).collect()
    }

    fn list(&mut self, depth: u32) -> Value {
        let n = self.below(4) as usize;
        let kinds = if depth == 0 { 12 } else { 14 };
        match self.below(kinds) {
            0 => Value::EndList,
            1 => Value::EmptyByteList,
            2 => Value::ByteList((0..n + 1).map(|_| self.next() as i8).collect()),
            3 => Value::ShortList((0..n).map(|_| self.next() as i16).collect()),
            4 => Value::IntList((0..n).map(|_| self.next() as i32).collect()),
            5 => Value::LongList((0..n).map(|_| self.next() as i64).collect()),
            6 => Value::FloatList((0..n).map(|_| self.next() as u32).collect()),
            7 => Value::DoubleList((0..n).map(|_| self.next()).collect()),
            8 => Value::ByteArrayList((0..n).map(|_| vec![self.next() as i8; 2]).collect()),
            9 => Value::StrList((0..n).map(|_| self.text()).collect()),
            10 => Value::IntArrayList((0..n).map(|_| vec![self.next() as i32]).collect()),
            11 => Value::LongArrayList((0..n).map(|_| vec![self.next() as i64; 3]).collect()),
            12 => Value::ListList((0..n).map(|_| self.list(depth - 1)).collect()),
            _ => Value::CompoundList((0..n).map(|_| self.record(depth - 1)).collect()),
        }
    }

    fn record(&mut self, depth: u32) -> Compound {
        let mut out = Compound::new();
        for _ in 0..self.below(5) {
            let name = self.text();
            let value = self.value(depth);
            out.insert(name, value);
        }
        out
    }

    fn value(&mut self, depth: u32) -> Value {
        let kinds = if depth == 0 { 9 } else { 11 };
        match self.below(kinds) {
            0 => Value::Byte(self.next() as i8),
            1 => Value::Short(self.next() as i16),
            2 => Value::Int(self.next() as i32),
            3 => Value::Long(self.next() as i64),
            4 => Value::Float(self.next() as u32),
            5 => Value::Double(self.next()),
            6 => Value::ByteArray((0..self.below(5)).map(|_| self.next() as i8).collect()),
            7 => Value::Str(self.text()),
            8 => Value::IntArray((0..self.below(5)).map(|_| self.next() as i32).collect()),
            9 => self.list(depth - 1),
            _ => Value::Compound(self.record(depth - 1)),
        }
    }
}

#[test]
fn decoding_undoes_encoding_of_many_trees() {
    let mut numbers = Numbers(2024);
    for round in 0..300 {
        let root = numbers.record(4);
        let bytes = stream(&root);
        assert_eq!(parse(&bytes), Ok(Value::Compound(root)), "round {}", round);
    }
}

#[test]
fn a_stream_cut_anywhere_decodes_to_a_part_or_ends_early() {
    let mut numbers = Numbers(7);
    for _ in 0..40 {
        let root = numbers.record(3);
        let bytes = stream(&root);
        for cut in 0..bytes.len() {
            match parse(&bytes[..cut]) {
                Ok(Value::Compound(part)) => {
                    assert!(part.len() <= root.len());
                },
                Ok(other) => panic!("the root is a record, not {:?}", other),
                Err(e) => assert_eq!(e, DecodeError::UnexpectedEnd),
            }
        }
    }
}

#[test]
fn any_bytes_decode_or_give_an_error() {
    let mut numbers = Numbers(99);
    let mut decoded = 0;
    for _ in 0..3000 {
        let len = numbers.below(40) as usize;
        let bytes: Vec<u8> = (0..len)
            .map(|_| if numbers.below(3) == 0 { numbers.below(13) as u8 } else { numbers.next() as u8 })
            .collect();
        if let Ok(root) = parse(&bytes) {
            decoded += 1;
            // what decodes is a record, and it reads back from its own encoding
            let fields = root.compound().unwrap();
            let again = parse(&stream(fields));
            // but for a list of bytes that a negative count left empty
            let has_empty_byte_list = format!("{:?}", root).contains("ByteList([])");
            if !has_empty_byte_list {
                assert_eq!(again, Ok(root.clone()));
            }
        }
    }
    assert!(decoded > 0);
}

#[test]
fn a_changed_stream_decodes_or_gives_an_error() {
    let mut numbers = Numbers(5);
    let root = sample();
    let bytes = stream(&root);
    for _ in 0..2000 {
        let mut changed = bytes.clone();
        let at = numbers.below(changed.len() as u64) as usize;
        changed[at] = numbers.next() as u8;
        match parse(&changed) {
            Ok(Value::Compound(_)) => {},
            Ok(other) => panic!("the root is a record, not {:?}", other),
            Err(_) => {},
        }
    }
}
