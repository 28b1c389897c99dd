use raw_nbt::text::{same_text, text_of_bytes};
use raw_nbt::{Compound, Error, Value};

fn record(fields: Vec<(&str, Value)>) -> Compound {
    let mut out = Compound::new();
    for (name, value) in fields {
        out.insert(name.to_string(), value);
    }
    out
}

/// One node of each kind.
fn one_of_each() -> Vec<(Value, &'static str)> {
    vec![
        (Value::Byte(1), "byte"),
        (Value::Short(2), "short"),
        (Value::Int(3), "int"),
        (Value::Long(4), "long"),
        (Value::Float(5), "float"),
        (Value::Double(6), "double"),
        (Value::ByteArray(vec![7]), "byte array"),
        (Value::Str("s".to_string()), "str"),
        (Value::Compound(record(vec![("k", Value::Byte(8))])), "compound"),
        (Value::IntArray(vec![9]), "int array"),
        (Value::LongArray(vec![10]), "long array"),
        (Value::EndList, "end list"),
        (Value::EmptyByteList, "byte list (empty)"),
        (Value::ByteList(vec![11]), "byte list (non-empty)"),
        (Value::ShortList(vec![12]), "short list"),
        (Value::IntList(vec![13]), "int list"),
        (Value::LongList(vec![14]), "long list"),
        (Value::FloatList(vec![15]), "float list"),
        (Value::DoubleList(vec![16]), "double list"),
        (Value::ByteArrayList(vec![vec![17]]), "byte array list"),
        (Value::StrList(vec!["t".to_string()]), "str list"),
        (Value::ListList(vec![Value::EndList]), "list list"),
        (Value::CompoundList(vec![Compound::new()]), "compound list"),
        (Value::IntArrayList(vec![vec![18]]), "int array list"),
        (Value::LongArrayList(vec![vec![19]]), "long array list"),
    ]
}

fn invalid(e: Error) -> (&'static str, &'static str) {
    match e {
        Error::InvalidType(wanted, found) => (wanted, found),
        Error::NotFound(name) => panic!("not an invalid type: field {:?}", name),
    }
}

#[test]
fn scalar_accessors_give_the_value() {
    assert_eq!(Value::Byte(-1).byte().unwrap(), -1);
    assert_eq!(Value::Short(-2).short().unwrap(), -2);
    assert_eq!(Value::Int(-3).int32().unwrap(), -3);
    assert_eq!(Value::Long(-4).long().unwrap(), -4);
    assert_eq!(f32::from_bits(Value::Float(0.25f32.to_bits()).float().unwrap()), 0.25);
    assert_eq!(f64::from_bits(Value::Double(0.125f64.to_bits()).double().unwrap()), 0.125);
    assert_eq!(Value::ByteArray(vec![1, 2]).byte_array().unwrap(), &vec![1i8, 2]);
    assert_eq!(Value::Str("abc".to_string()).str().unwrap(), "abc");
    assert_eq!(Value::IntArray(vec![1, 2]).int_array().unwrap(), &vec![1i32, 2]);
    assert_eq!(Value::LongArray(vec![1, 2]).long_array().unwrap(), &vec![1i64, 2]);
    let fields = record(vec![("k", Value::Byte(1))]);
    assert_eq!(Value::Compound(fields.clone()).compound().unwrap(), &fields);
}

#[test]
fn list_accessors_give_the_items() {
    assert_eq!(*Value::ByteList(vec![1]).byte_list().unwrap(), vec![1i8]);
    assert_eq!(*Value::ShortList(vec![1]).short_list().unwrap(), vec![1i16]);
    assert_eq!(*Value::IntList(vec![1]).int_list().unwrap(), vec![1i32]);
    assert_eq!(*Value::LongList(vec![1]).long_list().unwrap(), vec![1i64]);
    assert_eq!(*Value::FloatList(vec![1]).float_list().unwrap(), vec![1u32]);
    assert_eq!(*Value::DoubleList(vec![1]).double_list().unwrap(), vec![1u64]);
    assert_eq!(*Value::ByteArrayList(vec![vec![1]]).byte_array_list().unwrap(), vec![vec![1i8]]);
    assert_eq!(*Value::StrList(vec!["a".to_string()]).str_list().unwrap(), vec!["a".to_string()]);
    assert_eq!(
        *Value::ListList(vec![Value::IntList(vec![1])]).list_list().unwrap(),
        vec![Value::IntList(vec![1])]
    );
    assert_eq!(
        *Value::CompoundList(vec![Compound::new()]).compound_list().unwrap(),
        vec![Compound::new()]
    );
    assert_eq!(*Value::IntArrayList(vec![vec![1]]).int_array_list().unwrap(), vec![vec![1i32]]);
    assert_eq!(*Value::LongArrayList(vec![vec![1]]).long_array_list().unwrap(), vec![vec![1i64]]);
}

#[test]
fn both_empty_lists_are_lists_of_every_kind() {
    for empty in [Value::EndList, Value::EmptyByteList] {
        assert_eq!(*empty.byte_list().unwrap(), Vec::<i8>::new());
        assert_eq!(*empty.short_list().unwrap(), Vec::<i16>::new());
        assert_eq!(*empty.int_list().unwrap(), Vec::<i32>::new());
        assert_eq!(*empty.long_list().unwrap(), Vec::<i64>::new());
        assert_eq!(*empty.float_list().unwrap(), Vec::<u32>::new());
        assert_eq!(*empty.double_list().unwrap(), Vec::<u64>::new());
        assert_eq!(*empty.byte_array_list().unwrap(), Vec::<Vec<i8>>::new());
        assert_eq!(*empty.str_list().unwrap(), Vec::<String>::new());
        assert_eq!(*empty.list_list().unwrap(), Vec::<Value>::new());
        assert_eq!(*empty.compound_list().unwrap(), Vec::<Compound>::new());
        assert_eq!(*empty.int_array_list().unwrap(), Vec::<Vec<i32>>::new());
        assert_eq!(*empty.long_array_list().unwrap(), Vec::<Vec<i64>>::new());
    }
}

#[test]
fn a_list_of_one_kind_is_no_list_of_another() {
    let shorts = Value::ShortList(vec![1]);
    assert_eq!(invalid(shorts.byte_list().unwrap_err()), ("byte list", "short list"));
    assert_eq!(invalid(shorts.int_list().unwrap_err()), ("int list", "short list"));
    let bytes = Value::ByteList(vec![1]);
    assert_eq!(invalid(bytes.short_list().unwrap_err()), ("short list", "byte list (non-empty)"));
}

#[test]
fn every_accessor_names_what_it_wanted_and_what_it_found() {
    for (value, kind) in one_of_each() {
        let is_empty = kind == "end list" || kind == "byte list (empty)";
        let mut outcomes: Vec<(&str, Option<Error>)> = vec![
            ("byte", value.byte().err()),
            ("short", value.short().err()),
            ("int", value.int32().err()),
            ("long", value.long().err()),
            ("float", value.float().err()),
            ("double", value.double().err()),
            ("byte array", value.byte_array().err()),
            ("str", value.str().err()),
            ("compound", value.compound().err()),
            ("int array", value.int_array().err()),
            ("long array", value.long_array().err()),
        ];
        let lists: Vec<(&str, Option<Error>)> = vec![
            ("byte list", value.byte_list().err()),
            ("short list", value.short_list().err()),
            ("int list", value.int_list().err()),
            ("long list", value.long_list().err()),
            ("float list", value.float_list().err()),
            ("double list", value.double_list().err()),
            ("byte array list", value.byte_array_list().err()),
            ("str list", value.str_list().err()),
            ("list list", value.list_list().err()),
            ("compound list", value.compound_list().err()),
            ("int array list", value.int_array_list().err()),
            ("long array list", value.long_array_list().err()),
        ];
        for (wanted, outcome) in lists {
            if is_empty {
                assert!(outcome.is_none(), "{} of {}", wanted, kind);
            } else {
                outcomes.push((wanted, outcome));
            }
        }
        for (wanted, outcome) in outcomes {
            let matches_kind = wanted == kind || (wanted == "byte list" && kind == "byte list (non-empty)");
            match outcome {
                None => assert!(matches_kind, "{} of {}", wanted, kind),
                Some(e) => {
                    assert!(!matches_kind, "{} of {}", wanted, kind);
                    assert_eq!(invalid(e), (wanted, kind));
                },
            }
        }
    }
}

#[test]
fn messages() {
    let e = Value::Short(1).byte().unwrap_err();
    assert_eq!(e.message(), "invalid type: wanted 'byte' but actual 'short'");
    let e = Value::EndList.compound().unwrap_err();
    assert_eq!(e.message(), "invalid type: wanted 'compound' but actual 'end list'");
    let e = Error::InvalidType("byte list", "byte list (empty)");
    assert_eq!(e.message(), "invalid type: wanted 'byte list' but actual 'byte list (empty)'");
    let e = Error::NotFound("Level".to_string());
    assert_eq!(e.message(), "field not found 'Level'");
    assert_eq!(Error::NotFound(String::new()).message(), "field not found ''");
}

#[test]
fn get_looks_a_field_up_by_its_exact_name() {
    let root = Value::Compound(record(vec![("Name", Value::Byte(1)), ("", Value::Byte(2))]));
    assert_eq!(root.get("Name").unwrap(), &Value::Byte(1));
    assert_eq!(root.get("").unwrap(), &Value::Byte(2));
    for absent in ["name", "NAME", "Name ", "Nam", "x"] {
        match root.get(absent).unwrap_err() {
            Error::NotFound(name) => assert_eq!(name, absent),
            other => panic!("not a missing field: {:?}", other),
        }
    }
    assert_eq!(root.get("name").unwrap_err().message(), "field not found 'name'");
    assert_eq!(invalid(Value::Byte(1).get("Name").unwrap_err()), ("compound", "byte"));
}

#[test]
fn a_record_keeps_one_value_for_a_name() {
    let mut fields = Compound::new();
    assert!(fields.is_empty());
    assert_eq!(fields.len(), 0);
    assert_eq!(fields.insert("a".to_string(), Value::Byte(1)), None);
    assert_eq!(fields.insert("b".to_string(), Value::Byte(2)), None);
    assert_eq!(fields.len(), 2);
    assert!(!fields.is_empty());
    assert_eq!(fields.insert("a".to_string(), Value::Short(3)), Some(Value::Byte(1)));
    assert_eq!(fields.len(), 2);
    assert_eq!(fields.get("a"), Some(&Value::Short(3)));
    assert_eq!(fields.get("b"), Some(&Value::Byte(2)));
    assert_eq!(fields.get("c"), None);
    assert!(fields.contains_key("a"));
    assert!(!fields.contains_key("A"));
    let mut names: Vec<&str> = fields.entries().iter().map(|e| e.0.as_str()).collect();
    names.sort();
    assert_eq!(names, vec!["a", "b"]);
    for (name, value) in fields.entries() {
        assert_eq!(fields.get(name), Some(value));
    }
}

#[test]
fn records_are_equal_whatever_the_order_of_their_fields() {
    let one = record(vec![("a", Value::Byte(1)), ("b", Value::Byte(2)), ("c", Value::Byte(3))]);
    let other = record(vec![("c", Value::Byte(3)), ("a", Value::Byte(1)), ("b", Value::Byte(2))]);
    assert_eq!(one, other);
    assert_eq!(Value::Compound(one.clone()), Value::Compound(other.clone()));
    assert_eq!(
        Value::CompoundList(vec![one.clone(), other.clone()]),
        Value::CompoundList(vec![other.clone(), one.clone()])
    );
    assert_ne!(one, record(vec![("a", Value::Byte(1)), ("b", Value::Byte(2))]));
    assert_ne!(one, record(vec![("a", Value::Byte(1)), ("b", Value::Byte(2)), ("c", Value::Byte(4))]));
    assert_ne!(one, record(vec![("a", Value::Byte(1)), ("b", Value::Byte(2)), ("d", Value::Byte(3))]));
    assert_ne!(
        one,
        record(vec![("a", Value::Byte(1)), ("b", Value::Byte(2)), ("c", Value::Short(3))])
    );
    assert_eq!(Compound::new(), Compound::new());
}

#[test]
fn nodes_are_equal_when_shape_and_values_are() {
    let all = one_of_each();
    for (i, (a, _)) in all.iter().enumerate() {
        for (j, (b, _)) in all.iter().enumerate() {
            assert_eq!(a == b, i == j, "{:?} and {:?}", a, b);
        }
    }
    assert_ne!(Value::ByteArray(vec![1, 2]), Value::ByteArray(vec![1]));
    assert_ne!(Value::ByteArray(vec![1, 2]), Value::ByteArray(vec![1, 3]));
    assert_ne!(Value::ByteArray(vec![1]), Value::ByteList(vec![1]));
    assert_ne!(Value::IntList(vec![1]), Value::IntArray(vec![1]));
    assert_ne!(Value::StrList(vec!["a".into()]), Value::StrList(vec!["b".into()]));
    assert_ne!(Value::StrList(vec!["a".into()]), Value::StrList(vec![]));
    assert_ne!(Value::IntArrayList(vec![vec![1]]), Value::IntArrayList(vec![vec![2]]));
    assert_ne!(Value::IntArrayList(vec![vec![1]]), Value::IntArrayList(vec![vec![1], vec![]]));
    assert_ne!(
        Value::ListList(vec![Value::IntList(vec![1])]),
        Value::ListList(vec![Value::LongList(vec![1])])
    );
    assert_ne!(Value::ListList(vec![Value::EndList]), Value::ListList(vec![]));
    // Floating-point numbers are compared by their bits.
    assert_eq!(Value::Float(f32::NAN.to_bits()), Value::Float(f32::NAN.to_bits()));
    assert_ne!(Value::Float(0.0f32.to_bits()), Value::Float((-0.0f32).to_bits()));
}

#[test]
fn a_clone_is_equal_and_independent() {
    for (value, _) in one_of_each() {
        assert_eq!(value.clone(), value);
    }
    let mut fields = record(vec![("a", Value::ListList(vec![Value::StrList(vec!["x".into()])]))]);
    let copy = fields.clone();
    fields.insert("a".to_string(), Value::Byte(0));
    assert_eq!(copy.get("a"), Some(&Value::ListList(vec![Value::StrList(vec!["x".into()])])));
    assert_ne!(copy, fields);
}

#[test]
fn texts_compare_by_their_characters() {
    assert!(same_text("", ""));
    assert!(same_text("abc", "abc"));
    assert!(same_text("\u{e9}\u{1f600}", "\u{e9}\u{1f600}"));
    assert!(!same_text("abc", "abd"));
    assert!(!same_text("abc", "ab"));
    assert!(!same_text("", "a"));
    assert!(!same_text("e\u{301}", "\u{e9}"));
    assert!(!same_text("a", "A"));
}

#[test]
fn bytes_turn_into_text_when_they_are_utf8() {
    assert_eq!(text_of_bytes(vec![]), Some(String::new()));
    assert_eq!(text_of_bytes(b"plain".to_vec()), Some("plain".to_string()));
    assert_eq!(text_of_bytes(vec![0xE4, 0xB8, 0x96]), Some("\u{4e16}".to_string()));
    assert_eq!(text_of_bytes(vec![0xE4, 0xB8]), None);
    assert_eq!(text_of_bytes(vec![0x80]), None);
    assert_eq!(text_of_bytes(vec![0xF4, 0x90, 0x80, 0x80]), None);
}
