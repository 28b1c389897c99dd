//! Typed views of a decoded node.
use crate::error::Error;
use crate::value::{records_of, seqs_of, texts_of, trees_of, Compound, Tree, Value};
use std::borrow::Cow;
use vstd::prelude::*;
use vstd::string::StringExecFns;

verus! {

/// The name of a node's kind, as the accessors' errors give it.
pub open spec fn kind_name(t: Tree) -> &'static str {
    match t {
        Tree::Byte(_) => "byte",
        Tree::Short(_) => "short",
        Tree::Int(_) => "int",
        Tree::Long(_) => "long",
        Tree::Float(_) => "float",
        Tree::Double(_) => "double",
        Tree::ByteArray(_) => "byte array",
        Tree::Str(_) => "str",
        Tree::Compound(_) => "compound",
        Tree::IntArray(_) => "int array",
        Tree::LongArray(_) => "long array",
        Tree::EndList => "end list",
        Tree::EmptyByteList => "byte list (empty)",
        Tree::ByteList(_) => "byte list (non-empty)",
        Tree::ShortList(_) => "short list",
        Tree::IntList(_) => "int list",
        Tree::LongList(_) => "long list",
        Tree::FloatList(_) => "float list",
        Tree::DoubleList(_) => "double list",
        Tree::ByteArrayList(_) => "byte array list",
        Tree::StrList(_) => "str list",
        Tree::ListList(_) => "list list",
        Tree::CompoundList(_) => "compound list",
        Tree::IntArrayList(_) => "int array list",
        Tree::LongArrayList(_) => "long array list",
    }
}

impl Value {
    /// The name of this node's kind.
    fn val_type(&self) -> (name: &'static str)
        ensures
            name == kind_name(self@),
    {
        match self {
            Value::Byte(_) => "byte",
            Value::Short(_) => "short",
            Value::Int(_) => "int",
            Value::Long(_) => "long",
            Value::Float(_) => "float",
            Value::Double(_) => "double",
            Value::ByteArray(_) => "byte array",
            Value::Str(_) => "str",
            Value::Compound(_) => "compound",
            Value::IntArray(_) => "int array",
            Value::LongArray(_) => "long array",
            Value::EndList => "end list",
            Value::EmptyByteList => "byte list (empty)",
            Value::ByteList(_) => "byte list (non-empty)",
            Value::ShortList(_) => "short list",
            Value::IntList(_) => "int list",
            Value::LongList(_) => "long list",
            Value::FloatList(_) => "float list",
            Value::DoubleList(_) => "double list",
            Value::ByteArrayList(_) => "byte array list",
            Value::StrList(_) => "str list",
            Value::ListList(_) => "list list",
            Value::CompoundList(_) => "compound list",
            Value::IntArrayList(_) => "int array list",
            Value::LongArrayList(_) => "long array list",
        }
    }

    /// The signed 8-bit integer that this node is.
    pub fn byte(&self) -> (r: Result<i8, Error>)
        ensures
            match self@ {
                Tree::Byte(x) => r == Ok::<i8, Error>(x),
                other => r == Err::<i8, Error>(
                    Error::InvalidType("byte", kind_name(other)),
                ),
            },
    {
        match self {
            Value::Byte(x) => Ok(*x),
            _ => Err(Error::InvalidType("byte", self.val_type())),
        }
    }

    /// The signed 16-bit integer that this node is.
    pub fn short(&self) -> (r: Result<i16, Error>)
        ensures
            match self@ {
                Tree::Short(x) => r == Ok::<i16, Error>(x),
                other => r == Err::<i16, Error>(
                    Error::InvalidType("short", kind_name(other)),
                ),
            },
    {
        match self {
            Value::Short(x) => Ok(*x),
            _ => Err(Error::InvalidType("short", self.val_type())),
        }
    }

    /// The signed 32-bit integer that this node is.
    pub fn int32(&self) -> (r: Result<i32, Error>)
        ensures
            match self@ {
                Tree::Int(x) => r == Ok::<i32, Error>(x),
                other => r == Err::<i32, Error>(
                    Error::InvalidType("int", kind_name(other)),
                ),
            },
    {
        match self {
            Value::Int(x) => Ok(*x),
            _ => Err(Error::InvalidType("int", self.val_type())),
        }
    }

    /// The signed 64-bit integer that this node is.
    pub fn long(&self) -> (r: Result<i64, Error>)
        ensures
            match self@ {
                Tree::Long(x) => r == Ok::<i64, Error>(x),
                other => r == Err::<i64, Error>(
                    Error::InvalidType("long", kind_name(other)),
                ),
            },
    {
        match self {
            Value::Long(x) => Ok(*x),
            _ => Err(Error::InvalidType("long", self.val_type())),
        }
    }

    /// The bit pattern of the single-precision number that this node is.
    pub fn float(&self) -> (r: Result<u32, Error>)
        ensures
            match self@ {
                Tree::Float(x) => r == Ok::<u32, Error>(x),
                other => r == Err::<u32, Error>(
                    Error::InvalidType("float", kind_name(other)),
                ),
            },
    {
        match self {
            Value::Float(x) => Ok(*x),
            _ => Err(Error::InvalidType("float", self.val_type())),
        }
    }

    /// The bit pattern of the double-precision number that this node is.
    pub fn double(&self) -> (r: Result<u64, Error>)
        ensures
            match self@ {
                Tree::Double(x) => r == Ok::<u64, Error>(x),
                other => r == Err::<u64, Error>(
                    Error::InvalidType("double", kind_name(other)),
                ),
            },
    {
        match self {
            Value::Double(x) => Ok(*x),
            _ => Err(Error::InvalidType("double", self.val_type())),
        }
    }

    /// The array of signed bytes that this node is.
    pub fn byte_array(&self) -> (r: Result<&Vec<i8>, Error>)
        ensures
            match self@ {
                Tree::ByteArray(x) => r is Ok && r->Ok_0@ == x,
                other => r == Err::<&Vec<i8>, Error>(
                    Error::InvalidType("byte array", kind_name(other)),
                ),
            },
    {
        match self {
            Value::ByteArray(x) => Ok(x),
            _ => Err(Error::InvalidType("byte array", self.val_type())),
        }
    }

    /// The text that this node is.
    pub fn str(&self) -> (r: Result<&str, Error>)
        ensures
            match self@ {
                Tree::Str(x) => r is Ok && r->Ok_0@ == x,
                other => r == Err::<&str, Error>(Error::InvalidType("str", kind_name(other))),
            },
    {
        match self {
            Value::Str(x) => Ok(x.as_str()),
            _ => Err(Error::InvalidType("str", self.val_type())),
        }
    }

    /// The record that this node is.
    pub fn compound(&self) -> (r: Result<&Compound, Error>)
        ensures
            match self@ {
                Tree::Compound(x) => r is Ok && r->Ok_0@ == x,
                other => r == Err::<&Compound, Error>(
                    Error::InvalidType("compound", kind_name(other)),
                ),
            },
    {
        match self {
            Value::Compound(x) => Ok(x),
            _ => Err(Error::InvalidType("compound", self.val_type())),
        }
    }

    /// The field `name` of the record that this node is.
    pub fn get(&self, name: &str) -> (r: Result<&Value, Error>)
        ensures
            match self@ {
                Tree::Compound(fields) => if fields.contains_key(name@) {
                    r is Ok && r->Ok_0@ == fields[name@]
                } else {
                    r is Err && r->Err_0 is NotFound && r->Err_0->NotFound_0@ == name@
                },
                other => r == Err::<&Value, Error>(
                    Error::InvalidType("compound", kind_name(other)),
                ),
            },
    {
        match self.compound() {
            Ok(fields) => match fields.get(name) {
                Some(value) => Ok(value),
                None => Err(Error::NotFound(String::from_str(name))),
            },
            Err(e) => Err(e),
        }
    }

    /// The array of signed 32-bit integers that this node is.
    pub fn int_array(&self) -> (r: Result<&Vec<i32>, Error>)
        ensures
            match self@ {
                Tree::IntArray(x) => r is Ok && r->Ok_0@ == x,
                other => r == Err::<&Vec<i32>, Error>(
                    Error::InvalidType("int array", kind_name(other)),
                ),
            },
    {
        match self {
            Value::IntArray(x) => Ok(x),
            _ => Err(Error::InvalidType("int array", self.val_type())),
        }
    }

    /// The array of signed 64-bit integers that this node is.
    pub fn long_array(&self) -> (r: Result<&Vec<i64>, Error>)
        ensures
            match self@ {
                Tree::LongArray(x) => r is Ok && r->Ok_0@ == x,
                other => r == Err::<&Vec<i64>, Error>(
                    Error::InvalidType("long array", kind_name(other)),
                ),
            },
    {
        match self {
            Value::LongArray(x) => Ok(x),
            _ => Err(Error::InvalidType("long array", self.val_type())),
        }
    }

    /// The list of signed bytes that this node is. Either empty list counts
    /// as one without items.
    pub fn byte_list(&self) -> (r: Result<Cow<'_, Vec<i8>>, Error>)
        ensures
            match self@ {
                Tree::EndList | Tree::EmptyByteList => r is Ok && r->Ok_0@.len() == 0,
                Tree::ByteList(xs) => r is Ok && r->Ok_0@ == xs,
                other => r == Err::<Cow<'_, Vec<i8>>, Error>(
                    Error::InvalidType("byte list", kind_name(other)),
                ),
            },
    {
        match self {
            Value::EndList => Ok(Cow::Owned(Vec::new())),
            Value::EmptyByteList => Ok(Cow::Owned(Vec::new())),
            Value::ByteList(x) => Ok(Cow::Borrowed(x)),
            _ => Err(Error::InvalidType("byte list", self.val_type())),
        }
    }

    /// The list of signed 16-bit integers that this node is. Either empty list counts
    /// as one without items.
    pub fn short_list(&self) -> (r: Result<Cow<'_, Vec<i16>>, Error>)
        ensures
            match self@ {
                Tree::EndList | Tree::EmptyByteList => r is Ok && r->Ok_0@.len() == 0,
                Tree::ShortList(xs) => r is Ok && r->Ok_0@ == xs,
                other => r == Err::<Cow<'_, Vec<i16>>, Error>(
                    Error::InvalidType("short list", kind_name(other)),
                ),
            },
    {
        match self {
            Value::EndList => Ok(Cow::Owned(Vec::new())),
            Value::EmptyByteList => Ok(Cow::Owned(Vec::new())),
            Value::ShortList(x) => Ok(Cow::Borrowed(x)),
            _ => Err(Error::InvalidType("short list", self.val_type())),
        }
    }

    /// The list of signed 32-bit integers that this node is. Either empty list counts
    /// as one without items.
    pub fn int_list(&self) -> (r: Result<Cow<'_, Vec<i32>>, Error>)
        ensures
            match self@ {
                Tree::EndList | Tree::EmptyByteList => r is Ok && r->Ok_0@.len() == 0,
                Tree::IntList(xs) => r is Ok && r->Ok_0@ == xs,
                other => r == Err::<Cow<'_, Vec<i32>>, Error>(
                    Error::InvalidType("int list", kind_name(other)),
                ),
            },
    {
        match self {
            Value::EndList => Ok(Cow::Owned(Vec::new())),
            Value::EmptyByteList => Ok(Cow::Owned(Vec::new())),
            Value::IntList(x) => Ok(Cow::Borrowed(x)),
            _ => Err(Error::InvalidType("int list", self.val_type())),
        }
    }

    /// The list of signed 64-bit integers that this node is. Either empty list counts
    /// as one without items.
    pub fn long_list(&self) -> (r: Result<Cow<'_, Vec<i64>>, Error>)
        ensures
            match self@ {
                Tree::EndList | Tree::EmptyByteList => r is Ok && r->Ok_0@.len() == 0,
                Tree::LongList(xs) => r is Ok && r->Ok_0@ == xs,
                other => r == Err::<Cow<'_, Vec<i64>>, Error>(
                    Error::InvalidType("long list", kind_name(other)),
                ),
            },
    {
        match self {
            Value::EndList => Ok(Cow::Owned(Vec::new())),
            Value::EmptyByteList => Ok(Cow::Owned(Vec::new())),
            Value::LongList(x) => Ok(Cow::Borrowed(x)),
            _ => Err(Error::InvalidType("long list", self.val_type())),
        }
    }

    /// The list of single-precision bit patterns that this node is. Either empty list counts
    /// as one without items.
    pub fn float_list(&self) -> (r: Result<Cow<'_, Vec<u32>>, Error>)
        ensures
            match self@ {
                Tree::EndList | Tree::EmptyByteList => r is Ok && r->Ok_0@.len() == 0,
                Tree::FloatList(xs) => r is Ok && r->Ok_0@ == xs,
                other => r == Err::<Cow<'_, Vec<u32>>, Error>(
                    Error::InvalidType("float list", kind_name(other)),
                ),
            },
    {
        match self {
            Value::EndList => Ok(Cow::Owned(Vec::new())),
            Value::EmptyByteList => Ok(Cow::Owned(Vec::new())),
            Value::FloatList(x) => Ok(Cow::Borrowed(x)),
            _ => Err(Error::InvalidType("float list", self.val_type())),
        }
    }

    /// The list of double-precision bit patterns that this node is. Either empty list counts
    /// as one without items.
    pub fn double_list(&self) -> (r: Result<Cow<'_, Vec<u64>>, Error>)
        ensures
            match self@ {
                Tree::EndList | Tree::EmptyByteList => r is Ok && r->Ok_0@.len() == 0,
                Tree::DoubleList(xs) => r is Ok && r->Ok_0@ == xs,
                other => r == Err::<Cow<'_, Vec<u64>>, Error>(
                    Error::InvalidType("double list", kind_name(other)),
                ),
            },
    {
        match self {
            Value::EndList => Ok(Cow::Owned(Vec::new())),
            Value::EmptyByteList => Ok(Cow::Owned(Vec::new())),
            Value::DoubleList(x) => Ok(Cow::Borrowed(x)),
            _ => Err(Error::InvalidType("double list", self.val_type())),
        }
    }

    /// The list of arrays of signed bytes that this node is. Either empty list counts
    /// as one without items.
    pub fn byte_array_list(&self) -> (r: Result<Cow<'_, Vec<Vec<i8>>>, Error>)
        ensures
            match self@ {
                Tree::EndList | Tree::EmptyByteList => r is Ok && r->Ok_0@.len() == 0,
                Tree::ByteArrayList(xs) => r is Ok && seqs_of(r->Ok_0@) == xs,
                other => r == Err::<Cow<'_, Vec<Vec<i8>>>, Error>(
                    Error::InvalidType("byte array list", kind_name(other)),
                ),
            },
    {
        match self {
            Value::EndList => Ok(Cow::Owned(Vec::new())),
            Value::EmptyByteList => Ok(Cow::Owned(Vec::new())),
            Value::ByteArrayList(x) => Ok(Cow::Borrowed(x)),
            _ => Err(Error::InvalidType("byte array list", self.val_type())),
        }
    }

    /// The list of texts that this node is. Either empty list counts
    /// as one without items.
    pub fn str_list(&self) -> (r: Result<Cow<'_, Vec<String>>, Error>)
        ensures
            match self@ {
                Tree::EndList | Tree::EmptyByteList => r is Ok && r->Ok_0@.len() == 0,
                Tree::StrList(xs) => r is Ok && texts_of(r->Ok_0@) == xs,
                other => r == Err::<Cow<'_, Vec<String>>, Error>(
                    Error::InvalidType("str list", kind_name(other)),
                ),
            },
    {
        match self {
            Value::EndList => Ok(Cow::Owned(Vec::new())),
            Value::EmptyByteList => Ok(Cow::Owned(Vec::new())),
            Value::StrList(x) => Ok(Cow::Borrowed(x)),
            _ => Err(Error::InvalidType("str list", self.val_type())),
        }
    }

    /// The list of lists that this node is. Either empty list counts
    /// as one without items.
    pub fn list_list(&self) -> (r: Result<Cow<'_, Vec<Value>>, Error>)
        ensures
            match self@ {
                Tree::EndList | Tree::EmptyByteList => r is Ok && r->Ok_0@.len() == 0,
                Tree::ListList(xs) => r is Ok && trees_of(r->Ok_0@) == xs,
                other => r == Err::<Cow<'_, Vec<Value>>, Error>(
                    Error::InvalidType("list list", kind_name(other)),
                ),
            },
    {
        match self {
            Value::EndList => Ok(Cow::Owned(Vec::new())),
            Value::EmptyByteList => Ok(Cow::Owned(Vec::new())),
            Value::ListList(x) => Ok(Cow::Borrowed(x)),
            _ => Err(Error::InvalidType("list list", self.val_type())),
        }
    }

    /// The list of records that this node is. Either empty list counts
    /// as one without items.
    pub fn compound_list(&self) -> (r: Result<Cow<'_, Vec<Compound>>, Error>)
        ensures
            match self@ {
                Tree::EndList | Tree::EmptyByteList => r is Ok && r->Ok_0@.len() == 0,
                Tree::CompoundList(xs) => r is Ok && records_of(r->Ok_0@) == xs,
                other => r == Err::<Cow<'_, Vec<Compound>>, Error>(
                    Error::InvalidType("compound list", kind_name(other)),
                ),
            },
    {
        match self {
            Value::EndList => Ok(Cow::Owned(Vec::new())),
            Value::EmptyByteList => Ok(Cow::Owned(Vec::new())),
            Value::CompoundList(x) => Ok(Cow::Borrowed(x)),
            _ => Err(Error::InvalidType("compound list", self.val_type())),
        }
    }

    /// The list of arrays of signed 32-bit integers that this node is. Either empty list counts
    /// as one without items.
    pub fn int_array_list(&self) -> (r: Result<Cow<'_, Vec<Vec<i32>>>, Error>)
        ensures
            match self@ {
                Tree::EndList | Tree::EmptyByteList => r is Ok && r->Ok_0@.len() == 0,
                Tree::IntArrayList(xs) => r is Ok && seqs_of(r->Ok_0@) == xs,
                other => r == Err::<Cow<'_, Vec<Vec<i32>>>, Error>(
                    Error::InvalidType("int array list", kind_name(other)),
                ),
            },
    {
        match self {
            Value::EndList => Ok(Cow::Owned(Vec::new())),
            Value::EmptyByteList => Ok(Cow::Owned(Vec::new())),
            Value::IntArrayList(x) => Ok(Cow::Borrowed(x)),
            _ => Err(Error::InvalidType("int array list", self.val_type())),
        }
    }

    /// The list of arrays of signed 64-bit integers that this node is. Either empty list counts
    /// as one without items.
    pub fn long_array_list(&self) -> (r: Result<Cow<'_, Vec<Vec<i64>>>, Error>)
        ensures
            match self@ {
                Tree::EndList | Tree::EmptyByteList => r is Ok && r->Ok_0@.len() == 0,
                Tree::LongArrayList(xs) => r is Ok && seqs_of(r->Ok_0@) == xs,
                other => r == Err::<Cow<'_, Vec<Vec<i64>>>, Error>(
                    Error::InvalidType("long array list", kind_name(other)),
                ),
            },
    {
        match self {
            Value::EndList => Ok(Cow::Owned(Vec::new())),
            Value::EmptyByteList => Ok(Cow::Owned(Vec::new())),
            Value::LongArrayList(x) => Ok(Cow::Borrowed(x)),
            _ => Err(Error::InvalidType("long array list", self.val_type())),
        }
    }
}

} // verus!
