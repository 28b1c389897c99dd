//! Errors raised by the typed accessors of a decoded tree.
use vstd::prelude::*;
use vstd::string::StringExecFns;

verus! {

/// Why a typed accessor could not give what was asked of it.
#[derive(Debug)]
pub enum Error {
    /// The node is of another kind: the kind that was wanted, then the kind that was found.
    InvalidType(&'static str, &'static str),
    /// The record has no field of this name.
    NotFound(String),
}

impl Clone for Error {
    fn clone(&self) -> (r: Error)
        ensures
            r == *self,
    {
        match self {
            Error::InvalidType(wanted, found) => Error::InvalidType(wanted, found),
            Error::NotFound(name) => Error::NotFound(name.clone()),
        }
    }
}

impl Error {
    /// The text of the message.
    pub open spec fn text(&self) -> Seq<char> {
        match self {
            Error::InvalidType(wanted, found) => "invalid type: wanted '"@ + wanted@
                + "' but actual '"@ + found@ + "'"@,
            Error::NotFound(name) => "field not found '"@ + name@ + "'"@,
        }
    }

    /// The message, for a reader.
    pub fn message(&self) -> (r: String)
        ensures
            r@ == self.text(),
    {
        match self {
            Error::InvalidType(wanted, found) => {
                let mut out = String::from_str("invalid type: wanted '");
                out.append(wanted);
                out.append("' but actual '");
                out.append(found);
                out.append("'");
                out
            },
            Error::NotFound(name) => {
                let mut out = String::from_str("field not found '");
                out.append(name.as_str());
                out.append("'");
                out
            },
        }
    }
}

} // verus!
