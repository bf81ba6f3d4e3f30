//! Errors that can occur while applying a transformation.
use vstd::prelude::*;
use crate::setter::{Error as SetterError, Operation};
use crate::text::push_str;
use crate::value::Kind;

verus! {

/// A failure while applying rules to a document.
#[derive(Debug, PartialEq)]
pub enum Error {
    /// A value of the wrong kind met a write or a count.
    Setter(SetterError),
    /// A custom action reported a failure.
    Custom(String),
}

pub open spec fn kind_word(k: Kind) -> Seq<char> {
    match k {
        Kind::Null => "null"@,
        Kind::Bool => "bool"@,
        Kind::Number => "number"@,
        Kind::String => "string"@,
        Kind::Array => "array"@,
        Kind::Object => "object"@,
    }
}

pub open spec fn operation_word(o: Operation) -> Seq<char> {
    match o {
        Operation::SetKey => "set an object key on"@,
        Operation::SetIndex => "set an array index on"@,
        Operation::AppendArray => "append to"@,
        Operation::MergeObject => "merge an object with"@,
        Operation::MergeArray => "merge an array with"@,
        Operation::CombineArray => "combine an array with"@,
        Operation::Count => "count"@,
    }
}

/// The text that describes an error.
pub open spec fn message_of(e: Error) -> Seq<char> {
    match e {
        Error::Setter(SetterError::InvalidDestinationType { found, operation: Operation::Count }) =>
            "Attempting get count of "@ + kind_word(found) + ", expected array."@,
        Error::Setter(SetterError::InvalidDestinationType { found, operation }) =>
            "Invalid destination type: cannot "@ + operation_word(operation) + " a value of kind "@ + kind_word(found),
        Error::Custom(m) => m@,
    }
}

fn kind_word_exec(k: Kind) -> (r: &'static str)
    ensures
        r@ == kind_word(k),
{
    match k {
        Kind::Null => "null",
        Kind::Bool => "bool",
        Kind::Number => "number",
        Kind::String => "string",
        Kind::Array => "array",
        Kind::Object => "object",
    }
}

fn operation_word_exec(o: Operation) -> (r: &'static str)
    ensures
        r@ == operation_word(o),
{
    match o {
        Operation::SetKey => "set an object key on",
        Operation::SetIndex => "set an array index on",
        Operation::AppendArray => "append to",
        Operation::MergeObject => "merge an object with",
        Operation::MergeArray => "merge an array with",
        Operation::CombineArray => "combine an array with",
        Operation::Count => "count",
    }
}

impl Error {
    /// A description of the error in words.
    pub fn message(&self) -> (r: String)
        ensures
            r@ == message_of(*self),
    {
        let mut out = String::new();
        match self {
            Error::Setter(SetterError::InvalidDestinationType { found, operation }) => {
                match operation {
                    Operation::Count => {
                        push_str(&mut out, "Attempting get count of ");
                        push_str(&mut out, kind_word_exec(*found));
                        push_str(&mut out, ", expected array.");
                    },
                    _ => {
                        push_str(&mut out, "Invalid destination type: cannot ");
                        push_str(&mut out, operation_word_exec(*operation));
                        push_str(&mut out, " a value of kind ");
                        push_str(&mut out, kind_word_exec(*found));
                    },
                }
            },
            Error::Custom(m) => {
                push_str(&mut out, m.as_str());
            },
        }
        assert(out@ =~= message_of(*self));
        out
    }
}

} // verus!
