//! Why a path could not be resolved.
use vstd::prelude::*;

use crate::render::{decimal, decimal_text, render, render_value};
use crate::value::{json_value_type, kind_name, JsonValue};

verus! {

/// A resolution failure, carrying the value it was detected against.
#[derive(Debug, PartialEq)]
pub enum PajamasError<'a> {
    /// The index is past the end of the array.
    InvalidArrayIndex(usize, &'a JsonValue),
    /// An index was applied to a value that is not an array.
    InvalidIndexOperation(&'a JsonValue),
    /// The key is not a member of the value.
    KeyNotFound(String, &'a JsonValue),
}

/// The mathematical form of a resolution failure.
pub enum Failure {
    InvalidArrayIndex(nat, JsonValue),
    InvalidIndexOperation(JsonValue),
    KeyNotFound(Seq<char>, JsonValue),
}

impl<'a> PajamasError<'a> {
    /// This failure with its index as a number, its key as characters and
    /// its value dereferenced.
    pub open spec fn view(&self) -> Failure {
        match *self {
            PajamasError::InvalidArrayIndex(i, v) => Failure::InvalidArrayIndex(i as nat, *v),
            PajamasError::InvalidIndexOperation(v) => Failure::InvalidIndexOperation(*v),
            PajamasError::KeyNotFound(k, v) => Failure::KeyNotFound(k@, *v),
        }
    }
}

/// A failure as resolution produces it: an index failure names an array.
pub open spec fn failure_well_formed(f: Failure) -> bool {
    f matches Failure::InvalidArrayIndex(_, v) ==> v is Array
}

/// Number of elements of an array; zero for any other value.
pub open spec fn array_len(v: JsonValue) -> nat {
    match v {
        JsonValue::Array(items) => items@.len(),
        _ => 0,
    }
}

/// The value a failure was detected against.
pub open spec fn subject(f: Failure) -> JsonValue {
    match f {
        Failure::InvalidArrayIndex(_, array) => array,
        Failure::InvalidIndexOperation(value) => value,
        Failure::KeyNotFound(_, value) => value,
    }
}

/// The report of a failure, given the text of the value it was detected
/// against: what went wrong, then that text.
pub open spec fn report_text(f: Failure, shown: Seq<char>) -> Seq<char> {
    match f {
        Failure::InvalidArrayIndex(index, array) => "Error: invalid array index\n"@
            + "  Array of length "@ + decimal(array_len(array)) + " has no index "@ + decimal(index)
            + "\n"@ + "    "@ + shown,
        Failure::InvalidIndexOperation(value) => "Error: cannot index into value of type "@
            + kind_name(value) + "\n"@ + "  "@ + shown,
        Failure::KeyNotFound(key, value) => "Error: key '"@ + key + "' not found in value:\n"@
            + "  "@ + shown,
    }
}

/// The report of a failure, with its value written as compact JSON.
pub open spec fn message_text(f: Failure) -> Seq<char> {
    report_text(f, render(subject(f)))
}

impl<'a> PajamasError<'a> {
    /// The value this failure was detected against.
    pub fn subject(&self) -> (r: &'a JsonValue)
        ensures
            *r == subject(self@),
    {
        match self {
            PajamasError::InvalidArrayIndex(_, array) => array,
            PajamasError::InvalidIndexOperation(value) => value,
            PajamasError::KeyNotFound(_, value) => value,
        }
    }

    /// The report of this failure, with `shown` standing for the value it
    /// was detected against.
    pub fn report(&self, shown: &str) -> (r: String)
        requires
            failure_well_formed(self@),
        ensures
            r@ == report_text(self@, shown@),
    {
        let mut out = String::new();
        match self {
            PajamasError::InvalidArrayIndex(index, array) => {
                let length: usize = match array {
                    JsonValue::Array(items) => items.len(),
                    _ => 0,
                };
                out.append("Error: invalid array index\n");
                out.append("  Array of length ");
                out.append(decimal_text(length as u64).as_str());
                out.append(" has no index ");
                out.append(decimal_text(*index as u64).as_str());
                out.append("\n");
                out.append("    ");
                out.append(shown);
            },
            PajamasError::InvalidIndexOperation(value) => {
                let kind = match json_value_type(value) {
                    Some(name) => name,
                    None => "null",
                };
                out.append("Error: cannot index into value of type ");
                out.append(kind);
                out.append("\n");
                out.append("  ");
                out.append(shown);
            },
            PajamasError::KeyNotFound(key, value) => {
                out.append("Error: key '");
                out.append(key.as_str());
                out.append("' not found in value:\n");
                out.append("  ");
                out.append(shown);
            },
        }
        proof {
            assert(out@ =~= report_text(self@, shown@));
        }
        out
    }

    /// The human-readable report of this failure.
    pub fn message(&self) -> (r: String)
        requires
            failure_well_formed(self@),
        ensures
            r@ == message_text(self@),
    {
        let shown = render_value(self.subject());
        self.report(shown.as_str())
    }
}

} // verus!
