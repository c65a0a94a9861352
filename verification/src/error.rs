//! Errors of the parser and where in the input they were found.

use vstd::prelude::*;
use crate::chars::{decimal, decimal_text};

verus! {

/// Where an error was found: a row and a column, and the name of the source, if any.
#[derive(Debug)]
pub struct Location {
    row: u64,
    col: u64,
    src: Option<String>,
}

/// What a `Location` holds.
pub struct LocationModel {
    pub row: u64,
    pub col: u64,
    pub src: Option<Seq<char>>,
}

impl View for Location {
    type V = LocationModel;

    closed spec fn view(&self) -> LocationModel {
        LocationModel { row: self.row, col: self.col, src: self.src.deep_view() }
    }
}

impl Location {
    /// A location at `row` and `col` in the source named `src`.
    pub(crate) fn new(row: u64, col: u64, src: Option<String>) -> (r: Location)
        ensures
            r@ == (LocationModel { row, col, src: src.deep_view() }),
    {
        Location { row, col, src }
    }
}

/// An error of the parser: what went wrong, and where.
#[derive(Debug)]
pub struct AdnotError {
    pub message: String,
    pub loc: Location,
}

/// What an `AdnotError` holds.
pub struct ErrorModel {
    pub message: Seq<char>,
    pub row: u64,
    pub col: u64,
    pub src: Option<Seq<char>>,
}

impl View for AdnotError {
    type V = ErrorModel;

    open spec fn view(&self) -> ErrorModel {
        ErrorModel {
            message: self.message@,
            row: self.loc@.row,
            col: self.loc@.col,
            src: self.loc@.src,
        }
    }
}

/// The text of an error: the source's name if there is one, then `[row:col]: `, the
/// message, and a line break.
pub open spec fn error_text(e: ErrorModel) -> Seq<char> {
    let place = "["@ + decimal_text(e.row as nat) + ":"@ + decimal_text(e.col as nat) + "]: "@
        + e.message + "\n"@;
    match e.src {
        Some(name) => name + place,
        None => place,
    }
}

impl AdnotError {
    /// The text of this error, as it is displayed.
    pub fn to_string(&self) -> (r: String)
        ensures
            r@ == error_text(self@),
    {
        let mut out = match &self.loc.src {
            Some(name) => name.clone(),
            None => String::new(),
        };
        out.append("[");
        let row = decimal(self.loc.row);
        out.append(row.as_str());
        out.append(":");
        let col = decimal(self.loc.col);
        out.append(col.as_str());
        out.append("]: ");
        out.append(self.message.as_str());
        out.append("\n");
        proof {
            let e = self@;
            let place = "["@ + decimal_text(e.row as nat) + ":"@ + decimal_text(e.col as nat)
                + "]: "@ + e.message + "\n"@;
            match e.src {
                Some(name) => {
                    assert(out@ =~= name + place);
                },
                None => {
                    assert(out@ =~= place);
                },
            }
        }
        out
    }
}

} // verus!
