//! Account statements from a stream of deposit, withdrawal and dispute events.
//!
//! - `parse` decodes the header and each data row into a `Transaction`.
//! - `ledger` applies transactions to the accounts and renders the statement.
//! - `account` and `amount` hold one account's state and the text of amounts.
use crate::parse::ParseError;
use vstd::prelude::*;

pub mod account;
pub mod amount;
pub mod cli;
pub mod ledger;
pub mod parse;

verus! {

/// Relies on `std::io::Error` only as an opaque value that an I/O failure
/// carries through to the caller; nothing is read from it.
#[verifier::external_type_specification]
#[verifier::external_body]
pub struct ExIoError(std::io::Error);

/// Why processing a file of events stopped.
#[derive(Debug)]
pub enum LedgerErr {
    Opening(std::io::Error),
    Reading(std::io::Error),
    Saving(std::io::Error),
    /// A line that could not be decoded: a message and the 1-based line
    /// number, the header being line 1.
    Parse(String, usize),
}

/// The message that goes with each kind of decoding error.
pub open spec fn parse_message(e: ParseError) -> Seq<char> {
    match e {
        ParseError::Incomplete => "Input was incomplete"@,
        ParseError::Malformed => "Input was in the wrong format"@,
        ParseError::Failure => "Faliure whilst parsing input"@,
    }
}

impl LedgerErr {
    /// The error for a line numbered `index` that failed to decode with `err`.
    pub fn from_parse(err: ParseError, index: usize) -> (r: LedgerErr)
        ensures
            r matches LedgerErr::Parse(m, n) && m@ == parse_message(err) && n == index,
    {
        let msg = match err {
            ParseError::Incomplete => "Input was incomplete",
            ParseError::Malformed => "Input was in the wrong format",
            ParseError::Failure => "Faliure whilst parsing input",
        };
        LedgerErr::Parse(msg.to_string(), index)
    }
}

} // verus!
