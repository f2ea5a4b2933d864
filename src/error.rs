//! The errors of parsing and of projecting values.
use vstd::prelude::*;

verus! {

/// What can go wrong: a line without a colon (with its line number, from 0),
/// a stanza that was not consumed to its end, a shape that has no mapping,
/// and a value that does not fit the requested kind or mode.
#[derive(Debug, Clone)]
pub enum Error {
    Message(String),
    ExpectedStanzaEnd,
    MissingColon(usize),
    Unsupported(String),
}

impl Error {
    /// An error that carries the message `text`.
    pub fn message(text: &str) -> (r: Error)
        ensures
            r matches Error::Message(m) && m@ == text@,
    {
        Error::Message(text.to_owned())
    }
}

} // verus!
