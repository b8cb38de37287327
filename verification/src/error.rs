use vstd::prelude::*;

verus! {

/// Why an operation of the library was refused.
#[derive(Clone, Copy, Debug, PartialEq, Eq, Structural)]
pub enum Error {
    /// The activity name is neither `train` nor `battle`.
    InvalidTag,
    /// A timestamp, a duration or a whole document could not be read.
    Parse,
    /// A timestamp lies outside the years 0000 to 9999 and cannot be written.
    OutOfRange,
}

impl Error {
    /// A short description, for diagnostics.
    pub fn message(&self) -> (r: &'static str)
        ensures
            r@ == match *self {
                Error::InvalidTag => "unknown tag (use train|battle)"@,
                Error::Parse => "malformed timestamp, duration or document"@,
                Error::OutOfRange => "timestamp outside the years 0000 to 9999"@,
            },
    {
        match self {
            Error::InvalidTag => "unknown tag (use train|battle)",
            Error::Parse => "malformed timestamp, duration or document",
            Error::OutOfRange => "timestamp outside the years 0000 to 9999",
        }
    }
}

} // verus!
