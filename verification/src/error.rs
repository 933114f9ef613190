//! The ways in which a conversion can fail.

use vstd::prelude::*;

verus! {

/// Why no output could be produced.
#[derive(Clone, Copy, Debug, PartialEq, Eq, Structural)]
pub enum DumpError {
    /// The pattern that recognises data lines was not accepted by the
    /// regular-expression engine.
    Pattern,
    /// A captured field of a data line is not a hexadecimal number that
    /// fits in 32 bits.
    MalformedField,
    /// An address four bytes further on would not fit in 32 bits.
    AddressOverflow,
    /// A JSON array was asked of a map without entries.
    EmptyInput,
}

impl DumpError {
    /// A short description for a diagnostic message.
    pub fn describe(&self) -> (text: &'static str)
        ensures
            text@ == (match *self {
                DumpError::Pattern => "the data line pattern does not compile"@,
                DumpError::MalformedField => "a hexadecimal field does not fit in 32 bits"@,
                DumpError::AddressOverflow => "an address does not fit in 32 bits"@,
                DumpError::EmptyInput => "no entries to write as a JSON array"@,
            }),
    {
        match self {
            DumpError::Pattern => "the data line pattern does not compile",
            DumpError::MalformedField => "a hexadecimal field does not fit in 32 bits",
            DumpError::AddressOverflow => "an address does not fit in 32 bits",
            DumpError::EmptyInput => "no entries to write as a JSON array",
        }
    }
}

} // verus!
