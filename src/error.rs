//! The failures the machine reports.
use vstd::prelude::*;

verus! {

/// What went wrong while loading or running a program.
#[derive(Debug, Clone, PartialEq, Eq)]
pub enum LC3Error {
    /// An invariant of a handler was broken (a bad bit slice, an unimplemented op code, a
    /// register index out of range).
    Internal(String),
    /// A plugin rejected an event.
    Plugin { message: String },
    /// The terminal or the character sink failed.
    IO { message: String },
    /// Decoding produced an op code outside the table.
    BadOpCode { code: u8 },
    /// A trap vector outside `0x20..=0x25`.
    BadTrapCode { code: u8 },
    /// The program does not fit in memory after the load address.
    ProgramSize { len: usize, max_len: usize },
    /// Any other failure, described by its message.
    Other(String),
}

/// The result of an operation of the machine.
pub type LC3Result<T> = Result<T, LC3Error>;

} // verus!
