//! The trap vector table.
use crate::error::{LC3Error, LC3Result};
use vstd::prelude::*;

verus! {

/// The operating system services reached through `Trap`.
#[derive(Debug, Clone, Copy, PartialEq, Eq)]
pub enum TrapCode {
    /// Read a character from the keyboard, without echo (vector 0x20).
    GetC,
    /// Write a character (vector 0x21).
    Out,
    /// Write a string of one character per word (vector 0x22).
    PutS,
    /// Prompt for a character, read it and echo it (vector 0x23).
    In,
    /// Write a string of two characters per word (vector 0x24).
    PutSp,
    /// Stop the machine (vector 0x25).
    Halt,
}

/// The service behind a trap vector in `0x20..=0x25`.
pub open spec fn trap_of(code: u8) -> TrapCode {
    if code == 0x20 {
        TrapCode::GetC
    } else if code == 0x21 {
        TrapCode::Out
    } else if code == 0x22 {
        TrapCode::PutS
    } else if code == 0x23 {
        TrapCode::In
    } else if code == 0x24 {
        TrapCode::PutSp
    } else {
        TrapCode::Halt
    }
}

/// Whether `code` is one of the six trap vectors.
pub open spec fn is_trap_vector(code: u8) -> bool {
    0x20 <= code <= 0x25
}

impl TrapCode {
    /// Decodes a trap vector; anything outside `0x20..=0x25` is `BadTrapCode`.
    pub fn from_int(code: u8) -> (r: LC3Result<Self>)
        ensures
            is_trap_vector(code) ==> r == Ok::<TrapCode, LC3Error>(trap_of(code)),
            !is_trap_vector(code) ==> r == Err::<TrapCode, LC3Error>(
                LC3Error::BadTrapCode { code },
            ),
    {
        match code {
            0x20 => Ok(Self::GetC),
            0x21 => Ok(Self::Out),
            0x22 => Ok(Self::PutS),
            0x23 => Ok(Self::In),
            0x24 => Ok(Self::PutSp),
            0x25 => Ok(Self::Halt),
            _ => Err(LC3Error::BadTrapCode { code }),
        }
    }
}

} // verus!
