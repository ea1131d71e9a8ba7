//! The register names.
use vstd::prelude::*;

verus! {

/// The number of register slots: R0..R7, PC, COND and the reserved COUNT.
pub const NUM_REGISTERS: usize = 11;

/// The index of the program counter.
pub const PC: u8 = 8;

/// The index of the condition-code register.
pub const COND: u8 = 9;

/// A named register.
#[derive(Debug, Clone, Copy, PartialEq, Eq)]
pub enum Register {
    RR0,
    RR1,
    RR2,
    RR3,
    RR4,
    RR5,
    RR6,
    RR7,
    RPC,
    RCond,
    /// Reserved; no instruction reads it.
    RCount,
}

impl Register {
    /// The slot of the register in the register file.
    pub open spec fn index_spec(self) -> u8 {
        match self {
            Register::RR0 => 0,
            Register::RR1 => 1,
            Register::RR2 => 2,
            Register::RR3 => 3,
            Register::RR4 => 4,
            Register::RR5 => 5,
            Register::RR6 => 6,
            Register::RR7 => 7,
            Register::RPC => 8,
            Register::RCond => 9,
            Register::RCount => 10,
        }
    }

    pub fn to_u8(&self) -> (r: u8)
        ensures
            r == self.index_spec(),
            r < NUM_REGISTERS,
    {
        match self {
            Register::RR0 => 0,
            Register::RR1 => 1,
            Register::RR2 => 2,
            Register::RR3 => 3,
            Register::RR4 => 4,
            Register::RR5 => 5,
            Register::RR6 => 6,
            Register::RR7 => 7,
            Register::RPC => 8,
            Register::RCond => 9,
            Register::RCount => 10,
        }
    }

    pub fn index(&self) -> (r: usize)
        ensures
            r == self.index_spec(),
    {
        self.to_u8() as usize
    }
}

} // verus!
