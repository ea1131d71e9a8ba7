//! The op code table.
use crate::error::{LC3Error, LC3Result};
use vstd::prelude::*;

verus! {

/// The sixteen instructions, in op code order.
#[derive(Debug, Clone, Copy, PartialEq, Eq)]
pub enum Op {
    Br,
    Add,
    Ld,
    St,
    Jsr,
    And,
    Ldr,
    Str,
    Rti,
    Not,
    Ldi,
    Sti,
    Jmp,
    Res,
    Lea,
    Trap,
}

/// The instruction that op code `code` (below 16) stands for.
pub open spec fn op_of(code: u8) -> Op {
    if code == 0 {
        Op::Br
    } else if code == 1 {
        Op::Add
    } else if code == 2 {
        Op::Ld
    } else if code == 3 {
        Op::St
    } else if code == 4 {
        Op::Jsr
    } else if code == 5 {
        Op::And
    } else if code == 6 {
        Op::Ldr
    } else if code == 7 {
        Op::Str
    } else if code == 8 {
        Op::Rti
    } else if code == 9 {
        Op::Not
    } else if code == 10 {
        Op::Ldi
    } else if code == 11 {
        Op::Sti
    } else if code == 12 {
        Op::Jmp
    } else if code == 13 {
        Op::Res
    } else if code == 14 {
        Op::Lea
    } else {
        Op::Trap
    }
}

impl Op {
    /// Decodes a four-bit op code; anything from 16 up is `BadOpCode`.
    pub fn from_int(op_code: u8) -> (r: LC3Result<Op>)
        ensures
            op_code < 16 ==> r == Ok::<Op, LC3Error>(op_of(op_code)),
            op_code >= 16 ==> r == Err::<Op, LC3Error>(LC3Error::BadOpCode { code: op_code }),
    {
        match op_code {
            0 => Ok(Op::Br),
            1 => Ok(Op::Add),
            2 => Ok(Op::Ld),
            3 => Ok(Op::St),
            4 => Ok(Op::Jsr),
            5 => Ok(Op::And),
            6 => Ok(Op::Ldr),
            7 => Ok(Op::Str),
            8 => Ok(Op::Rti),
            9 => Ok(Op::Not),
            10 => Ok(Op::Ldi),
            11 => Ok(Op::Sti),
            12 => Ok(Op::Jmp),
            13 => Ok(Op::Res),
            14 => Ok(Op::Lea),
            15 => Ok(Op::Trap),
            _ => Err(LC3Error::BadOpCode { code: op_code }),
        }
    }
}

} // verus!
