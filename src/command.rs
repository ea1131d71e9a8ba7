//! The instruction word and the extraction of its bit fields.
use crate::error::{LC3Error, LC3Result};
use vstd::prelude::*;

verus! {

/// The bits of `w` from position `left` to `right` (inclusive, position 0 being the most
/// significant bit), moved to the low end of the word.
pub open spec fn bit_slice_spec(w: u16, left: u16, right: u16) -> u16 {
    (w & (0xFFFFu16 >> left)) >> ((15 - right) as u16)
}

/// The op code of an instruction: its leftmost four bits.
pub open spec fn op_code_spec(w: u16) -> u8 {
    (w >> 12u16) as u8
}

/// A 16-bit instruction word.
#[derive(Clone, Debug, PartialEq, Eq)]
pub struct Command {
    bytes: u16,
}

impl Command {
    /// The word this instruction wraps.
    pub closed spec fn word(&self) -> u16 {
        self.bytes
    }

    pub fn new(bytes: u16) -> (r: Self)
        ensures
            r.word() == bytes,
    {
        Self { bytes }
    }

    /// The op code of the instruction, the leftmost four bits.
    pub fn op_code(&self) -> (r: LC3Result<u8>)
        ensures
            r == Ok::<u8, LC3Error>(op_code_spec(self.word())),
            op_code_spec(self.word()) < 16,
    {
        let code = self.bit_slice(0, 3)?;
        proof {
            lemma_op_code(self.bytes);
        }
        Ok(code as u8)
    }

    pub fn get_bytes(&self) -> (r: u16)
        ensures
            r == self.word(),
    {
        self.bytes
    }

    /// The bits from `left` to `right` inclusive (bit 0 is the most significant one),
    /// right-aligned. Fails with `Internal` when `right > 15` or `left > right`.
    pub fn bit_slice(&self, left: u8, right: u8) -> (r: LC3Result<u16>)
        ensures
            right <= 15 && left <= right ==> r == Ok::<u16, LC3Error>(
                bit_slice_spec(self.word(), left as u16, right as u16),
            ),
            !(right <= 15 && left <= right) ==> r is Err && r->Err_0 is Internal,
    {
        if right > 15 {
            return Err(LC3Error::Internal("Right index for bit_slice exceeded 15".to_string()));
        }
        if left > right {
            return Err(LC3Error::Internal("Left index for bit_slice exceeded right".to_string()));
        }
        let left_mask: u16 = 0xFFFFu16 >> (left as u16);
        let masked = self.bytes & left_mask;
        let rshift_size: u16 = (15 - right) as u16;
        Ok(masked >> rshift_size)
    }
}

proof fn lemma_op_code(w: u16)
    by (bit_vector)
    ensures
        bit_slice_spec(w, 0, 3) == (w >> 12u16),
        (w >> 12u16) < 16,
{
}

/// Every instruction word has an op code below 16.
pub proof fn lemma_op_code_in_range(w: u16)
    ensures
        op_code_spec(w) < 16,
{
    lemma_op_code(w);
}

} // verus!
