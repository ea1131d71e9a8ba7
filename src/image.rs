//! Program images: a flat run of 16-bit words, two bytes each.
use crate::utils::{reverse_endianness, swap_bytes_spec};
use vstd::prelude::*;

verus! {

/// The word whose high byte is `hi` and low byte is `lo`.
pub open spec fn word_of(hi: u8, lo: u8) -> u16 {
    (hi * 0x100 + lo) as u16
}

/// The words of an image: byte pairs read high byte first, each swapped when
/// `little_endian`. A trailing odd byte is ignored.
pub open spec fn decode_words(bytes: Seq<u8>, little_endian: bool) -> Seq<u16> {
    Seq::new(
        bytes.len() / 2,
        |i: int|
            {
                let w = word_of(bytes[2 * i], bytes[2 * i + 1]);
                if little_endian {
                    swap_bytes_spec(w)
                } else {
                    w
                }
            },
    )
}

/// Decodes a program image into words.
pub fn decode_program(bytes: &Vec<u8>, little_endian: bool) -> (r: Vec<u16>)
    ensures
        r@ == decode_words(bytes@, little_endian),
{
    let mut words: Vec<u16> = Vec::new();
    let len = bytes.len();
    let n = len / 2;
    let mut i: usize = 0;
    while i < n
        invariant
            n == bytes@.len() / 2,
            len == bytes@.len(),
            i <= n,
            words@ == decode_words(bytes@, little_endian).subrange(0, i as int),
        decreases n - i,
    {
        assert(2 * i + 1 < len) by (nonlinear_arith)
            requires
                i < n,
                n == len / 2,
        ;
        let hi = bytes[2 * i];
        let lo = bytes[2 * i + 1];
        let w: u16 = (hi as u16) * 0x100 + (lo as u16);
        let w = if little_endian {
            reverse_endianness(w)
        } else {
            w
        };
        words.push(w);
        i = i + 1;
        assert(words@ =~= decode_words(bytes@, little_endian).subrange(0, i as int));
    }
    assert(words@ =~= decode_words(bytes@, little_endian));
    words
}

} // verus!
