use lc3rs::image::decode_program;
use lc3rs::utils::{reverse_endianness, sign_extend, wrapping_add};

#[test]
fn sign_extension_matches_twos_complement() {
    for n in 1u8..=16 {
        for w in [0u16, 1, 0x5555, 0xAAAA, 0x7FFF, 0x8000, 0xFFFF, 0x1234] {
            let mask: u32 = (1u32 << n) - 1;
            let low = (w as u32 & mask) as u16;
            let expected: i32 = if low as u32 >= (1u32 << (n - 1)) {
                low as i32 - (1i32 << n)
            } else {
                low as i32
            };
            assert_eq!(sign_extend(low, n) as i16 as i32, expected);
        }
    }
    assert_eq!(sign_extend(0b11110, 5), 0xFFFE);
    assert_eq!(sign_extend(0b01111, 5), 0x000F);
}

#[test]
fn wrapping_add_is_addition_modulo_two_to_the_sixteen() {
    assert_eq!(wrapping_add(0xFFFF, 2), 1);
    assert_eq!(wrapping_add(0x8000, 0x8000), 0);
    assert_eq!(wrapping_add(0x1234, 0x0001), 0x1235);
    for (a, b) in [(0u16, 0u16), (0xFFFF, 0xFFFF), (0x7FFF, 1), (300, 65000)] {
        assert_eq!(wrapping_add(a, b), ((a as u32 + b as u32) & 0xFFFF) as u16);
    }
}

#[test]
fn images_decode_big_endian_by_default() {
    let bytes: Vec<u8> = vec![0x12, 0x34, 0xF0, 0x25, 0xAB];
    assert_eq!(decode_program(&bytes, false), vec![0x1234, 0xF025]);
    assert_eq!(decode_program(&bytes, true), vec![0x3412, 0x25F0]);
    assert_eq!(decode_program(&Vec::new(), false), Vec::<u16>::new());
    assert_eq!(reverse_endianness(0x1234), 0x3412);
}
