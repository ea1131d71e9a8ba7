use lc3rs::command::Command;
use lc3rs::error::LC3Error;
use lc3rs::op::Op;
use lc3rs::utils::sign_extend;

#[test]
fn can_read_op_codes() {
    let byte_op_pairs = [
        (0x0000, 0),
        (0x1000, 1),
        (0x2000, 2),
        (0x3000, 3),
        (0x4000, 4),
        (0x5000, 5),
        (0x6000, 6),
        (0x7000, 7),
        (0x8000, 8),
        (0x9000, 9),
        (0xA000, 10),
        (0xB000, 11),
        (0xC000, 12),
        (0xD000, 13),
        (0xE000, 14),
        (0xF000, 15),
    ];

    for (bytes, op_code) in &byte_op_pairs {
        let command = Command::new(*bytes);
        let command_op_code = command.op_code();
        assert_eq!(*op_code, command_op_code.unwrap());
    }
}

#[test]
fn can_cast_int_to_instruction() {
    let op_codes = [
        Op::Br,
        Op::Add,
        Op::Ld,
        Op::St,
        Op::Jsr,
        Op::And,
        Op::Ldr,
        Op::Str,
        Op::Rti,
        Op::Not,
        Op::Ldi,
        Op::Sti,
        Op::Jmp,
        Op::Res,
        Op::Lea,
        Op::Trap,
    ];
    for (code, op) in op_codes.iter().enumerate() {
        assert_eq!(&Op::from_int(code as u8).unwrap(), op);
    }
}

#[test]
fn can_sign_extend() {
    let test_bitcount_input_output: Vec<(u8, u16, u16)> = (0u16..16)
        .map(|x| ((x + 1) as u8, 1 << x, 0xFFFF << x))
        .collect();

    for (bit_count, input, expected) in test_bitcount_input_output {
        let extended = sign_extend(input, bit_count);
        assert_eq!(extended, expected);
    }

    let test_bitcount_input_output: Vec<(u8, u16, u16)> = (0u16..16)
        .map(|x| ((x + 1) as u8, !(1 << x), !(0xFFFF << x)))
        .collect();

    for (bit_count, input, expected) in test_bitcount_input_output {
        let extended = sign_extend(input, bit_count);
        assert_eq!(extended, expected);
    }
}

#[test]
fn op_code_out_of_table_is_bad_op_code() {
    assert_eq!(Op::from_int(16), Err(LC3Error::BadOpCode { code: 16 }));
    assert_eq!(Op::from_int(255), Err(LC3Error::BadOpCode { code: 255 }));
}

#[test]
fn every_op_code_is_below_sixteen() {
    for w in [0u16, 0x0FFF, 0x7ABC, 0x8000, 0xFFFF] {
        let code = Command::new(w).op_code().unwrap();
        assert!(code < 16);
        assert_eq!(code as u16, w >> 12);
    }
}

#[test]
fn bit_slice_takes_fields_from_the_left() {
    let command = Command::new(0b0001_0000_0111_1110);
    assert_eq!(command.bit_slice(0, 3), Ok(1));
    assert_eq!(command.bit_slice(4, 6), Ok(0));
    assert_eq!(command.bit_slice(7, 9), Ok(1));
    assert_eq!(command.bit_slice(10, 10), Ok(1));
    assert_eq!(command.bit_slice(11, 15), Ok(0b11110));
    assert_eq!(command.bit_slice(0, 15), Ok(0x107E));
    assert_eq!(command.get_bytes(), 0x107E);
}

#[test]
fn bit_slice_rejects_bad_bounds() {
    let command = Command::new(0xFFFF);
    assert!(matches!(command.bit_slice(0, 16), Err(LC3Error::Internal(_))));
    assert!(matches!(command.bit_slice(5, 4), Err(LC3Error::Internal(_))));
}
