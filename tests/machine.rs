use lc3rs::command::Command;
use lc3rs::error::LC3Error;
use lc3rs::io::TestIOHandle;
use lc3rs::plugin::EventLog;
use lc3rs::register::Register;
use lc3rs::register::Register::RCond;
use lc3rs::vm::{FL_NEG, FL_POS, FL_ZRO, KB_DATA_POS, KB_STATUS_POS, MAX_PROGRAM_LEN, VM};

#[test]
fn vm_can_update_flags() {
    let test_cases = vec![(0u16, FL_ZRO), (0x0001, FL_POS), (0x8111, FL_NEG)];

    let test_reg = 0;
    for (value, flag) in test_cases {
        let mut vm = VM::new();
        vm.reg_index_write(test_reg, value).unwrap();
        vm.update_flags(test_reg as usize).unwrap();
        assert_eq!(vm.reg_read(RCond).unwrap(), flag);
    }
}

#[test]
fn can_read_memmapped_registers() {
    let test_char = 'q';

    let mut io_handle = TestIOHandle::new();
    io_handle.add_keydown_response(true);
    io_handle.add_key_press(test_char);
    let mut vm: VM<TestIOHandle, EventLog> = VM::new_with_io(io_handle);

    assert_eq!(vm.mem_read(KB_STATUS_POS).unwrap(), 1 << 15);
    assert_eq!(vm.mem_read(KB_DATA_POS).unwrap() as u8 as char, test_char);
}

#[test]
fn can_run_program() {
    let mut program: Vec<u16> = vec![
        0b1110_0000_0000_0010,
        0xF022,
        0xF025,
    ];

    let test_string = "Hello world!";
    let char_vals = test_string.chars().map(|ch| ch as u16);
    program.extend(char_vals);

    let io_handle = TestIOHandle::new();
    let mut vm: VM<TestIOHandle, EventLog> = VM::new_with_io(io_handle);
    vm.load_program(&program).unwrap();
    vm.run().unwrap();

    let io_handle = vm.into_io_handle();
    let outputs: String = io_handle.get_test_outputs().iter().collect();
    assert_eq!(test_string.to_string(), outputs);
}

#[test]
fn run_stops_after_halt_with_pc_past_it() {
    let mut program: Vec<u16> = vec![0xE002, 0xF022, 0xF025];
    program.extend("Hello world!".chars().map(|ch| ch as u16));
    let mut vm = VM::new();
    vm.load_program(&program).unwrap();
    vm.run().unwrap();
    assert_eq!(vm.get_running().unwrap(), false);
    assert_eq!(vm.reg_read(Register::RPC).unwrap(), 0x3003);
}

#[test]
fn keyboard_status_reads_zero_with_no_key_held() {
    let mut io_handle = TestIOHandle::new();
    io_handle.add_keydown_response(false);
    let mut vm: VM<TestIOHandle, EventLog> = VM::new_with_io(io_handle);
    vm.mem_write(KB_STATUS_POS, 0x1234).unwrap();
    assert_eq!(vm.mem_read(KB_STATUS_POS).unwrap(), 0);
    assert_eq!(vm.mem_read(KB_DATA_POS).unwrap(), 0);
}

#[test]
fn load_program_places_words_at_the_load_address() {
    let program: Vec<u16> = vec![0x1234, 0x0000, 0xFFFF, 0xABCD];
    let mut vm = VM::new();
    vm.load_program(&program).unwrap();
    for (i, word) in program.iter().enumerate() {
        assert_eq!(vm.mem_read(0x3000 + i as u16).unwrap(), *word);
    }
    assert_eq!(vm.mem_read(0x2FFF).unwrap(), 0);
    assert_eq!(vm.mem_read(0x3004).unwrap(), 0);
    assert_eq!(vm.get_running().unwrap(), false);
}

#[test]
fn load_program_of_the_largest_size_fills_memory_to_the_end() {
    let program: Vec<u16> = (0..MAX_PROGRAM_LEN).map(|i| (i % 0x10000) as u16 | 1).collect();
    let mut vm = VM::new();
    vm.load_program(&program).unwrap();
    assert_eq!(vm.mem_read(0xFFFF).unwrap(), program[MAX_PROGRAM_LEN - 1]);
    assert_eq!(vm.mem_read(0x3000).unwrap(), program[0]);
}

#[test]
fn load_program_rejects_an_oversized_program() {
    let program: Vec<u16> = vec![7; MAX_PROGRAM_LEN + 1];
    let mut vm = VM::new();
    assert_eq!(
        vm.load_program(&program),
        Err(LC3Error::ProgramSize { len: 53249, max_len: 53248 })
    );
    assert_eq!(vm.mem_read(0x3000).unwrap(), 0);
}

#[test]
fn unknown_trap_vector_is_bad_trap_code() {
    let mut vm = VM::new();
    let result = vm.run_command(&Command::new(0xF026));
    assert_eq!(result, Err(LC3Error::BadTrapCode { code: 0x26 }));
}

#[test]
fn rti_and_reserved_are_internal_errors() {
    let mut vm = VM::new();
    assert!(matches!(vm.run_command(&Command::new(0x8000)), Err(LC3Error::Internal(_))));
    assert!(matches!(vm.run_command(&Command::new(0xD000)), Err(LC3Error::Internal(_))));
}

#[test]
fn register_index_above_ten_is_internal_error() {
    let mut vm = VM::new();
    assert!(matches!(vm.reg_index_read(11), Err(LC3Error::Internal(_))));
    assert!(matches!(vm.reg_index_write(11, 1), Err(LC3Error::Internal(_))));
    assert!(matches!(vm.update_flags(11), Err(LC3Error::Internal(_))));
    assert!(vm.reg_index_write(10, 1).is_ok());
}

#[test]
fn getchar_with_no_key_fails() {
    let mut vm = VM::new();
    assert!(matches!(vm.run_command(&Command::new(0xF020)), Err(LC3Error::Other(_))));
}

#[test]
fn trap_in_prompts_outside_the_character_output() {
    let mut io_handle = TestIOHandle::new();
    io_handle.add_key_press('z');
    let mut vm: VM<TestIOHandle, EventLog> = VM::new_with_io(io_handle);
    vm.run_command(&Command::new(0xF023)).unwrap();
    assert_eq!(vm.reg_read(Register::RR0).unwrap(), 'z' as u16);
    let io_handle = vm.into_io_handle();
    assert_eq!(io_handle.prompt_count(), 1);
    assert_eq!(io_handle.get_test_outputs(), vec!['z']);
}

#[test]
fn put_byte_string_stops_at_a_zero_high_byte() {
    let mut vm: VM<TestIOHandle, EventLog> = VM::new_with_io(TestIOHandle::new());
    vm.reg_write(Register::RR0, 0x4000).unwrap();
    vm.mem_write(0x4000, ('b' as u16) << 8 | 'a' as u16).unwrap();
    vm.mem_write(0x4001, 'c' as u16).unwrap();
    vm.mem_write(0x4002, 'x' as u16).unwrap();
    vm.run_command(&Command::new(0xF024)).unwrap();
    assert_eq!(vm.into_io_handle().get_test_outputs(), vec!['a', 'b', 'c']);
}

#[test]
fn put_string_wraps_around_the_end_of_memory() {
    let mut vm: VM<TestIOHandle, EventLog> = VM::new_with_io(TestIOHandle::new());
    vm.reg_write(Register::RR0, 0xFFFF).unwrap();
    vm.mem_write(0xFFFF, 'x' as u16).unwrap();
    vm.mem_write(0x0000, 'y' as u16).unwrap();
    vm.run_command(&Command::new(0xF022)).unwrap();
    assert_eq!(vm.into_io_handle().get_test_outputs(), vec!['x', 'y']);
}

#[test]
fn step_wraps_the_program_counter() {
    let mut vm = VM::new();
    vm.reg_write(Register::RPC, 0xFFFF).unwrap();
    vm.step().unwrap();
    assert_eq!(vm.reg_read(Register::RPC).unwrap(), 0x0000);
}

#[test]
fn branch_offset_wraps_the_program_counter() {
    let mut vm = VM::new();
    vm.reg_write(Register::RCond, FL_POS).unwrap();
    vm.reg_write(Register::RPC, 0xFFFE).unwrap();
    vm.run_command(&Command::new(0b0000_0010_0000_0100)).unwrap();
    assert_eq!(vm.reg_read(Register::RPC).unwrap(), 0x0002);
}

#[test]
fn add_register_mode_scenario() {
    let mut vm = VM::new();
    vm.reg_index_write(1, 1).unwrap();
    vm.reg_index_write(2, 2).unwrap();
    vm.run_command(&Command::new(0x1042)).unwrap();
    assert_eq!(vm.reg_index_read(0).unwrap(), 3);
    assert_eq!(vm.reg_read(Register::RCond).unwrap(), 1);
}

#[test]
fn add_negative_immediate_scenario() {
    let mut vm = VM::new();
    vm.reg_index_write(1, 1).unwrap();
    vm.run_command(&Command::new(0x107E)).unwrap();
    assert_eq!(vm.reg_index_read(0).unwrap(), 0xFFFF);
    assert_eq!(vm.reg_read(Register::RCond).unwrap(), 4);
}

#[test]
fn branch_on_zero_scenario() {
    let mut vm = VM::new();
    vm.reg_write(Register::RCond, FL_ZRO).unwrap();
    vm.reg_write(Register::RPC, 0x0F00).unwrap();
    vm.run_command(&Command::new(0x0408)).unwrap();
    assert_eq!(vm.reg_read(Register::RPC).unwrap(), 0x0F08);
}

#[test]
fn jsr_through_r7_jumps_to_the_saved_pc() {
    let mut vm = VM::new();
    vm.reg_write(Register::RPC, 0x1234).unwrap();
    vm.reg_write(Register::RR7, 0x5555).unwrap();
    vm.run_command(&Command::new(0b0100_0001_1100_0000)).unwrap();
    assert_eq!(vm.reg_read(Register::RR7).unwrap(), 0x1234);
    assert_eq!(vm.reg_read(Register::RPC).unwrap(), 0x1234);
}

#[test]
fn load_from_the_keyboard_status_register_polls_the_keyboard() {
    let mut io_handle = TestIOHandle::new();
    io_handle.add_keydown_response(false);
    io_handle.add_key_press('k');
    io_handle.add_keydown_response(true);
    let mut vm: VM<TestIOHandle, EventLog> = VM::new_with_io(io_handle);
    vm.reg_write(Register::RR1, KB_STATUS_POS).unwrap();
    // Ldr R0, R1, #0
    vm.run_command(&Command::new(0b0110_0000_0100_0000)).unwrap();
    assert_eq!(vm.reg_index_read(0).unwrap(), 0x8000);
    assert_eq!(vm.reg_read(Register::RCond).unwrap(), FL_NEG);
    assert_eq!(vm.mem_read(KB_DATA_POS).unwrap(), 'k' as u16);
    vm.run_command(&Command::new(0b0110_0000_0100_0000)).unwrap();
    assert_eq!(vm.reg_index_read(0).unwrap(), 0);
    assert_eq!(vm.reg_read(Register::RCond).unwrap(), FL_ZRO);
}
