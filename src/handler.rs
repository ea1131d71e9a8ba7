//! One handler per op code: what each instruction does to registers, memory and flags.
use crate::command::{bit_slice_spec, op_code_spec, Command};
use crate::op::{op_of, Op};
use crate::error::{LC3Error, LC3Result};
use crate::io::IOHandle;
use crate::plugin::{Event, Plugin};
use crate::register::Register;
use crate::utils::{sign_extend, sign_extend_spec, wrapping_add, wrapping_add_spec};
use crate::trap::{is_trap_vector, TrapCode};
use crate::trap_handler::{
    self as handle_trap, addr_at, IN_PROMPT, byte_string_ends_at, byte_string_events, byte_string_tail,
    byte_string_chars, byte_string_tail_chars, reads_char, word_string_chars, word_string_ends_at,
    word_string_events,
};
use crate::vm::{
    char_word, flag_of, keyboard_poll, port_took_key, port_wrote, word_char, FL_NEG, FL_POS,
    FL_ZRO, KB_STATUS_POS, VM,
};
use vstd::prelude::*;

verus! {

/// Destination register, bits 4..6.
pub open spec fn dr(w: u16) -> u8 {
    bit_slice_spec(w, 4, 6) as u8
}

/// First source (or base) register, bits 7..9.
pub open spec fn sr1(w: u16) -> u8 {
    bit_slice_spec(w, 7, 9) as u8
}

/// Second source register, bits 13..15.
pub open spec fn sr2(w: u16) -> u8 {
    bit_slice_spec(w, 13, 15) as u8
}

/// Whether Add and And take an immediate operand (bit 10).
pub open spec fn imm_mode(w: u16) -> bool {
    bit_slice_spec(w, 10, 10) == 1
}

/// The immediate operand, bits 11..15 sign-extended.
pub open spec fn imm5(w: u16) -> u16 {
    sign_extend_spec(bit_slice_spec(w, 11, 15), 5)
}

/// The base offset of Ldr and Str, bits 10..15 sign-extended.
pub open spec fn offset6(w: u16) -> u16 {
    sign_extend_spec(bit_slice_spec(w, 10, 15), 6)
}

/// The PC offset, bits 7..15 sign-extended.
pub open spec fn pc_offset9(w: u16) -> u16 {
    sign_extend_spec(bit_slice_spec(w, 7, 15), 9)
}

/// The PC offset of Jsr, bits 5..15 sign-extended.
pub open spec fn pc_offset11(w: u16) -> u16 {
    sign_extend_spec(bit_slice_spec(w, 5, 15), 11)
}

/// The condition mask of Br, bits 4..6.
pub open spec fn branch_mask(w: u16) -> u16 {
    bit_slice_spec(w, 4, 6)
}

/// Whether Jsr takes a PC offset rather than a base register (bit 4).
pub open spec fn jsr_offset_mode(w: u16) -> bool {
    bit_slice_spec(w, 4, 4) == 1
}

/// The trap vector, bits 8..15.
pub open spec fn trap_vector(w: u16) -> u8 {
    bit_slice_spec(w, 8, 15) as u8
}

proof fn lemma_field_bounds(w: u16)
    by (bit_vector)
    ensures
        bit_slice_spec(w, 4, 6) < 8,
        bit_slice_spec(w, 7, 9) < 8,
        bit_slice_spec(w, 13, 15) < 8,
        bit_slice_spec(w, 10, 10) < 2,
        bit_slice_spec(w, 4, 4) < 2,
        bit_slice_spec(w, 8, 15) < 256,
{
}

/// The registers after `v` is stored in register `d` and COND is set from it.
pub open spec fn with_result(regs: Seq<u16>, d: u8, v: u16) -> Seq<u16> {
    regs.update(d as int, v).update(9, flag_of(v))
}

/// After a flag-setting instruction stores `v` in register `d`, the register holds `v` and
/// COND is Z exactly when `v` is zero, N exactly when bit 15 of `v` is set, and P otherwise.
pub proof fn lemma_flags_classify(regs: Seq<u16>, d: u8, v: u16)
    requires
        regs.len() == 11,
        d < 8,
    ensures
        with_result(regs, d, v)[d as int] == v,
        with_result(regs, d, v)[9] == FL_ZRO <==> v == 0,
        with_result(regs, d, v)[9] == FL_NEG <==> (v >> 15u16) & 1 == 1,
        with_result(regs, d, v)[9] == FL_POS <==> v != 0 && (v >> 15u16) & 1 == 0,
{
    assert(((v >> 15u16) & 1 == 1 <==> v >= 0x8000) && ((v >> 15u16) & 1 == 0 <==> v < 0x8000))
        by (bit_vector);
}

/// The events of storing `v` in register `d` and setting COND from it.
pub open spec fn result_events(d: u8, v: u16) -> Seq<Event> {
    Seq::empty().push(Event::RegSet { index: d, value: v }).push(
        Event::RegGet { index: d, value: v },
    ).push(Event::RegSet { index: 9, value: flag_of(v) })
}

/// The second operand of Add and And.
pub open spec fn second_operand(regs: Seq<u16>, w: u16) -> u16 {
    if imm_mode(w) {
        imm5(w)
    } else {
        regs[sr2(w) as int]
    }
}

/// The events of reading the operands of Add and And.
pub open spec fn operand_events(regs: Seq<u16>, w: u16) -> Seq<Event> {
    let first = Seq::empty().push(Event::RegGet { index: sr1(w), value: regs[sr1(w) as int] });
    if imm_mode(w) {
        first
    } else {
        first.push(Event::RegGet { index: sr2(w), value: regs[sr2(w) as int] })
    }
}

/// Stores `v` in register `d` and sets COND from it.
fn write_result<IO: IOHandle, P: Plugin<IO>>(vm: &mut VM<IO, P>, d: u8, v: u16) -> (r: LC3Result<()>)
    requires
        old(vm).wf(),
        d < 8,
    ensures
        !old(vm).delivering() && r is Ok ==> final(vm).plugins_succeeded(),
        final(vm).keeps_bus(*old(vm)),
        old(vm).delivering() ==> final(vm).events() == old(vm).events(),
        old(vm).unobserved() ==> r is Ok && final(vm).regs() == with_result(old(vm).regs(), d, v)
            && final(vm).mem() == old(vm).mem() && final(vm).is_running() == old(vm).is_running()
            && final(vm).events() == old(vm).emit_all(result_events(d, v))
            && final(vm).io() == old(vm).io(),
{
    let ghost s0 = *vm;
    vm.reg_index_write(d, v)?;
    let ghost s1 = *vm;
    vm.update_flags(d as usize)?;
    proof {
        if s0.unobserved() {
            assert(s1.regs()[d as int] == v);
            assert(vm.events() =~= s0.emit_all(result_events(d, v)));
        }
    }
    Ok(())
}

/// Add: DR <- SR1 + (imm5 or SR2), wrapping; sets COND.
pub fn add<IO: IOHandle, P: Plugin<IO>>(
    vm: &mut VM<IO, P>,
    command: &Command,
) -> (r: LC3Result<()>)
    requires
        old(vm).wf(),
    ensures
        !old(vm).delivering() && r is Ok ==> final(vm).plugins_succeeded(),
        final(vm).keeps_bus(*old(vm)),
        old(vm).delivering() ==> final(vm).events() == old(vm).events(),
        old(vm).unobserved() ==> ({
            let w = command.word();
            let regs = old(vm).regs();
            let v = wrapping_add_spec(regs[sr1(w) as int], second_operand(regs, w));
            &&& r is Ok
            &&& final(vm).io() == old(vm).io()
            &&& final(vm).regs() == with_result(regs, dr(w), v)
            &&& final(vm).mem() == old(vm).mem()
            &&& final(vm).is_running() == old(vm).is_running()
            &&& final(vm).events() == old(vm).emit_all(operand_events(regs, w) + result_events(dr(w), v))
        }),
{
    let ghost s0 = *vm;
    proof {
        lemma_field_bounds(command.word());
    }
    let target_reg = command.bit_slice(4, 6)? as u8;
    let left = vm.reg_index_read(command.bit_slice(7, 9)? as u8)?;
    let immediate = command.bit_slice(10, 10)? == 1;
    let right = if immediate {
        sign_extend(command.bit_slice(11, 15)?, 5)
    } else {
        vm.reg_index_read(command.bit_slice(13, 15)? as u8)?
    };
    let ghost s1 = *vm;
    let sum = wrapping_add(left, right);
    write_result(vm, target_reg, sum)?;
    proof {
        if s0.unobserved() {
            assert(s1.events() =~= s0.emit_all(operand_events(s0.regs(), command.word())));
            assert(vm.events() =~= s0.emit_all(
                operand_events(s0.regs(), command.word()) + result_events(dr(command.word()), sum),
            ));
        }
    }
    Ok(())
}

/// The events of reading the operand of Not.
pub open spec fn not_events(regs: Seq<u16>, w: u16) -> Seq<Event> {
    Seq::empty().push(Event::RegGet { index: sr1(w), value: regs[sr1(w) as int] })
}

/// And: DR <- SR1 & (imm5 or SR2); sets COND.
pub fn and<IO: IOHandle, P: Plugin<IO>>(
    vm: &mut VM<IO, P>,
    command: &Command,
) -> (r: LC3Result<()>)
    requires
        old(vm).wf(),
    ensures
        !old(vm).delivering() && r is Ok ==> final(vm).plugins_succeeded(),
        final(vm).keeps_bus(*old(vm)),
        old(vm).delivering() ==> final(vm).events() == old(vm).events(),
        old(vm).unobserved() ==> ({
            let w = command.word();
            let regs = old(vm).regs();
            let v = regs[sr1(w) as int] & second_operand(regs, w);
            &&& r is Ok
            &&& final(vm).io() == old(vm).io()
            &&& final(vm).regs() == with_result(regs, dr(w), v)
            &&& final(vm).mem() == old(vm).mem()
            &&& final(vm).is_running() == old(vm).is_running()
            &&& final(vm).events() == old(vm).emit_all(operand_events(regs, w) + result_events(dr(w), v))
        }),
{
    let ghost s0 = *vm;
    proof {
        lemma_field_bounds(command.word());
    }
    let target_reg = command.bit_slice(4, 6)? as u8;
    let left = vm.reg_index_read(command.bit_slice(7, 9)? as u8)?;
    let immediate = command.bit_slice(10, 10)? == 1;
    let right = if immediate {
        sign_extend(command.bit_slice(11, 15)?, 5)
    } else {
        vm.reg_index_read(command.bit_slice(13, 15)? as u8)?
    };
    let ghost s1 = *vm;
    let conj = left & right;
    write_result(vm, target_reg, conj)?;
    proof {
        if s0.unobserved() {
            assert(s1.events() =~= s0.emit_all(operand_events(s0.regs(), command.word())));
            assert(vm.events() =~= s0.emit_all(
                operand_events(s0.regs(), command.word()) + result_events(dr(command.word()), conj),
            ));
        }
    }
    Ok(())
}

/// Not: DR <- bitwise complement of SR1; sets COND.
pub fn not<IO: IOHandle, P: Plugin<IO>>(
    vm: &mut VM<IO, P>,
    command: &Command,
) -> (r: LC3Result<()>)
    requires
        old(vm).wf(),
    ensures
        !old(vm).delivering() && r is Ok ==> final(vm).plugins_succeeded(),
        final(vm).keeps_bus(*old(vm)),
        old(vm).delivering() ==> final(vm).events() == old(vm).events(),
        old(vm).unobserved() ==> ({
            let w = command.word();
            let regs = old(vm).regs();
            let v = !regs[sr1(w) as int];
            &&& r is Ok
            &&& final(vm).io() == old(vm).io()
            &&& final(vm).regs() == with_result(regs, dr(w), v)
            &&& final(vm).mem() == old(vm).mem()
            &&& final(vm).is_running() == old(vm).is_running()
            &&& final(vm).events() == old(vm).emit_all(not_events(regs, w) + result_events(dr(w), v))
        }),
{
    let ghost s0 = *vm;
    proof {
        lemma_field_bounds(command.word());
    }
    let target = command.bit_slice(4, 6)? as u8;
    let source = command.bit_slice(7, 9)? as u8;
    let negated = !vm.reg_index_read(source)?;
    let ghost s1 = *vm;
    write_result(vm, target, negated)?;
    proof {
        if s0.unobserved() {
            assert(s1.events() =~= s0.emit_all(not_events(s0.regs(), command.word())));
            assert(vm.events() =~= s0.emit_all(
                not_events(s0.regs(), command.word()) + result_events(dr(command.word()), negated),
            ));
        }
    }
    Ok(())
}

/// Whether Br branches: COND shares a bit with the instruction's mask.
pub open spec fn branch_taken(regs: Seq<u16>, w: u16) -> bool {
    regs[9] & branch_mask(w) != 0
}

/// The address PC + the 9-bit offset.
pub open spec fn pc_relative(regs: Seq<u16>, w: u16) -> u16 {
    wrapping_add_spec(regs[8], pc_offset9(w))
}

/// The events of Br.
pub open spec fn branch_events(regs: Seq<u16>, w: u16) -> Seq<Event> {
    let test = Seq::empty().push(Event::RegGet { index: 9, value: regs[9] });
    if branch_taken(regs, w) {
        test.push(Event::RegGet { index: 8, value: regs[8] }).push(
            Event::RegSet { index: 8, value: pc_relative(regs, w) },
        )
    } else {
        test
    }
}

/// Br: if COND & mask is not zero, PC <- PC + offset.
pub fn branch<IO: IOHandle, P: Plugin<IO>>(
    vm: &mut VM<IO, P>,
    command: &Command,
) -> (r: LC3Result<()>)
    requires
        old(vm).wf(),
    ensures
        !old(vm).delivering() && r is Ok ==> final(vm).plugins_succeeded(),
        final(vm).keeps_bus(*old(vm)),
        old(vm).delivering() ==> final(vm).events() == old(vm).events(),
        old(vm).unobserved() ==> ({
            let w = command.word();
            let regs = old(vm).regs();
            &&& r is Ok
            &&& final(vm).io() == old(vm).io()
            &&& final(vm).regs() == if branch_taken(regs, w) {
                regs.update(8, pc_relative(regs, w))
            } else {
                regs
            }
            &&& final(vm).mem() == old(vm).mem()
            &&& final(vm).is_running() == old(vm).is_running()
            &&& final(vm).events() == old(vm).emit_all(branch_events(regs, w))
        }),
{
    let ghost s0 = *vm;
    let test_flag = command.bit_slice(4, 6)?;
    let flags = vm.reg_read(Register::RCond)?;
    if (flags & test_flag) != 0 {
        let offset = sign_extend(command.bit_slice(7, 15)?, 9);
        let pc = vm.reg_read(Register::RPC)?;
        vm.reg_write(Register::RPC, wrapping_add(pc, offset))?;
    }
    proof {
        if s0.unobserved() {
            assert(vm.events() =~= s0.emit_all(branch_events(s0.regs(), command.word())));
        }
    }
    Ok(())
}

/// What a read of the keyboard status register by a load into register `d` leaves in
/// `after`: the keyboard was polled (see `keyboard_poll`), the polled status word went to
/// `d` and set COND; `reads` are the events before the read.
pub open spec fn polled_load<IO, P>(
    regs: Seq<u16>,
    mem: Seq<u16>,
    running: bool,
    delivering: bool,
    log: Seq<Event>,
    reads: Seq<Event>,
    d: u8,
    after: VM<IO, P>,
) -> bool {
    let v = after.mem()[KB_STATUS_POS as int];
    exists|evs: Seq<Event>|
        {
            &&& #[trigger] keyboard_poll(mem, after.mem(), evs)
            &&& after.regs() == with_result(regs, d, v)
            &&& after.is_running() == running
            &&& after.events() == log_after(
                delivering,
                log,
                reads + evs.push(Event::MemGet { location: KB_STATUS_POS, value: v }) + result_events(
                    d,
                    v,
                ),
            )
        }
}

/// The events of Ld: read PC, read memory, store the word and set COND.
pub open spec fn load_events(regs: Seq<u16>, mem: Seq<u16>, w: u16) -> Seq<Event> {
    let a = pc_relative(regs, w);
    Seq::empty().push(Event::RegGet { index: 8, value: regs[8] }).push(
        Event::MemGet { location: a, value: mem[a as int] },
    ) + result_events(dr(w), mem[a as int])
}

/// Ld: DR <- mem[PC + offset]; sets COND. Exact unless the address is the keyboard status
/// register, whose read polls the keyboard.
pub fn load<IO: IOHandle, P: Plugin<IO>>(
    vm: &mut VM<IO, P>,
    command: &Command,
) -> (r: LC3Result<()>)
    requires
        old(vm).wf(),
    ensures
        !old(vm).delivering() && r is Ok ==> final(vm).plugins_succeeded(),
        final(vm).keeps_bus(*old(vm)),
        old(vm).delivering() ==> final(vm).events() == old(vm).events(),
        old(vm).unobserved() && pc_relative(old(vm).regs(), command.word()) != KB_STATUS_POS ==> ({
            let w = command.word();
            let regs = old(vm).regs();
            let mem = old(vm).mem();
            &&& r is Ok
            &&& final(vm).io() == old(vm).io()
            &&& final(vm).regs() == with_result(regs, dr(w), mem[pc_relative(regs, w) as int])
            &&& final(vm).mem() == mem
            &&& final(vm).is_running() == old(vm).is_running()
            &&& final(vm).events() == old(vm).emit_all(load_events(regs, mem, w))
        }),
        old(vm).unobserved() && pc_relative(old(vm).regs(), command.word()) == KB_STATUS_POS && r is Ok
            ==> polled_load(
            old(vm).regs(),
            old(vm).mem(),
            old(vm).is_running(),
            old(vm).delivering(),
            old(vm).events(),
            Seq::empty().push(Event::RegGet { index: 8, value: old(vm).regs()[8] }),
            dr(command.word()),
            *final(vm),
        ),
        old(vm).unobserved() ==> final(vm).regs()[8] == old(vm).regs()[8] && final(vm).is_running()
            == old(vm).is_running(),
{
    let ghost s0 = *vm;
    proof {
        lemma_field_bounds(command.word());
    }
    let target_reg = command.bit_slice(4, 6)? as u8;
    let offset = sign_extend(command.bit_slice(7, 15)?, 9);
    let pc = vm.reg_read(Register::RPC)?;
    let address = wrapping_add(pc, offset);
    let ghost s1 = *vm;
    let val = vm.mem_read(address)?;
    let ghost s2 = *vm;
    write_result(vm, target_reg, val)?;
    proof {
        if s0.unobserved() && address != KB_STATUS_POS {
            assert(vm.events() =~= s0.emit_all(load_events(s0.regs(), s0.mem(), command.word())));
        }
        if s0.unobserved() && address == KB_STATUS_POS {
            let reads = Seq::empty().push(Event::RegGet { index: 8, value: s0.regs()[8] });
            let evs = choose|evs: Seq<Event>|
                keyboard_poll(s1.mem(), s2.mem(), evs) && s2.events() == s1.emit_all(
                    evs.push(Event::MemGet { location: KB_STATUS_POS, value: val }),
                );
            assert(vm.events() =~= log_after(
                s0.delivering(),
                s0.events(),
                reads + evs.push(Event::MemGet { location: KB_STATUS_POS, value: val })
                    + result_events(target_reg, val),
            ));
            assert(keyboard_poll(s0.mem(), vm.mem(), evs));
        }
    }
    Ok(())
}

/// The events of St: read PC, read the source register, write memory.
pub open spec fn store_events(regs: Seq<u16>, w: u16) -> Seq<Event> {
    Seq::empty().push(Event::RegGet { index: 8, value: regs[8] }).push(
        Event::RegGet { index: dr(w), value: regs[dr(w) as int] },
    ).push(Event::MemSet { location: pc_relative(regs, w), value: regs[dr(w) as int] })
}

/// St: mem[PC + offset] <- SR.
pub fn store<IO: IOHandle, P: Plugin<IO>>(
    vm: &mut VM<IO, P>,
    command: &Command,
) -> (r: LC3Result<()>)
    requires
        old(vm).wf(),
    ensures
        !old(vm).delivering() && r is Ok ==> final(vm).plugins_succeeded(),
        final(vm).keeps_bus(*old(vm)),
        old(vm).delivering() ==> final(vm).events() == old(vm).events(),
        old(vm).unobserved() ==> ({
            let w = command.word();
            let regs = old(vm).regs();
            &&& r is Ok
            &&& final(vm).io() == old(vm).io()
            &&& final(vm).regs() == regs
            &&& final(vm).mem() == old(vm).mem().update(pc_relative(regs, w) as int, regs[dr(w) as int])
            &&& final(vm).is_running() == old(vm).is_running()
            &&& final(vm).events() == old(vm).emit_all(store_events(regs, w))
        }),
{
    let ghost s0 = *vm;
    proof {
        lemma_field_bounds(command.word());
    }
    let source = command.bit_slice(4, 6)? as u8;
    let offset = sign_extend(command.bit_slice(7, 15)?, 9);
    let pc = vm.reg_read(Register::RPC)?;
    let target = wrapping_add(pc, offset);
    let val = vm.reg_index_read(source)?;
    vm.mem_write(target, val)?;
    proof {
        if s0.unobserved() {
            assert(vm.events() =~= s0.emit_all(store_events(s0.regs(), command.word())));
        }
    }
    Ok(())
}

/// Where Jsr jumps, given the registers after R7 was saved.
pub open spec fn jsr_target(saved: Seq<u16>, w: u16) -> u16 {
    if jsr_offset_mode(w) {
        wrapping_add_spec(saved[8], pc_offset11(w))
    } else {
        saved[sr1(w) as int]
    }
}

/// The events of Jsr.
pub open spec fn jsr_events(regs: Seq<u16>, w: u16) -> Seq<Event> {
    let saved = regs.update(7, regs[8]);
    let start = Seq::empty().push(Event::RegGet { index: 8, value: regs[8] }).push(
        Event::RegSet { index: 7, value: regs[8] },
    );
    let read = if jsr_offset_mode(w) {
        start.push(Event::RegGet { index: 8, value: regs[8] })
    } else {
        start.push(Event::RegGet { index: sr1(w), value: saved[sr1(w) as int] })
    };
    read.push(Event::RegSet { index: 8, value: jsr_target(saved, w) })
}

/// Jsr: R7 <- PC; then PC <- PC + offset, or PC <- the base register (read after R7 was
/// written).
pub fn jump_register<IO: IOHandle, P: Plugin<IO>>(
    vm: &mut VM<IO, P>,
    command: &Command,
) -> (r: LC3Result<()>)
    requires
        old(vm).wf(),
    ensures
        !old(vm).delivering() && r is Ok ==> final(vm).plugins_succeeded(),
        final(vm).keeps_bus(*old(vm)),
        old(vm).delivering() ==> final(vm).events() == old(vm).events(),
        old(vm).unobserved() ==> ({
            let w = command.word();
            let regs = old(vm).regs();
            let saved = regs.update(7, regs[8]);
            &&& r is Ok
            &&& final(vm).io() == old(vm).io()
            &&& final(vm).regs() == saved.update(8, jsr_target(saved, w))
            &&& final(vm).mem() == old(vm).mem()
            &&& final(vm).is_running() == old(vm).is_running()
            &&& final(vm).events() == old(vm).emit_all(jsr_events(regs, w))
        }),
{
    let ghost s0 = *vm;
    proof {
        lemma_field_bounds(command.word());
    }
    let pc = vm.reg_read(Register::RPC)?;
    vm.reg_write(Register::RR7, pc)?;
    let offset_mode = command.bit_slice(4, 4)? == 1;
    let destination = if offset_mode {
        let offset = sign_extend(command.bit_slice(5, 15)?, 11);
        let current = vm.reg_read(Register::RPC)?;
        wrapping_add(current, offset)
    } else {
        let source_reg = command.bit_slice(7, 9)? as u8;
        vm.reg_index_read(source_reg)?
    };
    vm.reg_write(Register::RPC, destination)?;
    proof {
        if s0.unobserved() {
            assert(vm.events() =~= s0.emit_all(jsr_events(s0.regs(), command.word())));
        }
    }
    Ok(())
}

/// The address base register + the 6-bit offset.
pub open spec fn base_relative(regs: Seq<u16>, w: u16) -> u16 {
    wrapping_add_spec(regs[sr1(w) as int], offset6(w))
}

/// The events of Ldr.
pub open spec fn load_register_events(regs: Seq<u16>, mem: Seq<u16>, w: u16) -> Seq<Event> {
    let a = base_relative(regs, w);
    Seq::empty().push(Event::RegGet { index: sr1(w), value: regs[sr1(w) as int] }).push(
        Event::MemGet { location: a, value: mem[a as int] },
    ) + result_events(dr(w), mem[a as int])
}

/// Ldr: DR <- mem[base + offset]; sets COND. Exact unless the address is the keyboard
/// status register.
pub fn load_register<IO: IOHandle, P: Plugin<IO>>(
    vm: &mut VM<IO, P>,
    command: &Command,
) -> (r: LC3Result<()>)
    requires
        old(vm).wf(),
    ensures
        !old(vm).delivering() && r is Ok ==> final(vm).plugins_succeeded(),
        final(vm).keeps_bus(*old(vm)),
        old(vm).delivering() ==> final(vm).events() == old(vm).events(),
        old(vm).unobserved() && base_relative(old(vm).regs(), command.word()) != KB_STATUS_POS ==> ({
            let w = command.word();
            let regs = old(vm).regs();
            let mem = old(vm).mem();
            &&& r is Ok
            &&& final(vm).io() == old(vm).io()
            &&& final(vm).regs() == with_result(regs, dr(w), mem[base_relative(regs, w) as int])
            &&& final(vm).mem() == mem
            &&& final(vm).is_running() == old(vm).is_running()
            &&& final(vm).events() == old(vm).emit_all(load_register_events(regs, mem, w))
        }),
        old(vm).unobserved() && base_relative(old(vm).regs(), command.word()) == KB_STATUS_POS && r
            is Ok ==> polled_load(
            old(vm).regs(),
            old(vm).mem(),
            old(vm).is_running(),
            old(vm).delivering(),
            old(vm).events(),
            Seq::empty().push(
                Event::RegGet {
                    index: sr1(command.word()),
                    value: old(vm).regs()[sr1(command.word()) as int],
                },
            ),
            dr(command.word()),
            *final(vm),
        ),
        old(vm).unobserved() ==> final(vm).regs()[8] == old(vm).regs()[8] && final(vm).is_running()
            == old(vm).is_running(),
{
    let ghost s0 = *vm;
    proof {
        lemma_field_bounds(command.word());
    }
    let target = command.bit_slice(4, 6)? as u8;
    let base = command.bit_slice(7, 9)? as u8;
    let offset = sign_extend(command.bit_slice(10, 15)?, 6);
    let base_value = vm.reg_index_read(base)?;
    let address = wrapping_add(base_value, offset);
    let ghost s1 = *vm;
    let val = vm.mem_read(address)?;
    let ghost s2 = *vm;
    write_result(vm, target, val)?;
    proof {
        if s0.unobserved() && address != KB_STATUS_POS {
            assert(vm.events() =~= s0.emit_all(load_register_events(s0.regs(), s0.mem(), command.word())));
        }
        if s0.unobserved() && address == KB_STATUS_POS {
            let reads = Seq::empty().push(Event::RegGet { index: base, value: s0.regs()[base as int] });
            let evs = choose|evs: Seq<Event>|
                keyboard_poll(s1.mem(), s2.mem(), evs) && s2.events() == s1.emit_all(
                    evs.push(Event::MemGet { location: KB_STATUS_POS, value: val }),
                );
            assert(vm.events() =~= log_after(
                s0.delivering(),
                s0.events(),
                reads + evs.push(Event::MemGet { location: KB_STATUS_POS, value: val })
                    + result_events(target, val),
            ));
            assert(keyboard_poll(s0.mem(), vm.mem(), evs));
        }
    }
    Ok(())
}

/// The events of Str.
pub open spec fn store_register_events(regs: Seq<u16>, w: u16) -> Seq<Event> {
    Seq::empty().push(Event::RegGet { index: sr1(w), value: regs[sr1(w) as int] }).push(
        Event::RegGet { index: dr(w), value: regs[dr(w) as int] },
    ).push(Event::MemSet { location: base_relative(regs, w), value: regs[dr(w) as int] })
}

/// Str: mem[base + offset] <- SR.
pub fn store_register<IO: IOHandle, P: Plugin<IO>>(
    vm: &mut VM<IO, P>,
    command: &Command,
) -> (r: LC3Result<()>)
    requires
        old(vm).wf(),
    ensures
        !old(vm).delivering() && r is Ok ==> final(vm).plugins_succeeded(),
        final(vm).keeps_bus(*old(vm)),
        old(vm).delivering() ==> final(vm).events() == old(vm).events(),
        old(vm).unobserved() ==> ({
            let w = command.word();
            let regs = old(vm).regs();
            &&& r is Ok
            &&& final(vm).io() == old(vm).io()
            &&& final(vm).regs() == regs
            &&& final(vm).mem() == old(vm).mem().update(base_relative(regs, w) as int, regs[dr(w) as int])
            &&& final(vm).is_running() == old(vm).is_running()
            &&& final(vm).events() == old(vm).emit_all(store_register_events(regs, w))
        }),
{
    let ghost s0 = *vm;
    proof {
        lemma_field_bounds(command.word());
    }
    let source = command.bit_slice(4, 6)? as u8;
    let base_register = command.bit_slice(7, 9)? as u8;
    let offset = sign_extend(command.bit_slice(10, 15)?, 6);
    let base_value = vm.reg_index_read(base_register)?;
    let address = wrapping_add(base_value, offset);
    let val = vm.reg_index_read(source)?;
    vm.mem_write(address, val)?;
    proof {
        if s0.unobserved() {
            assert(vm.events() =~= s0.emit_all(store_register_events(s0.regs(), command.word())));
        }
    }
    Ok(())
}

/// Rti: not implemented; always fails with `Internal` and changes nothing.
pub fn rti<IO: IOHandle, P: Plugin<IO>>(
    vm: &mut VM<IO, P>,
    command: &Command,
) -> (r: LC3Result<()>)
    ensures
        r is Err && r->Err_0 is Internal,
        *final(vm) == *old(vm),
{
    Err(LC3Error::Internal("Attempt to execute unimplemented op code".to_string()))
}

/// The reserved op code: always fails with `Internal` and changes nothing.
pub fn reserved<IO: IOHandle, P: Plugin<IO>>(
    vm: &mut VM<IO, P>,
    command: &Command,
) -> (r: LC3Result<()>)
    ensures
        r is Err && r->Err_0 is Internal,
        *final(vm) == *old(vm),
{
    Err(LC3Error::Internal("Attempt to execute unimplemented op code".to_string()))
}

/// The events of Ldi.
pub open spec fn load_indirect_events(regs: Seq<u16>, mem: Seq<u16>, w: u16) -> Seq<Event> {
    let a = pc_relative(regs, w);
    let b = mem[a as int];
    Seq::empty().push(Event::RegGet { index: 8, value: regs[8] }).push(
        Event::MemGet { location: a, value: b },
    ).push(Event::MemGet { location: b, value: mem[b as int] }) + result_events(dr(w), mem[b as int])
}

/// Ldi: DR <- mem[mem[PC + offset]]; sets COND. Exact unless one of the two addresses
/// is the keyboard status register.
pub fn load_indirect<IO: IOHandle, P: Plugin<IO>>(
    vm: &mut VM<IO, P>,
    command: &Command,
) -> (r: LC3Result<()>)
    requires
        old(vm).wf(),
    ensures
        !old(vm).delivering() && r is Ok ==> final(vm).plugins_succeeded(),
        final(vm).keeps_bus(*old(vm)),
        old(vm).delivering() ==> final(vm).events() == old(vm).events(),
        old(vm).unobserved() && pc_relative(old(vm).regs(), command.word()) != KB_STATUS_POS && old(
            vm).mem()[pc_relative(old(vm).regs(), command.word()) as int] != KB_STATUS_POS ==> ({
            let w = command.word();
            let regs = old(vm).regs();
            let mem = old(vm).mem();
            &&& r is Ok
            &&& final(vm).io() == old(vm).io()
            &&& final(vm).regs() == with_result(regs, dr(w), mem[mem[pc_relative(regs, w) as int] as int])
            &&& final(vm).mem() == mem
            &&& final(vm).is_running() == old(vm).is_running()
            &&& final(vm).events() == old(vm).emit_all(load_indirect_events(regs, mem, w))
        }),
        old(vm).unobserved() ==> final(vm).regs()[8] == old(vm).regs()[8] && final(vm).is_running()
            == old(vm).is_running(),
        old(vm).unobserved() && (pc_relative(old(vm).regs(), command.word()) == KB_STATUS_POS
            || old(vm).mem()[pc_relative(old(vm).regs(), command.word()) as int] == KB_STATUS_POS)
            && r is Ok ==> polled_load_indirect(old(vm).regs(), old(vm).mem(), command.word(), *final(vm)),
{
    let ghost s0 = *vm;
    proof {
        lemma_field_bounds(command.word());
    }
    let pc_offset = sign_extend(command.bit_slice(7, 15)?, 9);
    let pc = vm.reg_read(Register::RPC)?;
    let target = command.bit_slice(4, 6)? as u8;
    let address = wrapping_add(pc, pc_offset);
    let ghost s1 = *vm;
    let final_address = vm.mem_read(address)?;
    let ghost s2 = *vm;
    let val = vm.mem_read(final_address)?;
    let ghost s3 = *vm;
    write_result(vm, target, val)?;
    proof {
        if s0.unobserved() && address == KB_STATUS_POS {
            let evs = choose|evs: Seq<Event>|
                keyboard_poll(s1.mem(), s2.mem(), evs) && s2.events() == s1.emit_all(
                    evs.push(Event::MemGet { location: KB_STATUS_POS, value: final_address }),
                );
            assert(final_address == 0 || final_address == 0x8000);
            assert(keyboard_poll(s0.mem(), s2.mem(), evs));
        }
        if s0.unobserved() && address != KB_STATUS_POS && final_address == KB_STATUS_POS {
            let evs = choose|evs: Seq<Event>|
                keyboard_poll(s2.mem(), s3.mem(), evs) && s3.events() == s2.emit_all(
                    evs.push(Event::MemGet { location: KB_STATUS_POS, value: val }),
                );
            assert(keyboard_poll(s0.mem(), s3.mem(), evs));
        }
    }
    proof {
        if s0.unobserved() && pc_relative(s0.regs(), command.word()) != KB_STATUS_POS
            && final_address != KB_STATUS_POS {
            assert(vm.events() =~= s0.emit_all(load_indirect_events(s0.regs(), s0.mem(), command.word())));
        }
    }
    Ok(())
}

/// What Ldi leaves in `after` when one of its two reads is of the keyboard status
/// register: the keyboard was polled (see `keyboard_poll`), leaving memory `polled`; the
/// pointer was read from `polled` when its own address was polled, and the loaded word
/// `polled[pointer]` went to DR and set COND.
pub open spec fn polled_load_indirect<IO, P>(
    regs: Seq<u16>,
    mem: Seq<u16>,
    w: u16,
    after: VM<IO, P>,
) -> bool {
    exists|polled: Seq<u16>, evs: Seq<Event>|
        #[trigger] keyboard_poll(mem, polled, evs) && {
            let a = pc_relative(regs, w);
            let pointer = if a == KB_STATUS_POS {
                polled[KB_STATUS_POS as int]
            } else {
                mem[a as int]
            };
            &&& after.mem() == polled
            &&& after.regs() == with_result(regs, dr(w), polled[pointer as int])
        }
}

/// What Sti leaves in `after` when its pointer's address is the keyboard status register:
/// the keyboard was polled, leaving memory `polled`, and SR was stored at the polled status
/// word.
pub open spec fn polled_store_indirect<IO, P>(
    regs: Seq<u16>,
    mem: Seq<u16>,
    w: u16,
    after: VM<IO, P>,
) -> bool {
    exists|polled: Seq<u16>, evs: Seq<Event>|
        #[trigger] keyboard_poll(mem, polled, evs) && {
            &&& after.mem() == polled.update(polled[KB_STATUS_POS as int] as int, regs[dr(w) as int])
            &&& after.regs() == regs
        }
}

/// The events of Sti.
pub open spec fn store_indirect_events(regs: Seq<u16>, mem: Seq<u16>, w: u16) -> Seq<Event> {
    let a = pc_relative(regs, w);
    let b = mem[a as int];
    Seq::empty().push(Event::RegGet { index: 8, value: regs[8] }).push(
        Event::MemGet { location: a, value: b },
    ).push(Event::RegGet { index: dr(w), value: regs[dr(w) as int] }).push(
        Event::MemSet { location: b, value: regs[dr(w) as int] },
    )
}

/// Sti: mem[mem[PC + offset]] <- SR. Exact unless the pointer's address is the keyboard
/// status register.
pub fn store_indirect<IO: IOHandle, P: Plugin<IO>>(
    vm: &mut VM<IO, P>,
    command: &Command,
) -> (r: LC3Result<()>)
    requires
        old(vm).wf(),
    ensures
        !old(vm).delivering() && r is Ok ==> final(vm).plugins_succeeded(),
        final(vm).keeps_bus(*old(vm)),
        old(vm).delivering() ==> final(vm).events() == old(vm).events(),
        old(vm).unobserved() && pc_relative(old(vm).regs(), command.word()) != KB_STATUS_POS ==> ({
            let w = command.word();
            let regs = old(vm).regs();
            let mem = old(vm).mem();
            &&& r is Ok
            &&& final(vm).io() == old(vm).io()
            &&& final(vm).regs() == regs
            &&& final(vm).mem() == mem.update(mem[pc_relative(regs, w) as int] as int, regs[dr(w) as int])
            &&& final(vm).is_running() == old(vm).is_running()
            &&& final(vm).events() == old(vm).emit_all(store_indirect_events(regs, mem, w))
        }),
        old(vm).unobserved() ==> final(vm).regs() == old(vm).regs() && final(vm).is_running() == old(
            vm).is_running(),
        old(vm).unobserved() && pc_relative(old(vm).regs(), command.word()) == KB_STATUS_POS && r
            is Ok ==> polled_store_indirect(old(vm).regs(), old(vm).mem(), command.word(), *final(vm)),
{
    let ghost s0 = *vm;
    proof {
        lemma_field_bounds(command.word());
    }
    let source = command.bit_slice(4, 6)? as u8;
    let offset = sign_extend(command.bit_slice(7, 15)?, 9);
    let pc = vm.reg_read(Register::RPC)?;
    let address = wrapping_add(pc, offset);
    let ghost s1 = *vm;
    let final_address = vm.mem_read(address)?;
    let ghost s2 = *vm;
    let val = vm.reg_index_read(source)?;
    vm.mem_write(final_address, val)?;
    proof {
        if s0.unobserved() && address == KB_STATUS_POS {
            let evs = choose|evs: Seq<Event>|
                keyboard_poll(s1.mem(), s2.mem(), evs) && s2.events() == s1.emit_all(
                    evs.push(Event::MemGet { location: KB_STATUS_POS, value: final_address }),
                );
            assert(keyboard_poll(s0.mem(), s2.mem(), evs));
        }
    }
    proof {
        if s0.unobserved() && address != KB_STATUS_POS {
            assert(vm.events() =~= s0.emit_all(store_indirect_events(s0.regs(), s0.mem(), command.word())));
        }
    }
    Ok(())
}

/// The events of Jmp.
pub open spec fn jump_events(regs: Seq<u16>, w: u16) -> Seq<Event> {
    Seq::empty().push(Event::RegGet { index: sr1(w), value: regs[sr1(w) as int] }).push(
        Event::RegSet { index: 8, value: regs[sr1(w) as int] },
    )
}

/// Jmp: PC <- the base register (base 7 is RET).
pub fn jump<IO: IOHandle, P: Plugin<IO>>(
    vm: &mut VM<IO, P>,
    command: &Command,
) -> (r: LC3Result<()>)
    requires
        old(vm).wf(),
    ensures
        !old(vm).delivering() && r is Ok ==> final(vm).plugins_succeeded(),
        final(vm).keeps_bus(*old(vm)),
        old(vm).delivering() ==> final(vm).events() == old(vm).events(),
        old(vm).unobserved() ==> ({
            let w = command.word();
            let regs = old(vm).regs();
            &&& r is Ok
            &&& final(vm).io() == old(vm).io()
            &&& final(vm).regs() == regs.update(8, regs[sr1(w) as int])
            &&& final(vm).mem() == old(vm).mem()
            &&& final(vm).is_running() == old(vm).is_running()
            &&& final(vm).events() == old(vm).emit_all(jump_events(regs, w))
        }),
{
    let ghost s0 = *vm;
    proof {
        lemma_field_bounds(command.word());
    }
    let address_reg = command.bit_slice(7, 9)? as u8;
    let address = vm.reg_index_read(address_reg)?;
    vm.reg_write(Register::RPC, address)?;
    proof {
        if s0.unobserved() {
            assert(vm.events() =~= s0.emit_all(jump_events(s0.regs(), command.word())));
        }
    }
    Ok(())
}

/// The events of Lea.
pub open spec fn lea_events(regs: Seq<u16>, w: u16) -> Seq<Event> {
    Seq::empty().push(Event::RegGet { index: 8, value: regs[8] }) + result_events(
        dr(w),
        pc_relative(regs, w),
    )
}

/// Lea: DR <- PC + offset; sets COND.
pub fn load_effective_address<IO: IOHandle, P: Plugin<IO>>(
    vm: &mut VM<IO, P>,
    command: &Command,
) -> (r: LC3Result<()>)
    requires
        old(vm).wf(),
    ensures
        !old(vm).delivering() && r is Ok ==> final(vm).plugins_succeeded(),
        final(vm).keeps_bus(*old(vm)),
        old(vm).delivering() ==> final(vm).events() == old(vm).events(),
        old(vm).unobserved() ==> ({
            let w = command.word();
            let regs = old(vm).regs();
            &&& r is Ok
            &&& final(vm).io() == old(vm).io()
            &&& final(vm).regs() == with_result(regs, dr(w), pc_relative(regs, w))
            &&& final(vm).mem() == old(vm).mem()
            &&& final(vm).is_running() == old(vm).is_running()
            &&& final(vm).events() == old(vm).emit_all(lea_events(regs, w))
        }),
{
    let ghost s0 = *vm;
    proof {
        lemma_field_bounds(command.word());
    }
    let target = command.bit_slice(4, 6)? as u8;
    let offset = sign_extend(command.bit_slice(7, 15)?, 9);
    let pc = vm.reg_read(Register::RPC)?;
    let effective_address = wrapping_add(pc, offset);
    write_result(vm, target, effective_address)?;
    proof {
        if s0.unobserved() {
            assert(vm.events() =~= s0.emit_all(lea_events(s0.regs(), command.word())));
        }
    }
    Ok(())
}

/// The event log `log` after announcing `evs`, where nothing is logged while the bus is
/// delivering.
pub open spec fn log_after(delivering: bool, log: Seq<Event>, evs: Seq<Event>) -> Seq<Event> {
    if delivering {
        log
    } else {
        log + evs
    }
}

/// What trap vector `tv` leaves in `after`, starting from registers `regs`, memory `mem`,
/// running flag `running`, bus flag `delivering`, event log `log` and I/O port `port`,
/// when no plugin runs. With a scripted port the routine's reads and writes are exact.
/// Input and output depend on the I/O capability: the read character is any `c`, and the
/// state is pinned down whatever it was; a failed write ends the routine with an error.
pub open spec fn trap_executes<IO: IOHandle, P>(
    tv: u8,
    regs: Seq<u16>,
    mem: Seq<u16>,
    running: bool,
    delivering: bool,
    log: Seq<Event>,
    port: IO,
    after: VM<IO, P>,
    r: LC3Result<()>,
) -> bool {
    if !is_trap_vector(tv) {
        &&& r == Err::<(), LC3Error>(LC3Error::BadTrapCode { code: tv })
        &&& after.regs() == regs
        &&& after.mem() == mem
        &&& after.is_running() == running
        &&& after.events() == log
        &&& after.io() == port
    } else if tv == 0x20 || tv == 0x23 {
        &&& after.regs() == regs.update(0, after.regs()[0])
        &&& after.mem() == mem
        &&& after.is_running() == running
        &&& tv == 0x20 && r is Ok ==> exists|c: char|
            #[trigger] reads_char(regs, mem, running, delivering, log, after, c, false)
        &&& tv == 0x23 && r is Ok ==> exists|c: char|
            #[trigger] reads_char(regs, mem, running, delivering, log, after, c, true)
        &&& port.scripted() ==> if port.pending_keys().len() > 0 {
            let c = port.pending_keys().last();
            &&& r is Ok
            &&& after.regs() == regs.update(0, char_word(c))
            &&& after.io().scripted()
            &&& after.io().pending_keys() == port.pending_keys().drop_last()
            &&& after.io().pending_keydowns() == port.pending_keydowns()
            &&& after.io().written() == if tv == 0x20 {
                port.written()
            } else {
                port.written().push(c)
            }
            &&& after.io().prompts() == if tv == 0x20 {
                port.prompts()
            } else {
                port.prompts().push(IN_PROMPT@)
            }
        } else {
            r is Err
        }
    } else if tv == 0x21 {
        &&& after.regs() == regs
        &&& after.mem() == mem
        &&& after.is_running() == running
        &&& r is Ok ==> after.events() == log_after(
            delivering,
            log,
            Seq::empty().push(Event::RegGet { index: 0, value: regs[0] }).push(
                Event::CharPut { ch: word_char(regs[0]) },
            ),
        )
        &&& port.scripted() ==> r is Ok && port_wrote(
            port,
            after.io(),
            Seq::empty().push(word_char(regs[0])),
        )
    } else if tv == 0x22 {
        &&& after.regs() == regs
        &&& after.is_running() == running
        &&& forall|k: nat|
            #[trigger] word_string_ends_at(mem, regs[0], k) ==> {
                &&& after.mem() == mem
                &&& k == 0 ==> r is Ok
                &&& port.scripted() ==> r is Ok && port_wrote(
                    port,
                    after.io(),
                    word_string_chars(mem, regs[0], k),
                )
                &&& r is Ok ==> after.events() == log_after(
                    delivering,
                    log,
                    Seq::empty().push(Event::RegGet { index: 0, value: regs[0] }) + word_string_events(
                        mem,
                        regs[0],
                        k,
                    ).push(Event::MemGet { location: addr_at(regs[0], k), value: 0 }),
                )
            }
    } else if tv == 0x24 {
        &&& after.regs() == regs
        &&& after.is_running() == running
        &&& forall|k: nat, odd: bool|
            #[trigger] byte_string_ends_at(mem, regs[0], k, odd) ==> {
                &&& after.mem() == mem
                &&& k == 0 && !odd ==> r is Ok
                &&& port.scripted() ==> r is Ok && port_wrote(
                    port,
                    after.io(),
                    byte_string_chars(mem, regs[0], k) + byte_string_tail_chars(mem, regs[0], k, odd),
                )
                &&& r is Ok ==> after.events() == log_after(
                    delivering,
                    log,
                    Seq::empty().push(Event::RegGet { index: 0, value: regs[0] }) + byte_string_events(
                        mem,
                        regs[0],
                        k,
                    ) + byte_string_tail(mem, regs[0], k, odd),
                )
            }
    } else {
        &&& r is Ok
        &&& after.regs() == regs
        &&& after.mem() == mem
        &&& !after.is_running()
        &&& after.io() == port
        &&& after.events() == log_after(
            delivering,
            log,
            Seq::empty().push(Event::RunningSet { value: false }),
        )
    }
}

/// What instruction `w` leaves in `after`, starting from registers `regs`, memory `mem`,
/// running flag `running`, bus flag `delivering`, event log `log` and I/O port `port`,
/// when no plugin runs:
/// the new registers, memory and running flag, and the events of its reads and writes in
/// the order they happen. A read of the keyboard status register polls the keyboard: for Ld
/// and Ldr its outcome is `polled_load`, for Ldi `polled_load_indirect`, for Sti
/// `polled_store_indirect`.
pub open spec fn executes<IO: IOHandle, P>(
    w: u16,
    regs: Seq<u16>,
    mem: Seq<u16>,
    running: bool,
    delivering: bool,
    log: Seq<Event>,
    port: IO,
    after: VM<IO, P>,
    r: LC3Result<()>,
) -> bool {
    let same_mem = after.mem() == mem && after.is_running() == running;
    match op_of(op_code_spec(w)) {
        Op::Br => {
            &&& r is Ok
            &&& after.io() == port
            &&& after.regs() == if branch_taken(regs, w) {
                regs.update(8, pc_relative(regs, w))
            } else {
                regs
            }
            &&& same_mem
            &&& after.events() == log_after(delivering, log, branch_events(regs, w))
        },
        Op::Add => {
            let v = wrapping_add_spec(regs[sr1(w) as int], second_operand(regs, w));
            &&& r is Ok
            &&& after.io() == port
            &&& after.regs() == with_result(regs, dr(w), v)
            &&& same_mem
            &&& after.events() == log_after(
                delivering,
                log,
                operand_events(regs, w) + result_events(dr(w), v),
            )
        },
        Op::And => {
            let v = regs[sr1(w) as int] & second_operand(regs, w);
            &&& r is Ok
            &&& after.io() == port
            &&& after.regs() == with_result(regs, dr(w), v)
            &&& same_mem
            &&& after.events() == log_after(
                delivering,
                log,
                operand_events(regs, w) + result_events(dr(w), v),
            )
        },
        Op::Not => {
            let v = !regs[sr1(w) as int];
            &&& r is Ok
            &&& after.io() == port
            &&& after.regs() == with_result(regs, dr(w), v)
            &&& same_mem
            &&& after.events() == log_after(delivering, log, not_events(regs, w) + result_events(dr(w), v))
        },
        Op::Ld => if pc_relative(regs, w) != KB_STATUS_POS {
            &&& r is Ok
            &&& after.io() == port
            &&& after.regs() == with_result(regs, dr(w), mem[pc_relative(regs, w) as int])
            &&& same_mem
            &&& after.events() == log_after(delivering, log, load_events(regs, mem, w))
        } else {
            &&& after.regs()[8] == regs[8]
            &&& after.is_running() == running
            &&& r is Ok ==> polled_load(
                regs,
                mem,
                running,
                delivering,
                log,
                Seq::empty().push(Event::RegGet { index: 8, value: regs[8] }),
                dr(w),
                after,
            )
        },
        Op::St => {
            &&& r is Ok
            &&& after.io() == port
            &&& after.regs() == regs
            &&& after.mem() == mem.update(pc_relative(regs, w) as int, regs[dr(w) as int])
            &&& after.is_running() == running
            &&& after.events() == log_after(delivering, log, store_events(regs, w))
        },
        Op::Jsr => {
            let saved = regs.update(7, regs[8]);
            &&& r is Ok
            &&& after.io() == port
            &&& after.regs() == saved.update(8, jsr_target(saved, w))
            &&& same_mem
            &&& after.events() == log_after(delivering, log, jsr_events(regs, w))
        },
        Op::Ldr => if base_relative(regs, w) != KB_STATUS_POS {
            &&& r is Ok
            &&& after.io() == port
            &&& after.regs() == with_result(regs, dr(w), mem[base_relative(regs, w) as int])
            &&& same_mem
            &&& after.events() == log_after(delivering, log, load_register_events(regs, mem, w))
        } else {
            &&& after.regs()[8] == regs[8]
            &&& after.is_running() == running
            &&& r is Ok ==> polled_load(
                regs,
                mem,
                running,
                delivering,
                log,
                Seq::empty().push(Event::RegGet { index: sr1(w), value: regs[sr1(w) as int] }),
                dr(w),
                after,
            )
        },
        Op::Str => {
            &&& r is Ok
            &&& after.io() == port
            &&& after.regs() == regs
            &&& after.mem() == mem.update(base_relative(regs, w) as int, regs[dr(w) as int])
            &&& after.is_running() == running
            &&& after.events() == log_after(delivering, log, store_register_events(regs, w))
        },
        Op::Ldi => (pc_relative(regs, w) != KB_STATUS_POS && mem[pc_relative(regs, w) as int]
            != KB_STATUS_POS ==> {
            &&& r is Ok
            &&& after.io() == port
            &&& after.regs() == with_result(regs, dr(w), mem[mem[pc_relative(regs, w) as int] as int])
            &&& same_mem
            &&& after.events() == log_after(delivering, log, load_indirect_events(regs, mem, w))
        }) && after.regs()[8] == regs[8] && after.is_running() == running && ((pc_relative(
            regs,
            w,
        ) == KB_STATUS_POS || mem[pc_relative(regs, w) as int] == KB_STATUS_POS) && r is Ok
            ==> polled_load_indirect(regs, mem, w, after)),
        Op::Sti => (pc_relative(regs, w) != KB_STATUS_POS ==> {
            &&& r is Ok
            &&& after.io() == port
            &&& after.regs() == regs
            &&& after.mem() == mem.update(mem[pc_relative(regs, w) as int] as int, regs[dr(w) as int])
            &&& after.is_running() == running
            &&& after.events() == log_after(delivering, log, store_indirect_events(regs, mem, w))
        }) && after.regs() == regs && after.is_running() == running && (pc_relative(regs, w)
            == KB_STATUS_POS && r is Ok ==> polled_store_indirect(regs, mem, w, after)),
        Op::Jmp => {
            &&& r is Ok
            &&& after.io() == port
            &&& after.regs() == regs.update(8, regs[sr1(w) as int])
            &&& same_mem
            &&& after.events() == log_after(delivering, log, jump_events(regs, w))
        },
        Op::Lea => {
            &&& r is Ok
            &&& after.io() == port
            &&& after.regs() == with_result(regs, dr(w), pc_relative(regs, w))
            &&& same_mem
            &&& after.events() == log_after(delivering, log, lea_events(regs, w))
        },
        Op::Rti | Op::Res => {
            &&& r is Err && r->Err_0 is Internal
            &&& after.io() == port
            &&& after.regs() == regs
            &&& same_mem
            &&& after.events() == log
        },
        Op::Trap => trap_executes(trap_vector(w), regs, mem, running, delivering, log, port, after, r),
    }
}

/// Trap: runs the service that the trap vector (bits 8..15) selects; an unknown vector
/// fails with `BadTrapCode` and changes nothing.
pub fn trap<IO: IOHandle, P: Plugin<IO>>(
    vm: &mut VM<IO, P>,
    command: &Command,
) -> (r: LC3Result<()>)
    requires
        old(vm).wf(),
    ensures
        !old(vm).delivering() && r is Ok ==> final(vm).plugins_succeeded(),
        final(vm).keeps_bus(*old(vm)),
        old(vm).delivering() ==> final(vm).events() == old(vm).events(),
        !is_trap_vector(trap_vector(command.word())) ==> {
            &&& r == Err::<(), LC3Error>(LC3Error::BadTrapCode { code: trap_vector(command.word()) })
            &&& *final(vm) == *old(vm)
        },
        old(vm).unobserved() ==> trap_executes(
            trap_vector(command.word()),
            old(vm).regs(),
            old(vm).mem(),
            old(vm).is_running(),
            old(vm).delivering(),
            old(vm).events(),
            old(vm).io(),
            *final(vm),
            r,
        ),
{
    proof {
        lemma_field_bounds(command.word());
    }
    let ghost s0 = *vm;
    let ghost w = command.word();
    let code = command.bit_slice(8, 15)? as u8;
    let code = TrapCode::from_int(code)?;
    let r = match code {
        TrapCode::GetC => handle_trap::getchar(vm),
        TrapCode::Out => handle_trap::trap_out(vm),
        TrapCode::PutS => handle_trap::put_string(vm),
        TrapCode::In => handle_trap::trap_in(vm),
        TrapCode::PutSp => handle_trap::put_byte_string(vm),
        TrapCode::Halt => handle_trap::trap_halt(vm),
    };
    proof {
        let tv = trap_vector(w);
        if s0.unobserved() {
            if tv == 0x25 {
                assert(vm.events() =~= log_after(
                    s0.delivering(),
                    s0.events(),
                    Seq::empty().push(Event::RunningSet { value: false }),
                ));
            }
        }
    }
    r
}

} // verus!
