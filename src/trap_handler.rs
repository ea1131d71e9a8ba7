//! The operating system services behind the Trap instruction.
use crate::error::{LC3Error, LC3Result};
use crate::io::IOHandle;
use crate::plugin::{Event, Plugin};
use crate::register::Register;
use crate::utils::wrapping_add;
use crate::vm::{
    char_to_word, char_word, port_took_key, port_wrote, same_char, word_char, word_to_char,
    KB_STATUS_POS, VM,
};
use vstd::prelude::*;

verus! {

/// The address `k` words after `start`, wrapping around memory.
pub open spec fn addr_at(start: u16, k: nat) -> u16 {
    ((start + k) % 0x10000) as u16
}

/// What reading character `c` into R0 leaves in `after` (with an echo of it when `echo`),
/// starting from registers `regs`, memory `mem`, running flag `running`, bus flag
/// `delivering` and event log `log`.
pub open spec fn reads_char<IO, P>(
    regs: Seq<u16>,
    mem: Seq<u16>,
    running: bool,
    delivering: bool,
    log: Seq<Event>,
    after: VM<IO, P>,
    c: char,
    echo: bool,
) -> bool {
    let read = Seq::empty().push(Event::CharGet { ch: c }).push(
        Event::RegSet { index: 0, value: char_word(c) },
    );
    &&& after.regs() == regs.update(0, char_word(c))
    &&& after.mem() == mem
    &&& after.is_running() == running
    &&& after.events() == if delivering {
        log
    } else if echo {
        log + read.push(Event::CharPut { ch: c })
    } else {
        log + read
    }
}

/// GetC: R0 <- the character read, as a word with a zero upper byte.
pub fn getchar<IO: IOHandle, P: Plugin<IO>>(vm: &mut VM<IO, P>) -> (r: LC3Result<()>)
    requires
        old(vm).wf(),
    ensures
        !old(vm).delivering() && r is Ok ==> final(vm).plugins_succeeded(),
        final(vm).keeps_bus(*old(vm)),
        old(vm).delivering() ==> final(vm).events() == old(vm).events(),
        old(vm).unobserved() && r is Ok ==> exists|c: char|
            #[trigger] reads_char(
                old(vm).regs(),
                old(vm).mem(),
                old(vm).is_running(),
                old(vm).delivering(),
                old(vm).events(),
                *final(vm),
                c,
                false,
            ),
        old(vm).unobserved() ==> {
            &&& final(vm).regs() == old(vm).regs().update(0, final(vm).regs()[0])
            &&& final(vm).mem() == old(vm).mem()
            &&& final(vm).is_running() == old(vm).is_running()
        },
        old(vm).unobserved() && old(vm).io().scripted() ==> if old(vm).io().pending_keys().len()
            > 0 {
            &&& r is Ok
            &&& final(vm).regs() == old(vm).regs().update(
                0,
                char_word(old(vm).io().pending_keys().last()),
            )
            &&& port_took_key(old(vm).io(), final(vm).io())
        } else {
            &&& r is Err
            &&& final(vm).same_machine(*old(vm))
        },
{
    let ghost s0 = *vm;
    let key = match vm.getchar() {
        Ok(c) => c,
        Err(e) => {
            proof {
                if s0.unobserved() {
                    assert(vm.regs() =~= s0.regs().update(0, vm.regs()[0]));
                }
            }
            return Err(e);
        },
    };
    let ch = same_char(key);
    vm.reg_write(Register::RR0, char_to_word(ch))?;
    proof {
        if s0.unobserved() {
            let evs = Seq::empty().push(Event::CharGet { ch }).push(
                Event::RegSet { index: 0, value: char_word(ch) },
            );
            assert(vm.events() =~= s0.emit_all(evs));
            assert(reads_char(
                s0.regs(),
                s0.mem(),
                s0.is_running(),
                s0.delivering(),
                s0.events(),
                *vm,
                ch,
                false,
            ));
        }
    }
    Ok(())
}

/// Out: writes the character in the low byte of R0.
pub fn trap_out<IO: IOHandle, P: Plugin<IO>>(vm: &mut VM<IO, P>) -> (r: LC3Result<()>)
    requires
        old(vm).wf(),
    ensures
        !old(vm).delivering() && r is Ok ==> final(vm).plugins_succeeded(),
        final(vm).keeps_bus(*old(vm)),
        old(vm).delivering() ==> final(vm).events() == old(vm).events(),
        old(vm).unobserved() ==> final(vm).same_machine(*old(vm)),
        old(vm).unobserved() && r is Ok ==> final(vm).events() == old(vm).emit_all(
            Seq::empty().push(Event::RegGet { index: 0, value: old(vm).regs()[0] }).push(
                Event::CharPut { ch: word_char(old(vm).regs()[0]) },
            ),
        ),
        old(vm).unobserved() && old(vm).io().scripted() ==> {
            &&& r is Ok
            &&& port_wrote(old(vm).io(), final(vm).io(), Seq::empty().push(word_char(old(vm).regs()[0])))
        },
{
    let ghost s0 = *vm;
    let value = vm.reg_read(Register::RR0)?;
    let ch = word_to_char(value);
    vm.putchar(ch)?;
    proof {
        if s0.unobserved() {
            assert(vm.events() =~= s0.emit_all(
                Seq::empty().push(Event::RegGet { index: 0, value: s0.regs()[0] }).push(
                    Event::CharPut { ch: word_char(s0.regs()[0]) },
                ),
            ));
        }
    }
    Ok(())
}

/// The word string at `start` ends with its zero word `k` words in: the words before it
/// are not zero, and none of the addresses up to it is the keyboard status register.
pub open spec fn word_string_ends_at(mem: Seq<u16>, start: u16, k: nat) -> bool {
    &&& k < 0x10000
    &&& mem[addr_at(start, k) as int] == 0
    &&& forall|j: nat| j < k ==> mem[#[trigger] addr_at(start, j) as int] != 0
    &&& forall|j: nat| j <= k ==> #[trigger] addr_at(start, j) != KB_STATUS_POS
}

/// The events of reading and writing the first `k` words of the string at `start`.
pub open spec fn word_string_events(mem: Seq<u16>, start: u16, k: nat) -> Seq<Event>
    decreases k,
{
    if k == 0 {
        Seq::empty()
    } else {
        let a = addr_at(start, (k - 1) as nat);
        word_string_events(mem, start, (k - 1) as nat).push(
            Event::MemGet { location: a, value: mem[a as int] },
        ).push(Event::CharPut { ch: word_char(mem[a as int]) })
    }
}

/// The characters of the first `k` words of the string at `start`: each word's low byte.
pub open spec fn word_string_chars(mem: Seq<u16>, start: u16, k: nat) -> Seq<char>
    decreases k,
{
    if k == 0 {
        Seq::empty()
    } else {
        word_string_chars(mem, start, (k - 1) as nat).push(
            word_char(mem[addr_at(start, (k - 1) as nat) as int]),
        )
    }
}

/// PutS: writes the low byte of each word from R0 on, up to the first zero word. A string
/// with no zero word within one pass over memory fails with `Other`.
pub fn put_string<IO: IOHandle, P: Plugin<IO>>(vm: &mut VM<IO, P>) -> (r: LC3Result<()>)
    requires
        old(vm).wf(),
    ensures
        !old(vm).delivering() && r is Ok ==> final(vm).plugins_succeeded(),
        final(vm).keeps_bus(*old(vm)),
        old(vm).delivering() ==> final(vm).events() == old(vm).events(),
        old(vm).unobserved() ==> final(vm).regs() == old(vm).regs() && final(vm).is_running()
            == old(vm).is_running(),
        forall|k: nat|
            old(vm).unobserved() && #[trigger] word_string_ends_at(old(vm).mem(), old(vm).regs()[0], k)
                ==> {
                let start = old(vm).regs()[0];
                &&& final(vm).same_machine(*old(vm))
                &&& k == 0 ==> r is Ok
                &&& old(vm).io().scripted() ==> r is Ok && port_wrote(
                    old(vm).io(),
                    final(vm).io(),
                    word_string_chars(old(vm).mem(), start, k),
                )
                &&& r is Ok ==> final(vm).events() == old(vm).emit_all(
                    Seq::empty().push(Event::RegGet { index: 0, value: start }) + word_string_events(
                        old(vm).mem(),
                        start,
                        k,
                    ).push(Event::MemGet { location: addr_at(start, k), value: 0 }),
                )
            },
{
    let ghost s0 = *vm;
    let start = vm.reg_read(Register::RR0)?;
    let ghost s1 = *vm;
    let ghost head = Seq::empty().push(Event::RegGet { index: 0, value: start });
    let mut next_address = start;
    let mut count: u32 = 0;
    let ghost mut plain = true;
    proof {
        if s0.unobserved() {
            assert(s0.io().written() + word_string_chars(s0.mem(), start, 0) =~= s0.io().written());
        }
    }
    while count < 0x10000
        invariant
            s0 == *old(vm),
            head == Seq::empty().push(Event::RegGet { index: 0, value: start }),
            vm.keeps_bus(s0),
            s0.wf(),
            s0.delivering() ==> vm.events() == s0.events(),
            count <= 0x10000,
            next_address == addr_at(start, count as nat),
            s0.unobserved() ==> start == s0.regs()[0] && s1.events() == s0.emit_all(head),
            s0.unobserved() ==> vm.regs() == s0.regs() && vm.is_running() == s0.is_running(),
            plain == (forall|j: nat| j < count ==> #[trigger] addr_at(start, j) != KB_STATUS_POS),
            s0.unobserved() ==> forall|j: nat|
                j < count && (forall|i: nat| i <= j ==> #[trigger] addr_at(start, i) != KB_STATUS_POS)
                    ==> s0.mem()[#[trigger] addr_at(start, j) as int] != 0,
            s0.unobserved() ==> forall|k: nat|
                #[trigger] word_string_ends_at(s0.mem(), start, k) ==> count <= k,
            s0.unobserved() && plain ==> vm.same_machine(s0) && vm.events() == s0.emit_all(
                head + word_string_events(s0.mem(), start, count as nat),
            ),
            s0.unobserved() && plain && s0.io().scripted() ==> port_wrote(
                s0.io(),
                vm.io(),
                word_string_chars(s0.mem(), start, count as nat),
            ),
        decreases 0x10000 - count,
    {
        let ghost before = *vm;
        let value = vm.mem_read(next_address)?;
        if value == 0 {
            proof {
                if s0.unobserved() {
                    assert forall|k: nat| #[trigger]
                        word_string_ends_at(s0.mem(), start, k) implies k == count && plain
                        && next_address != KB_STATUS_POS by {
                        if k < count {
                            assert(forall|i: nat| i <= k ==> #[trigger] addr_at(start, i) != KB_STATUS_POS);
                            assert(s0.mem()[addr_at(start, k) as int] != 0);
                        }
                        if k > count {
                            assert(addr_at(start, count as nat) != KB_STATUS_POS);
                            assert(plain);
                            assert(s0.mem()[addr_at(start, count as nat) as int] != 0);
                        }
                    }
                    if plain && next_address != KB_STATUS_POS {
                        assert(vm.events() =~= s0.emit_all(
                            head + word_string_events(s0.mem(), start, count as nat).push(
                                Event::MemGet { location: addr_at(start, count as nat), value: 0 },
                            ),
                        ));
                    }
                }
            }
            return Ok(());
        }
        proof {
            if s0.unobserved() {
                assert forall|k: nat| #[trigger]
                    word_string_ends_at(s0.mem(), start, k) implies count + 1 <= k by {
                    if k == count {
                        assert(addr_at(start, count as nat) != KB_STATUS_POS);
                        assert(plain);
                    }
                }
            }
        }
        let ghost mid = *vm;
        let ch = word_to_char(value);
        match vm.putchar(ch) {
            Ok(()) => {},
            Err(e) => {
                proof {
                    if s0.unobserved() {
                        assert forall|k: nat| #[trigger]
                            word_string_ends_at(s0.mem(), start, k) implies vm.same_machine(s0)
                            && !s0.io().scripted() && k != 0 by {
                            assert(addr_at(start, count as nat) != KB_STATUS_POS);
                            assert(plain);
                        }
                    }
                }
                return Err(e);
            },
        }
        proof {
            if s0.unobserved() && plain && next_address != KB_STATUS_POS {
                assert(vm.events() =~= s0.emit_all(
                    head + word_string_events(s0.mem(), start, (count + 1) as nat),
                ));
                if s0.io().scripted() {
                    assert(s0.io().written() + word_string_chars(s0.mem(), start, (count + 1) as nat)
                        =~= s0.io().written() + word_string_chars(s0.mem(), start, count as nat)
                        + Seq::empty().push(ch));
                }
            }
            plain = plain && next_address != KB_STATUS_POS;
        }
        next_address = wrapping_add(next_address, 1);
        count = count + 1;
    }
    Err(LC3Error::Other("String has no terminating zero word".to_string()))
}

/// The byte string at `start` ends in word `k`: every word before it has two non-zero
/// bytes; word `k` has a zero low byte, or (when `odd`) a non-zero low byte and a zero
/// high byte; none of the addresses up to it is the keyboard status register.
pub open spec fn byte_string_ends_at(mem: Seq<u16>, start: u16, k: nat, odd: bool) -> bool {
    let last = mem[addr_at(start, k) as int];
    &&& k < 0x10000
    &&& forall|j: nat|
        j < k ==> mem[#[trigger] addr_at(start, j) as int] % 0x100 != 0 && mem[addr_at(start, j) as int]
            / 0x100 != 0
    &&& forall|j: nat| j <= k ==> #[trigger] addr_at(start, j) != KB_STATUS_POS
    &&& if odd {
        last % 0x100 != 0 && last / 0x100 == 0
    } else {
        last % 0x100 == 0
    }
}

/// The events of reading and writing the first `k` words of the byte string at `start`:
/// low byte first.
pub open spec fn byte_string_events(mem: Seq<u16>, start: u16, k: nat) -> Seq<Event>
    decreases k,
{
    if k == 0 {
        Seq::empty()
    } else {
        let a = addr_at(start, (k - 1) as nat);
        byte_string_events(mem, start, (k - 1) as nat).push(
            Event::MemGet { location: a, value: mem[a as int] },
        ).push(Event::CharPut { ch: word_char(mem[a as int]) }).push(
            Event::CharPut { ch: word_char((mem[a as int] / 0x100) as u16) },
        )
    }
}

/// The events of the last word of a byte string.
pub open spec fn byte_string_tail(mem: Seq<u16>, start: u16, k: nat, odd: bool) -> Seq<Event> {
    let a = addr_at(start, k);
    let read = Seq::empty().push(Event::MemGet { location: a, value: mem[a as int] });
    if odd {
        read.push(Event::CharPut { ch: word_char(mem[a as int]) })
    } else {
        read
    }
}

/// The characters of the first `k` words of the byte string at `start`: low byte, then
/// high byte, of each.
pub open spec fn byte_string_chars(mem: Seq<u16>, start: u16, k: nat) -> Seq<char>
    decreases k,
{
    if k == 0 {
        Seq::empty()
    } else {
        let w = mem[addr_at(start, (k - 1) as nat) as int];
        byte_string_chars(mem, start, (k - 1) as nat).push(word_char(w)).push(
            word_char((w / 0x100) as u16),
        )
    }
}

/// The characters of the last word of a byte string: its low byte when `odd`.
pub open spec fn byte_string_tail_chars(mem: Seq<u16>, start: u16, k: nat, odd: bool) -> Seq<char> {
    if odd {
        Seq::empty().push(word_char(mem[addr_at(start, k) as int]))
    } else {
        Seq::empty()
    }
}

/// PutSp: writes two characters per word from R0 on, low byte first, and stops at the
/// first zero byte without reading further. A string with no zero byte within one pass
/// over memory fails with `Other`.
pub fn put_byte_string<IO: IOHandle, P: Plugin<IO>>(vm: &mut VM<IO, P>) -> (r: LC3Result<()>)
    requires
        old(vm).wf(),
    ensures
        !old(vm).delivering() && r is Ok ==> final(vm).plugins_succeeded(),
        final(vm).keeps_bus(*old(vm)),
        old(vm).delivering() ==> final(vm).events() == old(vm).events(),
        old(vm).unobserved() ==> final(vm).regs() == old(vm).regs() && final(vm).is_running()
            == old(vm).is_running(),
        forall|k: nat, odd: bool|
            old(vm).unobserved() && #[trigger] byte_string_ends_at(
                old(vm).mem(),
                old(vm).regs()[0],
                k,
                odd,
            ) ==> {
                let start = old(vm).regs()[0];
                &&& final(vm).same_machine(*old(vm))
                &&& k == 0 && !odd ==> r is Ok
                &&& old(vm).io().scripted() ==> r is Ok && port_wrote(
                    old(vm).io(),
                    final(vm).io(),
                    byte_string_chars(old(vm).mem(), start, k) + byte_string_tail_chars(
                        old(vm).mem(),
                        start,
                        k,
                        odd,
                    ),
                )
                &&& r is Ok ==> final(vm).events() == old(vm).emit_all(
                    Seq::empty().push(Event::RegGet { index: 0, value: start }) + byte_string_events(
                        old(vm).mem(),
                        start,
                        k,
                    ) + byte_string_tail(old(vm).mem(), start, k, odd),
                )
            },
{
    let ghost s0 = *vm;
    let start = vm.reg_read(Register::RR0)?;
    let ghost head = Seq::empty().push(Event::RegGet { index: 0, value: start });
    let mut next_address = start;
    let mut count: u32 = 0;
    let ghost mut plain = true;
    proof {
        if s0.unobserved() {
            assert(s0.io().written() + byte_string_chars(s0.mem(), start, 0) =~= s0.io().written());
        }
    }
    while count < 0x10000
        invariant
            s0 == *old(vm),
            head == Seq::empty().push(Event::RegGet { index: 0, value: start }),
            vm.keeps_bus(s0),
            s0.wf(),
            s0.delivering() ==> vm.events() == s0.events(),
            count <= 0x10000,
            next_address == addr_at(start, count as nat),
            s0.unobserved() ==> start == s0.regs()[0],
            s0.unobserved() ==> vm.regs() == s0.regs() && vm.is_running() == s0.is_running(),
            plain == (forall|j: nat| j < count ==> #[trigger] addr_at(start, j) != KB_STATUS_POS),
            s0.unobserved() ==> forall|j: nat|
                j < count && (forall|i: nat| i <= j ==> #[trigger] addr_at(start, i) != KB_STATUS_POS)
                    ==> s0.mem()[#[trigger] addr_at(start, j) as int] % 0x100 != 0 && s0.mem()[addr_at(
                    start,
                    j,
                ) as int] / 0x100 != 0,
            s0.unobserved() ==> forall|k: nat, odd: bool|
                #[trigger] byte_string_ends_at(s0.mem(), start, k, odd) ==> count <= k,
            s0.unobserved() && plain ==> vm.same_machine(s0) && vm.events() == s0.emit_all(
                head + byte_string_events(s0.mem(), start, count as nat),
            ),
            s0.unobserved() && plain && s0.io().scripted() ==> port_wrote(
                s0.io(),
                vm.io(),
                byte_string_chars(s0.mem(), start, count as nat),
            ),
        decreases 0x10000 - count,
    {
        let raw_value = vm.mem_read(next_address)?;
        let left = raw_value % 0x100;
        let right = raw_value / 0x100;
        if left == 0 {
            proof {
                if s0.unobserved() {
                    assert forall|k: nat, odd: bool| #[trigger]
                        byte_string_ends_at(s0.mem(), start, k, odd) implies k == count && !odd && plain
                        && next_address != KB_STATUS_POS by {
                        if k < count {
                            assert(forall|i: nat| i <= k ==> #[trigger] addr_at(start, i) != KB_STATUS_POS);
                            assert(s0.mem()[addr_at(start, k) as int] % 0x100 != 0);
                        }
                        if k > count {
                            assert(addr_at(start, count as nat) != KB_STATUS_POS);
                            assert(plain);
                        }
                    }
                    if plain && next_address != KB_STATUS_POS {
                        assert(vm.events() =~= s0.emit_all(
                            head + byte_string_events(s0.mem(), start, count as nat)
                                + byte_string_tail(s0.mem(), start, count as nat, false),
                        ));
                        assert(byte_string_chars(s0.mem(), start, count as nat)
                            + byte_string_tail_chars(s0.mem(), start, count as nat, false)
                            =~= byte_string_chars(s0.mem(), start, count as nat));
                    }
                }
            }
            return Ok(());
        }
        let ghost low_read = *vm;
        match vm.putchar(word_to_char(raw_value)) {
            Ok(()) => {},
            Err(e) => {
                proof {
                    if s0.unobserved() {
                        assert forall|k: nat, odd: bool| #[trigger]
                            byte_string_ends_at(s0.mem(), start, k, odd) implies vm.same_machine(s0)
                            && !s0.io().scripted() && !(k == 0 && !odd) by {
                            assert(addr_at(start, count as nat) != KB_STATUS_POS);
                            assert(plain);
                        }
                    }
                }
                return Err(e);
            },
        }
        if right == 0 {
            proof {
                if s0.unobserved() {
                    assert forall|k: nat, odd: bool| #[trigger]
                        byte_string_ends_at(s0.mem(), start, k, odd) implies k == count && odd && plain
                        && next_address != KB_STATUS_POS by {
                        if k < count {
                            assert(forall|i: nat| i <= k ==> #[trigger] addr_at(start, i) != KB_STATUS_POS);
                            assert(s0.mem()[addr_at(start, k) as int] / 0x100 != 0);
                        }
                        if k > count {
                            assert(addr_at(start, count as nat) != KB_STATUS_POS);
                            assert(plain);
                        }
                    }
                    if plain && next_address != KB_STATUS_POS {
                        assert(vm.events() =~= s0.emit_all(
                            head + byte_string_events(s0.mem(), start, count as nat)
                                + byte_string_tail(s0.mem(), start, count as nat, true),
                        ));
                        if s0.io().scripted() {
                            assert(s0.io().written() + byte_string_chars(s0.mem(), start, count as nat)
                                + Seq::empty().push(word_char(raw_value)) =~= s0.io().written() + (
                            byte_string_chars(s0.mem(), start, count as nat) + byte_string_tail_chars(
                                s0.mem(),
                                start,
                                count as nat,
                                true,
                            )));
                        }
                    }
                }
            }
            return Ok(());
        }
        proof {
            if s0.unobserved() {
                assert forall|k: nat, odd: bool| #[trigger]
                    byte_string_ends_at(s0.mem(), start, k, odd) implies count + 1 <= k by {
                    if k == count {
                        assert(addr_at(start, count as nat) != KB_STATUS_POS);
                        assert(plain);
                    }
                }
            }
        }
        let high = word_to_char(right);
        match vm.putchar(high) {
            Ok(()) => {},
            Err(e) => {
                proof {
                    if s0.unobserved() {
                        assert forall|k: nat, odd: bool| #[trigger]
                            byte_string_ends_at(s0.mem(), start, k, odd) implies vm.same_machine(s0)
                            && !s0.io().scripted() && !(k == 0 && !odd) by {
                            assert(addr_at(start, count as nat) != KB_STATUS_POS);
                            assert(plain);
                        }
                    }
                }
                return Err(e);
            },
        }
        proof {
            if s0.unobserved() && plain && next_address != KB_STATUS_POS {
                assert(vm.events() =~= s0.emit_all(
                    head + byte_string_events(s0.mem(), start, (count + 1) as nat),
                ));
                if s0.io().scripted() {
                    assert(s0.io().written() + byte_string_chars(s0.mem(), start, count as nat)
                        + Seq::empty().push(word_char(raw_value)) + Seq::empty().push(high)
                        =~= s0.io().written() + byte_string_chars(s0.mem(), start, (count + 1) as nat));
                }
            }
            plain = plain && next_address != KB_STATUS_POS;
        }
        next_address = wrapping_add(next_address, 1);
        count = count + 1;
    }
    Err(LC3Error::Other("String has no terminating zero byte".to_string()))
}

/// The prompt In shows before it reads.
pub const IN_PROMPT: &'static str = "Enter a character: ";

/// In: shows a prompt, reads a character into R0 (as GetC) and writes it back (echo).
pub fn trap_in<IO: IOHandle, P: Plugin<IO>>(vm: &mut VM<IO, P>) -> (r: LC3Result<()>)
    requires
        old(vm).wf(),
    ensures
        !old(vm).delivering() && r is Ok ==> final(vm).plugins_succeeded(),
        final(vm).keeps_bus(*old(vm)),
        old(vm).delivering() ==> final(vm).events() == old(vm).events(),
        old(vm).unobserved() && r is Ok ==> exists|c: char|
            #[trigger] reads_char(
                old(vm).regs(),
                old(vm).mem(),
                old(vm).is_running(),
                old(vm).delivering(),
                old(vm).events(),
                *final(vm),
                c,
                true,
            ),
        old(vm).unobserved() ==> {
            &&& final(vm).regs() == old(vm).regs().update(0, final(vm).regs()[0])
            &&& final(vm).mem() == old(vm).mem()
            &&& final(vm).is_running() == old(vm).is_running()
        },
        old(vm).unobserved() && old(vm).io().scripted() ==> if old(vm).io().pending_keys().len()
            > 0 {
            let c = old(vm).io().pending_keys().last();
            &&& r is Ok
            &&& final(vm).regs() == old(vm).regs().update(0, char_word(c))
            &&& final(vm).io().scripted()
            &&& final(vm).io().pending_keys() == old(vm).io().pending_keys().drop_last()
            &&& final(vm).io().pending_keydowns() == old(vm).io().pending_keydowns()
            &&& final(vm).io().written() == old(vm).io().written().push(c)
            &&& final(vm).io().prompts() == old(vm).io().prompts().push(IN_PROMPT@)
        } else {
            &&& r is Err
            &&& final(vm).same_machine(*old(vm))
        },
{
    let ghost s0 = *vm;
    let prompted = vm.prompt(IN_PROMPT);
    match prompted {
        Ok(()) => {},
        Err(e) => {
            proof {
                if s0.unobserved() {
                    assert(vm.regs() =~= s0.regs().update(0, vm.regs()[0]));
                }
            }
            return Err(e);
        },
    }
    let key = match vm.getchar() {
        Ok(c) => c,
        Err(e) => {
            proof {
                if s0.unobserved() {
                    assert(vm.regs() =~= s0.regs().update(0, vm.regs()[0]));
                }
            }
            return Err(e);
        },
    };
    let ch = same_char(key);
    vm.reg_write(Register::RR0, char_to_word(ch))?;
    vm.putchar(ch)?;
    proof {
        if s0.unobserved() {
            let evs = Seq::empty().push(Event::CharGet { ch }).push(
                Event::RegSet { index: 0, value: char_word(ch) },
            ).push(Event::CharPut { ch });
            assert(vm.events() =~= s0.emit_all(evs));
            assert(reads_char(
                s0.regs(),
                s0.mem(),
                s0.is_running(),
                s0.delivering(),
                s0.events(),
                *vm,
                ch,
                true,
            ));
        }
    }
    Ok(())
}

/// Halt: clears the running flag.
pub fn trap_halt<IO: IOHandle, P: Plugin<IO>>(vm: &mut VM<IO, P>) -> (r: LC3Result<()>)
    requires
        old(vm).wf(),
    ensures
        !old(vm).delivering() && r is Ok ==> final(vm).plugins_succeeded(),
        final(vm).keeps_bus(*old(vm)),
        final(vm).events() == old(vm).emit(Event::RunningSet { value: false }),
        old(vm).unobserved() ==> r is Ok && final(vm).regs() == old(vm).regs() && final(vm).mem()
            == old(vm).mem() && !final(vm).is_running() && final(vm).io() == old(vm).io(),
{
    vm.set_running(false)
}

} // verus!
