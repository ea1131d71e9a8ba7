//! The machine: memory, registers, the running flag, the I/O capability and the event bus.
use crate::command::Command;
use crate::error::{LC3Error, LC3Result};
use crate::handler::{self, executes, log_after};
use crate::io::{IOHandle, TestIOHandle};
use crate::op::Op;
use crate::plugin::{Event, EventLog, Plugin};
use crate::register::{Register, NUM_REGISTERS};
use crate::utils::{wrapping_add, wrapping_add_spec};
use vstd::prelude::*;

verus! {

/// The number of words of memory.
pub const MEMORY_SIZE: usize = 65536;

/// The load address and the first value of the program counter.
pub const PC_START: u16 = 0x3000;

/// The keyboard status register: bit 15 set means a character waits in `KB_DATA_POS`.
pub const KB_STATUS_POS: u16 = 0xFE00;

/// The keyboard data register.
pub const KB_DATA_POS: u16 = 0xFE02;

/// Condition code: the last result was positive.
pub const FL_POS: u16 = 1;

/// Condition code: the last result was zero.
pub const FL_ZRO: u16 = 2;

/// Condition code: the last result was negative.
pub const FL_NEG: u16 = 4;

/// The condition code that classifies `v`: zero, negative (bit 15 set) or positive.
pub open spec fn flag_of(v: u16) -> u16 {
    if v == 0 {
        FL_ZRO
    } else if v >= 0x8000 {
        FL_NEG
    } else {
        FL_POS
    }
}

/// The word that stands for a character read from the keyboard: its code's low byte.
pub open spec fn char_word(c: char) -> u16 {
    ((c as u32) % 0x100) as u16
}

/// The word that stands for a character read from the keyboard.
pub fn char_to_word(c: char) -> (r: u16)
    ensures
        r == char_word(c),
{
    let code: u32 = c as u32;
    (code % 0x100) as u16
}

/// The character a word stands for when it is written out: its low byte.
pub open spec fn word_char(w: u16) -> char {
    ((w % 0x100) as u8) as char
}

/// The character a word stands for when it is written out.
pub fn word_to_char(w: u16) -> (r: char)
    ensures
        r == word_char(w),
{
    let byte: u8 = (w % 0x100) as u8;
    byte as char
}

/// The character itself, as a fresh `char` value.
pub(crate) fn same_char(c: char) -> (r: char)
    ensures
        r == c,
{
    c
}

/// What polling the keyboard does to memory: with no key held it clears the status
/// register; with a key held it sets bit 15 of it and stores the key in the data
/// register. `evs` are the events of the poll.
pub open spec fn keyboard_poll(before: Seq<u16>, after: Seq<u16>, evs: Seq<Event>) -> bool {
    ||| after == before.update(KB_STATUS_POS as int, 0) && evs == Seq::empty().push(
        Event::KeyDownGet { value: false },
    ).push(Event::MemSet { location: KB_STATUS_POS, value: 0 })
    ||| exists|c: char|
        after == before.update(KB_STATUS_POS as int, 0x8000).update(KB_DATA_POS as int, char_word(c))
            && evs == Seq::empty().push(Event::KeyDownGet { value: true }).push(
            Event::MemSet { location: KB_STATUS_POS, value: 0x8000 },
        ).push(Event::CharGet { ch: c }).push(
            Event::MemSet { location: KB_DATA_POS, value: char_word(c) },
        )
}

/// The largest program that fits in memory after the load address.
pub const MAX_PROGRAM_LEN: usize = 53248;

/// Memory after `program` was copied to it from the load address on.
pub open spec fn loaded(mem: Seq<u16>, program: Seq<u16>) -> Seq<u16> {
    Seq::new(
        mem.len(),
        |a: int|
            if PC_START <= a < PC_START + program.len() {
                program[a - PC_START]
            } else {
                mem[a]
            },
    )
}

/// The events of loading `program`: one memory write per word, in order.
pub open spec fn load_events(program: Seq<u16>) -> Seq<Event> {
    Seq::new(
        program.len(),
        |i: int| Event::MemSet { location: (PC_START + i) as u16, value: program[i] },
    )
}

/// The events of fetching instruction `w` at address `pc`: read PC, advance it, read the
/// word, announce the instruction.
pub open spec fn fetch_events(pc: u16, w: u16) -> Seq<Event> {
    Seq::empty().push(Event::RegGet { index: 8, value: pc }).push(
        Event::RegSet { index: 8, value: wrapping_add_spec(pc, 1) },
    ).push(Event::MemGet { location: pc, value: w }).push(Event::Command { bytes: w })
}

/// One turn of the run loop from `before` to `after` with outcome `r`: the running flag
/// reads true, then the word at PC is fetched, PC advances, and the word executes (see
/// `executes`; a fetch from the keyboard status register polls the keyboard and is left
/// open).
pub open spec fn cycle_result<IO: IOHandle, P: Plugin<IO>>(before: VM<IO, P>, after: VM<IO, P>, r: LC3Result<()>) -> bool {
    let pc = before.regs()[8];
    let w = before.mem()[pc as int];
    &&& before.is_running()
    &&& after.keeps_bus(before)
    &&& pc != KB_STATUS_POS ==> executes(
        w,
        before.regs().update(8, wrapping_add_spec(pc, 1)),
        before.mem(),
        before.is_running(),
        before.delivering(),
        log_after(
            before.delivering(),
            before.events(),
            Seq::empty().push(Event::RunningGet { value: true }) + fetch_events(pc, w),
        ),
        before.io(),
        after,
        r,
    )
}

/// One successful turn of the run loop from `before` to `after`.
pub open spec fn cycle<IO: IOHandle, P: Plugin<IO>>(before: VM<IO, P>, after: VM<IO, P>) -> bool {
    cycle_result(before, after, Ok(()))
}

/// Each state of `trace` follows from the one before by one turn of the run loop.
pub open spec fn cycles<IO: IOHandle, P: Plugin<IO>>(trace: Seq<VM<IO, P>>) -> bool {
    &&& trace.len() >= 1
    &&& forall|i: int| 0 <= i < trace.len() - 1 ==> #[trigger] cycle(trace[i], trace[i + 1])
}

/// The plugins `after` are `before` where plugin `k` failed on `event`: the recording
/// plugins up to and including `k` were handed it, the ones after `k` were not called.
pub open spec fn handed_up_to<IO: IOHandle, P: Plugin<IO>>(
    before: Seq<P>,
    after: Seq<P>,
    event: Event,
    k: int,
) -> bool {
    &&& forall|i: int|
        0 <= i <= k && before[i].records() ==> #[trigger] after[i].seen() == before[i].seen().push(
            event,
        )
    &&& forall|i: int| k < i < before.len() ==> #[trigger] after[i] == before[i]
    &&& forall|i: int| 0 <= i < k && before[i].reports() ==> !(#[trigger] after[i].failed())
    &&& before[k].reports() ==> after[k].failed()
}

/// The plugin positions `0..n`, in order.
pub open spec fn first_positions(n: int) -> Seq<int> {
    Seq::new(n as nat, |i: int| i)
}

/// The scripted port `after` is `before` with the next key read.
pub open spec fn port_took_key<IO: IOHandle>(before: IO, after: IO) -> bool {
    &&& after.scripted()
    &&& after.prompts() == before.prompts()
    &&& after.pending_keys() == before.pending_keys().drop_last()
    &&& after.pending_keydowns() == before.pending_keydowns()
    &&& after.written() == before.written()
}

/// The scripted port `after` is `before` with the next key-down answer given.
pub open spec fn port_took_keydown<IO: IOHandle>(before: IO, after: IO) -> bool {
    &&& after.scripted()
    &&& after.prompts() == before.prompts()
    &&& after.pending_keys() == before.pending_keys()
    &&& after.pending_keydowns() == before.pending_keydowns().drop_last()
    &&& after.written() == before.written()
}

/// The scripted port `after` is `before` with `text` written.
pub open spec fn port_wrote<IO: IOHandle>(before: IO, after: IO, text: Seq<char>) -> bool {
    &&& after.scripted()
    &&& after.prompts() == before.prompts()
    &&& after.pending_keys() == before.pending_keys()
    &&& after.pending_keydowns() == before.pending_keydowns()
    &&& after.written() == before.written() + text
}

/// What polling a scripted keyboard does: it leaves `before`'s memory as `after` and the
/// port as `port_after`, given the port `port` before. It fails only when a key is held
/// and no key press is scripted.
pub open spec fn scripted_poll<IO: IOHandle>(
    port: IO,
    port_after: IO,
    before: Seq<u16>,
    after: Seq<u16>,
) -> bool {
    let held = port.pending_keydowns().last();
    &&& port_after.scripted()
    &&& port_after.prompts() == port.prompts()
    &&& port_after.pending_keydowns() == port.pending_keydowns().drop_last()
    &&& port_after.written() == port.written()
    &&& if held {
        &&& port_after.pending_keys() == port.pending_keys().drop_last()
        &&& after == before.update(KB_STATUS_POS as int, 0x8000).update(
            KB_DATA_POS as int,
            char_word(port.pending_keys().last()),
        )
    } else {
        &&& port_after.pending_keys() == port.pending_keys()
        &&& after == before.update(KB_STATUS_POS as int, 0)
    }
}

/// Whether a poll of the scripted port `port` can answer: a key-down answer is scripted,
/// and a key press too when that answer is "held".
pub open spec fn poll_answerable<IO: IOHandle>(port: IO) -> bool {
    &&& port.pending_keydowns().len() > 0
    &&& port.pending_keydowns().last() ==> port.pending_keys().len() > 0
}

/// A plugin's failure as the bus reports it: a `Plugin` error that keeps the message.
pub fn plugin_failure(e: LC3Error) -> (r: LC3Error)
    ensures
        r is Plugin,
        e is Plugin ==> r == e,
{
    match e {
        LC3Error::Plugin { message } => LC3Error::Plugin { message },
        LC3Error::IO { message } => LC3Error::Plugin { message },
        LC3Error::Internal(message) => LC3Error::Plugin { message },
        LC3Error::Other(message) => LC3Error::Plugin { message },
        LC3Error::BadOpCode { .. } => LC3Error::Plugin { message: "bad op code".to_string() },
        LC3Error::BadTrapCode { .. } => LC3Error::Plugin { message: "bad trap code".to_string() },
        LC3Error::ProgramSize { .. } => LC3Error::Plugin {
            message: "program too large".to_string(),
        },
    }
}

/// A virtual LC-3 machine, with I/O capability `IO` and plugins of type `P`.
pub struct VM<IO, P> {
    memory: Vec<u16>,
    registers: Vec<u16>,
    running: bool,
    io_handle: IO,
    plugins: Vec<P>,
    delivering: bool,
    events: Ghost<Seq<Event>>,
    marks: Ghost<Seq<(nat, Seq<Event>)>>,
    handed: Ghost<Seq<int>>,
}

impl<IO, P> VM<IO, P> {
    /// The memory, one word per address.
    pub closed spec fn mem(&self) -> Seq<u16> {
        self.memory@
    }

    /// The register file: R0..R7, PC, COND and COUNT.
    pub closed spec fn regs(&self) -> Seq<u16> {
        self.registers@
    }

    pub closed spec fn is_running(&self) -> bool {
        self.running
    }

    /// Whether the bus is handing an event to the plugins right now.
    pub closed spec fn delivering(&self) -> bool {
        self.delivering
    }

    /// Every event the bus has announced, in order.
    pub closed spec fn events(&self) -> Seq<Event> {
        self.events@
    }

    /// For each installed plugin: the length of the event log when it was installed, and
    /// the events it had seen by then.
    pub closed spec fn marks(&self) -> Seq<(nat, Seq<Event>)> {
        self.marks@
    }

    /// The positions of the plugins the latest delivery called, in the order it called them.
    pub closed spec fn delivered_to(&self) -> Seq<int> {
        self.handed@
    }

    /// The installed plugins, in registration order (none while the bus is delivering).
    pub closed spec fn plugins(&self) -> Seq<P> {
        self.plugins@
    }

    pub closed spec fn io(&self) -> IO {
        self.io_handle
    }

    /// The event log after announcing the events `evs`, one by one.
    pub open spec fn emit_all(&self, evs: Seq<Event>) -> Seq<Event> {
        if self.delivering() {
            self.events()
        } else {
            self.events() + evs
        }
    }

    /// Memory and register file have their fixed sizes.
    pub open spec fn wf(&self) -> bool {
        &&& self.mem().len() == MEMORY_SIZE
        &&& self.regs().len() == NUM_REGISTERS
    }

    /// The event log after announcing `e`: events announced during a delivery are dropped.
    pub open spec fn emit(&self, e: Event) -> Seq<Event> {
        if self.delivering() {
            self.events()
        } else {
            self.events().push(e)
        }
    }

    /// The memory, the registers and the running flag are those of `other`.
    pub open spec fn same_machine(&self, other: Self) -> bool {
        &&& self.mem() == other.mem()
        &&& self.regs() == other.regs()
        &&& self.is_running() == other.is_running()
    }

    /// The I/O capability.
    pub fn io_handle(&self) -> (r: &IO)
        ensures
            *r == self.io(),
    {
        &self.io_handle
    }

    /// Gives the I/O capability back, ending the machine.
    pub fn into_io_handle(self) -> (r: IO)
        ensures
            r == self.io(),
    {
        self.io_handle
    }

    /// The installed plugins.
    pub fn get_plugins(&self) -> (r: &Vec<P>)
        ensures
            r@ == self.plugins(),
    {
        &self.plugins
    }
}

impl<IO: IOHandle, P: Plugin<IO>> VM<IO, P> {
    /// Nothing a plugin does on the next announcement can change the machine: the bus is
    /// busy (the announcement is dropped), or every plugin is quiet.
    pub open spec fn unobserved(&self) -> bool {
        self.delivering() || forall|i: int|
            0 <= i < self.plugins().len() ==> #[trigger] self.plugins()[i].quiet()
    }

    /// Outside a delivery, and with only quiet plugins installed: every recording plugin has
    /// seen exactly the events announced since it was installed, after those it had seen
    /// before.
    pub open spec fn log_mirrored(&self) -> bool {
        !self.delivering() && (forall|i: int|
            0 <= i < self.plugins().len() ==> #[trigger] self.plugins()[i].quiet()) ==> {
            &&& self.marks().len() == self.plugins().len()
            &&& forall|i: int|
                0 <= i < self.plugins().len() && #[trigger] self.plugins()[i].records() ==> {
                    &&& self.marks()[i].0 <= self.events().len()
                    &&& self.plugins()[i].seen() == self.marks()[i].1 + self.events().subrange(
                        self.marks()[i].0 as int,
                        self.events().len() as int,
                    )
                }
        }
    }

    /// A change that leaves the plugins, the event log, the marks and the bus flag alone
    /// keeps `unobserved` and `log_mirrored`.
    proof fn lemma_bus_untouched(before: Self, after: Self)
        requires
            after.plugins() == before.plugins(),
            after.events() == before.events(),
            after.marks() == before.marks(),
            after.delivering() == before.delivering(),
        ensures
            after.unobserved() == before.unobserved(),
            after.log_mirrored() == before.log_mirrored(),
    {
    }

    /// Every plugin that reports how its latest `handle_event` ended says it succeeded.
    pub open spec fn plugins_succeeded(&self) -> bool {
        forall|i: int|
            0 <= i < self.plugins().len() && self.plugins()[i].reports() ==> !(
            #[trigger] self.plugins()[i].failed())
    }

    /// What an operation keeps: sizes, the bus flag, the number of plugins and which of
    /// them are quiet, the whole plugin list while the bus is delivering, and
    /// `log_mirrored`.
    pub open spec fn keeps_bus(&self, before: Self) -> bool {
        &&& self.wf()
        &&& self.delivering() == before.delivering()
        &&& self.plugins().len() == before.plugins().len()
        &&& before.delivering() ==> self.plugins() == before.plugins()
        &&& forall|i: int|
            0 <= i < self.plugins().len() ==> #[trigger] self.plugins()[i].quiet() == before.plugins()[
                i
            ].quiet()
        &&& forall|i: int|
            0 <= i < self.plugins().len() ==> #[trigger] self.plugins()[i].records() == before.plugins()[
                i
            ].records()
        &&& self.marks() == before.marks()
        &&& before.log_mirrored() ==> self.log_mirrored()
    }

    /// A machine with zeroed memory and registers, not running, with no plugins.
    pub fn new_with_io(io_handle: IO) -> (r: Self)
        ensures
            r.wf(),
            r.mem() == Seq::new(MEMORY_SIZE as nat, |i: int| 0u16),
            r.regs() == Seq::new(NUM_REGISTERS as nat, |i: int| 0u16),
            !r.is_running(),
            !r.delivering(),
            r.plugins().len() == 0,
            r.events() == Seq::<Event>::empty(),
            r.io() == io_handle,
            r.log_mirrored(),
    {
        let memory: Vec<u16> = vec![0u16; MEMORY_SIZE];
        let registers: Vec<u16> = vec![0u16; NUM_REGISTERS];
        let r = VM {
            memory,
            registers,
            running: false,
            io_handle,
            plugins: Vec::new(),
            delivering: false,
            events: Ghost(Seq::empty()),
            marks: Ghost(Seq::empty()),
            handed: Ghost(Seq::empty()),
        };
        assert(r.mem() =~= Seq::new(MEMORY_SIZE as nat, |i: int| 0u16));
        assert(r.regs() =~= Seq::new(NUM_REGISTERS as nat, |i: int| 0u16));
        r
    }

    /// Installs a plugin after the ones already there. Refused while the bus is delivering,
    /// since the plugin list is then being walked.
    pub fn add_plugin(&mut self, plugin: P) -> (r: LC3Result<()>)
        ensures
            old(self).delivering() ==> r is Err && *final(self) == *old(self),
            !old(self).delivering() ==> {
                &&& r is Ok
                &&& final(self).plugins() == old(self).plugins().push(plugin)
                &&& final(self).same_machine(*old(self))
                &&& final(self).events() == old(self).events()
                &&& final(self).io() == old(self).io()
                &&& final(self).wf() == old(self).wf()
                &&& !final(self).delivering()
                &&& old(self).log_mirrored() ==> final(self).log_mirrored()
            },
    {
        if self.delivering {
            return Err(LC3Error::Other("Cannot add a plugin while events are delivered".to_string()));
        }
        let ghost before = *self;
        let ghost seen_before = plugin.seen();
        self.plugins.push(plugin);
        self.marks = Ghost(self.marks@.push((self.events@.len(), seen_before)));
        proof {
            if before.log_mirrored() && forall|i: int|
                0 <= i < self.plugins().len() ==> #[trigger] self.plugins()[i].quiet() {
                let n = before.plugins().len() as int;
                assert forall|i: int| 0 <= i < n implies #[trigger] before.plugins()[i].quiet() by {
                    assert(self.plugins()[i] == before.plugins()[i]);
                }
                assert(seen_before + self.events().subrange(
                    self.events().len() as int,
                    self.events().len() as int,
                ) =~= seen_before);
                assert forall|i: int|
                    0 <= i < self.plugins().len() && #[trigger] self.plugins()[i].records() implies {
                    &&& self.marks()[i].0 <= self.events().len()
                    &&& self.plugins()[i].seen() == self.marks()[i].1 + self.events().subrange(
                        self.marks()[i].0 as int,
                        self.events().len() as int,
                    )
                } by {
                    if i < n {
                        assert(self.plugins()[i] == before.plugins()[i]);
                        assert(before.plugins()[i].records());
                    }
                }
            }
        }
        Ok(())
    }

    /// Announces `event` to every plugin, in registration order, unless the bus is already
    /// delivering an event, in which case it is dropped. A plugin's failure stops the
    /// delivery: the plugins after it are not called, and the failure is returned as a
    /// `Plugin` error.
    pub fn notify_plugins(&mut self, event: &Event) -> (r: LC3Result<()>)
        requires
            old(self).wf(),
        ensures
            !old(self).delivering() && r is Ok ==> final(self).plugins_succeeded(),
            final(self).keeps_bus(*old(self)),
            final(self).events() == old(self).emit(*event),
            old(self).unobserved() ==> {
                &&& r is Ok
                &&& final(self).same_machine(*old(self))
                &&& final(self).io() == old(self).io()
            },
            forall|i: int|
                0 <= i < old(self).plugins().len() ==> #[trigger] final(self).plugins()[i].records()
                    == old(self).plugins()[i].records(),
            !old(self).delivering() && r is Ok ==> forall|i: int|
                0 <= i < old(self).plugins().len() && old(self).plugins()[i].records()
                    ==> #[trigger] final(self).plugins()[i].seen() == old(self).plugins()[i].seen().push(
                    *event,
                ),
            forall|i: int|
                0 <= i < old(self).plugins().len() ==> #[trigger] final(self).plugins()[i].reports()
                    == old(self).plugins()[i].reports(),
            !old(self).delivering() && r is Ok ==> {
                &&& final(self).delivered_to() == first_positions(old(self).plugins().len() as int)
                &&& forall|i: int|
                    0 <= i < old(self).plugins().len() && old(self).plugins()[i].reports() ==> !(
                    #[trigger] final(self).plugins()[i].failed())
            },
            !old(self).delivering() && r is Err ==> {
                &&& r->Err_0 is Plugin
                &&& exists|k: int|
                    0 <= k < old(self).plugins().len() && handed_up_to(
                        old(self).plugins(),
                        final(self).plugins(),
                        *event,
                        k,
                    ) && final(self).delivered_to() == first_positions(k + 1)
            },
            old(self).delivering() ==> final(self).delivered_to() == old(self).delivered_to(),
    {
        let ghost s_in = *self;
        if self.delivering {
            return Ok(());
        }
        self.events = Ghost(self.events@.push(*event));
        self.handed = Ghost(Seq::empty());
        if self.plugins.len() == 0 {
            proof {
                assert(self.delivered_to() =~= first_positions(0));
            }
            return Ok(());
        }
        let mut plugins: Vec<P> = Vec::new();
        std::mem::swap(&mut plugins, &mut self.plugins);
        self.delivering = true;
        let n = plugins.len();
        let ghost logged = self.events@;
        let ghost listed = plugins@;
        let ghost orig = *self;
        let ghost all_quiet = forall|j: int| 0 <= j < n ==> #[trigger] listed[j].quiet();
        let mut result: LC3Result<()> = Ok(());
        let mut i: usize = 0;
        let ghost mut order: Seq<int> = Seq::empty();
        while i < n
            invariant_except_break
                result is Ok,
                order == first_positions(i as int),
                forall|j: int| 0 <= j < i && listed[j].reports() ==> !(#[trigger] plugins@[j].failed()),
                forall|j: int|
                    0 <= j < i && listed[j].records() ==> #[trigger] plugins@[j].seen()
                        == listed[j].seen().push(*event),
                forall|j: int| i <= j < n ==> #[trigger] plugins@[j] == listed[j],
            invariant
                self.wf(),
                self.delivering(),
                self.events() == logged,
                plugins@.len() == n,
                listed.len() == n,
                i <= n,
                forall|j: int| 0 <= j < n ==> #[trigger] plugins@[j].records() == listed[j].records(),
                forall|j: int| 0 <= j < n ==> #[trigger] plugins@[j].quiet() == listed[j].quiet(),
                forall|j: int| 0 <= j < n ==> #[trigger] plugins@[j].reports() == listed[j].reports(),
                all_quiet == forall|j: int| 0 <= j < n ==> #[trigger] listed[j].quiet(),
                all_quiet ==> self.same_machine(orig) && self.io() == orig.io(),
            ensures
                all_quiet ==> result is Ok && self.same_machine(orig) && self.io() == orig.io(),
                forall|j: int| 0 <= j < n ==> #[trigger] plugins@[j].reports() == listed[j].reports(),
                result is Ok ==> order == first_positions(n as int) && forall|j: int|
                    0 <= j < n && listed[j].reports() ==> !(#[trigger] plugins@[j].failed()),
                result is Err ==> order == first_positions(i + 1),
                forall|j: int| 0 <= j < n ==> #[trigger] plugins@[j].quiet() == listed[j].quiet(),
                self.wf(),
                self.delivering(),
                self.events() == logged,
                plugins@.len() == n,
                forall|j: int| 0 <= j < n ==> #[trigger] plugins@[j].records() == listed[j].records(),
                result is Ok ==> forall|j: int|
                    0 <= j < n && listed[j].records() ==> #[trigger] plugins@[j].seen()
                        == listed[j].seen().push(*event),
                result is Err ==> result->Err_0 is Plugin && i < n && handed_up_to(
                    listed,
                    plugins@,
                    *event,
                    i as int,
                ),
            decreases n - i,
        {
            let outcome = plugins[i].handle_event(self, event);
            proof {
                assert(order.push(i as int) =~= first_positions(i + 1));
                order = order.push(i as int);
            }
            match outcome {
                Ok(()) => {},
                Err(e) => {
                    result = Err(plugin_failure(e));
                    break;
                },
            }
            i += 1;
        }
        self.plugins = plugins;
        self.delivering = false;
        self.marks = Ghost(s_in.marks@);
        self.handed = Ghost(order);
        proof {
            if result is Err {
                assert(0 <= i < listed.len() && handed_up_to(listed, self.plugins@, *event, i as int)
                    && self.delivered_to() == first_positions(i + 1));
            }
            if all_quiet && s_in.log_mirrored() {
                assert(forall|j: int| 0 <= j < s_in.plugins().len() ==> #[trigger] s_in.plugins()[j].quiet());
                assert forall|j: int|
                    0 <= j < self.plugins().len() && #[trigger] self.plugins()[j].records() implies {
                    &&& self.marks()[j].0 <= self.events().len()
                    &&& self.plugins()[j].seen() == self.marks()[j].1 + self.events().subrange(
                        self.marks()[j].0 as int,
                        self.events().len() as int,
                    )
                } by {
                    assert(s_in.plugins() == listed);
                    assert(self.marks() == s_in.marks());
                    assert(self.events() == s_in.events().push(*event));
                    assert(listed[j].quiet());
                    assert(listed[j].records());
                    assert(s_in.plugins()[j].records());
                    assert(self.plugins()[j].seen() == listed[j].seen().push(*event));
                    assert(s_in.marks()[j].0 <= s_in.events().len());
                    assert(self.marks()[j].1 + self.events().subrange(
                        self.marks()[j].0 as int,
                        self.events().len() as int,
                    ) =~= (s_in.marks()[j].1 + s_in.events().subrange(
                        s_in.marks()[j].0 as int,
                        s_in.events().len() as int,
                    )).push(*event));
                }
                assert(self.log_mirrored());
            }
            if !all_quiet {
                let j = choose|j: int| 0 <= j < n && !(#[trigger] listed[j].quiet());
                assert(!self.plugins()[j].quiet());
                assert(self.log_mirrored());
            }
        }
        result
    }

    /// Reads register `index`. Fails with `Internal` when `index > 10`.
    pub fn reg_index_read(&mut self, index: u8) -> (r: LC3Result<u16>)
        requires
            old(self).wf(),
        ensures
            !old(self).delivering() && r is Ok ==> final(self).plugins_succeeded(),
            final(self).keeps_bus(*old(self)),
            index >= NUM_REGISTERS ==> r is Err && r->Err_0 is Internal && *final(self) == *old(self),
            index < NUM_REGISTERS ==> final(self).events() == old(self).emit(
                Event::RegGet { index, value: old(self).regs()[index as int] },
            ),
            index < NUM_REGISTERS && r is Ok ==> r->Ok_0 == old(self).regs()[index as int],
            index < NUM_REGISTERS && old(self).unobserved() ==> {
                &&& r is Ok
                &&& final(self).same_machine(*old(self))
                &&& final(self).io() == old(self).io()
            },
    {
        if index as usize >= NUM_REGISTERS {
            return Err(LC3Error::Internal("Register index too large".to_string()));
        }
        let value = self.registers[index as usize];
        self.notify_plugins(&Event::RegGet { index, value })?;
        Ok(value)
    }

    /// Writes `val` to register `index`. Fails with `Internal` when `index > 10`.
    pub fn reg_index_write(&mut self, index: u8, val: u16) -> (r: LC3Result<()>)
        requires
            old(self).wf(),
        ensures
            !old(self).delivering() && r is Ok ==> final(self).plugins_succeeded(),
            final(self).keeps_bus(*old(self)),
            index >= NUM_REGISTERS ==> r is Err && r->Err_0 is Internal && *final(self) == *old(self),
            index < NUM_REGISTERS ==> final(self).events() == old(self).emit(
                Event::RegSet { index, value: val },
            ),
            old(self).delivering() ==> final(self).events() == old(self).events(),
            index < NUM_REGISTERS && old(self).unobserved() ==> {
                &&& r is Ok
                &&& final(self).regs() == old(self).regs().update(index as int, val)
                &&& final(self).mem() == old(self).mem()
                &&& final(self).is_running() == old(self).is_running()
                &&& final(self).io() == old(self).io()
            },
    {
        if index as usize >= NUM_REGISTERS {
            return Err(LC3Error::Internal("Register index too large".to_string()));
        }
        self.registers.set(index as usize, val);
        proof {
            Self::lemma_bus_untouched(*old(self), *self);
        }
        self.notify_plugins(&Event::RegSet { index, value: val })
    }

    /// Reads a named register.
    pub fn reg_read(&mut self, reg: Register) -> (r: LC3Result<u16>)
        requires
            old(self).wf(),
        ensures
            !old(self).delivering() && r is Ok ==> final(self).plugins_succeeded(),
            final(self).keeps_bus(*old(self)),
            final(self).events() == old(self).emit(
                Event::RegGet { index: reg.index_spec(), value: old(self).regs()[reg.index_spec() as int] },
            ),
            r is Ok ==> r->Ok_0 == old(self).regs()[reg.index_spec() as int],
            old(self).unobserved() ==> {
                &&& r is Ok
                &&& final(self).same_machine(*old(self))
                &&& final(self).io() == old(self).io()
            },
    {
        self.reg_index_read(reg.to_u8())
    }

    /// Writes a named register.
    pub fn reg_write(&mut self, reg: Register, val: u16) -> (r: LC3Result<()>)
        requires
            old(self).wf(),
        ensures
            !old(self).delivering() && r is Ok ==> final(self).plugins_succeeded(),
            final(self).keeps_bus(*old(self)),
            final(self).events() == old(self).emit(
                Event::RegSet { index: reg.index_spec(), value: val },
            ),
            old(self).delivering() ==> final(self).events() == old(self).events(),
            old(self).unobserved() ==> {
                &&& r is Ok
                &&& final(self).regs() == old(self).regs().update(reg.index_spec() as int, val)
                &&& final(self).mem() == old(self).mem()
                &&& final(self).is_running() == old(self).is_running()
                &&& final(self).io() == old(self).io()
            },
    {
        self.reg_index_write(reg.to_u8(), val)
    }

    /// Writes `val` at address `pos`.
    pub fn mem_write(&mut self, pos: u16, val: u16) -> (r: LC3Result<()>)
        requires
            old(self).wf(),
        ensures
            !old(self).delivering() && r is Ok ==> final(self).plugins_succeeded(),
            final(self).keeps_bus(*old(self)),
            final(self).events() == old(self).emit(Event::MemSet { location: pos, value: val }),
            old(self).unobserved() ==> {
                &&& r is Ok
                &&& final(self).mem() == old(self).mem().update(pos as int, val)
                &&& final(self).regs() == old(self).regs()
                &&& final(self).is_running() == old(self).is_running()
                &&& final(self).io() == old(self).io()
            },
    {
        self.memory.set(pos as usize, val);
        proof {
            Self::lemma_bus_untouched(*old(self), *self);
        }
        self.notify_plugins(&Event::MemSet { location: pos, value: val })
    }

    /// Reads the running flag.
    pub fn get_running(&mut self) -> (r: LC3Result<bool>)
        requires
            old(self).wf(),
        ensures
            !old(self).delivering() && r is Ok ==> final(self).plugins_succeeded(),
            final(self).keeps_bus(*old(self)),
            final(self).events() == old(self).emit(
                Event::RunningGet { value: old(self).is_running() },
            ),
            r is Ok ==> r->Ok_0 == old(self).is_running(),
            old(self).unobserved() ==> {
                &&& r is Ok
                &&& final(self).same_machine(*old(self))
                &&& final(self).io() == old(self).io()
            },
    {
        let value = self.running;
        self.notify_plugins(&Event::RunningGet { value })?;
        Ok(value)
    }

    /// Sets the running flag.
    pub fn set_running(&mut self, val: bool) -> (r: LC3Result<()>)
        requires
            old(self).wf(),
        ensures
            !old(self).delivering() && r is Ok ==> final(self).plugins_succeeded(),
            final(self).keeps_bus(*old(self)),
            final(self).events() == old(self).emit(Event::RunningSet { value: val }),
            old(self).unobserved() ==> {
                &&& r is Ok
                &&& final(self).mem() == old(self).mem()
                &&& final(self).regs() == old(self).regs()
                &&& final(self).is_running() == val
                &&& final(self).io() == old(self).io()
            },
    {
        self.running = val;
        proof {
            Self::lemma_bus_untouched(*old(self), *self);
        }
        self.notify_plugins(&Event::RunningSet { value: val })
    }
}

impl<IO: IOHandle, P: Plugin<IO>> VM<IO, P> {
    /// Reads a character from the I/O capability.
    pub fn getchar(&mut self) -> (r: LC3Result<char>)
        requires
            old(self).wf(),
        ensures
            !old(self).delivering() && r is Ok ==> final(self).plugins_succeeded(),
            final(self).keeps_bus(*old(self)),
            old(self).delivering() ==> final(self).events() == old(self).events(),
            !old(self).delivering() ==> (r matches Ok(c) ==> final(self).events() == old(self).events().push(
                Event::CharGet { ch: c },
            )),
            old(self).unobserved() ==> final(self).same_machine(*old(self)),
            old(self).unobserved() && old(self).io().scripted() ==> if old(self).io().pending_keys().len()
                > 0 {
                &&& r == Ok::<char, LC3Error>(old(self).io().pending_keys().last())
                &&& port_took_key(old(self).io(), final(self).io())
            } else {
                &&& r is Err
                &&& port_wrote(old(self).io(), final(self).io(), Seq::empty())
            },
    {
        let key = self.io_handle.getchar()?;
        let ch = same_char(key);
        proof {
            Self::lemma_bus_untouched(*old(self), *self);
        }
        self.notify_plugins(&Event::CharGet { ch })?;
        Ok(ch)
    }

    /// Shows a prompt through the I/O capability; this is no observable operation of the
    /// program and announces nothing.
    pub fn prompt(&mut self, text: &str) -> (r: LC3Result<()>)
        requires
            old(self).wf(),
        ensures
            final(self).keeps_bus(*old(self)),
            final(self).same_machine(*old(self)),
            final(self).events() == old(self).events(),
            final(self).plugins() == old(self).plugins(),
            old(self).io().scripted() ==> {
                &&& r is Ok
                &&& final(self).io().scripted()
                &&& final(self).io().prompts() == old(self).io().prompts().push(text@)
                &&& final(self).io().pending_keys() == old(self).io().pending_keys()
                &&& final(self).io().pending_keydowns() == old(self).io().pending_keydowns()
                &&& final(self).io().written() == old(self).io().written()
            },
    {
        self.io_handle.prompt(text)
    }

    /// Writes a character through the I/O capability.
    pub fn putchar(&mut self, ch: char) -> (r: LC3Result<()>)
        requires
            old(self).wf(),
        ensures
            !old(self).delivering() && r is Ok ==> final(self).plugins_succeeded(),
            final(self).keeps_bus(*old(self)),
            old(self).delivering() ==> final(self).events() == old(self).events(),
            r is Ok ==> final(self).events() == old(self).emit(Event::CharPut { ch }),
            old(self).unobserved() ==> final(self).same_machine(*old(self)),
            old(self).unobserved() && old(self).io().scripted() ==> {
                &&& r is Ok
                &&& port_wrote(old(self).io(), final(self).io(), Seq::empty().push(ch))
            },
    {
        let ghost before = self.io_handle;
        self.io_handle.putchar(ch)?;
        proof {
            Self::lemma_bus_untouched(*old(self), *self);
        }
        proof {
            assert(before.written().push(ch) =~= before.written() + Seq::empty().push(ch));
        }
        self.notify_plugins(&Event::CharPut { ch })
    }

    /// Polls the keyboard through the I/O capability.
    pub fn is_key_down(&mut self) -> (r: LC3Result<bool>)
        requires
            old(self).wf(),
        ensures
            !old(self).delivering() && r is Ok ==> final(self).plugins_succeeded(),
            final(self).keeps_bus(*old(self)),
            old(self).delivering() ==> final(self).events() == old(self).events(),
            r is Ok ==> final(self).events() == old(self).emit(Event::KeyDownGet { value: r->Ok_0 }),
            old(self).unobserved() ==> final(self).same_machine(*old(self)),
            old(self).unobserved() && old(self).io().scripted() ==> if old(
                self,
            ).io().pending_keydowns().len() > 0 {
                &&& r == Ok::<bool, LC3Error>(old(self).io().pending_keydowns().last())
                &&& port_took_keydown(old(self).io(), final(self).io())
            } else {
                &&& r is Err
                &&& port_wrote(old(self).io(), final(self).io(), Seq::empty())
            },
    {
        let value = self.io_handle.is_key_down()?;
        proof {
            Self::lemma_bus_untouched(*old(self), *self);
        }
        self.notify_plugins(&Event::KeyDownGet { value })?;
        Ok(value)
    }

    /// Polls the keyboard and records the outcome in the status and data registers (see
    /// `keyboard_poll`); with a key held it blocks for the character.
    fn poll_keyboard(&mut self) -> (r: LC3Result<()>)
        requires
            old(self).wf(),
        ensures
            final(self).keeps_bus(*old(self)),
            old(self).delivering() ==> final(self).events() == old(self).events(),
            old(self).unobserved() ==> final(self).regs() == old(self).regs() && final(
                self).is_running() == old(self).is_running(),
            old(self).unobserved() && r is Ok ==> exists|evs: Seq<Event>|
                keyboard_poll(old(self).mem(), final(self).mem(), evs) && final(self).events()
                    == old(self).emit_all(evs),
            old(self).unobserved() && old(self).io().scripted() ==> (r is Ok <==> poll_answerable(
                old(self).io(),
            )),
            old(self).unobserved() && old(self).io().scripted() && r is Ok ==> scripted_poll(
                old(self).io(),
                final(self).io(),
                old(self).mem(),
                final(self).mem(),
            ),
    {
        let ghost s0 = *self;
        let down = self.is_key_down()?;
        let ghost s1 = *self;
        if down {
            self.mem_write(KB_STATUS_POS, 0x8000)?;
            let ghost s2 = *self;
            let key = match self.getchar() {
                Ok(c) => c,
                Err(e) => return Err(e),
            };
            let ch = same_char(key);
            let ghost s3 = *self;
            self.mem_write(KB_DATA_POS, char_to_word(ch))?;
            proof {
                if s0.unobserved() {
                    let evs = Seq::empty().push(Event::KeyDownGet { value: true }).push(
                        Event::MemSet { location: KB_STATUS_POS, value: 0x8000 },
                    ).push(Event::CharGet { ch }).push(
                        Event::MemSet { location: KB_DATA_POS, value: char_word(ch) },
                    );
                    assert(self.mem() =~= s0.mem().update(KB_STATUS_POS as int, 0x8000).update(
                        KB_DATA_POS as int, char_word(ch)));
                    if !s0.delivering() {
                        assert(s1.events() == s0.events().push(Event::KeyDownGet { value: true }));
                        assert(s2.events() == s1.events().push(
                            Event::MemSet { location: KB_STATUS_POS, value: 0x8000 },
                        ));
                        assert(s3.events() == s2.events().push(Event::CharGet { ch }));
                        assert(self.events() =~= s0.events() + evs);
                    }
                    assert(keyboard_poll(s0.mem(), self.mem(), evs) && self.events() == s0.emit_all(evs));
                }
            }
        } else {
            self.mem_write(KB_STATUS_POS, 0)?;
            proof {
                if s0.unobserved() {
                    let evs = Seq::empty().push(Event::KeyDownGet { value: false }).push(
                        Event::MemSet { location: KB_STATUS_POS, value: 0 },
                    );
                    assert(self.events() =~= s0.emit_all(evs));
                    assert(keyboard_poll(s0.mem(), self.mem(), evs) && self.events() == s0.emit_all(evs));
                }
            }
        }
        Ok(())
    }

    /// Reads the word at `pos`. A read of the keyboard status register is not pure: it
    /// first polls the keyboard (see `keyboard_poll`) and then reads the updated word.
    /// With a key held it blocks in `getchar` until a key that `getchar` accepts comes; a
    /// held key that `getchar` does not accept (a modifier, say) keeps it blocked.
    pub fn mem_read(&mut self, pos: u16) -> (r: LC3Result<u16>)
        requires
            old(self).wf(),
        ensures
            !old(self).delivering() && r is Ok ==> final(self).plugins_succeeded(),
            final(self).keeps_bus(*old(self)),
            old(self).delivering() ==> final(self).events() == old(self).events(),
            pos != KB_STATUS_POS ==> final(self).events() == old(self).emit(
                Event::MemGet { location: pos, value: old(self).mem()[pos as int] },
            ),
            pos != KB_STATUS_POS && r is Ok ==> r->Ok_0 == old(self).mem()[pos as int],
            pos != KB_STATUS_POS && old(self).unobserved() ==> {
                &&& r is Ok
                &&& final(self).same_machine(*old(self))
                &&& final(self).io() == old(self).io()
            },
            pos == KB_STATUS_POS && old(self).unobserved() ==> {
                &&& final(self).regs() == old(self).regs()
                &&& final(self).is_running() == old(self).is_running()
            },
            pos == KB_STATUS_POS && old(self).unobserved() && old(self).io().scripted() ==> (r is Ok
                <==> poll_answerable(old(self).io())),
            pos == KB_STATUS_POS && old(self).unobserved() && old(self).io().scripted() && r is Ok
                ==> {
                &&& scripted_poll(old(self).io(), final(self).io(), old(self).mem(), final(self).mem())
                &&& r->Ok_0 == if old(self).io().pending_keydowns().last() {
                    0x8000u16
                } else {
                    0u16
                }
            },
            pos == KB_STATUS_POS && old(self).unobserved() && r is Ok ==> {
                &&& r->Ok_0 == final(self).mem()[pos as int]
                &&& exists|evs: Seq<Event>|
                    keyboard_poll(old(self).mem(), final(self).mem(), evs) && final(self).events()
                        == old(self).emit_all(
                        evs.push(Event::MemGet { location: pos, value: r->Ok_0 }),
                    )
            },
    {
        let ghost s0 = *self;
        if pos == KB_STATUS_POS {
            self.poll_keyboard()?;
        }
        let ghost s1 = *self;
        let value = self.memory[pos as usize];
        self.notify_plugins(&Event::MemGet { location: pos, value })?;
        proof {
            if pos == KB_STATUS_POS && s0.unobserved() {
                let evs = choose|evs: Seq<Event>|
                    keyboard_poll(s0.mem(), s1.mem(), evs) && s1.events() == s0.emit_all(evs);
                assert(self.events() =~= s0.emit_all(evs.push(Event::MemGet { location: pos, value })));
            }
        }
        Ok(value)
    }

    /// Sets COND from the value in register `register_index`: zero, negative or positive.
    /// Fails with `Internal` when the index is above 10.
    pub fn update_flags(&mut self, register_index: usize) -> (r: LC3Result<()>)
        requires
            old(self).wf(),
        ensures
            !old(self).delivering() && r is Ok ==> final(self).plugins_succeeded(),
            final(self).keeps_bus(*old(self)),
            register_index >= NUM_REGISTERS ==> r is Err && r->Err_0 is Internal && *final(self)
                == *old(self),
            register_index < NUM_REGISTERS && old(self).unobserved() ==> {
                let v = old(self).regs()[register_index as int];
                &&& r is Ok
                &&& final(self).regs() == old(self).regs().update(9, flag_of(v))
                &&& final(self).mem() == old(self).mem()
                &&& final(self).io() == old(self).io()
                &&& final(self).is_running() == old(self).is_running()
                &&& final(self).events() == old(self).emit_all(
                    Seq::empty().push(Event::RegGet { index: register_index as u8, value: v }).push(
                        Event::RegSet { index: 9, value: flag_of(v) },
                    ),
                )
            },
    {
        if register_index >= NUM_REGISTERS {
            return Err(LC3Error::Internal("Register index too large".to_string()));
        }
        let ghost before = *self;
        let value = self.reg_index_read(register_index as u8)?;
        let cond_flag = if value == 0 {
            FL_ZRO
        } else if (value >> 15u16) == 1 {
            FL_NEG
        } else {
            FL_POS
        };
        assert((value >> 15u16) == 1 <==> value >= 0x8000) by (bit_vector);
        self.reg_write(Register::RCond, cond_flag)?;
        proof {
            if before.unobserved() {
                assert(self.events() =~= before.emit_all(
                    Seq::empty().push(
                        Event::RegGet {
                            index: register_index as u8,
                            value: before.regs()[register_index as int],
                        },
                    ).push(
                        Event::RegSet { index: 9, value: flag_of(before.regs()[register_index as int]) },
                    ),
                ));
            }
        }
        Ok(())
    }
}

impl<IO: IOHandle, P: Plugin<IO>> VM<IO, P> {
    /// Announces instruction `command`, decodes its op code and runs its handler.
    pub fn run_command(&mut self, command: &Command) -> (r: LC3Result<()>)
        requires
            old(self).wf(),
        ensures
            !old(self).delivering() && r is Ok ==> final(self).plugins_succeeded(),
            final(self).keeps_bus(*old(self)),
            old(self).delivering() ==> final(self).events() == old(self).events(),
            old(self).unobserved() ==> executes(
                command.word(),
                old(self).regs(),
                old(self).mem(),
                old(self).is_running(),
                old(self).delivering(),
                old(self).emit(Event::Command { bytes: command.word() }),
                old(self).io(),
                *final(self),
                r,
            ),
    {
        self.notify_plugins(&Event::Command { bytes: command.get_bytes() })?;
        let op = Op::from_int(command.op_code()?)?;
        match op {
            Op::Br => handler::branch(self, command),
            Op::Add => handler::add(self, command),
            Op::Ld => handler::load(self, command),
            Op::St => handler::store(self, command),
            Op::Jsr => handler::jump_register(self, command),
            Op::And => handler::and(self, command),
            Op::Ldr => handler::load_register(self, command),
            Op::Str => handler::store_register(self, command),
            Op::Rti => handler::rti(self, command),
            Op::Not => handler::not(self, command),
            Op::Ldi => handler::load_indirect(self, command),
            Op::Sti => handler::store_indirect(self, command),
            Op::Jmp => handler::jump(self, command),
            Op::Res => handler::reserved(self, command),
            Op::Lea => handler::load_effective_address(self, command),
            Op::Trap => handler::trap(self, command),
        }
    }
}

impl<IO: IOHandle, P: Plugin<IO>> VM<IO, P> {
    /// Fetches the word at PC, advances PC by one (wrapping) and executes the word.
    pub fn step(&mut self) -> (r: LC3Result<()>)
        requires
            old(self).wf(),
        ensures
            !old(self).delivering() && r is Ok ==> final(self).plugins_succeeded(),
            final(self).keeps_bus(*old(self)),
            old(self).delivering() ==> final(self).events() == old(self).events(),
            old(self).unobserved() && old(self).regs()[8] != KB_STATUS_POS ==> ({
                let pc = old(self).regs()[8];
                let w = old(self).mem()[pc as int];
                executes(
                    w,
                    old(self).regs().update(8, wrapping_add_spec(pc, 1)),
                    old(self).mem(),
                    old(self).is_running(),
                    old(self).delivering(),
                    log_after(old(self).delivering(), old(self).events(), fetch_events(pc, w)),
                    old(self).io(),
                    *final(self),
                    r,
                )
            }),
    {
        let ghost s0 = *self;
        let program_count = self.reg_read(Register::RPC)?;
        self.reg_write(Register::RPC, wrapping_add(program_count, 1))?;
        let word = self.mem_read(program_count)?;
        let command = Command::new(word);
        proof {
            if s0.unobserved() && program_count != KB_STATUS_POS {
                assert(self.emit(Event::Command { bytes: word }) =~= log_after(
                    s0.delivering(),
                    s0.events(),
                    fetch_events(program_count, word),
                ));
            }
        }
        self.run_command(&command)
    }

    /// Sets the running flag, sets PC to the load address, and executes instructions until
    /// the running flag is found clear (Halt clears it). A failure stops the loop and is
    /// returned. The loop gives up with `Other` after `u64::MAX` instructions.
    pub fn run(&mut self) -> (r: LC3Result<()>)
        requires
            old(self).wf(),
        ensures
            !old(self).delivering() && r is Ok ==> final(self).plugins_succeeded(),
            final(self).keeps_bus(*old(self)),
            old(self).delivering() ==> final(self).events() == old(self).events(),
            old(self).unobserved() ==> exists|trace: Seq<VM<IO, P>>|
                {
                    let first = trace[0];
                    let last = trace[trace.len() - 1];
                    &&& #[trigger] cycles(trace)
                    &&& first.keeps_bus(*old(self))
                    &&& first.regs() == old(self).regs().update(8, PC_START)
                    &&& first.mem() == old(self).mem()
                    &&& first.io() == old(self).io()
                    &&& first.is_running()
                    &&& first.events() == old(self).emit_all(
                        Seq::empty().push(Event::RunningSet { value: true }).push(
                            Event::RegSet { index: 8, value: PC_START },
                        ),
                    )
                    &&& r is Ok ==> {
                        &&& !last.is_running()
                        &&& final(self).same_machine(last)
                        &&& final(self).io() == last.io()
                        &&& final(self).events() == last.emit(Event::RunningGet { value: false })
                    }
                    &&& r is Err ==> cycle_result(last, *final(self), r) || (trace.len()
                        == u64::MAX + 1 && *final(self) == last && r->Err_0 is Other)
                },
    {
        let ghost s0 = *self;
        self.set_running(true)?;
        self.reg_write(Register::RPC, PC_START)?;
        let ghost mut trace = Seq::empty().push(*self);
        proof {
            if s0.unobserved() {
                assert(self.events() =~= s0.emit_all(
                    Seq::empty().push(Event::RunningSet { value: true }).push(
                        Event::RegSet { index: 8, value: PC_START },
                    ),
                ));
            }
        }
        let mut steps: u64 = 0;
        while steps < u64::MAX
            invariant
                s0 == *old(self),
                self.keeps_bus(s0),
                s0.delivering() ==> self.events() == s0.events(),
                s0.unobserved() ==> {
                    let first = trace[0];
                    &&& cycles(trace)
                    &&& trace[trace.len() - 1] == *self
                    &&& first.keeps_bus(s0)
                    &&& first.regs() == s0.regs().update(8, PC_START)
                    &&& first.mem() == s0.mem()
                    &&& first.io() == s0.io()
                    &&& first.is_running()
                    &&& first.events() == s0.emit_all(
                        Seq::empty().push(Event::RunningSet { value: true }).push(
                            Event::RegSet { index: 8, value: PC_START },
                        ),
                    )
                },
                s0.unobserved() ==> trace.len() == steps + 1,
            decreases u64::MAX - steps,
        {
            let ghost before = *self;
            let running = self.get_running()?;
            if !running {
                proof {
                    if s0.unobserved() {
                        assert(cycles(trace));
                    }
                }
                return Ok(());
            }
            let stepped = self.step();
            proof {
                if s0.unobserved() {
                    let pc = before.regs()[8];
                    let w = before.mem()[pc as int];
                    if pc != KB_STATUS_POS {
                        assert(log_after(
                            before.delivering(),
                            before.events(),
                            Seq::empty().push(Event::RunningGet { value: true }) + fetch_events(pc, w),
                        ) =~= log_after(
                            before.delivering(),
                            before.emit(Event::RunningGet { value: true }),
                            fetch_events(pc, w),
                        ));
                    }
                    assert(cycle_result(before, *self, stepped));
                }
            }
            if stepped.is_err() {
                return stepped;
            }
            proof {
                if s0.unobserved() {
                    let pc = before.regs()[8];
                    let w = before.mem()[pc as int];
                    if pc != KB_STATUS_POS {
                        assert(log_after(
                            before.delivering(),
                            before.events(),
                            Seq::empty().push(Event::RunningGet { value: true }) + fetch_events(pc, w),
                        ) =~= log_after(
                            before.delivering(),
                            before.emit(Event::RunningGet { value: true }),
                            fetch_events(pc, w),
                        ));
                    }
                    assert(cycle(before, *self));
                    let old_trace = trace;
                    trace = trace.push(*self);
                    assert forall|i: int| 0 <= i < trace.len() - 1 implies #[trigger] cycle(
                        trace[i],
                        trace[i + 1],
                    ) by {
                        if i < old_trace.len() - 1 {
                            assert(trace[i] == old_trace[i] && trace[i + 1] == old_trace[i + 1]);
                        }
                    }
                }
            }
            steps = steps + 1;
        }
        Err(LC3Error::Other("Instruction limit reached".to_string()))
    }

    /// Copies `program` into memory from the load address on. A program longer than
    /// `MAX_PROGRAM_LEN` words fails with `ProgramSize` and changes nothing. The running flag
    /// is not touched.
    pub fn load_program(&mut self, program: &Vec<u16>) -> (r: LC3Result<()>)
        requires
            old(self).wf(),
        ensures
            program@.len() > MAX_PROGRAM_LEN ==> r == Err::<(), LC3Error>(
                LC3Error::ProgramSize { len: program@.len() as usize, max_len: MAX_PROGRAM_LEN },
            ) && *final(self) == *old(self),
            final(self).keeps_bus(*old(self)),
            old(self).delivering() ==> final(self).events() == old(self).events(),
            program@.len() <= MAX_PROGRAM_LEN && old(self).unobserved() ==> {
                &&& r is Ok
                &&& final(self).mem() == loaded(old(self).mem(), program@)
                &&& forall|i: int|
                    0 <= i < program@.len() ==> final(self).mem()[PC_START + i] == program@[i]
                &&& final(self).regs() == old(self).regs()
                &&& final(self).is_running() == old(self).is_running()
                &&& final(self).events() == old(self).emit_all(load_events(program@))
            },
    {
        let max_len: usize = MEMORY_SIZE - PC_START as usize;
        if program.len() > max_len {
            return Err(LC3Error::ProgramSize { len: program.len(), max_len });
        }
        let ghost s0 = *self;
        let mut index: usize = 0;
        while index < program.len()
            invariant
                s0 == *old(self),
                self.keeps_bus(s0),
                s0.wf(),
                index <= program@.len() <= MAX_PROGRAM_LEN,
                s0.delivering() ==> self.events() == s0.events(),
                s0.unobserved() ==> {
                    &&& self.mem() == loaded(s0.mem(), program@.subrange(0, index as int))
                    &&& self.regs() == s0.regs()
                    &&& self.is_running() == s0.is_running()
                    &&& self.events() == s0.emit_all(load_events(program@.subrange(0, index as int)))
                },
            decreases program@.len() - index,
        {
            let ghost before = *self;
            self.mem_write(PC_START + index as u16, program[index])?;
            proof {
                if s0.unobserved() {
                    assert(self.mem() =~= loaded(s0.mem(), program@.subrange(0, index + 1)));
                    assert(self.events() =~= s0.emit_all(load_events(program@.subrange(0, index + 1))));
                }
            }
            index = index + 1;
        }
        proof {
            assert(program@.subrange(0, program@.len() as int) =~= program@);
        }
        Ok(())
    }
}

impl VM<TestIOHandle, EventLog> {
    /// A machine on a scripted I/O capability with nothing scripted, holding event logs as
    /// plugins: for programs that need no input.
    pub fn new() -> (r: Self)
        ensures
            r.wf(),
            r.mem() == Seq::new(MEMORY_SIZE as nat, |i: int| 0u16),
            r.regs() == Seq::new(NUM_REGISTERS as nat, |i: int| 0u16),
            !r.is_running(),
            !r.delivering(),
            r.plugins().len() == 0,
            r.events() == Seq::<Event>::empty(),
    {
        Self::new_with_io(TestIOHandle::new())
    }
}

/// With the bus idle and only quiet plugins installed, a recording plugin is handed exactly
/// the events that an operation adds to the log (for `run_command`, the events of
/// `executes`), in order.
pub proof fn lemma_recording_plugin_receives<IO: IOHandle, P: Plugin<IO>>(
    before: VM<IO, P>,
    after: VM<IO, P>,
    i: int,
    evs: Seq<Event>,
)
    requires
        before.log_mirrored(),
        after.keeps_bus(before),
        !before.delivering(),
        forall|j: int| 0 <= j < before.plugins().len() ==> #[trigger] before.plugins()[j].quiet(),
        0 <= i < before.plugins().len(),
        before.plugins()[i].records(),
        after.events() == before.events() + evs,
    ensures
        after.plugins()[i].seen() == before.plugins()[i].seen() + evs,
{
    assert(after.plugins()[i].quiet() == before.plugins()[i].quiet());
    assert(forall|j: int| 0 <= j < after.plugins().len() ==> #[trigger] after.plugins()[j].quiet());
    assert(after.plugins()[i].records());
    let m = before.marks()[i];
    assert(after.events().subrange(m.0 as int, after.events().len() as int) =~= before.events().subrange(
        m.0 as int,
        before.events().len() as int,
    ) + evs);
    assert(m.1 + (before.events().subrange(m.0 as int, before.events().len() as int) + evs) =~= (m.1
        + before.events().subrange(m.0 as int, before.events().len() as int)) + evs);
}

/// PC is a word in every state, and every change of it by an offset wraps modulo 2^16.
pub proof fn lemma_pc_wraps<IO, P>(vm: VM<IO, P>, offset: u16)
    requires
        vm.wf(),
    ensures
        0 <= vm.regs()[8] <= 0xFFFF,
        wrapping_add_spec(vm.regs()[8], offset) == (vm.regs()[8] + offset) % 0x10000,
        0 <= wrapping_add_spec(vm.regs()[8], offset) <= 0xFFFF,
{
}

} // verus!
