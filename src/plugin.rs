//! The events the machine announces and the observers that receive them.
use crate::error::LC3Result;
use crate::io::IOHandle;
use crate::vm::VM;
use vstd::prelude::*;

verus! {

/// One observable operation of the machine.
#[derive(Debug, Clone, Copy, PartialEq, Eq)]
pub enum Event {
    Command { bytes: u16 },
    CharGet { ch: char },
    CharPut { ch: char },
    KeyDownGet { value: bool },
    MemGet { location: u16, value: u16 },
    MemSet { location: u16, value: u16 },
    RegGet { index: u8, value: u16 },
    RegSet { index: u8, value: u16 },
    RunningGet { value: bool },
    RunningSet { value: bool },
}

/// An observer of the machine. It receives every event in the order of the operations,
/// and may call back into the machine while it handles one; whatever those calls do
/// announces nothing further. A plugin that records (`records`) keeps the events it is
/// handed in `seen`; a plugin that reports (`reports`) tells through `failed` how its latest
/// `handle_event` ended; a quiet plugin (`quiet`) leaves the machine alone and never fails.
/// The bus states what each such plugin was handed, and that a failure stops the delivery.
pub trait Plugin<IO: IOHandle>: Sized {
    /// Whether this plugin keeps the events it is handed in `seen`.
    open spec fn records(&self) -> bool {
        false
    }

    /// The events handed to this plugin so far, for one that records them.
    open spec fn seen(&self) -> Seq<Event> {
        Seq::empty()
    }

    /// Whether this plugin tells, through `failed`, how its latest `handle_event` ended.
    open spec fn reports(&self) -> bool {
        false
    }

    /// For a plugin that reports: whether its latest `handle_event` failed.
    open spec fn failed(&self) -> bool {
        false
    }

    /// Whether this plugin leaves the machine and the port alone and never fails.
    open spec fn quiet(&self) -> bool {
        false
    }

    fn handle_event(&mut self, vm: &mut VM<IO, Self>, event: &Event) -> (r: LC3Result<()>)
        requires
            old(vm).wf(),
            old(vm).delivering(),
        ensures
            final(vm).wf(),
            final(vm).delivering(),
            final(vm).events() == old(vm).events(),
            final(self).records() == old(self).records(),
            final(self).quiet() == old(self).quiet(),
            final(self).reports() == old(self).reports(),
            old(self).reports() ==> (final(self).failed() <==> r is Err),
            old(self).quiet() ==> {
                &&& r is Ok
                &&& final(vm).same_machine(*old(vm))
                &&& final(vm).io() == old(vm).io()
            },
            old(self).records() ==> final(self).seen() == old(self).seen().push(*event),
    ;
}

/// A plugin that keeps every event it receives; it is quiet.
pub struct EventLog {
    events: Vec<Event>,
}

impl EventLog {
    /// The events received so far, in order.
    pub closed spec fn received(&self) -> Seq<Event> {
        self.events@
    }

    pub fn new() -> (r: Self)
        ensures
            r.received() == Seq::<Event>::empty(),
    {
        Self { events: Vec::new() }
    }

    /// The events received so far.
    pub fn get_events(&self) -> (r: &Vec<Event>)
        ensures
            r@ == self.received(),
    {
        &self.events
    }
}

impl<IO: IOHandle> Plugin<IO> for EventLog {
    open spec fn records(&self) -> bool {
        true
    }

    open spec fn seen(&self) -> Seq<Event> {
        self.received()
    }

    open spec fn quiet(&self) -> bool {
        true
    }

    open spec fn reports(&self) -> bool {
        true
    }

    open spec fn failed(&self) -> bool {
        false
    }

    fn handle_event(&mut self, vm: &mut VM<IO, Self>, event: &Event) -> (r: LC3Result<()>) {
        self.events.push(*event);
        Ok(())
    }
}

} // verus!
