use std::cell::RefCell;
use std::rc::Rc;

use lc3rs::error::LC3Result;
use lc3rs::io::{IOHandle, TestIOHandle};
use lc3rs::plugin::{Event, EventLog, Plugin};
use lc3rs::register::Register;
use lc3rs::vm::VM;

type EventsReference = Rc<RefCell<Vec<Event>>>;

struct TestPlugin {
    events: EventsReference,
}

impl TestPlugin {
    fn new() -> Self {
        Self { events: Rc::new(RefCell::new(Vec::new())) }
    }

    fn get_events_ref(&self) -> EventsReference {
        self.events.clone()
    }
}

impl<IOType: IOHandle> Plugin<IOType> for TestPlugin {
    fn handle_event(&mut self, _vm: &mut VM<IOType, Self>, event: &Event) -> LC3Result<()> {
        self.events.borrow_mut().push(event.clone());
        Ok(())
    }
}

#[test]
fn can_push_events_to_plugin() -> LC3Result<()> {
    let test_events = vec![
        Event::Command { bytes: 1 },
        Event::CharGet { ch: 'a' },
        Event::CharPut { ch: 'b' },
        Event::KeyDownGet { value: true },
        Event::MemGet { location: 2, value: 3 },
        Event::MemSet { location: 4, value: 4 },
        Event::RegGet { index: 5, value: 6 },
        Event::RegSet { index: 7, value: 8 },
        Event::RunningGet { value: false },
        Event::RunningSet { value: true },
    ];

    let mut plugin = TestPlugin::new();
    let mut vm: VM<TestIOHandle, TestPlugin> = VM::new_with_io(TestIOHandle::new());
    let events_ref = plugin.get_events_ref();

    for event in &test_events {
        plugin.handle_event(&mut vm, event)?;
    }

    let written_events = events_ref.borrow().clone();
    assert_eq!(test_events, written_events);

    Ok(())
}

#[test]
fn events_follow_the_operations_of_an_instruction() {
    let mut vm = VM::new();
    vm.reg_index_write(1, 1).unwrap();
    vm.reg_index_write(2, 2).unwrap();
    vm.add_plugin(EventLog::new()).unwrap();
    vm.run_command(&lc3rs::command::Command::new(0x1042)).unwrap();
    let expected = vec![
        Event::Command { bytes: 0x1042 },
        Event::RegGet { index: 1, value: 1 },
        Event::RegGet { index: 2, value: 2 },
        Event::RegSet { index: 0, value: 3 },
        Event::RegGet { index: 0, value: 3 },
        Event::RegSet { index: 9, value: 1 },
    ];
    assert_eq!(vm.get_plugins()[0].get_events(), &expected);
}

#[test]
fn every_plugin_sees_every_event_in_order() {
    let mut vm = VM::new();
    vm.add_plugin(EventLog::new()).unwrap();
    vm.add_plugin(EventLog::new()).unwrap();
    vm.mem_write(0x4000, 9).unwrap();
    vm.set_running(true).unwrap();
    let expected = vec![Event::MemSet { location: 0x4000, value: 9 }, Event::RunningSet { value: true }];
    assert_eq!(vm.get_plugins()[0].get_events(), &expected);
    assert_eq!(vm.get_plugins()[1].get_events(), &expected);
}

struct Meddler {
    seen: EventsReference,
    add_refused: Rc<RefCell<bool>>,
}

impl<IOType: IOHandle> Plugin<IOType> for Meddler {
    fn handle_event(&mut self, vm: &mut VM<IOType, Self>, event: &Event) -> LC3Result<()> {
        self.seen.borrow_mut().push(event.clone());
        if let Event::RegSet { index: 1, .. } = event {
            vm.reg_write(Register::RR2, 42)?;
            let other = Meddler { seen: self.seen.clone(), add_refused: self.add_refused.clone() };
            *self.add_refused.borrow_mut() = vm.add_plugin(other).is_err();
        }
        Ok(())
    }
}

#[test]
fn writes_made_while_delivering_announce_nothing() {
    let seen: EventsReference = Rc::new(RefCell::new(Vec::new()));
    let add_refused = Rc::new(RefCell::new(false));
    let mut vm: VM<TestIOHandle, Meddler> = VM::new_with_io(TestIOHandle::new());
    vm.add_plugin(Meddler { seen: seen.clone(), add_refused: add_refused.clone() }).unwrap();
    vm.reg_index_write(1, 7).unwrap();
    assert_eq!(*seen.borrow(), vec![Event::RegSet { index: 1, value: 7 }]);
    assert!(*add_refused.borrow());
    assert_eq!(vm.get_plugins().len(), 1);
    assert_eq!(vm.reg_index_read(2).unwrap(), 42);
    assert_eq!(seen.borrow().len(), 2);
}

struct Rejecter;

impl<IOType: IOHandle> Plugin<IOType> for Rejecter {
    fn handle_event(&mut self, _vm: &mut VM<IOType, Self>, _event: &Event) -> LC3Result<()> {
        Err(lc3rs::error::LC3Error::Plugin { message: "rejected".to_string() })
    }
}

#[test]
fn a_plugin_failure_aborts_the_instruction() {
    let mut vm: VM<TestIOHandle, Rejecter> = VM::new_with_io(TestIOHandle::new());
    vm.add_plugin(Rejecter).unwrap();
    let result = vm.run_command(&lc3rs::command::Command::new(0x1042));
    assert_eq!(result, Err(lc3rs::error::LC3Error::Plugin { message: "rejected".to_string() }));
    assert_eq!(vm.get_plugins().len(), 1);
}

struct Confused;

impl<IOType: IOHandle> Plugin<IOType> for Confused {
    fn handle_event(&mut self, _vm: &mut VM<IOType, Self>, _event: &Event) -> LC3Result<()> {
        Err(lc3rs::error::LC3Error::Other("lost".to_string()))
    }
}

#[test]
fn a_plugin_failure_of_another_kind_is_reported_as_a_plugin_error() {
    let mut vm: VM<TestIOHandle, Confused> = VM::new_with_io(TestIOHandle::new());
    vm.add_plugin(Confused).unwrap();
    assert_eq!(
        vm.set_running(true),
        Err(lc3rs::error::LC3Error::Plugin { message: "lost".to_string() })
    );
}

#[test]
fn a_recording_plugin_is_handed_each_event_once() {
    let mut vm: VM<TestIOHandle, EventLog> = VM::new_with_io(TestIOHandle::new());
    vm.add_plugin(EventLog::new()).unwrap();
    vm.mem_write(0x4000, 1).unwrap();
    assert_eq!(vm.get_plugins()[0].get_events().len(), 1);
}
