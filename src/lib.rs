//! A virtual machine for LC-3 object programs: instruction decoding, the
//! execution core and an event bus that lets plugins observe (and re-enter)
//! the machine.
pub mod utils;
pub mod error;
pub mod command;
pub mod op;
pub mod trap;
pub mod register;
pub mod io;
pub mod plugin;
pub mod vm;
pub mod handler;
pub mod trap_handler;
pub mod image;
