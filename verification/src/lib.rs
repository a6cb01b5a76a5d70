//! Core of the Project Zero kernel: the logic of its capability system, message channels,
//! shared memory, filesystem, device model, program loader and processor tables.
//!
//! Every table that the kernel keeps is a value here. An operation takes the tables it works on
//! by exclusive reference, together with what the hardware or the allocators answered, and states
//! in its contract the tables it leaves behind and what it hands back.
pub mod bench;
pub mod bytes;
pub mod cap;
pub mod dev;
pub mod elf;
pub mod fs;
pub mod hal;
pub mod ipc;
pub mod kernel;
pub mod mm;
pub mod process;

