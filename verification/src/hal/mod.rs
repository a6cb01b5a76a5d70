//! What the kernel knows of the processor and the chips around it: tables, registers and the bytes
//! that ports are given.
pub mod cpu;
pub mod gdt;
pub mod idt;
pub mod lapic;
pub mod laws;
pub mod serial;
pub mod timer;
