//! A CHIP-8 style virtual machine: the instruction semantics, the call
//! stack, the timers, the keypad mapping and the scaled frame buffer, each
//! stated over a mathematical model of the machine's byte memory.

pub mod memory;
pub mod instruction;
pub mod cpu;
pub mod machine;
pub mod display;
pub mod laws;
