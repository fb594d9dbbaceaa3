//! Process- and memory-management core of a small multitasking kernel.

pub mod config;
pub mod fs;
pub mod mm;
pub mod slots;
pub mod syscall;
pub mod task;
pub mod wire;
