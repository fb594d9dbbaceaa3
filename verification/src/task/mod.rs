//! Tasks: their control blocks, the ready queue and the kernel state that
//! ties them together.

pub mod model;
pub mod kernel;
pub mod manager;
pub mod task;
