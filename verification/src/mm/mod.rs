//! Virtual memory: address spaces and cross-address-space access.

pub mod memory_set;
pub mod user_buffer;
