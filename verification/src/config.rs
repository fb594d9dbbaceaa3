//! Constants shared by every component of the kernel core.

use vstd::prelude::*;

verus! {

/// Size of one page of virtual memory, in bytes.
pub const PAGE_SIZE: usize = 4096;

/// Number of system calls whose invocations are counted per task.
pub const MAX_SYSCALL_NUM: usize = 500;

/// The stride that a task of priority 1 would gain per dispatch. A task of
/// priority `p` gains `BIG_STRIDE / p`, so every priority up to `BIG_STRIDE`
/// gains at least 1; strides are 64-bit and saturate, and since a dispatch
/// adds at most `BIG_STRIDE / 2`, a stride cannot saturate before the task
/// was dispatched `2^33` times.
pub const BIG_STRIDE: u64 = 0x1_0000_0000;

/// Priority of a task that never asked for another one.
pub const DEFAULT_PRIORITY: isize = 16;

/// Address at which a program image is loaded.
pub const IMAGE_BASE: usize = 0x10000;

/// Size of the user stack, in bytes.
pub const USER_STACK_SIZE: usize = 8192;

/// Pid of the initial task, which adopts the children of exited tasks.
pub const INIT_PID: usize = 0;

/// Rounds an address down to the start of its page.
pub open spec fn page_floor(addr: int) -> int {
    addr - addr % (PAGE_SIZE as int)
}

/// Rounds an address up to the next page boundary.
pub open spec fn page_ceil(addr: int) -> int {
    (addr + PAGE_SIZE as int - 1) / (PAGE_SIZE as int) * (PAGE_SIZE as int)
}

/// Whether an address lies on a page boundary.
pub open spec fn is_page_aligned(addr: int) -> bool {
    addr % (PAGE_SIZE as int) == 0
}

/// Decides whether `addr` lies on a page boundary.
pub fn page_aligned(addr: usize) -> (r: bool)
    ensures
        r == is_page_aligned(addr as int),
{
    assert(addr & 4095 == addr % 4096) by (bit_vector);
    addr & (PAGE_SIZE - 1) == 0
}

} // verus!
