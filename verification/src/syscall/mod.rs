//! The system calls: each validates its arguments, acts on the current
//! task, and returns a signed result, negative on failure.

pub mod fs;
pub mod process;

use crate::task::model::KernelView;
use crate::task::task::TaskView;
use vstd::prelude::*;

verus! {

/// The task on whose behalf a system call runs.
pub open spec fn current_task(k: KernelView) -> TaskView {
    k.tasks[k.current->0 as int]->0
}

/// The kernel in which the current task is `t`.
pub open spec fn with_current(k: KernelView, t: TaskView) -> KernelView {
    KernelView { tasks: k.tasks.update(k.current->0 as int, Some(t)), ..k }
}

} // verus!
