//! The state of the whole kernel core: the table of tasks, the task on
//! the processor, the ready queue, the free pids and the devices.

use crate::config::INIT_PID;
use crate::fs::{FileHandle, IoState};
use crate::mm::memory_set::{image_fits, MemorySet};
use crate::task::model::{
    adopted, can_add_child, can_queue, child_added, dispatched, exit_parked, exited, kernel_wf,
    lemma_adopted_none, lemma_adopted_shape, lemma_adopted_step, lemma_child,
    lemma_child_added_wf, lemma_current, lemma_dispatch_wf, lemma_exit_wf, lemma_init,
    lemma_io_changed_wf, lemma_next_pid_free, lemma_park_wf, lemma_ready,
    lemma_ready_changed_wf, lemma_released_wf, lemma_remove_keeps, lemma_task, next_pid,
    parked, pid_taken, pids_wf, released, suspended, KernelView,
};
use crate::task::manager::{first_min, is_first_min, queue_strides, TaskManager};
use crate::task::model::{handle_slot, holds_slot, referenced};
use crate::task::task::{
    fits_image, forked_task, new_task, spawned_task, table_view, task_live, TaskControlBlock,
    TaskStatus,
};
use vstd::prelude::*;

verus! {

/// The kernel core.
///
/// Tasks live in a table indexed by pid. A task refers to its parent and
/// to its children by pid; a child is owned by its parent in that it stays
/// in the table until the parent has waited for it.
pub struct Kernel {
    /// The tasks, by pid; `None` where no task has that pid.
    pub tasks: Vec<Option<TaskControlBlock>>,
    /// The pids below `tasks.len()` that are free, last released last.
    pub recycled: Vec<usize>,
    /// The task on the processor.
    pub current: Option<usize>,
    /// The tasks that wait for the processor.
    pub manager: TaskManager,
    /// The inode store, the console and the positions of open files.
    pub io: IoState,
    /// The time, in microseconds, as of the last look at the clock.
    pub time_us: usize,
}

impl View for Kernel {
    type V = KernelView;

    open spec fn view(&self) -> KernelView {
        KernelView {
            tasks: table_view(self.tasks@),
            recycled: self.recycled@,
            current: self.current,
            ready: self.manager@,
            io: self.io@,
            time_us: self.time_us,
        }
    }
}

/// The kernel right after boot: the initial task, made from `image`, is
/// ready and queued; nothing runs yet.
pub open spec fn booted(image: Seq<u8>, io: crate::fs::IoView) -> KernelView {
    KernelView {
        tasks: seq![Some(new_task(INIT_PID, image))],
        recycled: Seq::empty(),
        current: None,
        ready: seq![INIT_PID],
        io,
        time_us: 0,
    }
}

/// The kernel after the current task forked: a copy of it is its newest
/// child, ready but not queued. With no pid left nothing changes.
pub open spec fn forked(k: KernelView) -> KernelView {
    match next_pid(k) {
        Some(c) => child_added(k, k.current->0, forked_task(k.tasks[k.current->0 as int]->0, c)),
        None => k,
    }
}

/// The kernel after the current task spawned a task that runs `image`: a
/// fresh task with the descriptors of the current one is its newest
/// child, ready but not queued. Nothing changes when the image does not
/// fit or no pid is left.
pub open spec fn spawned(k: KernelView, image: Seq<u8>) -> KernelView {
    if image_fits(image.len() as int) && next_pid(k) is Some {
        child_added(
            k,
            k.current->0,
            spawned_task(k.tasks[k.current->0 as int]->0, next_pid(k)->0, image),
        )
    } else {
        k
    }
}

/// Decides whether some descriptor of the table names the slot.
pub fn fds_hold(fds: &Vec<Option<FileHandle>>, slot: usize) -> (r: bool)
    ensures
        r == holds_slot(fds@, slot),
{
    let mut i: usize = 0;
    while i < fds.len()
        invariant
            i <= fds@.len(),
            forall|j: int| 0 <= j < i ==> handle_slot(#[trigger] fds@[j]) != Some(slot),
        decreases fds@.len() - i,
    {
        match fds[i] {
            Some(FileHandle::Inode(f)) => {
                if f.slot == slot {
                    assert(handle_slot(fds@[i as int]) == Some(slot));
                    return true;
                }
            },
            _ => {},
        }
        i += 1;
    }
    false
}

/// The kernel right after boot satisfies the invariant.
pub proof fn lemma_booted_wf(image: Seq<u8>, io: crate::fs::IoView)
    requires
        image_fits(image.len() as int),
        crate::fs::inode::fs_wf(io.fs),
        crate::task::task::task_wf(new_task(INIT_PID, image)),
    ensures
        kernel_wf(booted(image, io)),
{
    let k = booted(image, io);
    reveal(crate::task::model::tasks_wf);
    reveal(crate::task::model::children_linked);
    reveal(crate::task::model::parents_linked);
    reveal(crate::task::model::children_distinct);
    reveal(crate::task::model::zombies_childless);
    reveal(crate::task::model::current_wf);
    reveal(crate::task::model::ready_wf);
    reveal(pids_wf);
    assert(task_live(k.tasks, 0));
}

impl Kernel {
    /// The invariant of the kernel core.
    pub open spec fn wf(&self) -> bool {
        kernel_wf(self@)
    }

    /// Boots the kernel core with the initial task, made from `image`,
    /// ready to run, over the given devices.
    ///
    /// Fails when the image does not fit in the address range.
    pub fn new(image: &Vec<u8>, io: IoState) -> (r: Option<Kernel>)
        requires
            io.wf(),
        ensures
            r is Some <==> image_fits(image@.len() as int),
            r is Some ==> r->0@ == booted(image@, io@) && r->0.wf(),
    {
        let init = match TaskControlBlock::new(INIT_PID, image) {
            Some(t) => t,
            None => {
                return None;
            },
        };
        let mut tasks: Vec<Option<TaskControlBlock>> = Vec::new();
        tasks.push(Some(init));
        let mut manager = TaskManager::new();
        manager.add(INIT_PID);
        let k = Kernel { tasks, recycled: Vec::new(), current: None, manager, io, time_us: 0 };
        proof {
            assert(k@.tasks =~= seq![Some(new_task(INIT_PID, image@))]);
            assert(k@.ready =~= seq![INIT_PID]);
            assert(k@.recycled =~= Seq::<usize>::empty());
            lemma_booted_wf(image@, io@);
        }
        Some(k)
    }

    /// The pid of the task on the processor.
    pub fn current_pid(&self) -> (r: Option<usize>)
        ensures
            r == self@.current,
    {
        self.current
    }

    /// Notes the time that the clock shows. The clock does not run
    /// backwards: an earlier time is ignored.
    pub fn set_time(&mut self, now_us: usize)
        ensures
            final(self)@ == (KernelView {
                time_us: if now_us > old(self)@.time_us {
                    now_us
                } else {
                    old(self)@.time_us
                },
                ..old(self)@
            }),
            old(self).wf() ==> final(self).wf(),
    {
        if now_us > self.time_us {
            self.time_us = now_us;
        }
        proof {
            if old(self).wf() {
                lemma_io_changed_wf(old(self)@, self@);
            }
        }
    }

    /// Lets the scheduler pick the next task for the idle processor.
    pub fn run_next(&mut self)
        requires
            old(self).wf(),
            old(self)@.current is None,
        ensures
            final(self).wf(),
            final(self)@ == dispatched(old(self)@),
    {
        let ghost o = old(self)@;
        proof {
            lemma_ready(o);
            lemma_dispatch_wf(o);
        }
        match self.manager.fetch(&self.tasks) {
            Some(pid) => {
                let now_ms = self.time_us / 1000;
                proof {
                    let i = first_min(queue_strides(o.ready, o.tasks));
                    assert(task_live(o.tasks, o.ready[i] as int));
                    lemma_task(o, pid as int);
                }
                match &mut self.tasks[pid] {
                    Some(t) => {
                        t.status = TaskStatus::Running;
                        t.advance_stride();
                        if t.start_time.is_none() {
                            t.start_time = Some(now_ms);
                        }
                    },
                    None => {},
                }
                self.current = Some(pid);
                proof {
                    assert(self@.tasks =~= dispatched(o).tasks);
                    assert(self@ == dispatched(o));
                }
            },
            None => {},
        }
    }

    /// Takes the current task off the processor, queues it, and lets the
    /// scheduler pick the next task.
    pub fn suspend_current_and_run_next(&mut self)
        requires
            old(self).wf(),
            old(self)@.current is Some,
        ensures
            final(self).wf(),
            final(self)@ == suspended(old(self)@),
            final(self)@.current is Some,
    {
        let ghost o = old(self)@;
        let pid = self.current.unwrap();
        proof {
            lemma_current(o);
            lemma_park_wf(o);
            lemma_dispatch_wf(parked(o));
        }
        match &mut self.tasks[pid] {
            Some(t) => {
                t.status = TaskStatus::Ready;
            },
            None => {},
        }
        self.manager.add(pid);
        self.current = None;
        proof {
            assert(self@.tasks =~= parked(o).tasks);
            assert(self@ == parked(o));
        }
        self.run_next();
    }

    /// Releases a slot of open positions: empties it if no descriptor of
    /// any task names it any more.
    pub fn release_slot(&mut self, slot: usize)
        requires
            old(self).wf(),
        ensures
            final(self).wf(),
            final(self)@ == released(old(self)@, slot),
    {
        let ghost o = old(self)@;
        proof {
            lemma_released_wf(o, slot);
        }
        if slot >= self.io.offsets.len() {
            return;
        }
        let mut p: usize = 0;
        while p < self.tasks.len()
            invariant
                *self == *old(self),
                o == self@,
                kernel_wf(o),
                slot < o.io.offsets.len(),
                p <= self.tasks@.len(),
                forall|q: int|
                    0 <= q < p && #[trigger] task_live(o.tasks, q) ==> !holds_slot(
                        o.tasks[q]->0.fds,
                        slot,
                    ),
            decreases self.tasks@.len() - p,
        {
            let held = match &self.tasks[p] {
                Some(task) => fds_hold(&task.fd_table, slot),
                None => false,
            };
            if held {
                assert(task_live(o.tasks, p as int));
                assert(referenced(o.tasks, slot));
                return;
            }
            p += 1;
        }
        assert(!referenced(o.tasks, slot));
        self.io.offsets[slot] = None;
    }

    /// Takes the pid for a new task out of the free pids.
    fn alloc_pid(&mut self) -> (r: Option<usize>)
        requires
            old(self).wf(),
        ensures
            r == next_pid(old(self)@),
            final(self)@ == pid_taken(old(self)@),
            r is Some ==> r->0 < final(self).tasks@.len(),
            final(self).tasks@.len() >= old(self).tasks@.len(),
            forall|q: int| 0 <= q < old(self).tasks@.len() ==> final(self).tasks@[q] == old(self).tasks@[q],
    {
        let ghost o = old(self)@;
        proof {
            lemma_init(o);
            lemma_task(o, INIT_PID as int);
            if next_pid(o) is Some {
                lemma_next_pid_free(o);
            }
        }
        let r = if self.recycled.len() > 0 {
            self.recycled.pop()
        } else {
            if self.tasks.len() >= isize::MAX as usize {
                return None;
            }
            self.tasks.push(None);
            Some(self.tasks.len() - 1)
        };
        proof {
            assert(self@.tasks =~= pid_taken(o).tasks);
            assert(self@.recycled =~= pid_taken(o).recycled);
        }
        r
    }

    /// Puts `child`, made for the pid that `alloc_pid` returned, into the
    /// table as the newest child of the current task.
    fn adopt_child(&mut self, child: TaskControlBlock, Ghost(o): Ghost<KernelView>)
        requires
            o.current is Some,
            can_add_child(o, o.current->0, child@),
            old(self)@ == pid_taken(o),
        ensures
            final(self)@ == child_added(o, o.current->0, child@),
            final(self).wf(),
            can_queue(final(self)@, child@.pid),
    {
        let pid = self.current.unwrap();
        let c = child.pid;
        proof {
            lemma_current(o);
            lemma_next_pid_free(o);
            lemma_child_added_wf(o, pid, child@);
        }
        let ghost cv = child@;
        assert(c != pid);
        assert(self@.tasks[pid as int] is Some);
        self.tasks[c] = Some(child);
        assert(table_view(self.tasks@)[pid as int] is Some);
        match &mut self.tasks[pid] {
            Some(t) => {
                t.children.push(c);
            },
            None => {},
        }
        proof {
            assert(self@.tasks =~= child_added(o, pid, cv).tasks);
        }
    }

    /// Makes a copy of the current task as its newest child and returns
    /// the child's pid. The child is ready but not queued: it does not run
    /// before it was added to the ready queue.
    ///
    /// Fails, changing nothing, when no pid is left.
    pub fn fork(&mut self) -> (r: Option<usize>)
        requires
            old(self).wf(),
            old(self)@.current is Some,
        ensures
            final(self).wf(),
            r == next_pid(old(self)@),
            final(self)@ == forked(old(self)@),
            r is Some ==> can_queue(final(self)@, r->0),
    {
        let ghost o = old(self)@;
        let pid = self.current.unwrap();
        proof {
            lemma_current(o);
        }
        let c = match self.alloc_pid() {
            Some(c) => c,
            None => {
                return None;
            },
        };
        let child = match &self.tasks[pid] {
            Some(t) => t.fork_child(c),
            None => {
                return None;
            },
        };
        self.adopt_child(child, Ghost(o));
        Some(c)
    }

    /// Makes a task that runs `image` as the newest child of the current
    /// task and returns its pid. The child has the descriptors of its
    /// parent and nothing else of it; it is ready but not queued.
    ///
    /// Fails, changing nothing, when the image does not fit in the
    /// address range or no pid is left.
    pub fn spawn(&mut self, image: &Vec<u8>) -> (r: Option<usize>)
        requires
            old(self).wf(),
            old(self)@.current is Some,
        ensures
            final(self).wf(),
            r == if image_fits(image@.len() as int) {
                next_pid(old(self)@)
            } else {
                None
            },
            final(self)@ == spawned(old(self)@, image@),
            r is Some ==> can_queue(final(self)@, r->0),
    {
        let ghost o = old(self)@;
        let pid = self.current.unwrap();
        proof {
            lemma_current(o);
        }
        if !fits_image(image.len()) {
            return None;
        }
        let c = match self.alloc_pid() {
            Some(c) => c,
            None => {
                return None;
            },
        };
        let child = match &self.tasks[pid] {
            Some(t) => t.spawn_child(c, image),
            None => None,
        };
        match child {
            Some(child) => {
                self.adopt_child(child, Ghost(o));
                Some(c)
            },
            None => None,
        }
    }

    /// Ends the current task with `code` and lets the scheduler pick the
    /// next one. The task stays in the table as a zombie until its parent
    /// waits for it; its children now belong to the initial task, and its
    /// address space is released.
    pub fn exit_current_and_run_next(&mut self, code: i32)
        requires
            old(self).wf(),
            old(self)@.current is Some,
        ensures
            final(self).wf(),
            final(self)@ == exited(old(self)@, code),
    {
        let ghost o = old(self)@;
        let pid = self.current.unwrap();
        proof {
            lemma_current(o);
            lemma_init(o);
            lemma_exit_wf(o, code);
            lemma_task(o, pid as int);
        }
        let n = match &self.tasks[pid] {
            Some(t) => t.children.len(),
            None => 0,
        };
        if pid != INIT_PID {
            let mut i: usize = 0;
            proof {
                lemma_adopted_none(o.tasks, pid);
            }
            while i < n
                invariant
                    kernel_wf(o),
                    o.current == Some(pid),
                    pid != INIT_PID,
                    task_live(o.tasks, pid as int),
                    task_live(o.tasks, INIT_PID as int),
                    o.tasks.len() <= isize::MAX,
                    n == o.tasks[pid as int]->0.children.len(),
                    i <= n,
                    self@ == (KernelView { tasks: adopted(o.tasks, pid, i as int), ..o }),
                decreases n - i,
            {
                proof {
                    lemma_adopted_shape(o.tasks, pid, i as int);
                    lemma_child(o, pid as int, i as int);
                    lemma_adopted_step(o.tasks, pid, i as int);
                    assert(self@.tasks[pid as int] is Some);
                    assert(self@.tasks[INIT_PID as int] is Some);
                }
                let c = match &self.tasks[pid] {
                    Some(t) => t.children[i],
                    None => 0,
                };
                assert(c == o.tasks[pid as int]->0.children[i as int]);
                assert(self@.tasks[c as int] is Some);
                match &mut self.tasks[c] {
                    Some(t) => {
                        t.parent = Some(INIT_PID);
                    },
                    None => {},
                }
                match &mut self.tasks[INIT_PID] {
                    Some(t) => {
                        t.children.push(c);
                    },
                    None => {},
                }
                proof {
                    assert(self@.tasks =~= adopted(o.tasks, pid, i + 1));
                }
                i += 1;
            }
            proof {
                lemma_adopted_shape(o.tasks, pid, n as int);
                assert(self@.tasks[pid as int] is Some);
            }
        }
        match &mut self.tasks[pid] {
            Some(t) => {
                t.status = TaskStatus::Zombie;
                t.exit_code = code;
                t.memory_set = MemorySet::new_bare();
                if pid != INIT_PID {
                    t.children = Vec::new();
                }
            },
            None => {},
        }
        self.current = None;
        proof {
            assert(self@.tasks =~= exit_parked(o, code).tasks);
            assert(self@ == exit_parked(o, code));
        }
        self.run_next();
    }
}

/// Queues a ready task that is not queued yet.
///
/// Returns whether it did: a pid that names no task, or a task that is
/// not ready or is queued already, is left alone.
pub fn add_task(kernel: &mut Kernel, pid: usize) -> (ok: bool)
    requires
        old(kernel).wf(),
    ensures
        final(kernel).wf(),
        ok == can_queue(old(kernel)@, pid),
        final(kernel)@ == (KernelView {
            ready: if ok {
                old(kernel)@.ready.push(pid)
            } else {
                old(kernel)@.ready
            },
            ..old(kernel)@
        }),
{
    if pid >= kernel.tasks.len() {
        return false;
    }
    let ready = match &kernel.tasks[pid] {
        Some(t) => match t.status {
            TaskStatus::Ready => true,
            _ => false,
        },
        None => false,
    };
    if !ready {
        return false;
    }
    let mut i: usize = 0;
    while i < kernel.manager.len()
        invariant
            *kernel == *old(kernel),
            kernel.wf(),
            i <= kernel@.ready.len(),
            forall|j: int| 0 <= j < i ==> kernel@.ready[j] != pid,
        decreases kernel@.ready.len() - i,
    {
        if kernel.manager.ready_queue[i] == pid {
            assert(kernel@.ready.contains(pid));
            return false;
        }
        i += 1;
    }
    kernel.manager.add(pid);
    proof {
        let o = old(kernel)@;
        assert(!o.ready.contains(pid));
        lemma_ready(o);
        assert forall|j: int| 0 <= j < kernel@.ready.len() implies task_live(
            o.tasks,
            #[trigger] kernel@.ready[j] as int,
        ) && o.tasks[kernel@.ready[j] as int]->0.status == TaskStatus::Ready by {
            if j < o.ready.len() {
                assert(task_live(o.tasks, o.ready[j] as int));
            }
        }
        assert forall|a: int, b: int|
            0 <= a < kernel@.ready.len() && 0 <= b < kernel@.ready.len() && a
                != b implies kernel@.ready[a] != kernel@.ready[b] by {
            if a < o.ready.len() {
                assert(o.ready.contains(o.ready[a]));
            }
            if b < o.ready.len() {
                assert(o.ready.contains(o.ready[b]));
            }
        }
        lemma_ready_changed_wf(o, kernel@);
    }
    true
}

/// Takes the next task to run out of the ready queue: the one with
/// the smallest stride, the earliest queued among equals.
pub fn fetch_task(kernel: &mut Kernel) -> (r: Option<usize>)
    requires
        old(kernel).wf(),
    ensures
        old(kernel)@.ready.len() == 0 ==> r is None && final(kernel)@ == old(kernel)@,
        old(kernel)@.ready.len() > 0 ==> {
            let i = first_min(queue_strides(old(kernel)@.ready, old(kernel)@.tasks));
            &&& is_first_min(queue_strides(old(kernel)@.ready, old(kernel)@.tasks), i)
            &&& r == Some(old(kernel)@.ready[i])
            &&& final(kernel)@ == KernelView { ready: old(kernel)@.ready.remove(i), ..old(kernel)@ }
        },
        final(kernel).wf(),
{
    let ghost o = old(kernel)@;
    proof {
        lemma_ready(o);
    }
    let r = kernel.manager.fetch(&kernel.tasks);
    proof {
        if o.ready.len() > 0 {
            let i = first_min(queue_strides(o.ready, o.tasks));
            lemma_remove_keeps(o.ready, i);
            assert forall|j: int| 0 <= j < kernel@.ready.len() implies task_live(
                o.tasks,
                #[trigger] kernel@.ready[j] as int,
            ) && o.tasks[kernel@.ready[j] as int]->0.status == TaskStatus::Ready by {
                assert(o.ready.contains(kernel@.ready[j]));
                let j0 = choose|j0: int| 0 <= j0 < o.ready.len() && o.ready[j0] == kernel@.ready[j];
                assert(task_live(o.tasks, o.ready[j0] as int));
            }
            lemma_ready_changed_wf(o, kernel@);
        }
    }
    r
}

} // verus!
