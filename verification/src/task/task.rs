//! The task control block: everything the kernel keeps about one process.

use crate::config::{
    is_page_aligned, BIG_STRIDE, DEFAULT_PRIORITY, IMAGE_BASE, MAX_SYSCALL_NUM,
};
use crate::fs::stdio::{Stdin, Stdout};
use crate::fs::FileHandle;
use crate::slots::{find_first_none, first_none, lemma_first_none};
use crate::mm::memory_set::{
    areas_wf, can_grow, can_shrink, data_perm, grown, image_areas, image_fits, shrunk,
    stack_top, AreaView, MapPermission, MemorySet,
};
use vstd::prelude::*;

verus! {

/// Where a task is in its life.
#[derive(Clone, Copy, Debug, PartialEq, Eq, Structural)]
pub enum TaskStatus {
    /// Waiting for the processor.
    Ready,
    /// On the processor.
    Running,
    /// Exited, and not yet waited for by its parent.
    Zombie,
}

/// The saved user registers that the kernel reads or sets.
#[derive(Clone, Copy, Debug, PartialEq, Eq, Structural)]
pub struct TrapContext {
    /// Address at which user execution resumes.
    pub sepc: usize,
    /// User stack pointer.
    pub sp: usize,
    /// Register that carries the result of a system call.
    pub a0: usize,
}

/// The trap context with which a freshly loaded program starts.
pub open spec fn initial_context(image_len: int) -> TrapContext {
    TrapContext { sepc: IMAGE_BASE, sp: stack_top(image_len) as usize, a0: 0 }
}

/// The control block of one task.
pub struct TaskControlBlock {
    pub pid: usize,
    pub status: TaskStatus,
    pub trap_cx: TrapContext,
    pub memory_set: MemorySet,
    pub fd_table: Vec<Option<FileHandle>>,
    pub parent: Option<usize>,
    pub children: Vec<usize>,
    pub exit_code: i32,
    pub priority: isize,
    pub stride: u64,
    pub sys_times: Vec<u32>,
    pub start_time: Option<usize>,
    pub heap_bottom: usize,
    pub program_brk: usize,
}

/// Mathematical model of a [`TaskControlBlock`].
pub struct TaskView {
    pub pid: usize,
    pub status: TaskStatus,
    pub trap_cx: TrapContext,
    pub memory: Seq<AreaView>,
    pub fds: Seq<Option<FileHandle>>,
    pub parent: Option<usize>,
    pub children: Seq<usize>,
    pub exit_code: i32,
    pub priority: isize,
    pub stride: u64,
    pub sys_times: Seq<u32>,
    pub start_time: Option<usize>,
    pub heap_bottom: usize,
    pub program_brk: usize,
}

impl View for TaskControlBlock {
    type V = TaskView;

    open spec fn view(&self) -> TaskView {
        TaskView {
            pid: self.pid,
            status: self.status,
            trap_cx: self.trap_cx,
            memory: self.memory_set@,
            fds: self.fd_table@,
            parent: self.parent,
            children: self.children@,
            exit_code: self.exit_code,
            priority: self.priority,
            stride: self.stride,
            sys_times: self.sys_times@,
            start_time: self.start_time,
            heap_bottom: self.heap_bottom,
            program_brk: self.program_brk,
        }
    }
}

/// Mathematical model of a table of tasks, indexed by pid.
pub open spec fn table_view(tasks: Seq<Option<TaskControlBlock>>) -> Seq<Option<TaskView>> {
    Seq::new(
        tasks.len(),
        |i: int|
            match tasks[i] {
                Some(t) => Some(t@),
                None => None,
            },
    )
}

/// Whether `pid` names a task of the table.
pub open spec fn task_live(tasks: Seq<Option<TaskView>>, pid: int) -> bool {
    0 <= pid < tasks.len() && tasks[pid] is Some
}

/// The invariant of a single task: a well-formed address space, a priority
/// of at least 2, one counter per system call, and a heap that starts on a
/// page boundary and ends at a break that a system call can return.
pub open spec fn task_wf(t: TaskView) -> bool {
    &&& areas_wf(t.memory)
    &&& t.priority >= 2
    &&& t.sys_times.len() == MAX_SYSCALL_NUM
    &&& is_page_aligned(t.heap_bottom as int)
    &&& t.heap_bottom <= t.program_brk <= isize::MAX
}

/// The stride that a task of priority `priority` gains per dispatch.
pub open spec fn pass_of(priority: isize) -> u64 {
    (BIG_STRIDE as int / priority as int) as u64
}

/// The stride of a task after one more dispatch; it saturates.
pub open spec fn next_stride(stride: u64, priority: isize) -> u64 {
    if stride + pass_of(priority) > u64::MAX {
        u64::MAX
    } else {
        (stride + pass_of(priority)) as u64
    }
}

/// The descriptor table of a task that was made from nothing: console
/// input, console output, and console output again for errors.
pub open spec fn console_fds() -> Seq<Option<FileHandle>> {
    seq![
        Some(FileHandle::Stdin(Stdin)),
        Some(FileHandle::Stdout(Stdout)),
        Some(FileHandle::Stdout(Stdout)),
    ]
}

/// A task whose address space holds a freshly loaded image.
pub open spec fn loaded_task(image: Seq<u8>, base: TaskView) -> TaskView {
    TaskView {
        trap_cx: initial_context(image.len() as int),
        memory: image_areas(image),
        heap_bottom: stack_top(image.len() as int) as usize,
        program_brk: stack_top(image.len() as int) as usize,
        ..base
    }
}

/// The task that `TaskControlBlock::new` makes.
pub open spec fn new_task(pid: usize, image: Seq<u8>) -> TaskView {
    TaskView {
        pid,
        status: TaskStatus::Ready,
        trap_cx: initial_context(image.len() as int),
        memory: image_areas(image),
        fds: console_fds(),
        parent: None,
        children: Seq::empty(),
        exit_code: 0,
        priority: DEFAULT_PRIORITY,
        stride: 0,
        sys_times: Seq::new(MAX_SYSCALL_NUM as nat, |i: int| 0u32),
        start_time: None,
        heap_bottom: stack_top(image.len() as int) as usize,
        program_brk: stack_top(image.len() as int) as usize,
    }
}

/// The child that a fork of `parent` makes under the pid `pid`: the same
/// memory, descriptors, registers and heap; fresh scheduling state.
pub open spec fn forked_task(parent: TaskView, pid: usize) -> TaskView {
    TaskView {
        pid,
        status: TaskStatus::Ready,
        parent: Some(parent.pid),
        children: Seq::empty(),
        exit_code: 0,
        priority: DEFAULT_PRIORITY,
        stride: 0,
        sys_times: Seq::new(MAX_SYSCALL_NUM as nat, |i: int| 0u32),
        start_time: None,
        ..parent
    }
}

/// The child that a spawn by `parent` makes under the pid `pid`: a fresh
/// task that runs `image`, with the descriptors of its parent.
pub open spec fn spawned_task(parent: TaskView, pid: usize, image: Seq<u8>) -> TaskView {
    TaskView { fds: parent.fds, parent: Some(parent.pid), ..new_task(pid, image) }
}

/// Whether moving the break of `t` by `delta` succeeds: the new break stays
/// at or above the floor of the heap and within reach, and the heap area
/// can shrink or grow accordingly. Not moving it always succeeds.
pub open spec fn brk_succeeds(t: TaskView, delta: i32) -> bool {
    let new_brk = t.program_brk + delta;
    if delta == 0 {
        true
    } else if delta < 0 {
        t.heap_bottom <= new_brk && can_shrink(
            t.memory,
            t.heap_bottom as int,
            t.program_brk as int,
            new_brk,
        )
    } else {
        new_brk <= isize::MAX && can_grow(
            t.memory,
            t.heap_bottom as int,
            t.program_brk as int,
            new_brk,
        )
    }
}

/// The task after its break moved by `delta`.
pub open spec fn brk_task(t: TaskView, delta: i32) -> TaskView {
    let new_brk = t.program_brk + delta;
    if !brk_succeeds(t, delta) || delta == 0 {
        t
    } else if delta < 0 {
        TaskView {
            memory: shrunk(t.memory, t.heap_bottom as int, t.program_brk as int, new_brk),
            program_brk: new_brk as usize,
            ..t
        }
    } else {
        TaskView {
            memory: grown(
                t.memory,
                t.heap_bottom as int,
                t.program_brk as int,
                new_brk,
                data_perm(),
            ),
            program_brk: new_brk as usize,
            ..t
        }
    }
}

impl TaskControlBlock {
    /// The invariant of the task.
    pub open spec fn wf(&self) -> bool {
        task_wf(self@)
    }

    /// Makes a task that runs the program `image`, with the console on its
    /// first three descriptors; it has no parent and is ready to run.
    ///
    /// Fails when the image does not fit in the address range.
    pub fn new(pid: usize, image: &Vec<u8>) -> (r: Option<TaskControlBlock>)
        ensures
            r is Some <==> image_fits(image@.len() as int),
            r is Some ==> r->0@ == new_task(pid, image@) && r->0.wf(),
    {
        let memory_set = match MemorySet::from_image(image) {
            Some(ms) => ms,
            None => {
                return None;
            },
        };
        let top = user_stack_top(image.len());
        let mut fd_table: Vec<Option<FileHandle>> = Vec::new();
        fd_table.push(Some(FileHandle::Stdin(Stdin)));
        fd_table.push(Some(FileHandle::Stdout(Stdout)));
        fd_table.push(Some(FileHandle::Stdout(Stdout)));
        assert(fd_table@ =~= console_fds());
        let sys_times = vec![0u32; MAX_SYSCALL_NUM];
        assert(sys_times@ =~= Seq::new(MAX_SYSCALL_NUM as nat, |i: int| 0u32));
        let t = TaskControlBlock {
            pid,
            status: TaskStatus::Ready,
            trap_cx: TrapContext { sepc: IMAGE_BASE, sp: top, a0: 0 },
            memory_set,
            fd_table,
            parent: None,
            children: Vec::new(),
            exit_code: 0,
            priority: DEFAULT_PRIORITY,
            stride: 0,
            sys_times,
            start_time: None,
            heap_bottom: top,
            program_brk: top,
        };
        Some(t)
    }

    /// The pid of the task.
    pub fn getpid(&self) -> (pid: usize)
        ensures
            pid == self@.pid,
    {
        self.pid
    }

    /// Whether the task has exited.
    pub fn is_zombie(&self) -> (r: bool)
        ensures
            r == (self@.status == TaskStatus::Zombie),
    {
        match self.status {
            TaskStatus::Zombie => true,
            _ => false,
        }
    }

    /// The stride that the task gains per dispatch.
    pub fn pass(&self) -> (p: u64)
        requires
            self.wf(),
        ensures
            p == pass_of(self@.priority),
    {
        BIG_STRIDE / (self.priority as u64)
    }

    /// Charges the task for one dispatch: its stride grows by its pass.
    pub fn advance_stride(&mut self)
        requires
            old(self).wf(),
        ensures
            final(self)@ == (TaskView {
                stride: next_stride(old(self)@.stride, old(self)@.priority),
                ..old(self)@
            }),
    {
        let p = self.pass();
        if self.stride > u64::MAX - p {
            self.stride = u64::MAX;
        } else {
            self.stride = self.stride + p;
        }
    }

    /// Reserves the lowest free descriptor, growing the table if every
    /// slot is taken, and returns it. The slot stays empty.
    pub fn alloc_fd(&mut self) -> (fd: usize)
        requires
            old(self)@.fds.len() < usize::MAX,
        ensures
            fd == first_none(old(self)@.fds),
            final(self)@ == (TaskView {
                fds: if fd < old(self)@.fds.len() {
                    old(self)@.fds
                } else {
                    old(self)@.fds.push(None)
                },
                ..old(self)@
            }),
            fd < final(self)@.fds.len(),
            final(self)@.fds[fd as int] is None,
    {
        let fd = find_first_none(&self.fd_table);
        proof {
            lemma_first_none(self@.fds);
        }
        if fd == self.fd_table.len() {
            self.fd_table.push(None);
        }
        fd
    }

    /// Replaces the program of the task by `image`: a fresh address space
    /// and stack, registers set to start the program; pid, descriptors,
    /// family and scheduling state stay.
    ///
    /// Fails, changing nothing, when the image does not fit in the address
    /// range.
    pub fn exec(&mut self, image: &Vec<u8>) -> (ok: bool)
        requires
            old(self).wf(),
        ensures
            final(self).wf(),
            ok == image_fits(image@.len() as int),
            ok ==> final(self)@ == loaded_task(image@, old(self)@),
            !ok ==> final(self)@ == old(self)@,
    {
        let memory_set = match MemorySet::from_image(image) {
            Some(ms) => ms,
            None => {
                return false;
            },
        };
        let top = user_stack_top(image.len());
        self.memory_set = memory_set;
        self.trap_cx = TrapContext { sepc: IMAGE_BASE, sp: top, a0: 0 };
        self.heap_bottom = top;
        self.program_brk = top;
        true
    }

    /// Moves the break of the heap by `delta` bytes and returns the old
    /// break. The heap area grows zero-filled or shrinks with it.
    ///
    /// Fails, changing nothing, when the break would fall below the floor
    /// of the heap, rise beyond reach or into another area, or when the
    /// heap area was unmapped.
    pub fn change_program_brk(&mut self, delta: i32) -> (r: Option<usize>)
        requires
            old(self).wf(),
        ensures
            final(self).wf(),
            r is Some <==> brk_succeeds(old(self)@, delta),
            r is Some ==> r->0 == old(self)@.program_brk,
            final(self)@ == brk_task(old(self)@, delta),
    {
        let old_brk = self.program_brk;
        if delta == 0 {
            return Some(old_brk);
        }
        if delta < 0 {
            let down: usize = (-(delta as i64)) as usize;
            if down > old_brk - self.heap_bottom {
                return None;
            }
            let new_brk = old_brk - down;
            if !self.memory_set.shrink_area(self.heap_bottom, old_brk, new_brk) {
                return None;
            }
            self.program_brk = new_brk;
            Some(old_brk)
        } else {
            let up: usize = delta as usize;
            if up > (isize::MAX as usize) - old_brk {
                return None;
            }
            let new_brk = old_brk + up;
            let perm = MapPermission { r: true, w: true, x: false, u: true };
            if !self.memory_set.grow_area(self.heap_bottom, old_brk, new_brk, perm) {
                return None;
            }
            self.program_brk = new_brk;
            Some(old_brk)
        }
    }

    /// Makes the child that a spawn by `self` brings about, under the pid
    /// `pid`, not yet known to anyone: it runs `image` and never holds
    /// the program of its parent.
    ///
    /// Fails when the image does not fit in the address range.
    pub fn spawn_child(&self, pid: usize, image: &Vec<u8>) -> (r: Option<TaskControlBlock>)
        requires
            self.wf(),
        ensures
            r is Some <==> image_fits(image@.len() as int),
            r is Some ==> r->0@ == spawned_task(self@, pid, image@) && r->0.wf(),
    {
        let mut child = match TaskControlBlock::new(pid, image) {
            Some(t) => t,
            None => {
                return None;
            },
        };
        let fd_table = self.fd_table.clone();
        assert(fd_table@ =~= self.fd_table@);
        child.fd_table = fd_table;
        child.parent = Some(self.pid);
        Some(child)
    }

    /// Makes the child that a fork of `self` brings about, under the pid
    /// `pid`, not yet known to anyone.
    pub fn fork_child(&self, pid: usize) -> (child: TaskControlBlock)
        requires
            self.wf(),
        ensures
            child@ == forked_task(self@, pid),
            child.wf(),
    {
        let memory_set = self.memory_set.from_existed_user();
        let fd_table = self.fd_table.clone();
        assert(fd_table@ =~= self.fd_table@);
        let sys_times = vec![0u32; MAX_SYSCALL_NUM];
        assert(sys_times@ =~= Seq::new(MAX_SYSCALL_NUM as nat, |i: int| 0u32));
        TaskControlBlock {
            pid,
            status: TaskStatus::Ready,
            trap_cx: self.trap_cx,
            memory_set,
            fd_table,
            parent: Some(self.pid),
            children: Vec::new(),
            exit_code: 0,
            priority: DEFAULT_PRIORITY,
            stride: 0,
            sys_times,
            start_time: None,
            heap_bottom: self.heap_bottom,
            program_brk: self.program_brk,
        }
    }
}

/// Decides whether an image of `len` bytes fits in the address range.
pub fn fits_image(len: usize) -> (r: bool)
    ensures
        r == image_fits(len as int),
{
    len <= (isize::MAX as usize) - IMAGE_BASE - 2 * crate::config::PAGE_SIZE
        - crate::config::USER_STACK_SIZE
}

/// End of the user stack of an image of `len` bytes.
pub fn user_stack_top(len: usize) -> (top: usize)
    requires
        image_fits(len as int),
    ensures
        top == stack_top(len as int),
        is_page_aligned(top as int),
        top <= isize::MAX,
{
    (IMAGE_BASE + len + crate::config::PAGE_SIZE - 1) / crate::config::PAGE_SIZE
        * crate::config::PAGE_SIZE + crate::config::PAGE_SIZE + crate::config::USER_STACK_SIZE
}

} // verus!
