//! Process management syscalls

use crate::config::{is_page_aligned, MAX_SYSCALL_NUM};
use crate::fs::inode::resolve;
use crate::fs::StatMode;
use crate::mm::memory_set::{
    area_wf, areas_wf, byte_at, can_insert, conflicts, exact_index, has_area, image_fits,
    is_mapped, lemma_area_unique, lemma_insert_wf, lemma_remove_wf, perm_at, ranges_intersect,
    zeros, AreaView, MapPermission,
};
use crate::mm::user_buffer::{
    accessible, bytes_at, c_string_at, copy_to_user, lemma_read_back, range_accessible,
    translated_str, write_bytes, Access,
};
use crate::syscall::{current_task, with_current};
use crate::task::kernel::{add_task, forked, spawned, Kernel};
use crate::task::model::{
    can_reap, exited, kernel_wf, lemma_changed_wf, lemma_child, lemma_child_added_shape,
    lemma_current, lemma_reap_facts, lemma_reap_wf, lemma_released_all_wf, lemma_task, next_pid,
    reaped, released_all, suspended, KernelView,
};
use crate::fs::FileHandle;
use crate::task::task::{
    brk_succeeds, brk_task, forked_task, loaded_task, task_live, task_wf, TaskStatus, TaskView,
    TrapContext,
};
use crate::wire::{le_bytes, lemma_le_bytes_len, push_le, push_zeros};
use vstd::prelude::*;

verus! {

/// A point in time as user space sees it.
#[derive(Debug)]
pub struct TimeVal {
    /// Whole seconds.
    pub sec: usize,
    /// Microseconds beyond the whole seconds.
    pub usec: usize,
}

/// Size in bytes of a [`TimeVal`] as user space sees it.
pub const TIME_VAL_SIZE: usize = 16;

/// A [`TimeVal`] as user space sees it: seconds, then microseconds, each
/// a little-endian 64-bit word.
pub open spec fn time_val_wire(sec: usize, usec: usize) -> Seq<u8> {
    le_bytes(sec as nat, 8).add(le_bytes(usec as nat, 8))
}

impl TimeVal {
    /// The time `time_us` microseconds after the clock started.
    pub fn from_us(time_us: usize) -> (tv: TimeVal)
        ensures
            tv.sec == time_us / 1_000_000,
            tv.usec == time_us % 1_000_000,
    {
        TimeVal { sec: time_us / 1_000_000, usec: time_us % 1_000_000 }
    }

    /// Encodes the record for user space.
    pub fn to_bytes(&self) -> (out: Vec<u8>)
        ensures
            out@ == time_val_wire(self.sec, self.usec),
            out@.len() == TIME_VAL_SIZE,
    {
        let mut out: Vec<u8> = Vec::new();
        push_le(&mut out, self.sec as u64, 8);
        push_le(&mut out, self.usec as u64, 8);
        proof {
            lemma_le_bytes_len(self.sec as nat, 8);
            lemma_le_bytes_len(self.usec as nat, 8);
            assert(Seq::<u8>::empty().add(le_bytes(self.sec as nat, 8)) =~= le_bytes(
                self.sec as nat,
                8,
            ));
        }
        out
    }
}

/// Task information
pub struct TaskInfo {
    /// Task status in it's life cycle
    pub status: TaskStatus,
    /// The numbers of syscall called by task
    pub syscall_times: Vec<u32>,
    /// Total running time of task
    pub time: usize,
}

/// Size in bytes of a [`TaskInfo`] as user space sees it.
pub const TASK_INFO_SIZE: usize = 2016;

/// A task status as the byte that user space sees.
pub open spec fn status_byte(status: TaskStatus) -> u8 {
    match status {
        TaskStatus::Ready => 0u8,
        TaskStatus::Running => 1u8,
        TaskStatus::Zombie => 2u8,
    }
}

/// Counters as user space sees them: little-endian 32-bit words.
pub open spec fn counts_wire(counts: Seq<u32>) -> Seq<u8>
    decreases counts.len(),
{
    if counts.len() == 0 {
        Seq::empty()
    } else {
        counts_wire(counts.drop_last()).add(le_bytes(counts.last() as nat, 4))
    }
}

/// A [`TaskInfo`] as user space sees it: the status in one byte, padded
/// to four; one 32-bit counter per system call; four bytes of padding;
/// the running time in milliseconds as a 64-bit word. All little-endian.
pub open spec fn task_info_wire(status: TaskStatus, counts: Seq<u32>, time: usize) -> Seq<u8> {
    seq![status_byte(status), 0u8, 0u8, 0u8].add(counts_wire(counts)).add(
        Seq::new(4, |i: int| 0u8),
    ).add(le_bytes(time as nat, 8))
}

/// Every counter takes four bytes.
pub proof fn lemma_counts_wire_len(counts: Seq<u32>)
    ensures
        counts_wire(counts).len() == 4 * counts.len(),
    decreases counts.len(),
{
    if counts.len() > 0 {
        lemma_counts_wire_len(counts.drop_last());
        lemma_le_bytes_len(counts.last() as nat, 4);
    }
}

impl TaskInfo {
    /// Encodes the record for user space.
    pub fn to_bytes(&self) -> (out: Vec<u8>)
        ensures
            out@ == task_info_wire(self.status, self.syscall_times@, self.time),
            out@.len() == 16 + 4 * self.syscall_times@.len(),
    {
        let mut out: Vec<u8> = Vec::new();
        let tag: u8 = match self.status {
            TaskStatus::Ready => 0,
            TaskStatus::Running => 1,
            TaskStatus::Zombie => 2,
        };
        out.push(tag);
        out.push(0);
        out.push(0);
        out.push(0);
        let ghost head = out@;
        assert(head =~= seq![status_byte(self.status), 0u8, 0u8, 0u8]);
        let mut i: usize = 0;
        assert(self.syscall_times@.subrange(0, 0) =~= Seq::<u32>::empty());
        assert(out@ =~= head.add(counts_wire(self.syscall_times@.subrange(0, 0))));
        while i < self.syscall_times.len()
            invariant
                i <= self.syscall_times@.len(),
                out@ == head.add(counts_wire(self.syscall_times@.subrange(0, i as int))),
            decreases self.syscall_times@.len() - i,
        {
            let ghost before = out@;
            push_le(&mut out, self.syscall_times[i] as u64, 4);
            proof {
                let pre = self.syscall_times@.subrange(0, i as int);
                let post = self.syscall_times@.subrange(0, i + 1);
                assert(post.drop_last() =~= pre);
                assert(post.last() == self.syscall_times@[i as int]);
                assert(out@ =~= head.add(counts_wire(post)));
            }
            i += 1;
        }
        proof {
            assert(self.syscall_times@.subrange(0, i as int) =~= self.syscall_times@);
            lemma_counts_wire_len(self.syscall_times@);
            lemma_le_bytes_len(self.time as nat, 8);
        }
        push_zeros(&mut out, 4);
        push_le(&mut out, self.time as u64, 8);
        out
    }
}

/// Whether `port` asks for at least one of read (bit 0), write (bit 1) and
/// execute (bit 2), and for nothing else.
pub open spec fn port_valid(port: usize) -> bool {
    port != 0 && port & !7usize == 0
}

/// The permissions that `port` asks for; user access goes with them.
pub open spec fn port_perm(port: usize) -> MapPermission {
    MapPermission { r: port & 1 != 0, w: port & 2 != 0, x: port & 4 != 0, u: true }
}

/// Whether `mmap` succeeds: the start is page-aligned, the permissions
/// are valid, and the range is a range of addresses, not empty, and free.
pub open spec fn mmap_succeeds(k: KernelView, start: usize, len: usize, port: usize) -> bool {
    &&& port_valid(port)
    &&& start + len <= usize::MAX
    &&& can_insert(current_task(k).memory, start as int, start + len)
}

/// The kernel after `mmap`.
pub open spec fn mmap_post(k: KernelView, start: usize, len: usize, port: usize) -> KernelView {
    if mmap_succeeds(k, start, len, port) {
        let t = current_task(k);
        with_current(
            k,
            TaskView {
                memory: t.memory.push(
                    AreaView {
                        start: start as int,
                        end: start + len,
                        perm: port_perm(port),
                        data: zeros(len as int),
                    },
                ),
                ..t
            },
        )
    } else {
        k
    }
}

/// Whether `munmap` succeeds: the start is page-aligned and the range is
/// exactly one mapped area.
pub open spec fn munmap_succeeds(k: KernelView, start: usize, len: usize) -> bool {
    &&& is_page_aligned(start as int)
    &&& start + len <= usize::MAX
    &&& has_area(current_task(k).memory, start as int, start + len)
}

/// The kernel after `munmap`.
pub open spec fn munmap_post(k: KernelView, start: usize, len: usize) -> KernelView {
    if munmap_succeeds(k, start, len) {
        let t = current_task(k);
        with_current(
            k,
            TaskView {
                memory: t.memory.remove(exact_index(t.memory, start as int, start + len)),
                ..t
            },
        )
    } else {
        k
    }
}

/// The kernel after `fork`: the child is in the table, returns 0 from the
/// call when it first runs, and is queued.
pub open spec fn fork_post(k: KernelView) -> KernelView {
    match next_pid(k) {
        Some(c) => {
            let f = forked(k);
            let child = f.tasks[c as int]->0;
            KernelView {
                tasks: f.tasks.update(
                    c as int,
                    Some(TaskView { trap_cx: TrapContext { a0: 0, ..child.trap_cx }, ..child }),
                ),
                ready: f.ready.push(c),
                ..f
            }
        },
        None => k,
    }
}

/// Ends the current task with `exit_code`; the next ready task runs.
pub fn sys_exit(kernel: &mut Kernel, exit_code: i32)
    requires
        old(kernel).wf(),
        old(kernel)@.current is Some,
    ensures
        final(kernel).wf(),
        final(kernel)@ == exited(old(kernel)@, exit_code),
{
    kernel.exit_current_and_run_next(exit_code);
}

/// Gives up the processor; the current task goes to the back of the ready
/// queue. Returns 0.
pub fn sys_yield(kernel: &mut Kernel) -> (r: isize)
    requires
        old(kernel).wf(),
        old(kernel)@.current is Some,
    ensures
        final(kernel).wf(),
        final(kernel)@ == suspended(old(kernel)@),
        r == 0,
{
    kernel.suspend_current_and_run_next();
    0
}

/// Returns the pid of the current task.
pub fn sys_getpid(kernel: &Kernel) -> (r: isize)
    requires
        kernel.wf(),
        kernel@.current is Some,
    ensures
        r == kernel@.current->0,
{
    proof {
        lemma_current(kernel@);
    }
    kernel.current.unwrap() as isize
}

/// Makes a copy of the current task and queues it. Returns the pid of the
/// child; the child finds 0 in its result register. Returns -1, changing
/// nothing, when no pid is left.
pub fn sys_fork(kernel: &mut Kernel) -> (r: isize)
    requires
        old(kernel).wf(),
        old(kernel)@.current is Some,
    ensures
        final(kernel).wf(),
        final(kernel)@ == fork_post(old(kernel)@),
        r == match next_pid(old(kernel)@) {
            Some(c) => c as int,
            None => -1,
        },
{
    let ghost o = old(kernel)@;
    let new_pid = match kernel.fork() {
        Some(c) => c,
        None => {
            return -1;
        },
    };
    let ghost f = kernel@;
    proof {
        crate::task::model::lemma_task(f, new_pid as int);
    }
    // for child process, fork returns 0
    match &mut kernel.tasks[new_pid] {
        Some(t) => {
            t.trap_cx.a0 = 0;
        },
        None => {},
    }
    proof {
        let child = f.tasks[new_pid as int]->0;
        assert(kernel@.tasks =~= f.tasks.update(
            new_pid as int,
            Some(TaskView { trap_cx: TrapContext { a0: 0, ..child.trap_cx }, ..child }),
        ));
        lemma_changed_wf(f, kernel@, new_pid as int);
    }
    // add new task to scheduler
    let queued = add_task(kernel, new_pid);
    assert(queued);
    new_pid as isize
}

/// Maps `len` bytes at `start` into the address space of the current
/// task, zero-filled, with the permissions that `port` asks for (bit 0
/// read, bit 1 write, bit 2 execute) and user access.
///
/// Returns 0 on success and -1, changing nothing, when `start` is not
/// page-aligned, `port` is zero or has other bits, the range is empty or
/// not a range of addresses, or it overlaps a mapped area.
pub fn sys_mmap(kernel: &mut Kernel, start: usize, len: usize, port: usize) -> (r: isize)
    requires
        old(kernel).wf(),
        old(kernel)@.current is Some,
    ensures
        final(kernel).wf(),
        final(kernel)@ == mmap_post(old(kernel)@, start, len, port),
        r == if mmap_succeeds(old(kernel)@, start, len, port) {
            0isize
        } else {
            -1isize
        },
{
    let ghost o = old(kernel)@;
    let pid = kernel.current.unwrap();
    proof {
        lemma_current(o);
    }
    if port == 0 || (port & !7usize != 0) {
        return -1;
    }
    if len > usize::MAX - start {
        return -1;
    }
    let perm = MapPermission { r: port & 1 != 0, w: port & 2 != 0, x: port & 4 != 0, u: true };
    let ok = match &mut kernel.tasks[pid] {
        Some(task) => task.memory_set.insert_framed_area(start, start + len, perm),
        None => false,
    };
    if !ok {
        assert(kernel@.tasks =~= o.tasks);
        return -1;
    }
    proof {
        assert(kernel@.tasks =~= mmap_post(o, start, len, port).tasks);
        lemma_changed_wf(o, kernel@, pid as int);
    }
    0
}

/// Unmaps the area `[start, start + len)` of the current task.
///
/// Returns 0 on success and -1, changing nothing, when `start` is not
/// page-aligned or the range is not exactly one mapped area.
pub fn sys_munmap(kernel: &mut Kernel, start: usize, len: usize) -> (r: isize)
    requires
        old(kernel).wf(),
        old(kernel)@.current is Some,
    ensures
        final(kernel).wf(),
        final(kernel)@ == munmap_post(old(kernel)@, start, len),
        r == if munmap_succeeds(old(kernel)@, start, len) {
            0isize
        } else {
            -1isize
        },
{
    let ghost o = old(kernel)@;
    let pid = kernel.current.unwrap();
    proof {
        lemma_current(o);
    }
    if !crate::config::page_aligned(start) {
        return -1;
    }
    if len > usize::MAX - start {
        return -1;
    }
    let r = match &mut kernel.tasks[pid] {
        Some(task) => task.memory_set.unmap_area(start, start + len),
        None => -1,
    };
    proof {
        assert(kernel@.tasks =~= munmap_post(o, start, len).tasks);
        lemma_changed_wf(o, kernel@, pid as int);
    }
    r
}

/// Moves the break of the heap of the current task by `size` bytes.
///
/// Returns the old break on success and -1, changing nothing, on failure.
pub fn sys_sbrk(kernel: &mut Kernel, size: i32) -> (r: isize)
    requires
        old(kernel).wf(),
        old(kernel)@.current is Some,
    ensures
        final(kernel).wf(),
        final(kernel)@ == with_current(old(kernel)@, brk_task(current_task(old(kernel)@), size)),
        r == if brk_succeeds(current_task(old(kernel)@), size) {
            current_task(old(kernel)@).program_brk as int
        } else {
            -1
        },
{
    let ghost o = old(kernel)@;
    let pid = kernel.current.unwrap();
    proof {
        lemma_current(o);
    }
    let r = match &mut kernel.tasks[pid] {
        Some(task) => task.change_program_brk(size),
        None => None,
    };
    proof {
        assert(kernel@.tasks =~= with_current(o, brk_task(current_task(o), size)).tasks);
        lemma_changed_wf(o, kernel@, pid as int);
    }
    match r {
        Some(old_brk) => old_brk as isize,
        None => -1,
    }
}

/// Sets the priority of the current task.
///
/// Returns the priority on success and -1, changing nothing, when it is
/// below 2.
pub fn sys_set_priority(kernel: &mut Kernel, prio: isize) -> (r: isize)
    requires
        old(kernel).wf(),
        old(kernel)@.current is Some,
    ensures
        final(kernel).wf(),
        prio <= 1 ==> r == -1 && final(kernel)@ == old(kernel)@,
        prio > 1 ==> r == prio && final(kernel)@ == with_current(
            old(kernel)@,
            TaskView { priority: prio, ..current_task(old(kernel)@) },
        ),
{
    if prio <= 1 {
        return -1;
    }
    let ghost o = old(kernel)@;
    let pid = kernel.current.unwrap();
    proof {
        lemma_current(o);
    }
    match &mut kernel.tasks[pid] {
        Some(task) => {
            task.priority = prio;
        },
        None => {},
    }
    proof {
        assert(kernel@.tasks =~= with_current(
            o,
            TaskView { priority: prio, ..current_task(o) },
        ).tasks);
        lemma_changed_wf(o, kernel@, pid as int);
    }
    prio
}

/// The contents of the regular file that the string at `path_ptr` in the
/// memory of the current task names, if it names one.
pub open spec fn program_at(k: KernelView, path_ptr: usize) -> Option<Seq<u8>> {
    match c_string_at(current_task(k).memory, path_ptr as int) {
        Some(path) => match resolve(k.io.fs, path) {
            Some(ino) => if k.io.fs.inodes[ino as int].mode == StatMode::File {
                Some(k.io.fs.inodes[ino as int].data)
            } else {
                None
            },
            None => None,
        },
        None => None,
    }
}

/// Whether `exec` succeeds: the path names a regular file whose contents
/// fit in the address range as a program.
pub open spec fn exec_succeeds(k: KernelView, path_ptr: usize) -> bool {
    program_at(k, path_ptr) is Some && image_fits(program_at(k, path_ptr)->0.len() as int)
}

/// The kernel after `exec`.
pub open spec fn exec_post(k: KernelView, path_ptr: usize) -> KernelView {
    if exec_succeeds(k, path_ptr) {
        with_current(k, loaded_task(program_at(k, path_ptr)->0, current_task(k)))
    } else {
        k
    }
}

/// Whether `spawn` succeeds: the path names a program that fits, and a
/// pid is left.
pub open spec fn spawn_succeeds(k: KernelView, path_ptr: usize) -> bool {
    exec_succeeds(k, path_ptr) && next_pid(k) is Some
}

/// The kernel after `spawn`: the child runs the program, and is queued.
pub open spec fn spawn_post(k: KernelView, path_ptr: usize) -> KernelView {
    if spawn_succeeds(k, path_ptr) {
        let s = spawned(k, program_at(k, path_ptr)->0);
        KernelView { ready: s.ready.push(next_pid(k)->0), ..s }
    } else {
        k
    }
}

/// Whether the child `c` is one that `waitpid` with the filter `pid` asks
/// for: any child for -1, else the child with that pid.
pub open spec fn child_matches(pid: isize, c: usize) -> bool {
    pid == -1 || pid == c
}

/// Whether the current task has a child that the filter asks for.
pub open spec fn has_matching_child(k: KernelView, pid: isize) -> bool {
    exists|i: int|
        0 <= i < current_task(k).children.len() && child_matches(
            pid,
            #[trigger] current_task(k).children[i],
        )
}

/// Whether the `i`-th child of the current task is one that the filter
/// asks for, and has exited.
pub open spec fn zombie_at(k: KernelView, pid: isize, i: int) -> bool {
    &&& 0 <= i < current_task(k).children.len()
    &&& child_matches(pid, current_task(k).children[i])
    &&& k.tasks[current_task(k).children[i] as int]->0.status == TaskStatus::Zombie
}

/// Whether `i` is the first position among the children of the current
/// task at which an exited child that the filter asks for stands.
pub open spec fn first_zombie_at(k: KernelView, pid: isize, i: int) -> bool {
    zombie_at(k, pid, i) && forall|j: int| 0 <= j < i ==> !zombie_at(k, pid, j)
}

/// Whether some child that the filter asks for has exited.
pub open spec fn has_zombie_child(k: KernelView, pid: isize) -> bool {
    exists|i: int| first_zombie_at(k, pid, i)
}

/// Position of the first exited child that the filter asks for
/// (meaningful when `has_zombie_child`).
pub open spec fn first_zombie(k: KernelView, pid: isize) -> int {
    choose|i: int| first_zombie_at(k, pid, i)
}

/// An exit code as the 32-bit pattern that user space reads.
pub open spec fn i32_bits(code: i32) -> u32 {
    if code >= 0 {
        code as u32
    } else {
        (code + 0x1_0000_0000) as u32
    }
}

/// Whether `waitpid` reaps a child: an exited child that the filter asks
/// for exists, and the exit code can be stored at `exit_code_ptr`.
pub open spec fn waitpid_succeeds(k: KernelView, pid: isize, exit_code_ptr: usize) -> bool {
    has_zombie_child(k, pid) && range_accessible(
        current_task(k).memory,
        exit_code_ptr as int,
        4,
        Access::Write,
    )
}

/// What `waitpid` returns: -1 when no child is asked for, -2 when none of
/// those has exited, the pid of the first that has, and -1 when its exit
/// code cannot be stored.
pub open spec fn waitpid_ret(k: KernelView, pid: isize, exit_code_ptr: usize) -> int {
    if !has_matching_child(k, pid) {
        -1
    } else if !has_zombie_child(k, pid) {
        -2
    } else if !waitpid_succeeds(k, pid, exit_code_ptr) {
        -1
    } else {
        current_task(k).children[first_zombie(k, pid)] as int
    }
}

/// The kernel after `waitpid`: the exit code of the reaped child is in
/// the memory of the current task, the child is gone, and so are the
/// positions of the disk files that only its descriptors named.
pub open spec fn waitpid_post(k: KernelView, pid: isize, exit_code_ptr: usize) -> KernelView {
    if waitpid_succeeds(k, pid, exit_code_ptr) {
        let fds = k.tasks[current_task(k).children[first_zombie(k, pid)] as int]->0.fds;
        released_all(wait_reaped(k, pid, exit_code_ptr), fds, fds.len() as int)
    } else {
        k
    }
}

/// The kernel after `waitpid` stored the exit code and took the child
/// out of the table, its descriptors not yet released.
pub open spec fn wait_reaped(k: KernelView, pid: isize, exit_code_ptr: usize) -> KernelView {
    if waitpid_succeeds(k, pid, exit_code_ptr) {
        let t = current_task(k);
        let i = first_zombie(k, pid);
        let code = k.tasks[t.children[i] as int]->0.exit_code;
        reaped(
            with_current(
                k,
                TaskView {
                    memory: write_bytes(
                        t.memory,
                        exit_code_ptr as int,
                        le_bytes(i32_bits(code) as nat, 4),
                    ),
                    ..t
                },
            ),
            k.current->0,
            i,
        )
    } else {
        k
    }
}

/// There is one first exited child only.
pub proof fn lemma_first_zombie_unique(k: KernelView, pid: isize, i: int)
    requires
        first_zombie_at(k, pid, i),
    ensures
        has_zombie_child(k, pid),
        first_zombie(k, pid) == i,
{
    let j = first_zombie(k, pid);
    assert(first_zombie_at(k, pid, j));
    if j < i {
        assert(!zombie_at(k, pid, j));
    } else if i < j {
        assert(!zombie_at(k, pid, i));
    }
}

/// Reads the contents of the regular file that the string at `path_ptr`
/// in the memory of the current task names.
pub fn read_program(kernel: &Kernel, path_ptr: usize) -> (r: Option<Vec<u8>>)
    requires
        kernel.wf(),
        kernel@.current is Some,
    ensures
        r is Some <==> program_at(kernel@, path_ptr) is Some,
        r is Some ==> program_at(kernel@, path_ptr) == Some(r->0@),
{
    let pid = kernel.current.unwrap();
    proof {
        lemma_current(kernel@);
    }
    let path = match &kernel.tasks[pid] {
        Some(task) => translated_str(&task.memory_set, path_ptr),
        None => None,
    };
    let path = match path {
        Some(p) => p,
        None => {
            return None;
        },
    };
    let ino = match kernel.io.fs.lookup(&path) {
        Some(ino) => ino as usize,
        None => {
            return None;
        },
    };
    assert(kernel@.io.fs.inodes[ino as int] == kernel.io.fs.inodes@[ino as int]@);
    match kernel.io.fs.inodes[ino].mode {
        StatMode::File => {
            let data = kernel.io.fs.inodes[ino].data.clone();
            assert(data@ =~= kernel.io.fs.inodes@[ino as int].data@);
            Some(data)
        },
        _ => None,
    }
}

/// Replaces the program of the current task by the file that the string
/// at `path` names.
///
/// Returns 0 on success and -1, keeping the old program, when the path is
/// unreadable or names no regular file, or the file does not fit in the
/// address range as a program.
pub fn sys_exec(kernel: &mut Kernel, path: usize) -> (r: isize)
    requires
        old(kernel).wf(),
        old(kernel)@.current is Some,
    ensures
        final(kernel).wf(),
        final(kernel)@ == exec_post(old(kernel)@, path),
        r == if exec_succeeds(old(kernel)@, path) {
            0isize
        } else {
            -1isize
        },
{
    let ghost o = old(kernel)@;
    let pid = kernel.current.unwrap();
    proof {
        lemma_current(o);
    }
    let all_data = match read_program(kernel, path) {
        Some(d) => d,
        None => {
            return -1;
        },
    };
    let ok = match &mut kernel.tasks[pid] {
        Some(task) => task.exec(&all_data),
        None => false,
    };
    proof {
        assert(kernel@.tasks =~= exec_post(o, path).tasks);
        lemma_changed_wf(o, kernel@, pid as int);
    }
    if ok {
        0
    } else {
        -1
    }
}

/// Makes a child of the current task that runs the file that the string
/// at `path` names, and queues it. The child never runs the program of
/// its parent.
///
/// Returns the pid of the child on success and -1, changing nothing, when
/// the path is unreadable or names no regular file, the file does not fit
/// in the address range as a program, or no pid is left.
pub fn sys_spawn(kernel: &mut Kernel, path: usize) -> (r: isize)
    requires
        old(kernel).wf(),
        old(kernel)@.current is Some,
    ensures
        final(kernel).wf(),
        final(kernel)@ == spawn_post(old(kernel)@, path),
        r == if spawn_succeeds(old(kernel)@, path) {
            next_pid(old(kernel)@)->0 as int
        } else {
            -1
        },
{
    let ghost o = old(kernel)@;
    let all_data = match read_program(kernel, path) {
        Some(d) => d,
        None => {
            return -1;
        },
    };
    let new_pid = match kernel.spawn(&all_data) {
        Some(c) => c,
        None => {
            return -1;
        },
    };
    proof {
        lemma_task(kernel@, new_pid as int);
    }
    let queued = add_task(kernel, new_pid);
    assert(queued);
    new_pid as isize
}

/// Waits for a child of the current task: any child if `pid` is -1, else
/// the child with that pid.
///
/// If there is no such child, returns -1. If there is one but none has
/// exited, returns -2. Otherwise the first such child that has exited, in
/// the order in which the children were made, is removed from the table,
/// its pid is free again, its exit code is stored as a 32-bit word at
/// `exit_code_ptr`, and its pid is returned. Returns -1, reaping no one,
/// when the exit code cannot be stored there.
pub fn sys_waitpid(kernel: &mut Kernel, pid: isize, exit_code_ptr: usize) -> (r: isize)
    requires
        old(kernel).wf(),
        old(kernel)@.current is Some,
    ensures
        final(kernel).wf(),
        final(kernel)@ == waitpid_post(old(kernel)@, pid, exit_code_ptr),
        r == waitpid_ret(old(kernel)@, pid, exit_code_ptr),
{
    let ghost o = old(kernel)@;
    let cur = kernel.current.unwrap();
    proof {
        lemma_current(o);
    }
    let n = match &kernel.tasks[cur] {
        Some(task) => task.children.len(),
        None => 0,
    };
    // find a child process
    let mut any = false;
    let mut found: Option<usize> = None;
    let mut i: usize = 0;
    while i < n
        invariant
            *kernel == *old(kernel),
            o == kernel@,
            kernel_wf(o),
            o.current == Some(cur),
            task_live(o.tasks, cur as int),
            n == current_task(o).children.len(),
            i <= n,
            any <==> exists|j: int|
                0 <= j < i && child_matches(pid, #[trigger] current_task(o).children[j]),
            found is None ==> forall|j: int| 0 <= j < i ==> !zombie_at(o, pid, j),
            found is Some ==> found->0 < i && first_zombie_at(o, pid, found->0 as int),
        decreases n - i,
    {
        let c = match &kernel.tasks[cur] {
            Some(task) => task.children[i],
            None => 0,
        };
        proof {
            lemma_child(o, cur as int, i as int);
            assert(c == current_task(o).children[i as int]);
        }
        if pid == -1 || (pid >= 0 && pid as usize == c) {
            any = true;
            let zombie = match &kernel.tasks[c] {
                Some(child) => child.is_zombie(),
                None => false,
            };
            if zombie && found.is_none() {
                found = Some(i);
            }
        }
        i += 1;
    }
    if !any {
        return -1;
    }
    let idx = match found {
        Some(idx) => idx,
        None => {
            proof {
                if has_zombie_child(o, pid) {
                    let j = first_zombie(o, pid);
                    assert(zombie_at(o, pid, j));
                }
            }
            return -2;
        },
    };
    proof {
        lemma_first_zombie_unique(o, pid, idx as int);
        lemma_child(o, cur as int, idx as int);
    }
    let child = match &kernel.tasks[cur] {
        Some(task) => task.children[idx],
        None => 0,
    };
    let (exit_code, fds) = match &kernel.tasks[child] {
        Some(t) => {
            let fds = t.fd_table.clone();
            assert(fds@ =~= t.fd_table@);
            (t.exit_code, fds)
        },
        None => (0, Vec::new()),
    };
    let bits: u32 = if exit_code >= 0 {
        exit_code as u32
    } else {
        (exit_code as i64 + 0x1_0000_0000i64) as u32
    };
    let mut bytes: Vec<u8> = Vec::new();
    push_le(&mut bytes, bits as u64, 4);
    assert(bytes@ =~= le_bytes(i32_bits(exit_code) as nat, 4));
    proof {
        crate::wire::lemma_le_bytes_len(i32_bits(exit_code) as nat, 4);
    }
    let stored = match &mut kernel.tasks[cur] {
        Some(task) => copy_to_user(&mut task.memory_set, exit_code_ptr, &bytes),
        None => false,
    };
    if !stored {
        assert(kernel@.tasks =~= o.tasks);
        return -1;
    }
    let ghost k1 = kernel@;
    proof {
        let t = current_task(o);
        assert(k1.tasks =~= with_current(
            o,
            TaskView {
                memory: write_bytes(
                    t.memory,
                    exit_code_ptr as int,
                    le_bytes(i32_bits(exit_code) as nat, 4),
                ),
                ..t
            },
        ).tasks);
        lemma_changed_wf(o, k1, cur as int);
        assert(can_reap(k1, cur, idx as int));
        lemma_reap_wf(k1, cur, idx as int);
        crate::task::model::lemma_reap_facts(k1, cur, idx as int);
    }
    match &mut kernel.tasks[cur] {
        Some(task) => {
            task.children.remove(idx);
        },
        None => {},
    }
    // the child leaves the table with everything it owned
    kernel.tasks[child] = None;
    kernel.recycled.push(child);
    proof {
        assert(kernel@.tasks =~= reaped(k1, cur, idx as int).tasks);
    }
    let ghost gone = kernel@;
    let mut j: usize = 0;
    while j < fds.len()
        invariant
            j <= fds@.len(),
            kernel_wf(gone),
            kernel.wf(),
            kernel@ == released_all(gone, fds@, j as int),
        decreases fds@.len() - j,
    {
        match fds[j] {
            Some(FileHandle::Inode(inode)) => {
                kernel.release_slot(inode.slot);
            },
            _ => {},
        }
        j += 1;
    }
    child as isize
}

/// The time, in milliseconds, since the current task first ran.
pub open spec fn elapsed_ms(k: KernelView) -> usize {
    let now = k.time_us / 1000;
    match current_task(k).start_time {
        Some(start) => if now >= start {
            (now - start) as usize
        } else {
            0
        },
        None => 0,
    }
}

/// The kernel after `data` was stored at `ptr` in the memory of the
/// current task, if it can be stored there.
pub open spec fn stored(k: KernelView, ptr: usize, data: Seq<u8>) -> KernelView {
    let t = current_task(k);
    if range_accessible(t.memory, ptr as int, data.len() as int, Access::Write) {
        with_current(k, TaskView { memory: write_bytes(t.memory, ptr as int, data), ..t })
    } else {
        k
    }
}

/// Stores `data` at `ptr` in the memory of the current task.
///
/// Returns whether it did: nothing changes when some byte of the
/// destination is not writable by the task.
pub fn store_to_current(kernel: &mut Kernel, ptr: usize, data: &Vec<u8>) -> (ok: bool)
    requires
        old(kernel).wf(),
        old(kernel)@.current is Some,
    ensures
        final(kernel).wf(),
        ok == range_accessible(
            current_task(old(kernel)@).memory,
            ptr as int,
            data@.len() as int,
            Access::Write,
        ),
        final(kernel)@ == stored(old(kernel)@, ptr, data@),
{
    let ghost o = old(kernel)@;
    let pid = kernel.current.unwrap();
    proof {
        lemma_current(o);
    }
    let ok = match &mut kernel.tasks[pid] {
        Some(task) => copy_to_user(&mut task.memory_set, ptr, data),
        None => false,
    };
    proof {
        assert(kernel@.tasks =~= stored(o, ptr, data@).tasks);
        lemma_changed_wf(o, kernel@, pid as int);
    }
    ok
}

/// Stores the time, as of the last look at the clock, at `ts` in the
/// memory of the current task, as a [`TimeVal`]. The time zone argument
/// is not used.
///
/// Returns 0 on success and -1, changing nothing, when the record cannot
/// be stored there.
pub fn sys_get_time(kernel: &mut Kernel, ts: usize, tz: usize) -> (r: isize)
    requires
        old(kernel).wf(),
        old(kernel)@.current is Some,
    ensures
        final(kernel).wf(),
        final(kernel)@ == stored(
            old(kernel)@,
            ts,
            time_val_wire(
                (old(kernel)@.time_us / 1_000_000) as usize,
                (old(kernel)@.time_us % 1_000_000) as usize,
            ),
        ),
        r == if range_accessible(
            current_task(old(kernel)@).memory,
            ts as int,
            TIME_VAL_SIZE as int,
            Access::Write,
        ) {
            0isize
        } else {
            -1isize
        },
{
    let tv = TimeVal::from_us(kernel.time_us);
    let byte_tv = tv.to_bytes();
    if store_to_current(kernel, ts, &byte_tv) {
        0
    } else {
        -1
    }
}

/// Stores the status of the current task, its counts of system calls and
/// the time since it first ran at `ti` in the memory of the current task,
/// as a [`TaskInfo`].
///
/// Returns 0 on success and -1, changing nothing, when the record cannot
/// be stored there.
pub fn sys_task_info(kernel: &mut Kernel, ti: usize) -> (r: isize)
    requires
        old(kernel).wf(),
        old(kernel)@.current is Some,
    ensures
        final(kernel).wf(),
        final(kernel)@ == stored(
            old(kernel)@,
            ti,
            task_info_wire(
                TaskStatus::Running,
                current_task(old(kernel)@).sys_times,
                elapsed_ms(old(kernel)@),
            ),
        ),
        r == if range_accessible(
            current_task(old(kernel)@).memory,
            ti as int,
            TASK_INFO_SIZE as int,
            Access::Write,
        ) {
            0isize
        } else {
            -1isize
        },
{
    let ghost o = old(kernel)@;
    let pid = kernel.current.unwrap();
    proof {
        lemma_current(o);
    }
    let now = kernel.time_us / 1000;
    let info = match &kernel.tasks[pid] {
        Some(current) => {
            let time = match current.start_time {
                Some(start) => if now >= start {
                    now - start
                } else {
                    0
                },
                None => 0,
            };
            let syscall_times = current.sys_times.clone();
            assert(syscall_times@ =~= current.sys_times@);
            Some(TaskInfo { status: current.status, syscall_times, time })
        },
        None => None,
    };
    let byte_ti = match info {
        Some(info) => info.to_bytes(),
        None => Vec::new(),
    };
    if store_to_current(kernel, ti, &byte_ti) {
        0
    } else {
        -1
    }
}

/// The counter of the system call `id` after one more call; it stops at
/// the largest value it can hold.
pub open spec fn counted(counts: Seq<u32>, id: usize) -> Seq<u32> {
    if id < counts.len() {
        counts.update(
            id as int,
            if counts[id as int] == u32::MAX {
                u32::MAX
            } else {
                (counts[id as int] + 1) as u32
            },
        )
    } else {
        counts
    }
}

/// Counts one call of the system call `id` for the current task. An `id`
/// that no counter exists for is not counted.
pub fn record_syscall(kernel: &mut Kernel, id: usize)
    requires
        old(kernel).wf(),
        old(kernel)@.current is Some,
    ensures
        final(kernel).wf(),
        final(kernel)@ == with_current(
            old(kernel)@,
            TaskView {
                sys_times: counted(current_task(old(kernel)@).sys_times, id),
                ..current_task(old(kernel)@)
            },
        ),
{
    let ghost o = old(kernel)@;
    let pid = kernel.current.unwrap();
    proof {
        lemma_current(o);
    }
    if id < MAX_SYSCALL_NUM {
        match &mut kernel.tasks[pid] {
            Some(task) => {
                let n = task.sys_times[id];
                if n < u32::MAX {
                    task.sys_times[id] = n + 1;
                }
            },
            None => {},
        }
    }
    proof {
        let t = current_task(o);
        assert(kernel@.tasks =~= with_current(
            o,
            TaskView { sys_times: counted(t.sys_times, id), ..t },
        ).tasks) by {
            assert(kernel@.tasks[pid as int]->0.sys_times =~= counted(t.sys_times, id));
        }
        lemma_changed_wf(o, kernel@, pid as int);
    }
}

/// A mapping of a free, page-aligned, non-empty range with valid
/// permissions succeeds. Afterwards every address of the range is mapped
/// with the permissions asked for, user access among them, and reads as
/// zero; and every address mapped before is mapped as before.
pub proof fn lemma_mmap_maps(k: KernelView, start: usize, len: usize, port: usize)
    requires
        kernel_wf(k),
        k.current is Some,
        is_page_aligned(start as int),
        len > 0,
        start + len <= usize::MAX,
        port_valid(port),
        !conflicts(current_task(k).memory, start as int, start + len),
    ensures
        mmap_succeeds(k, start, len, port),
        ({
            let m0 = current_task(k).memory;
            let m1 = current_task(mmap_post(k, start, len, port)).memory;
            &&& areas_wf(m1)
            &&& forall|a: int|
                start <= a < start + len ==> {
                    &&& #[trigger] is_mapped(m1, a)
                    &&& perm_at(m1, a) == port_perm(port)
                    &&& byte_at(m1, a) == 0
                    &&& accessible(m1, a, Access::Read) == (port & 1 != 0)
                    &&& accessible(m1, a, Access::Write) == (port & 2 != 0)
                }
            &&& forall|a: int| #[trigger]
                is_mapped(m0, a) ==> is_mapped(m1, a) && perm_at(m1, a) == perm_at(m0, a)
                    && byte_at(m1, a) == byte_at(m0, a)
        }),
{
    lemma_current(k);
    let m0 = current_task(k).memory;
    let area = AreaView {
        start: start as int,
        end: start + len,
        perm: port_perm(port),
        data: zeros(len as int),
    };
    let m1 = m0.push(area);
    assert(current_task(mmap_post(k, start, len, port)).memory == m1);
    lemma_insert_wf(m0, area);
    assert forall|a: int| start <= a < start + len implies {
        &&& #[trigger] is_mapped(m1, a)
        &&& perm_at(m1, a) == port_perm(port)
        &&& byte_at(m1, a) == 0
        &&& accessible(m1, a, Access::Read) == (port & 1 != 0)
        &&& accessible(m1, a, Access::Write) == (port & 2 != 0)
    } by {
        lemma_area_unique(m1, m0.len() as int, a);
    }
    assert forall|a: int| #[trigger] is_mapped(m0, a) implies is_mapped(m1, a) && perm_at(m1, a)
        == perm_at(m0, a) && byte_at(m1, a) == byte_at(m0, a) by {
        let i = crate::mm::memory_set::area_index(m0, a);
        assert(m1[i] == m0[i]);
        lemma_area_unique(m1, i, a);
    }
}

/// A mapping that overlaps a mapped area fails and changes nothing.
pub proof fn lemma_mmap_overlap_rejected(k: KernelView, start: usize, len: usize, port: usize)
    requires
        conflicts(current_task(k).memory, start as int, start + len),
    ensures
        !mmap_succeeds(k, start, len, port),
        mmap_post(k, start, len, port) == k,
{
}

/// After a mapping succeeded, a second mapping that shares an address
/// with the first fails and leaves the first, and everything else, as
/// it was.
pub proof fn lemma_mmap_twice_rejected(
    k: KernelView,
    start: usize,
    len: usize,
    port: usize,
    start2: usize,
    len2: usize,
    port2: usize,
)
    requires
        kernel_wf(k),
        k.current is Some,
        mmap_succeeds(k, start, len, port),
        ranges_intersect(start as int, start + len, start2 as int, start2 + len2),
    ensures
        !mmap_succeeds(mmap_post(k, start, len, port), start2, len2, port2),
        mmap_post(mmap_post(k, start, len, port), start2, len2, port2) == mmap_post(
            k,
            start,
            len,
            port,
        ),
{
    lemma_current(k);
    let k1 = mmap_post(k, start, len, port);
    let m1 = current_task(k1).memory;
    let last = current_task(k).memory.len() as int;
    assert(m1[last].start == start && m1[last].end == start + len);
    assert(ranges_intersect(m1[last].start, m1[last].end, start2 as int, start2 + len2));
}

/// An unmapping of a range that is not exactly a mapped area fails and
/// changes nothing.
pub proof fn lemma_munmap_inexact(k: KernelView, start: usize, len: usize)
    requires
        !has_area(current_task(k).memory, start as int, start + len),
    ensures
        !munmap_succeeds(k, start, len),
        munmap_post(k, start, len) == k,
{
}

/// After an unmapping succeeded, no address of the range is mapped, and
/// a mapping of the same range with valid permissions succeeds.
pub proof fn lemma_munmap_then_mmap(k: KernelView, start: usize, len: usize, port: usize)
    requires
        kernel_wf(k),
        k.current is Some,
        munmap_succeeds(k, start, len),
        port_valid(port),
    ensures
        forall|a: int|
            start <= a < start + len ==> !is_mapped(
                current_task(munmap_post(k, start, len)).memory,
                a,
            ),
        mmap_succeeds(munmap_post(k, start, len), start, len, port),
{
    lemma_current(k);
    let m0 = current_task(k).memory;
    let i = exact_index(m0, start as int, start + len);
    lemma_remove_wf(m0, i);
    assert(area_wf(m0[i]));
    assert(current_task(munmap_post(k, start, len)).memory == m0.remove(i));
}

/// Waiting with no children returns -1 and changes nothing.
pub proof fn lemma_wait_without_children(k: KernelView, pid: isize, exit_code_ptr: usize)
    requires
        current_task(k).children.len() == 0,
    ensures
        waitpid_ret(k, pid, exit_code_ptr) == -1,
        waitpid_post(k, pid, exit_code_ptr) == k,
{
    if has_zombie_child(k, pid) {
        assert(zombie_at(k, pid, first_zombie(k, pid)));
    }
}

/// Waiting for children of which none has exited returns -2 and changes
/// nothing.
pub proof fn lemma_wait_for_running(k: KernelView, pid: isize, exit_code_ptr: usize)
    requires
        has_matching_child(k, pid),
        forall|i: int|
            0 <= i < current_task(k).children.len() ==> k.tasks[#[trigger] current_task(
                k,
            ).children[i] as int]->0.status != TaskStatus::Zombie,
    ensures
        waitpid_ret(k, pid, exit_code_ptr) == -2,
        waitpid_post(k, pid, exit_code_ptr) == k,
{
    if has_zombie_child(k, pid) {
        assert(zombie_at(k, pid, first_zombie(k, pid)));
    }
}

/// Waiting when the `i`-th child is the first that is asked for and has
/// exited, with a writable place for the exit code, returns the pid of
/// that child. Afterwards its exit code is at that place, the child is
/// no longer among the children of the current task nor in the table,
/// and its pid is free.
pub proof fn lemma_wait_reaps(k: KernelView, pid: isize, exit_code_ptr: usize, i: int)
    requires
        kernel_wf(k),
        k.current is Some,
        first_zombie_at(k, pid, i),
        range_accessible(current_task(k).memory, exit_code_ptr as int, 4, Access::Write),
    ensures
        ({
            let c = current_task(k).children[i];
            let code = k.tasks[c as int]->0.exit_code;
            let after = waitpid_post(k, pid, exit_code_ptr);
            &&& waitpid_ret(k, pid, exit_code_ptr) == c
            &&& kernel_wf(after)
            &&& after.current == k.current
            &&& bytes_at(current_task(after).memory, exit_code_ptr as int, 4) == le_bytes(
                i32_bits(code) as nat,
                4,
            )
            &&& current_task(after).children == current_task(k).children.remove(i)
            &&& !current_task(after).children.contains(c)
            &&& !task_live(after.tasks, c as int)
            &&& after.recycled == k.recycled.push(c)
        }),
{
    lemma_current(k);
    lemma_first_zombie_unique(k, pid, i);
    assert(has_matching_child(k, pid));
    let t = current_task(k);
    let c = t.children[i];
    let code = k.tasks[c as int]->0.exit_code;
    let fds = k.tasks[c as int]->0.fds;
    let bytes = le_bytes(i32_bits(code) as nat, 4);
    lemma_le_bytes_len(i32_bits(code) as nat, 4);
    let k1 = with_current(k, TaskView { memory: write_bytes(t.memory, exit_code_ptr as int, bytes), ..t });
    crate::mm::user_buffer::lemma_write_keeps_shape(t.memory, exit_code_ptr as int, bytes);
    lemma_changed_wf(k, k1, k.current->0 as int);
    lemma_child(k, k.current->0 as int, i);
    assert(can_reap(k1, k.current->0, i));
    lemma_reap_wf(k1, k.current->0, i);
    lemma_reap_facts(k1, k.current->0, i);
    assert forall|a: int| exit_code_ptr <= a < exit_code_ptr + bytes.len() implies is_mapped(
        t.memory,
        a,
    ) by {
        assert(accessible(t.memory, a, Access::Write));
    }
    lemma_read_back(t.memory, exit_code_ptr as int, bytes);
    lemma_released_all_wf(wait_reaped(k, pid, exit_code_ptr), fds, fds.len() as int);
}

/// Waiting for a child right after the fork that made it, before it ran,
/// returns -2: the child is there, and has not exited.
pub proof fn lemma_fork_then_wait(k: KernelView, exit_code_ptr: usize)
    requires
        kernel_wf(k),
        k.current is Some,
        next_pid(k) is Some,
    ensures
        waitpid_ret(fork_post(k), next_pid(k)->0 as isize, exit_code_ptr) == -2,
        waitpid_post(fork_post(k), next_pid(k)->0 as isize, exit_code_ptr) == fork_post(k),
{
    lemma_current(k);
    let p = k.current->0;
    let c = next_pid(k)->0;
    let parent = k.tasks[p as int]->0;
    let child = forked_task(parent, c);
    assert(crate::task::model::can_add_child(k, p, child)) by {
        assert(task_wf(child));
    }
    lemma_child_added_shape(k, p, child);
    crate::task::model::lemma_next_pid_free(k);
    let f = fork_post(k);
    let pid = c as isize;
    assert(current_task(f).children == parent.children.push(c));
    assert(f.tasks[c as int]->0.status == TaskStatus::Ready);
    assert(child_matches(pid, current_task(f).children[parent.children.len() as int]));
    assert(has_matching_child(f, pid));
    if has_zombie_child(f, pid) {
        let i = first_zombie(f, pid);
        assert(zombie_at(f, pid, i));
    }
}

} // verus!
