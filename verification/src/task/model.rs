//! The mathematical model of the kernel core, its invariant, and the proofs
//! that the steps of the kernel keep it.

use crate::config::INIT_PID;
use crate::fs::inode::fs_wf;
use crate::fs::{io_extends, File, FileHandle, IoView};
use crate::task::manager::{
    first_min, is_first_min, lemma_first_min_exists, next_up, queue_live, queue_strides, round,
    strides_of, Contender,
};
use crate::task::task::{next_stride, task_live, task_wf, TaskStatus, TaskView};
use vstd::prelude::*;

verus! {

/// Mathematical model of the kernel core.
pub struct KernelView {
    /// The tasks, by pid.
    pub tasks: Seq<Option<TaskView>>,
    /// The free pids below `tasks.len()`, last released last.
    pub recycled: Seq<usize>,
    /// The task on the processor.
    pub current: Option<usize>,
    /// The ready queue.
    pub ready: Seq<usize>,
    /// The inode store, the console and the positions of open files.
    pub io: IoView,
    /// The time, in microseconds, as of the last look at the clock.
    pub time_us: usize,
}

/// Whether every handle of a descriptor table refers to something that
/// exists in `io`.
pub open spec fn fds_valid(fds: Seq<Option<FileHandle>>, io: IoView) -> bool {
    forall|i: int| 0 <= i < fds.len() && (#[trigger] fds[i]) is Some ==> fds[i]->0.valid(io)
}

/// Every task sits at its pid, is well formed, and holds valid handles.
#[verifier::opaque]
pub open spec fn tasks_wf(k: KernelView) -> bool {
    forall|p: int| #[trigger]
        task_live(k.tasks, p) ==> {
            &&& k.tasks[p]->0.pid == p
            &&& task_wf(k.tasks[p]->0)
            &&& fds_valid(k.tasks[p]->0.fds, k.io)
        }
}

/// Whoever a task lists as a child exists and has that task as parent.
#[verifier::opaque]
pub open spec fn children_linked(tasks: Seq<Option<TaskView>>) -> bool {
    forall|p: int, i: int|
        task_live(tasks, p) && 0 <= i < tasks[p]->0.children.len() ==> {
            let c = #[trigger] tasks[p]->0.children[i];
            task_live(tasks, c as int) && tasks[c as int]->0.parent == Some(p as usize)
        }
}

/// Every task but the initial one has a parent, which exists and lists it.
#[verifier::opaque]
pub open spec fn parents_linked(tasks: Seq<Option<TaskView>>) -> bool {
    forall|c: int| #[trigger]
        task_live(tasks, c) && c != INIT_PID ==> {
            let q = tasks[c]->0.parent;
            q is Some && task_live(tasks, q->0 as int) && tasks[q->0 as int]->0.children.contains(
                c as usize,
            )
        }
}

/// No task lists a child twice.
#[verifier::opaque]
pub open spec fn children_distinct(tasks: Seq<Option<TaskView>>) -> bool {
    forall|p: int| #[trigger] task_live(tasks, p) ==> tasks[p]->0.children.no_duplicates()
}

/// An exited task, unless it is the initial one, has no children.
#[verifier::opaque]
pub open spec fn zombies_childless(tasks: Seq<Option<TaskView>>) -> bool {
    forall|p: int| #[trigger]
        task_live(tasks, p) && p != INIT_PID && tasks[p]->0.status == TaskStatus::Zombie
            ==> tasks[p]->0.children.len() == 0
}

/// Parents and children agree, and the initial task exists and has no parent.
pub open spec fn family_wf(tasks: Seq<Option<TaskView>>) -> bool {
    &&& task_live(tasks, INIT_PID as int)
    &&& tasks[INIT_PID as int]->0.parent is None
    &&& children_linked(tasks)
    &&& parents_linked(tasks)
    &&& children_distinct(tasks)
    &&& zombies_childless(tasks)
}

/// The current task is the one that runs, and no other does.
#[verifier::opaque]
pub open spec fn current_wf(k: KernelView) -> bool {
    &&& k.current is Some ==> task_live(k.tasks, k.current->0 as int) && k.tasks[k.current->0 as int]->0.status
        == TaskStatus::Running
    &&& forall|p: int| #[trigger]
        task_live(k.tasks, p) && k.tasks[p]->0.status == TaskStatus::Running ==> k.current == Some(
            p as usize,
        )
}

/// The queued tasks exist, are ready, and are queued once.
#[verifier::opaque]
pub open spec fn ready_wf(k: KernelView) -> bool {
    &&& forall|i: int|
        0 <= i < k.ready.len() ==> task_live(k.tasks, #[trigger] k.ready[i] as int)
            && k.tasks[k.ready[i] as int]->0.status == TaskStatus::Ready
    &&& k.ready.no_duplicates()
}

/// The free pids are distinct and name empty slots of the table, whose
/// length a system call can return.
#[verifier::opaque]
pub open spec fn pids_wf(k: KernelView) -> bool {
    &&& 1 <= k.tasks.len() <= isize::MAX
    &&& forall|i: int|
        0 <= i < k.recycled.len() ==> 0 <= #[trigger] k.recycled[i] < k.tasks.len()
            && k.tasks[k.recycled[i] as int] is None
    &&& k.recycled.no_duplicates()
}

/// The invariant of the kernel core.
pub open spec fn kernel_wf(k: KernelView) -> bool {
    &&& tasks_wf(k)
    &&& family_wf(k.tasks)
    &&& current_wf(k)
    &&& ready_wf(k)
    &&& pids_wf(k)
    &&& fs_wf(k.io.fs)
}

/// Whether `pid` names a ready task that is not queued.
pub open spec fn can_queue(k: KernelView, pid: usize) -> bool {
    &&& task_live(k.tasks, pid as int)
    &&& k.tasks[pid as int]->0.status == TaskStatus::Ready
    &&& !k.ready.contains(pid)
}

/// The kernel after the scheduler picked the next task: the ready task
/// with the smallest stride, the earliest queued among equals, leaves the
/// queue, runs, and is charged its pass; the first time it runs, the time
/// is noted. With no ready task the processor idles.
pub open spec fn dispatched(k: KernelView) -> KernelView {
    if k.ready.len() == 0 {
        KernelView { current: None, ..k }
    } else {
        let i = first_min(queue_strides(k.ready, k.tasks));
        let p = k.ready[i];
        let t = k.tasks[p as int]->0;
        KernelView {
            tasks: k.tasks.update(
                p as int,
                Some(
                    TaskView {
                        status: TaskStatus::Running,
                        stride: next_stride(t.stride, t.priority),
                        start_time: if t.start_time is None {
                            Some((k.time_us / 1000) as usize)
                        } else {
                            t.start_time
                        },
                        ..t
                    },
                ),
            ),
            ready: k.ready.remove(i),
            current: Some(p),
            ..k
        }
    }
}

/// The kernel after the current task was taken off the processor and
/// queued, before the scheduler picks the next task.
pub open spec fn parked(k: KernelView) -> KernelView {
    let p = k.current->0;
    let t = k.tasks[p as int]->0;
    KernelView {
        tasks: k.tasks.update(p as int, Some(TaskView { status: TaskStatus::Ready, ..t })),
        ready: k.ready.push(p),
        current: None,
        ..k
    }
}

/// The kernel after the current task gave up the processor: it is ready
/// again, at the back of the queue, and the scheduler picks the next task.
pub open spec fn suspended(k: KernelView) -> KernelView {
    dispatched(parked(k))
}

/// The pid that the next new task gets: the pid released last, or else
/// the lowest pid never used; none when pids have run out.
pub open spec fn next_pid(k: KernelView) -> Option<usize> {
    if k.recycled.len() > 0 {
        Some(k.recycled.last())
    } else if k.tasks.len() < isize::MAX {
        Some(k.tasks.len() as usize)
    } else {
        None
    }
}

/// The kernel after the pid `next_pid(k)` was taken out of the free pids.
pub open spec fn pid_taken(k: KernelView) -> KernelView {
    if k.recycled.len() > 0 {
        KernelView { recycled: k.recycled.drop_last(), ..k }
    } else if k.tasks.len() < isize::MAX {
        KernelView { tasks: k.tasks.push(None), ..k }
    } else {
        k
    }
}

/// The kernel after `child` joined the table as a new child of the task
/// `parent`: it sits at its pid, and its parent lists it last.
pub open spec fn child_added(k: KernelView, parent: usize, child: TaskView) -> KernelView {
    let k1 = pid_taken(k);
    let pt = k.tasks[parent as int]->0;
    KernelView {
        tasks: k1.tasks.update(child.pid as int, Some(child)).update(
            parent as int,
            Some(TaskView { children: pt.children.push(child.pid), ..pt }),
        ),
        ..k1
    }
}

/// What is left of a task that exited with `code`: a zombie that keeps
/// its exit code, without address space and, unless it is the initial
/// task, without children.
pub open spec fn zombie_of(t: TaskView, code: i32) -> TaskView {
    TaskView {
        status: TaskStatus::Zombie,
        exit_code: code,
        memory: Seq::empty(),
        children: if t.pid == INIT_PID {
            t.children
        } else {
            Seq::empty()
        },
        ..t
    }
}

/// The table after the first `n` children of task `p` were handed over to
/// the initial task: it lists them after its own, in their order, and is
/// their parent.
#[verifier::opaque]
pub open spec fn adopted(tasks: Seq<Option<TaskView>>, p: usize, n: int) -> Seq<
    Option<TaskView>,
> {
    let orphans = tasks[p as int]->0.children.subrange(0, n);
    let init = tasks[INIT_PID as int]->0;
    Seq::new(
        tasks.len(),
        |q: int|
            if q == INIT_PID {
                Some(TaskView { children: init.children.add(orphans), ..init })
            } else if tasks[q] is Some && orphans.contains(q as usize) {
                Some(TaskView { parent: Some(INIT_PID), ..tasks[q]->0 })
            } else {
                tasks[q]
            },
    )
}

/// The table after the current task `p` exited with `code`: its children,
/// if it is not the initial task, belong to the initial task, and it is a
/// zombie.
pub open spec fn exit_tasks(tasks: Seq<Option<TaskView>>, p: usize, code: i32) -> Seq<
    Option<TaskView>,
> {
    let t1 = if p == INIT_PID {
        tasks
    } else {
        adopted(tasks, p, tasks[p as int]->0.children.len() as int)
    };
    t1.update(p as int, Some(zombie_of(t1[p as int]->0, code)))
}

/// The kernel after the current task exited with `code`, before the
/// scheduler picks the next task.
pub open spec fn exit_parked(k: KernelView, code: i32) -> KernelView {
    KernelView { tasks: exit_tasks(k.tasks, k.current->0, code), current: None, ..k }
}

/// The kernel after the current task exited with `code` and the scheduler
/// picked the next task.
pub open spec fn exited(k: KernelView, code: i32) -> KernelView {
    dispatched(exit_parked(k, code))
}

/// The kernel after task `p` was relieved of its `i`-th child: the child
/// is gone from the table, and its pid is free.
pub open spec fn reaped(k: KernelView, p: usize, i: int) -> KernelView {
    let t = k.tasks[p as int]->0;
    let c = t.children[i];
    KernelView {
        tasks: k.tasks.update(p as int, Some(TaskView { children: t.children.remove(i), ..t })).update(
            c as int,
            None,
        ),
        recycled: k.recycled.push(c),
        ..k
    }
}

// ---------------------------------------------------------------------
// What the invariant says of single tasks
// ---------------------------------------------------------------------
/// A task of the table sits at its pid, is well formed, and holds valid handles.
pub proof fn lemma_task(k: KernelView, p: int)
    requires
        kernel_wf(k),
        task_live(k.tasks, p),
    ensures
        k.tasks[p]->0.pid == p,
        task_wf(k.tasks[p]->0),
        fds_valid(k.tasks[p]->0.fds, k.io),
        0 <= p < isize::MAX,
        k.tasks.len() <= isize::MAX,
{
    reveal(tasks_wf);
    reveal(pids_wf);
}

/// The current task exists and runs.
pub proof fn lemma_current(k: KernelView)
    requires
        kernel_wf(k),
        k.current is Some,
    ensures
        task_live(k.tasks, k.current->0 as int),
        k.tasks[k.current->0 as int]->0.status == TaskStatus::Running,
        k.tasks[k.current->0 as int]->0.pid == k.current->0,
        task_wf(k.tasks[k.current->0 as int]->0),
        fds_valid(k.tasks[k.current->0 as int]->0.fds, k.io),
        k.current->0 < isize::MAX,
        k.tasks.len() <= isize::MAX,
{
    reveal(current_wf);
    lemma_task(k, k.current->0 as int);
}

/// The initial task exists.
pub proof fn lemma_init(k: KernelView)
    requires
        kernel_wf(k),
    ensures
        task_live(k.tasks, INIT_PID as int),
        k.tasks[INIT_PID as int]->0.parent is None,
        k.tasks.len() <= isize::MAX,
{
    reveal(pids_wf);
}

/// The queued tasks exist and are ready; none is queued twice.
pub proof fn lemma_ready(k: KernelView)
    requires
        kernel_wf(k),
    ensures
        queue_live(k.ready, k.tasks),
        forall|i: int|
            0 <= i < k.ready.len() ==> k.tasks[#[trigger] k.ready[i] as int]->0.status
                == TaskStatus::Ready,
        k.ready.no_duplicates(),
{
    reveal(ready_wf);
}

/// A listed child exists, has the lister as parent, and is not the
/// initial task.
pub proof fn lemma_child(k: KernelView, p: int, i: int)
    requires
        kernel_wf(k),
        task_live(k.tasks, p),
        0 <= i < k.tasks[p]->0.children.len(),
    ensures
        task_live(k.tasks, k.tasks[p]->0.children[i] as int),
        k.tasks[k.tasks[p]->0.children[i] as int]->0.parent == Some(p as usize),
        k.tasks[p]->0.children[i] != INIT_PID,
        k.tasks[k.tasks[p]->0.children[i] as int]->0.pid == k.tasks[p]->0.children[i],
{
    reveal(children_linked);
    let c = k.tasks[p]->0.children[i];
    assert(task_live(k.tasks, c as int) && k.tasks[c as int]->0.parent == Some(p as usize));
    lemma_task(k, c as int);
}

/// A task other than the initial one is listed by its parent.
pub proof fn lemma_parent(k: KernelView, c: int)
    requires
        kernel_wf(k),
        task_live(k.tasks, c),
        c != INIT_PID,
    ensures
        k.tasks[c]->0.parent is Some,
        task_live(k.tasks, k.tasks[c]->0.parent->0 as int),
        k.tasks[k.tasks[c]->0.parent->0 as int]->0.children.contains(c as usize),
{
    reveal(parents_linked);
}

/// A free pid names an empty slot.
pub proof fn lemma_next_pid_free(k: KernelView)
    requires
        kernel_wf(k),
        next_pid(k) is Some,
    ensures
        !task_live(k.tasks, next_pid(k)->0 as int),
        next_pid(k)->0 < isize::MAX,
        next_pid(k)->0 < pid_taken(k).tasks.len(),
        pid_taken(k).tasks.len() <= isize::MAX,
{
    reveal(pids_wf);
    if k.recycled.len() > 0 {
        assert(k.tasks[k.recycled[k.recycled.len() - 1] as int] is None);
    }
}

/// Handles stay valid as long as no inode and no open position
/// disappears.
pub proof fn lemma_fds_stay_valid(fds: Seq<Option<FileHandle>>, o: IoView, n: IoView)
    requires
        fds_valid(fds, o),
        io_extends(o, n),
    ensures
        fds_valid(fds, n),
{
    assert forall|i: int| 0 <= i < fds.len() && (#[trigger] fds[i]) is Some implies fds[i]->0.valid(
        n,
    ) by {
        assert(fds[i]->0.valid(o));
    }
}

/// What is left of a sequence without duplicates after one removal has
/// none, and holds what the sequence held but for the removed item.
pub proof fn lemma_remove_keeps(s: Seq<usize>, i: int)
    requires
        0 <= i < s.len(),
        s.no_duplicates(),
    ensures
        s.remove(i).no_duplicates(),
        !s.remove(i).contains(s[i]),
        forall|j: int| 0 <= j < s.remove(i).len() ==> s.contains(#[trigger] s.remove(i)[j]),
        forall|x: usize| s.contains(x) && x != s[i] ==> s.remove(i).contains(x),
{
    let r = s.remove(i);
    assert forall|a: int, b: int| 0 <= a < r.len() && 0 <= b < r.len() && a != b implies r[a]
        != r[b] by {
        let a0 = if a < i { a } else { a + 1 };
        let b0 = if b < i { b } else { b + 1 };
        assert(r[a] == s[a0] && r[b] == s[b0]);
    }
    assert forall|j: int| 0 <= j < r.len() implies s.contains(#[trigger] r[j]) && r[j] != s[i] by {
        let j0 = if j < i { j } else { j + 1 };
        assert(r[j] == s[j0]);
    }
    assert forall|x: usize| s.contains(x) && x != s[i] implies r.contains(x) by {
        let j = choose|j: int| 0 <= j < s.len() && s[j] == x;
        let j1 = if j < i { j } else { j - 1 };
        assert(r[j1] == x);
    }
}

// ---------------------------------------------------------------------
// Steps that change one task and leave families alone
// ---------------------------------------------------------------------
/// Whether `n` differs from `o` at most in task `p`, which keeps its pid,
/// parent and children, is well formed and holds valid handles, and in
/// the devices, which lost no inode and no open position.
pub open spec fn task_changed(o: KernelView, n: KernelView, p: int) -> bool {
    &&& task_live(o.tasks, p)
    &&& n.tasks.len() == o.tasks.len()
    &&& forall|q: int| 0 <= q < o.tasks.len() && q != p ==> n.tasks[q] == o.tasks[q]
    &&& n.tasks[p] is Some
    &&& n.tasks[p]->0.pid == p
    &&& n.tasks[p]->0.parent == o.tasks[p]->0.parent
    &&& n.tasks[p]->0.children == o.tasks[p]->0.children
    &&& task_wf(n.tasks[p]->0)
    &&& fds_valid(n.tasks[p]->0.fds, n.io)
    &&& io_extends(o.io, n.io)
    &&& fs_wf(n.io.fs)
    &&& n.recycled == o.recycled
}

/// Such a change keeps what the invariant says of single tasks.
pub proof fn lemma_changed_tasks(o: KernelView, n: KernelView, p: int)
    requires
        kernel_wf(o),
        task_changed(o, n, p),
    ensures
        tasks_wf(n),
        pids_wf(n),
{
    reveal(tasks_wf);
    reveal(pids_wf);
    assert forall|q: int| #[trigger] task_live(n.tasks, q) implies {
        &&& n.tasks[q]->0.pid == q
        &&& task_wf(n.tasks[q]->0)
        &&& fds_valid(n.tasks[q]->0.fds, n.io)
    } by {
        if q != p {
            assert(task_live(o.tasks, q));
            lemma_fds_stay_valid(o.tasks[q]->0.fds, o.io, n.io);
        }
    }
}

/// Such a change keeps what the invariant says of families, unless it
/// makes a zombie of a task with children.
pub proof fn lemma_changed_family(o: KernelView, n: KernelView, p: int)
    requires
        kernel_wf(o),
        task_changed(o, n, p),
        n.tasks[p]->0.status == TaskStatus::Zombie && p != INIT_PID ==> n.tasks[p]->0.children.len()
            == 0,
    ensures
        family_wf(n.tasks),
{
    lemma_init(o);
    assert(task_live(n.tasks, INIT_PID as int));
    assert(children_linked(n.tasks)) by {
        reveal(children_linked);
        assert forall|q: int, i: int|
            task_live(n.tasks, q) && 0 <= i < n.tasks[q]->0.children.len() implies {
            let c = #[trigger] n.tasks[q]->0.children[i];
            task_live(n.tasks, c as int) && n.tasks[c as int]->0.parent == Some(q as usize)
        } by {
            assert(task_live(o.tasks, q));
            let c = o.tasks[q]->0.children[i];
            assert(task_live(o.tasks, c as int) && o.tasks[c as int]->0.parent == Some(
                q as usize,
            ));
        }
    }
    assert(parents_linked(n.tasks)) by {
        reveal(parents_linked);
        assert forall|c: int| #[trigger] task_live(n.tasks, c) && c != INIT_PID implies {
            let q = n.tasks[c]->0.parent;
            q is Some && task_live(n.tasks, q->0 as int)
                && n.tasks[q->0 as int]->0.children.contains(c as usize)
        } by {
            assert(task_live(o.tasks, c));
        }
    }
    assert(children_distinct(n.tasks)) by {
        reveal(children_distinct);
        assert forall|q: int| #[trigger] task_live(n.tasks, q) implies n.tasks[q]->0.children.no_duplicates() by {
            assert(task_live(o.tasks, q));
        }
    }
    assert(zombies_childless(n.tasks)) by {
        reveal(zombies_childless);
        assert forall|q: int| #[trigger]
            task_live(n.tasks, q) && q != INIT_PID && n.tasks[q]->0.status
                == TaskStatus::Zombie implies n.tasks[q]->0.children.len() == 0 by {
            if q != p {
                assert(task_live(o.tasks, q));
            }
        }
    }
}

/// A change to one task that also keeps its status, the current task and
/// the ready queue keeps the invariant.
pub proof fn lemma_changed_wf(o: KernelView, n: KernelView, p: int)
    requires
        kernel_wf(o),
        task_changed(o, n, p),
        n.tasks[p]->0.status == o.tasks[p]->0.status,
        n.current == o.current,
        n.ready == o.ready,
    ensures
        kernel_wf(n),
{
    lemma_init(o);
    lemma_changed_tasks(o, n, p);
    assert(o.tasks[p]->0.status == TaskStatus::Zombie && p != INIT_PID
        ==> o.tasks[p]->0.children.len() == 0) by {
        reveal(zombies_childless);
    }
    lemma_changed_family(o, n, p);
    assert(current_wf(n)) by {
        reveal(current_wf);
        assert forall|q: int| #[trigger]
            task_live(n.tasks, q) && n.tasks[q]->0.status
                == TaskStatus::Running implies n.current == Some(q as usize) by {
            assert(task_live(o.tasks, q));
        }
        if o.current is Some {
            assert(task_live(o.tasks, o.current->0 as int));
        }
    }
    assert(ready_wf(n)) by {
        reveal(ready_wf);
        assert forall|i: int| 0 <= i < n.ready.len() implies task_live(
            n.tasks,
            #[trigger] n.ready[i] as int,
        ) && n.tasks[n.ready[i] as int]->0.status == TaskStatus::Ready by {
            assert(task_live(o.tasks, o.ready[i] as int));
        }
    }
}

/// The invariant survives a change of the devices that keeps every
/// inode, every open position and the invariant of the inode store, and
/// a change of the time.
pub proof fn lemma_io_changed_wf(o: KernelView, n: KernelView)
    requires
        kernel_wf(o),
        n == (KernelView { io: n.io, time_us: n.time_us, ..o }),
        io_extends(o.io, n.io),
        fs_wf(n.io.fs),
    ensures
        kernel_wf(n),
{
    reveal(tasks_wf);
    reveal(current_wf);
    reveal(ready_wf);
    reveal(pids_wf);
    assert forall|q: int| #[trigger] task_live(n.tasks, q) implies {
        &&& n.tasks[q]->0.pid == q
        &&& task_wf(n.tasks[q]->0)
        &&& fds_valid(n.tasks[q]->0.fds, n.io)
    } by {
        assert(task_live(o.tasks, q));
        lemma_fds_stay_valid(o.tasks[q]->0.fds, o.io, n.io);
    }
}

/// The invariant survives a change of the ready queue that leaves it
/// without duplicates and made of ready tasks.
pub proof fn lemma_ready_changed_wf(o: KernelView, n: KernelView)
    requires
        kernel_wf(o),
        n == (KernelView { ready: n.ready, ..o }),
        n.ready.no_duplicates(),
        forall|i: int|
            0 <= i < n.ready.len() ==> task_live(o.tasks, #[trigger] n.ready[i] as int)
                && o.tasks[n.ready[i] as int]->0.status == TaskStatus::Ready,
    ensures
        kernel_wf(n),
{
    reveal(tasks_wf);
    reveal(current_wf);
    reveal(ready_wf);
    reveal(pids_wf);
    assert forall|q: int| #[trigger] task_live(n.tasks, q) implies {
        &&& n.tasks[q]->0.pid == q
        &&& task_wf(n.tasks[q]->0)
        &&& fds_valid(n.tasks[q]->0.fds, n.io)
    } by {
        assert(task_live(o.tasks, q));
    }
}

// ---------------------------------------------------------------------
// Scheduling
// ---------------------------------------------------------------------
/// Picking the next task keeps the invariant.
pub proof fn lemma_dispatch_wf(o: KernelView)
    requires
        kernel_wf(o),
        o.current is None,
    ensures
        kernel_wf(dispatched(o)),
        o.ready.len() > 0 ==> dispatched(o).current is Some,
{
    let n = dispatched(o);
    lemma_init(o);
    if o.ready.len() > 0 {
        let strides = queue_strides(o.ready, o.tasks);
        lemma_first_min_exists(strides);
        let i = first_min(strides);
        let p = o.ready[i];
        lemma_ready(o);
        assert(task_live(o.tasks, o.ready[i] as int));
        lemma_task(o, p as int);
        lemma_remove_keeps(o.ready, i);
        assert(n.tasks[p as int]->0.stride == next_stride(
            o.tasks[p as int]->0.stride,
            o.tasks[p as int]->0.priority,
        ));
        assert(task_changed(o, n, p as int));
        lemma_changed_tasks(o, n, p as int);
        lemma_changed_family(o, n, p as int);
        assert(ready_wf(n)) by {
            reveal(ready_wf);
            assert forall|j: int| 0 <= j < n.ready.len() implies task_live(
                n.tasks,
                #[trigger] n.ready[j] as int,
            ) && n.tasks[n.ready[j] as int]->0.status == TaskStatus::Ready by {
                assert(o.ready.contains(n.ready[j]));
                let j0 = choose|j0: int| 0 <= j0 < o.ready.len() && o.ready[j0] == n.ready[j];
                assert(task_live(o.tasks, o.ready[j0] as int));
            }
        }
        assert(current_wf(n)) by {
            reveal(current_wf);
            assert forall|q: int| #[trigger]
                task_live(n.tasks, q) && n.tasks[q]->0.status
                    == TaskStatus::Running implies n.current == Some(q as usize) by {
                if q != p {
                    assert(task_live(o.tasks, q));
                }
            }
        }
    } else {
        lemma_io_changed_wf(o, n);
    }
}

/// The ready tasks of `k` as the contenders of the scheduler, in queue
/// order, their runs counted from now.
pub open spec fn contenders_of(k: KernelView) -> Seq<Contender> {
    Seq::new(
        k.ready.len(),
        |i: int|
            Contender {
                stride: k.tasks[k.ready[i] as int]->0.stride,
                priority: k.tasks[k.ready[i] as int]->0.priority,
                runs: 0,
            },
    )
}

/// The scheduler of the kernel picks as one dispatch among the ready
/// tasks does: the task that runs is the contender that is next up, and
/// it is charged the same stride.
pub proof fn lemma_dispatch_is_round(k: KernelView)
    requires
        kernel_wf(k),
        k.current is None,
        k.ready.len() > 0,
    ensures
        ({
            let cs = contenders_of(k);
            let d = next_up(cs);
            let p = k.ready[d];
            &&& 0 <= d < k.ready.len()
            &&& dispatched(k).current == Some(p)
            &&& dispatched(k).ready == k.ready.remove(d)
            &&& dispatched(k).tasks[p as int]->0.stride == round(cs)[d].stride
        }),
{
    let cs = contenders_of(k);
    assert(strides_of(cs) =~= queue_strides(k.ready, k.tasks));
    lemma_first_min_exists(strides_of(cs));
    lemma_ready(k);
    let d = next_up(cs);
    assert(task_live(k.tasks, k.ready[d] as int));
}

/// Taking the current task off the processor and queueing it keeps the
/// invariant, and leaves a task to run.
pub proof fn lemma_park_wf(o: KernelView)
    requires
        kernel_wf(o),
        o.current is Some,
    ensures
        kernel_wf(parked(o)),
        parked(o).ready.len() > 0,
        parked(o).current is None,
{
    let p = o.current->0;
    let n = parked(o);
    lemma_current(o);
    lemma_ready(o);
    assert(task_changed(o, n, p as int));
    lemma_changed_tasks(o, n, p as int);
    lemma_changed_family(o, n, p as int);
    assert(ready_wf(n)) by {
        reveal(ready_wf);
        assert forall|j: int| 0 <= j < n.ready.len() implies task_live(
            n.tasks,
            #[trigger] n.ready[j] as int,
        ) && n.tasks[n.ready[j] as int]->0.status == TaskStatus::Ready by {
            if j < o.ready.len() {
                assert(task_live(o.tasks, o.ready[j] as int));
            }
        }
        assert forall|a: int, b: int|
            0 <= a < n.ready.len() && 0 <= b < n.ready.len() && a != b implies n.ready[a]
            != n.ready[b] by {
            if a < o.ready.len() {
                assert(task_live(o.tasks, o.ready[a] as int));
            }
            if b < o.ready.len() {
                assert(task_live(o.tasks, o.ready[b] as int));
            }
        }
    }
    assert(current_wf(n)) by {
        reveal(current_wf);
        assert forall|q: int| #[trigger]
            task_live(n.tasks, q) && n.tasks[q]->0.status
                == TaskStatus::Running implies n.current == Some(q as usize) by {
            if q != p {
                assert(task_live(o.tasks, q));
            }
        }
    }
}

// ---------------------------------------------------------------------
// A new child
// ---------------------------------------------------------------------
/// Whether `child` can join the table as a new child of task `parent`.
pub open spec fn can_add_child(o: KernelView, parent: usize, child: TaskView) -> bool {
    &&& kernel_wf(o)
    &&& task_live(o.tasks, parent as int)
    &&& o.tasks[parent as int]->0.status != TaskStatus::Zombie
    &&& next_pid(o) == Some(child.pid)
    &&& task_wf(child)
    &&& fds_valid(child.fds, o.io)
    &&& child.parent == Some(parent)
    &&& child.children.len() == 0
    &&& child.status == TaskStatus::Ready
}

/// What the table looks like after a child was added.
pub proof fn lemma_child_added_shape(o: KernelView, parent: usize, child: TaskView)
    requires
        can_add_child(o, parent, child),
    ensures
        ({
            let n = child_added(o, parent, child);
            let c = child.pid as int;
            let pt = o.tasks[parent as int]->0;
            &&& !task_live(o.tasks, c)
            &&& c != INIT_PID
            &&& c != parent
            &&& task_live(n.tasks, c)
            &&& n.tasks[c] == Some(child)
            &&& n.tasks[parent as int] == Some(
                TaskView { children: pt.children.push(child.pid), ..pt },
            )
            &&& 1 <= n.tasks.len() <= isize::MAX
            &&& forall|q: int| #[trigger]
                task_live(n.tasks, q) && q != c ==> task_live(o.tasks, q)
            &&& forall|q: int| #[trigger]
                task_live(o.tasks, q) ==> task_live(n.tasks, q) && (q != parent ==> n.tasks[q]
                    == o.tasks[q])
            &&& n.ready == o.ready
            &&& n.current == o.current
            &&& n.io == o.io
        }),
{
    lemma_next_pid_free(o);
    lemma_init(o);
    reveal(pids_wf);
}

/// A new child keeps what the invariant says of single tasks and pids.
pub proof fn lemma_child_added_tasks(o: KernelView, parent: usize, child: TaskView)
    requires
        can_add_child(o, parent, child),
    ensures
        tasks_wf(child_added(o, parent, child)),
        pids_wf(child_added(o, parent, child)),
{
    let n = child_added(o, parent, child);
    let c = child.pid as int;
    lemma_child_added_shape(o, parent, child);
    lemma_task(o, parent as int);
    assert(tasks_wf(n)) by {
        reveal(tasks_wf);
        assert forall|q: int| #[trigger] task_live(n.tasks, q) implies {
            &&& n.tasks[q]->0.pid == q
            &&& task_wf(n.tasks[q]->0)
            &&& fds_valid(n.tasks[q]->0.fds, n.io)
        } by {
            if q != c {
                assert(task_live(o.tasks, q));
            }
        }
    }
    assert(pids_wf(n)) by {
        reveal(pids_wf);
        assert forall|i: int| 0 <= i < n.recycled.len() implies 0 <= #[trigger] n.recycled[i]
            < n.tasks.len() && n.tasks[n.recycled[i] as int] is None by {
            assert(o.tasks[o.recycled[i] as int] is None);
            assert(o.recycled[i] != o.recycled[o.recycled.len() - 1]);
        }
    }
}

/// A new child keeps what the invariant says of families.
pub proof fn lemma_child_added_family(o: KernelView, parent: usize, child: TaskView)
    requires
        can_add_child(o, parent, child),
    ensures
        family_wf(child_added(o, parent, child).tasks),
{
    let n = child_added(o, parent, child);
    let c = child.pid as int;
    let pt = o.tasks[parent as int]->0;
    lemma_child_added_shape(o, parent, child);
    lemma_init(o);
    assert(task_live(n.tasks, INIT_PID as int));
    // no list of children holds the new pid
    assert forall|q: int, i: int|
        task_live(o.tasks, q) && 0 <= i < o.tasks[q]->0.children.len() implies (
    #[trigger] o.tasks[q]->0.children[i]) != c by {
        lemma_child(o, q, i);
    }
    assert(children_linked(n.tasks)) by {
        reveal(children_linked);
        assert forall|q: int, i: int|
            task_live(n.tasks, q) && 0 <= i < n.tasks[q]->0.children.len() implies {
            let x = #[trigger] n.tasks[q]->0.children[i];
            task_live(n.tasks, x as int) && n.tasks[x as int]->0.parent == Some(q as usize)
        } by {
            if q == parent && i == pt.children.len() {
            } else {
                assert(task_live(o.tasks, q));
                lemma_child(o, q, i);
                let x = o.tasks[q]->0.children[i];
                assert(task_live(o.tasks, x as int));
                assert(x != c);
            }
        }
    }
    assert(parents_linked(n.tasks)) by {
        reveal(parents_linked);
        assert forall|x: int| #[trigger] task_live(n.tasks, x) && x != INIT_PID implies {
            let q = n.tasks[x]->0.parent;
            q is Some && task_live(n.tasks, q->0 as int)
                && n.tasks[q->0 as int]->0.children.contains(x as usize)
        } by {
            if x == c {
                assert(n.tasks[parent as int]->0.children[pt.children.len() as int] == c);
            } else {
                assert(task_live(o.tasks, x));
                lemma_parent(o, x);
                let q = o.tasks[x]->0.parent->0;
                assert(task_live(o.tasks, q as int));
                let j = choose|j: int|
                    0 <= j < o.tasks[q as int]->0.children.len()
                        && o.tasks[q as int]->0.children[j] == x as usize;
                assert(n.tasks[q as int]->0.children[j] == x as usize);
            }
        }
    }
    assert(children_distinct(n.tasks)) by {
        reveal(children_distinct);
        assert forall|q: int| #[trigger] task_live(n.tasks, q) implies n.tasks[q]->0.children.no_duplicates() by {
            if q != c {
                assert(task_live(o.tasks, q));
            }
        }
    }
    assert(zombies_childless(n.tasks)) by {
        reveal(zombies_childless);
        assert forall|q: int| #[trigger]
            task_live(n.tasks, q) && q != INIT_PID && n.tasks[q]->0.status
                == TaskStatus::Zombie implies n.tasks[q]->0.children.len() == 0 by {
            if q != c {
                assert(task_live(o.tasks, q));
            }
        }
    }
}

/// A new child keeps the invariant, and can be queued.
pub proof fn lemma_child_added_wf(o: KernelView, parent: usize, child: TaskView)
    requires
        can_add_child(o, parent, child),
    ensures
        kernel_wf(child_added(o, parent, child)),
        can_queue(child_added(o, parent, child), child.pid),
{
    let n = child_added(o, parent, child);
    let c = child.pid as int;
    lemma_init(o);
    lemma_child_added_shape(o, parent, child);
    lemma_child_added_tasks(o, parent, child);
    lemma_child_added_family(o, parent, child);
    lemma_ready(o);
    assert(ready_wf(n)) by {
        reveal(ready_wf);
        assert forall|j: int| 0 <= j < n.ready.len() implies task_live(
            n.tasks,
            #[trigger] n.ready[j] as int,
        ) && n.tasks[n.ready[j] as int]->0.status == TaskStatus::Ready by {
            assert(task_live(o.tasks, o.ready[j] as int));
        }
    }
    assert(current_wf(n)) by {
        reveal(current_wf);
        assert forall|q: int| #[trigger]
            task_live(n.tasks, q) && n.tasks[q]->0.status
                == TaskStatus::Running implies n.current == Some(q as usize) by {
            if q != c {
                assert(task_live(o.tasks, q));
            }
        }
        if o.current is Some {
            assert(task_live(o.tasks, o.current->0 as int));
        }
    }
    assert(!n.ready.contains(child.pid)) by {
        if n.ready.contains(child.pid) {
            let j = choose|j: int| 0 <= j < n.ready.len() && n.ready[j] == child.pid;
            assert(task_live(o.tasks, o.ready[j] as int));
        }
    }
}

// ---------------------------------------------------------------------
// Exit
// ---------------------------------------------------------------------
/// Handing over none of the children changes nothing.
pub proof fn lemma_adopted_none(tasks: Seq<Option<TaskView>>, p: usize)
    requires
        task_live(tasks, INIT_PID as int),
    ensures
        adopted(tasks, p, 0) == tasks,
{
    reveal(adopted);
    let orphans = tasks[p as int]->0.children.subrange(0, 0);
    let init = tasks[INIT_PID as int]->0;
    assert(init.children.add(orphans) =~= init.children);
    assert(adopted(tasks, p, 0) =~= tasks);
}

/// While children are handed over, the table keeps its length and its
/// tasks, and a task other than the initial one keeps its children.
pub proof fn lemma_adopted_shape(tasks: Seq<Option<TaskView>>, p: usize, n: int)
    requires
        task_live(tasks, INIT_PID as int),
        task_live(tasks, p as int),
        p != INIT_PID,
        0 <= n <= tasks[p as int]->0.children.len(),
    ensures
        adopted(tasks, p, n).len() == tasks.len(),
        forall|q: int|
            0 <= q < tasks.len() ==> ((#[trigger] adopted(tasks, p, n)[q]) is Some <==> tasks[q] is Some),
        adopted(tasks, p, n)[p as int]->0.children == tasks[p as int]->0.children,
        adopted(tasks, p, n)[p as int]->0.pid == tasks[p as int]->0.pid,
{
    reveal(adopted);
}

/// Handing over one more child: it gets the initial task as its parent,
/// and the initial task lists it last.
pub proof fn lemma_adopted_step(tasks: Seq<Option<TaskView>>, p: usize, n: int)
    requires
        tasks.len() <= usize::MAX,
        task_live(tasks, INIT_PID as int),
        task_live(tasks, p as int),
        0 <= n < tasks[p as int]->0.children.len(),
        task_live(tasks, tasks[p as int]->0.children[n] as int),
        tasks[p as int]->0.children[n] != INIT_PID,
    ensures
        ({
            let c = tasks[p as int]->0.children[n];
            let a = adopted(tasks, p, n);
            let init = a[INIT_PID as int]->0;
            adopted(tasks, p, n + 1) == a.update(
                c as int,
                Some(TaskView { parent: Some(INIT_PID), ..a[c as int]->0 }),
            ).update(
                INIT_PID as int,
                Some(TaskView { children: init.children.push(c), ..init }),
            )
        }),
{
    reveal(adopted);
    let ch = tasks[p as int]->0.children;
    let c = ch[n];
    let a = adopted(tasks, p, n);
    let init0 = tasks[INIT_PID as int]->0;
    let init = a[INIT_PID as int]->0;
    let pre = ch.subrange(0, n);
    let post = ch.subrange(0, n + 1);
    assert(post =~= pre.push(c));
    assert(init0.children.add(post) =~= init0.children.add(pre).push(c));
    let target = a.update(
        c as int,
        Some(TaskView { parent: Some(INIT_PID), ..a[c as int]->0 }),
    ).update(INIT_PID as int, Some(TaskView { children: init.children.push(c), ..init }));
    let b = adopted(tasks, p, n + 1);
    assert forall|q: int| 0 <= q < tasks.len() implies b[q] == target[q] by {
        if q == INIT_PID {
        } else if q == c {
            assert(post[n] == c);
            assert(post.contains(c));
        } else {
            if pre.contains(q as usize) {
                let j = choose|j: int| 0 <= j < pre.len() && pre[j] == q as usize;
                assert(post[j] == q as usize);
            }
            if post.contains(q as usize) {
                let j = choose|j: int| 0 <= j < post.len() && post[j] == q as usize;
                assert(j != n);
                assert(pre[j] == q as usize);
            }
        }
    }
    assert(b =~= target);
}

/// Task `q` after the task `p` exited with `code`.
pub open spec fn after_exit(tasks: Seq<Option<TaskView>>, p: usize, code: i32, q: int) -> TaskView {
    let a = tasks[q]->0;
    let orphans = tasks[p as int]->0.children;
    let a1 = TaskView {
        parent: if p != INIT_PID && q != INIT_PID && orphans.contains(q as usize) {
            Some(INIT_PID)
        } else {
            a.parent
        },
        children: if q == INIT_PID && p != INIT_PID {
            a.children.add(orphans)
        } else {
            a.children
        },
        ..a
    };
    if q == p {
        zombie_of(a1, code)
    } else {
        a1
    }
}

/// What the table looks like after an exit, task by task.
pub proof fn lemma_exit_shape(o: KernelView, code: i32)
    requires
        kernel_wf(o),
        o.current is Some,
    ensures
        exit_tasks(o.tasks, o.current->0, code).len() == o.tasks.len(),
        forall|q: int|
            0 <= q < o.tasks.len() ==> #[trigger] exit_tasks(o.tasks, o.current->0, code)[q] == if o.tasks[q] is Some {
                Some(after_exit(o.tasks, o.current->0, code, q))
            } else {
                None
            },
{
    reveal(adopted);
    let p = o.current->0;
    lemma_current(o);
    lemma_init(o);
    let orphans = o.tasks[p as int]->0.children;
    assert(orphans.subrange(0, orphans.len() as int) =~= orphans);
    let n = exit_tasks(o.tasks, p, code);
    assert forall|q: int| 0 <= q < o.tasks.len() implies #[trigger] n[q] == if o.tasks[q] is Some {
        Some(after_exit(o.tasks, p, code, q))
    } else {
        None
    } by {
        if o.tasks[q] is Some {
            assert(task_live(o.tasks, q));
            lemma_task(o, q);
        }
    }
}

/// The children of an exiting task are exactly the tasks whose parent it is.
pub proof fn lemma_orphans(o: KernelView, p: int)
    requires
        kernel_wf(o),
        task_live(o.tasks, p),
    ensures
        forall|j: int|
            0 <= j < o.tasks[p]->0.children.len() ==> {
                let x = #[trigger] o.tasks[p]->0.children[j];
                task_live(o.tasks, x as int) && o.tasks[x as int]->0.parent == Some(p as usize)
                    && x != INIT_PID
            },
        forall|x: int| #[trigger]
            task_live(o.tasks, x) && x != INIT_PID && o.tasks[x]->0.parent == Some(p as usize)
                ==> o.tasks[p]->0.children.contains(x as usize),
{
    lemma_init(o);
    assert forall|j: int| 0 <= j < o.tasks[p]->0.children.len() implies {
        let x = #[trigger] o.tasks[p]->0.children[j];
        task_live(o.tasks, x as int) && o.tasks[x as int]->0.parent == Some(p as usize) && x
            != INIT_PID
    } by {
        lemma_child(o, p, j);
    }
    assert forall|x: int| #[trigger]
        task_live(o.tasks, x) && x != INIT_PID && o.tasks[x]->0.parent == Some(
            p as usize,
        ) implies o.tasks[p]->0.children.contains(x as usize) by {
        lemma_parent(o, x);
    }
}

/// An exit keeps what the invariant says of single tasks and pids.
pub proof fn lemma_exit_tasks(o: KernelView, code: i32)
    requires
        kernel_wf(o),
        o.current is Some,
    ensures
        tasks_wf(exit_parked(o, code)),
        pids_wf(exit_parked(o, code)),
{
    let n = exit_parked(o, code);
    lemma_exit_shape(o, code);
    assert(tasks_wf(n)) by {
        reveal(tasks_wf);
        assert forall|q: int| #[trigger] task_live(n.tasks, q) implies {
            &&& n.tasks[q]->0.pid == q
            &&& task_wf(n.tasks[q]->0)
            &&& fds_valid(n.tasks[q]->0.fds, n.io)
        } by {
            assert(task_live(o.tasks, q));
        }
    }
    assert(pids_wf(n)) by {
        reveal(pids_wf);
    }
}

/// After an exit, whoever a task lists as a child has that task as parent.
pub proof fn lemma_exit_children(o: KernelView, code: i32)
    requires
        kernel_wf(o),
        o.current is Some,
    ensures
        children_linked(exit_parked(o, code).tasks),
        children_distinct(exit_parked(o, code).tasks),
{
    let n = exit_parked(o, code);
    let p = o.current->0;
    lemma_exit_shape(o, code);
    lemma_current(o);
    lemma_init(o);
    lemma_orphans(o, p as int);
    lemma_orphans(o, INIT_PID as int);
    let orphans = o.tasks[p as int]->0.children;
    let init0 = o.tasks[INIT_PID as int]->0;
    assert(children_linked(n.tasks)) by {
        reveal(children_linked);
        assert forall|q: int, i: int|
            task_live(n.tasks, q) && 0 <= i < n.tasks[q]->0.children.len() implies {
            let x = #[trigger] n.tasks[q]->0.children[i];
            task_live(n.tasks, x as int) && n.tasks[x as int]->0.parent == Some(q as usize)
        } by {
            assert(task_live(o.tasks, q));
            lemma_task(o, q);
            if q == INIT_PID && p != INIT_PID && i >= init0.children.len() {
                let x = orphans[i - init0.children.len()];
                assert(task_live(o.tasks, x as int));
                assert(orphans.contains(x));
            } else {
                let x = o.tasks[q]->0.children[i];
                assert(task_live(o.tasks, x as int) && o.tasks[x as int]->0.parent == Some(
                    q as usize,
                ));
                if p != INIT_PID && q != p && orphans.contains(x) {
                    let j = choose|j: int| 0 <= j < orphans.len() && orphans[j] == x;
                    assert(o.tasks[orphans[j] as int]->0.parent == Some(p));
                }
            }
        }
    }
    assert(children_distinct(n.tasks)) by {
        reveal(children_distinct);
        assert forall|q: int| #[trigger] task_live(n.tasks, q) implies n.tasks[q]->0.children.no_duplicates() by {
            assert(task_live(o.tasks, q));
            lemma_task(o, q);
            assert(task_live(o.tasks, p as int));
            if q == INIT_PID && p != INIT_PID {
                let kids = init0.children.add(orphans);
                let m = init0.children.len();
                assert forall|a: int, b: int|
                    0 <= a < kids.len() && 0 <= b < kids.len() && a != b implies kids[a]
                    != kids[b] by {
                    if a < m && b >= m {
                        let x = init0.children[a];
                        assert(o.tasks[x as int]->0.parent == Some(INIT_PID));
                        assert(o.tasks[orphans[b - m] as int]->0.parent == Some(p));
                    } else if b < m && a >= m {
                        let x = init0.children[b];
                        assert(o.tasks[x as int]->0.parent == Some(INIT_PID));
                        assert(o.tasks[orphans[a - m] as int]->0.parent == Some(p));
                    }
                }
            }
        }
    }
}

/// After an exit, every task but the initial one is listed by its parent,
/// and zombies have no children.
pub proof fn lemma_exit_parents(o: KernelView, code: i32)
    requires
        kernel_wf(o),
        o.current is Some,
    ensures
        parents_linked(exit_parked(o, code).tasks),
        zombies_childless(exit_parked(o, code).tasks),
{
    let n = exit_parked(o, code);
    let p = o.current->0;
    lemma_exit_shape(o, code);
    lemma_current(o);
    lemma_init(o);
    lemma_orphans(o, p as int);
    let orphans = o.tasks[p as int]->0.children;
    let init0 = o.tasks[INIT_PID as int]->0;
    assert(parents_linked(n.tasks)) by {
        reveal(parents_linked);
        assert forall|x: int| #[trigger] task_live(n.tasks, x) && x != INIT_PID implies {
            let q = n.tasks[x]->0.parent;
            q is Some && task_live(n.tasks, q->0 as int)
                && n.tasks[q->0 as int]->0.children.contains(x as usize)
        } by {
            assert(task_live(o.tasks, x));
            lemma_task(o, x);
            if p != INIT_PID && orphans.contains(x as usize) {
                let j = choose|j: int| 0 <= j < orphans.len() && orphans[j] == x as usize;
                let kids = n.tasks[INIT_PID as int]->0.children;
                assert(kids[init0.children.len() + j] == x as usize);
            } else {
                let q = o.tasks[x]->0.parent->0;
                assert(task_live(o.tasks, q as int));
                lemma_task(o, q as int);
                let j = choose|j: int|
                    0 <= j < o.tasks[q as int]->0.children.len()
                        && o.tasks[q as int]->0.children[j] == x as usize;
                assert(task_live(n.tasks, q as int));
                assert(n.tasks[q as int]->0.children[j] == x as usize);
            }
        }
    }
    assert(zombies_childless(n.tasks)) by {
        reveal(zombies_childless);
        assert forall|q: int| #[trigger]
            task_live(n.tasks, q) && q != INIT_PID && n.tasks[q]->0.status
                == TaskStatus::Zombie implies n.tasks[q]->0.children.len() == 0 by {
            assert(task_live(o.tasks, q));
            lemma_task(o, q);
        }
    }
}

/// An exit leaves a state in which the invariant holds and nothing runs.
pub proof fn lemma_exit_wf(o: KernelView, code: i32)
    requires
        kernel_wf(o),
        o.current is Some,
    ensures
        kernel_wf(exit_parked(o, code)),
        exit_parked(o, code).current is None,
{
    let n = exit_parked(o, code);
    let p = o.current->0;
    lemma_exit_shape(o, code);
    lemma_exit_tasks(o, code);
    lemma_exit_children(o, code);
    lemma_exit_parents(o, code);
    lemma_current(o);
    lemma_init(o);
    lemma_ready(o);
    assert(task_live(n.tasks, INIT_PID as int));
    assert(n.tasks[INIT_PID as int]->0.parent is None);
    assert(ready_wf(n)) by {
        reveal(ready_wf);
        assert forall|j: int| 0 <= j < n.ready.len() implies task_live(
            n.tasks,
            #[trigger] n.ready[j] as int,
        ) && n.tasks[n.ready[j] as int]->0.status == TaskStatus::Ready by {
            assert(task_live(o.tasks, o.ready[j] as int));
        }
    }
    assert(current_wf(n)) by {
        reveal(current_wf);
        assert forall|q: int| #[trigger]
            task_live(n.tasks, q) && n.tasks[q]->0.status
                == TaskStatus::Running implies n.current == Some(q as usize) by {
            assert(task_live(o.tasks, q));
        }
    }
}

/// A task other than the initial one that exits with `code` stays in the
/// table as a zombie that holds `code`, off the processor, without an
/// address space, and listed by its parent, where a wait can find it.
pub proof fn lemma_exit_leaves_zombie(k: KernelView, code: i32)
    requires
        kernel_wf(k),
        k.current is Some,
        k.current->0 != INIT_PID,
    ensures
        ({
            let p = k.current->0;
            let after = exited(k, code);
            &&& kernel_wf(after)
            &&& task_live(after.tasks, p as int)
            &&& after.tasks[p as int]->0.status == TaskStatus::Zombie
            &&& after.tasks[p as int]->0.exit_code == code
            &&& after.tasks[p as int]->0.memory.len() == 0
            &&& after.current != Some(p)
            &&& after.tasks[p as int]->0.parent is Some
            &&& task_live(after.tasks, after.tasks[p as int]->0.parent->0 as int)
            &&& after.tasks[after.tasks[p as int]->0.parent->0 as int]->0.children.contains(p)
        }),
{
    let p = k.current->0;
    let mid = exit_parked(k, code);
    lemma_current(k);
    lemma_exit_shape(k, code);
    lemma_exit_wf(k, code);
    lemma_dispatch_wf(mid);
    assert(mid.tasks[p as int] == Some(after_exit(k.tasks, p, code, p as int)));
    if mid.ready.len() > 0 {
        lemma_ready(mid);
        lemma_first_min_exists(queue_strides(mid.ready, mid.tasks));
        let i = first_min(queue_strides(mid.ready, mid.tasks));
        assert(task_live(mid.tasks, mid.ready[i] as int));
    }
    lemma_parent(exited(k, code), p as int);
}

// ---------------------------------------------------------------------
// Reaping a zombie
// ---------------------------------------------------------------------
/// Whether the `i`-th child of task `p` can be reaped: `p` has not
/// exited, and the child has.
pub open spec fn can_reap(o: KernelView, p: usize, i: int) -> bool {
    &&& kernel_wf(o)
    &&& task_live(o.tasks, p as int)
    &&& o.tasks[p as int]->0.status != TaskStatus::Zombie
    &&& 0 <= i < o.tasks[p as int]->0.children.len()
    &&& o.tasks[o.tasks[p as int]->0.children[i] as int]->0.status == TaskStatus::Zombie
}

/// What is known of a child that can be reaped.
pub proof fn lemma_reap_facts(o: KernelView, p: usize, i: int)
    requires
        can_reap(o, p, i),
    ensures
        ({
            let c = o.tasks[p as int]->0.children[i];
            &&& task_live(o.tasks, c as int)
            &&& c != INIT_PID
            &&& c != p
            &&& o.tasks[c as int]->0.parent == Some(p)
            &&& o.tasks[c as int]->0.children.len() == 0
            &&& !o.ready.contains(c)
            &&& o.current != Some(c)
            &&& !o.recycled.contains(c)
            &&& !o.tasks[p as int]->0.children.remove(i).contains(c)
        }),
{
    let c = o.tasks[p as int]->0.children[i];
    lemma_init(o);
    lemma_child(o, p as int, i);
    assert(o.tasks[c as int]->0.children.len() == 0) by {
        reveal(zombies_childless);
    }
    assert(!o.ready.contains(c)) by {
        reveal(ready_wf);
    }
    assert(o.current != Some(c)) by {
        reveal(current_wf);
    }
    assert(!o.recycled.contains(c)) by {
        reveal(pids_wf);
    }
    assert(o.tasks[p as int]->0.children.no_duplicates()) by {
        reveal(children_distinct);
    }
    lemma_remove_keeps(o.tasks[p as int]->0.children, i);
}

/// Reaping keeps what the invariant says of single tasks and pids.
pub proof fn lemma_reap_tasks(o: KernelView, p: usize, i: int)
    requires
        can_reap(o, p, i),
    ensures
        tasks_wf(reaped(o, p, i)),
        pids_wf(reaped(o, p, i)),
{
    let n = reaped(o, p, i);
    let c = o.tasks[p as int]->0.children[i];
    lemma_init(o);
    lemma_reap_facts(o, p, i);
    lemma_task(o, p as int);
    assert(tasks_wf(n)) by {
        reveal(tasks_wf);
        assert forall|q: int| #[trigger] task_live(n.tasks, q) implies {
            &&& n.tasks[q]->0.pid == q
            &&& task_wf(n.tasks[q]->0)
            &&& fds_valid(n.tasks[q]->0.fds, n.io)
        } by {
            assert(task_live(o.tasks, q));
        }
    }
    assert(pids_wf(n)) by {
        reveal(pids_wf);
        assert forall|a: int, b: int|
            0 <= a < n.recycled.len() && 0 <= b < n.recycled.len() && a != b implies n.recycled[a]
            != n.recycled[b] by {
            if a < o.recycled.len() {
                assert(o.recycled.contains(o.recycled[a]));
            }
            if b < o.recycled.len() {
                assert(o.recycled.contains(o.recycled[b]));
            }
        }
    }
}

/// Reaping keeps what the invariant says of families.
pub proof fn lemma_reap_family(o: KernelView, p: usize, i: int)
    requires
        can_reap(o, p, i),
    ensures
        family_wf(reaped(o, p, i).tasks),
{
    let n = reaped(o, p, i);
    let kids = o.tasks[p as int]->0.children;
    let c = kids[i];
    lemma_reap_facts(o, p, i);
    lemma_init(o);
    assert(kids.no_duplicates()) by {
        reveal(children_distinct);
    }
    lemma_remove_keeps(kids, i);
    assert(task_live(n.tasks, INIT_PID as int));
    assert(children_linked(n.tasks)) by {
        reveal(children_linked);
        assert forall|q: int, j: int|
            task_live(n.tasks, q) && 0 <= j < n.tasks[q]->0.children.len() implies {
            let x = #[trigger] n.tasks[q]->0.children[j];
            task_live(n.tasks, x as int) && n.tasks[x as int]->0.parent == Some(q as usize)
        } by {
            assert(task_live(o.tasks, q));
            if q == p {
                let j0 = if j < i { j } else { j + 1 };
                assert(n.tasks[q]->0.children[j] == kids[j0]);
                assert(kids.remove(i).contains(kids.remove(i)[j]));
                lemma_child(o, q, j0);
            } else {
                lemma_child(o, q, j);
            }
        }
    }
    assert(parents_linked(n.tasks)) by {
        reveal(parents_linked);
        assert forall|x: int| #[trigger] task_live(n.tasks, x) && x != INIT_PID implies {
            let q = n.tasks[x]->0.parent;
            q is Some && task_live(n.tasks, q->0 as int)
                && n.tasks[q->0 as int]->0.children.contains(x as usize)
        } by {
            assert(task_live(o.tasks, x));
            lemma_parent(o, x);
            let q = o.tasks[x]->0.parent->0;
            assert(o.tasks[q as int]->0.children.contains(x as usize));
            assert(q != c);
        }
    }
    assert(children_distinct(n.tasks)) by {
        reveal(children_distinct);
        assert forall|q: int| #[trigger] task_live(n.tasks, q) implies n.tasks[q]->0.children.no_duplicates() by {
            assert(task_live(o.tasks, q));
        }
    }
    assert(zombies_childless(n.tasks)) by {
        reveal(zombies_childless);
        assert forall|q: int| #[trigger]
            task_live(n.tasks, q) && q != INIT_PID && n.tasks[q]->0.status
                == TaskStatus::Zombie implies n.tasks[q]->0.children.len() == 0 by {
            assert(task_live(o.tasks, q));
        }
    }
}

/// Reaping keeps the invariant.
pub proof fn lemma_reap_wf(o: KernelView, p: usize, i: int)
    requires
        can_reap(o, p, i),
    ensures
        kernel_wf(reaped(o, p, i)),
{
    let n = reaped(o, p, i);
    let c = o.tasks[p as int]->0.children[i];
    lemma_init(o);
    lemma_reap_facts(o, p, i);
    lemma_reap_tasks(o, p, i);
    lemma_reap_family(o, p, i);
    lemma_ready(o);
    assert(ready_wf(n)) by {
        reveal(ready_wf);
        assert forall|j: int| 0 <= j < n.ready.len() implies task_live(
            n.tasks,
            #[trigger] n.ready[j] as int,
        ) && n.tasks[n.ready[j] as int]->0.status == TaskStatus::Ready by {
            assert(task_live(o.tasks, o.ready[j] as int));
            assert(o.ready.contains(o.ready[j]));
        }
    }
    assert(current_wf(n)) by {
        reveal(current_wf);
        assert forall|q: int| #[trigger]
            task_live(n.tasks, q) && n.tasks[q]->0.status
                == TaskStatus::Running implies n.current == Some(q as usize) by {
            assert(task_live(o.tasks, q));
        }
        if o.current is Some {
            assert(task_live(o.tasks, o.current->0 as int));
        }
    }
}

// ---------------------------------------------------------------------
// Open positions that no descriptor names
// ---------------------------------------------------------------------
/// The slot of open positions that a descriptor names, if it names one.
pub open spec fn handle_slot(h: Option<FileHandle>) -> Option<usize> {
    match h {
        Some(FileHandle::Inode(f)) => Some(f.slot),
        _ => None,
    }
}

/// Whether some descriptor of the table names the slot.
pub open spec fn holds_slot(fds: Seq<Option<FileHandle>>, slot: usize) -> bool {
    exists|i: int| 0 <= i < fds.len() && handle_slot(#[trigger] fds[i]) == Some(slot)
}

/// Whether some descriptor of some task names the slot.
pub open spec fn referenced(tasks: Seq<Option<TaskView>>, slot: usize) -> bool {
    exists|p: int| #[trigger] task_live(tasks, p) && holds_slot(tasks[p]->0.fds, slot)
}

/// The kernel after the slot was released: it is empty if no descriptor
/// names it any more.
pub open spec fn released(k: KernelView, slot: usize) -> KernelView {
    if slot < k.io.offsets.len() && !referenced(k.tasks, slot) {
        KernelView { io: IoView { offsets: k.io.offsets.update(slot as int, None), ..k.io }, ..k }
    } else {
        k
    }
}

/// The kernel after the slots that the first `n` descriptors of `fds`
/// name were released, in their order.
pub open spec fn released_all(k: KernelView, fds: Seq<Option<FileHandle>>, n: int) -> KernelView
    decreases n,
{
    if n <= 0 {
        k
    } else {
        let k1 = released_all(k, fds, n - 1);
        match handle_slot(fds[n - 1]) {
            Some(slot) => released(k1, slot),
            None => k1,
        }
    }
}

/// Releasing a slot keeps the invariant, and changes nothing but open
/// positions.
pub proof fn lemma_released_wf(k: KernelView, slot: usize)
    requires
        kernel_wf(k),
    ensures
        kernel_wf(released(k, slot)),
        released(k, slot) == (KernelView {
            io: IoView { offsets: released(k, slot).io.offsets, ..k.io },
            ..k
        }),
{
    let n = released(k, slot);
    reveal(tasks_wf);
    reveal(current_wf);
    reveal(ready_wf);
    reveal(pids_wf);
    assert forall|q: int| #[trigger] task_live(n.tasks, q) implies {
        &&& n.tasks[q]->0.pid == q
        &&& task_wf(n.tasks[q]->0)
        &&& fds_valid(n.tasks[q]->0.fds, n.io)
    } by {
        assert(task_live(k.tasks, q));
        let fds = k.tasks[q]->0.fds;
        assert forall|i: int| 0 <= i < fds.len() && (#[trigger] fds[i]) is Some implies fds[i]->0.valid(
            n.io,
        ) by {
            assert(fds[i]->0.valid(k.io));
            if handle_slot(fds[i]) == Some(slot) {
                assert(holds_slot(fds, slot));
            }
        }
    }
}

/// Releasing slots keeps the invariant, and changes nothing but open
/// positions.
pub proof fn lemma_released_all_wf(k: KernelView, fds: Seq<Option<FileHandle>>, n: int)
    requires
        kernel_wf(k),
    ensures
        kernel_wf(released_all(k, fds, n)),
        released_all(k, fds, n) == (KernelView {
            io: IoView { offsets: released_all(k, fds, n).io.offsets, ..k.io },
            ..k
        }),
    decreases n,
{
    if n > 0 {
        lemma_released_all_wf(k, fds, n - 1);
        match handle_slot(fds[n - 1]) {
            Some(slot) => {
                lemma_released_wf(released_all(k, fds, n - 1), slot);
            },
            None => {},
        }
    }
}

} // verus!
