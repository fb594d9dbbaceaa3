//! The ready queue and the stride scheduler that picks from it.

use crate::config::BIG_STRIDE;
use crate::task::task::{
    next_stride, pass_of, table_view, task_live, TaskControlBlock, TaskView,
};
use vstd::arithmetic::div_mod::{lemma_div_is_ordered_by_denominator, lemma_div_non_zero};
use std::collections::VecDeque;
use vstd::prelude::*;

verus! {

/// The tasks that wait for the processor, by pid, in the order in which
/// they were added.
pub struct TaskManager {
    pub ready_queue: VecDeque<usize>,
}

impl View for TaskManager {
    type V = Seq<usize>;

    open spec fn view(&self) -> Seq<usize> {
        self.ready_queue@
    }
}

/// The strides of the queued tasks, in queue order.
pub open spec fn queue_strides(queue: Seq<usize>, tasks: Seq<Option<TaskView>>) -> Seq<u64> {
    Seq::new(queue.len(), |k: int| tasks[queue[k] as int]->0.stride)
}

/// Whether `i` is the first position of `strides` that holds its minimum.
pub open spec fn is_first_min(strides: Seq<u64>, i: int) -> bool {
    &&& 0 <= i < strides.len()
    &&& forall|j: int| 0 <= j < strides.len() ==> strides[i] <= #[trigger] strides[j]
    &&& forall|j: int| 0 <= j < i ==> strides[i] < #[trigger] strides[j]
}

/// The first position of `strides` that holds its minimum (meaningful
/// when `strides` is not empty).
pub open spec fn first_min(strides: Seq<u64>) -> int {
    choose|i: int| is_first_min(strides, i)
}

/// Whether every queued pid names a task of the table.
pub open spec fn queue_live(queue: Seq<usize>, tasks: Seq<Option<TaskView>>) -> bool {
    forall|k: int| 0 <= k < queue.len() ==> task_live(tasks, #[trigger] queue[k] as int)
}

/// There is one first minimum only.
pub proof fn lemma_first_min_unique(strides: Seq<u64>, i: int)
    requires
        is_first_min(strides, i),
    ensures
        first_min(strides) == i,
{
    let j = first_min(strides);
    if j < i {
        assert(strides[i] < strides[j]);
        assert(strides[j] <= strides[i]);
    } else if i < j {
        assert(strides[j] < strides[i]);
        assert(strides[i] <= strides[j]);
    }
}

impl TaskManager {
    /// Creates an empty ready queue.
    pub fn new() -> (m: TaskManager)
        ensures
            m@ == Seq::<usize>::empty(),
    {
        TaskManager { ready_queue: VecDeque::new() }
    }

    /// Number of queued tasks.
    pub fn len(&self) -> (n: usize)
        ensures
            n == self@.len(),
    {
        self.ready_queue.len()
    }

    /// Adds a task to the back of the ready queue.
    pub fn add(&mut self, task: usize)
        ensures
            final(self)@ == old(self)@.push(task),
    {
        self.ready_queue.push_back(task);
    }

    /// Takes the queued task with the smallest stride out of the queue;
    /// among equals, the one that was added first.
    fn take_smallest(&mut self, tasks: &Vec<Option<TaskControlBlock>>) -> (r: Option<usize>)
        requires
            queue_live(old(self)@, table_view(tasks@)),
        ensures
            old(self)@.len() == 0 ==> r is None && final(self)@ == old(self)@,
            old(self)@.len() > 0 ==> {
                let i = first_min(queue_strides(old(self)@, table_view(tasks@)));
                &&& is_first_min(queue_strides(old(self)@, table_view(tasks@)), i)
                &&& r == Some(old(self)@[i])
                &&& final(self)@ == old(self)@.remove(i)
            },
    {
        let n = self.ready_queue.len();
        if n == 0 {
            return None;
        }
        let ghost tv = table_view(tasks@);
        let ghost strides = queue_strides(self@, tv);
        let mut min_index: usize = 0;
        let mut min: u64 = 0;
        let mut is_first = true;
        let mut index: usize = 0;
        while index < n
            invariant
                *self == *old(self),
                n == self@.len(),
                n > 0,
                tv == table_view(tasks@),
                strides == queue_strides(self@, tv),
                queue_live(self@, tv),
                index <= n,
                is_first <==> index == 0,
                !is_first ==> {
                    &&& min_index < index
                    &&& min == strides[min_index as int]
                    &&& forall|j: int| 0 <= j < index ==> min <= #[trigger] strides[j]
                    &&& forall|j: int| 0 <= j < min_index ==> min < #[trigger] strides[j]
                },
            decreases n - index,
        {
            let pid = self.ready_queue[index];
            assert(task_live(tv, self@[index as int] as int));
            let stride = match &tasks[pid] {
                Some(t) => t.stride,
                None => 0,
            };
            assert(stride == strides[index as int]);
            if is_first || stride < min {
                is_first = false;
                min = stride;
                min_index = index;
            }
            index += 1;
        }
        proof {
            assert(is_first_min(strides, min_index as int));
            lemma_first_min_unique(strides, min_index as int);
        }
        self.ready_queue.remove(min_index)
    }

    /// Takes the next task to run out of the ready queue: the one with
    /// the smallest stride, the earliest added among equals. Returns
    /// `None` when no task is ready.
    pub fn fetch(&mut self, tasks: &Vec<Option<TaskControlBlock>>) -> (r: Option<usize>)
        requires
            queue_live(old(self)@, table_view(tasks@)),
        ensures
            old(self)@.len() == 0 ==> r is None && final(self)@ == old(self)@,
            old(self)@.len() > 0 ==> {
                let i = first_min(queue_strides(old(self)@, table_view(tasks@)));
                &&& is_first_min(queue_strides(old(self)@, table_view(tasks@)), i)
                &&& r == Some(old(self)@[i])
                &&& final(self)@ == old(self)@.remove(i)
            },
    {
        self.take_smallest(tasks)
    }
}

/// A sequence that is not empty has a first minimum.
pub proof fn lemma_first_min_exists(strides: Seq<u64>)
    requires
        strides.len() > 0,
    ensures
        is_first_min(strides, first_min(strides)),
    decreases strides.len(),
{
    if strides.len() == 1 {
        assert(is_first_min(strides, 0));
    } else {
        let front = strides.drop_last();
        lemma_first_min_exists(front);
        let i = first_min(front);
        let last = strides.len() - 1;
        if strides[last] < front[i] {
            assert forall|j: int| 0 <= j < strides.len() implies strides[last]
                <= #[trigger] strides[j] by {
                if j < last {
                    assert(front[j] == strides[j]);
                }
            }
            assert forall|j: int| 0 <= j < last implies strides[last] < #[trigger] strides[j] by {
                assert(front[j] == strides[j]);
            }
            assert(is_first_min(strides, last));
        } else {
            assert forall|j: int| 0 <= j < strides.len() implies strides[i]
                <= #[trigger] strides[j] by {
                if j < last {
                    assert(front[j] == strides[j]);
                }
            }
            assert forall|j: int| 0 <= j < i implies strides[i] < #[trigger] strides[j] by {
                assert(front[j] == strides[j]);
            }
            assert(is_first_min(strides, i));
        }
    }
}

/// A higher priority means a pass that is no larger, and every priority
/// up to `BIG_STRIDE` has a pass of at least 1 and at most half of it.
pub proof fn lemma_pass_monotone(low: isize, high: isize)
    requires
        2 <= low <= high,
    ensures
        pass_of(high) <= pass_of(low),
        pass_of(low) <= BIG_STRIDE / 2,
        high <= BIG_STRIDE ==> pass_of(high) >= 1,
{
    lemma_div_is_ordered_by_denominator(BIG_STRIDE as int, low as int, high as int);
    lemma_div_is_ordered_by_denominator(BIG_STRIDE as int, 2, low as int);
    lemma_div_is_ordered_by_denominator(BIG_STRIDE as int, 2, high as int);
    if high <= BIG_STRIDE {
        lemma_div_non_zero(BIG_STRIDE as int, high as int);
    }
}

/// A task as the scheduler sees it over a series of dispatches: its
/// stride, its priority, and how often it ran.
pub struct Contender {
    pub stride: u64,
    pub priority: isize,
    pub runs: nat,
}

/// The strides of the contenders.
pub open spec fn strides_of(cs: Seq<Contender>) -> Seq<u64> {
    Seq::new(cs.len(), |i: int| cs[i].stride)
}

/// The contender that runs next: the first with the smallest stride.
pub open spec fn next_up(cs: Seq<Contender>) -> int {
    first_min(strides_of(cs))
}

/// The contenders after one dispatch: the one that ran returns to the
/// others with its pass added to its stride.
pub open spec fn round(cs: Seq<Contender>) -> Seq<Contender> {
    let d = next_up(cs);
    cs.update(
        d,
        Contender {
            stride: next_stride(cs[d].stride, cs[d].priority),
            runs: cs[d].runs + 1,
            ..cs[d]
        },
    )
}

/// The contenders after `n` dispatches.
pub open spec fn rounds(cs: Seq<Contender>, n: nat) -> Seq<Contender>
    decreases n,
{
    if n == 0 {
        cs
    } else {
        rounds(round(cs), (n - 1) as nat)
    }
}

/// Whether the stride of the contender that runs next stays below the
/// largest value it can hold.
pub open spec fn in_range(cs: Seq<Contender>) -> bool {
    cs[next_up(cs)].stride + pass_of(cs[next_up(cs)].priority) <= u64::MAX
}

/// Whether no stride reaches the largest value it can hold within the
/// next `n` dispatches.
pub open spec fn steady(cs: Seq<Contender>, n: nat) -> bool
    decreases n,
{
    if n == 0 {
        true
    } else {
        in_range(cs) && steady(round(cs), (n - 1) as nat)
    }
}

/// Whether there are contenders, each with a priority from 2 to
/// `BIG_STRIDE`.
pub open spec fn contenders_wf(cs: Seq<Contender>) -> bool {
    &&& cs.len() > 0
    &&& forall|k: int| 0 <= k < cs.len() ==> 2 <= (#[trigger] cs[k]).priority <= BIG_STRIDE
}

/// What one dispatch does: the first contender with the smallest stride
/// runs once more and its stride grows; nothing else changes.
pub proof fn lemma_round(cs: Seq<Contender>)
    requires
        contenders_wf(cs),
        in_range(cs),
    ensures
        contenders_wf(round(cs)),
        round(cs).len() == cs.len(),
        is_first_min(strides_of(cs), next_up(cs)),
        forall|k: int|
            0 <= k < cs.len() && k != next_up(cs) ==> #[trigger] round(cs)[k] == cs[k],
        round(cs)[next_up(cs)].priority == cs[next_up(cs)].priority,
        round(cs)[next_up(cs)].runs == cs[next_up(cs)].runs + 1,
        round(cs)[next_up(cs)].stride == cs[next_up(cs)].stride + pass_of(
            cs[next_up(cs)].priority,
        ),
        round(cs)[next_up(cs)].stride > cs[next_up(cs)].stride,
{
    lemma_first_min_exists(strides_of(cs));
    let d = next_up(cs);
    lemma_pass_monotone(cs[d].priority, cs[d].priority);
    assert forall|k: int| 0 <= k < round(cs).len() implies 2 <= (#[trigger] round(cs)[k]).priority
        <= BIG_STRIDE by {
        assert(2 <= cs[k].priority <= BIG_STRIDE);
    }
}

/// What links the strides of two contenders `i` and `j`: both strides are
/// the product of runs and pass, and `i` is ahead of `j` by one pass of
/// its own at most.
pub open spec fn paced(cs: Seq<Contender>, i: int, j: int) -> bool {
    &&& contenders_wf(cs)
    &&& 0 <= i < cs.len()
    &&& 0 <= j < cs.len()
    &&& i != j
    &&& cs[i].stride == cs[i].runs * pass_of(cs[i].priority)
    &&& cs[j].stride == cs[j].runs * pass_of(cs[j].priority)
    &&& cs[i].stride <= cs[j].stride + pass_of(cs[i].priority)
}

/// Dispatches keep two contenders paced, and keep their priorities.
pub proof fn lemma_paced(cs: Seq<Contender>, n: nat, i: int, j: int)
    requires
        paced(cs, i, j),
        steady(cs, n),
    ensures
        paced(rounds(cs, n), i, j),
        rounds(cs, n)[i].priority == cs[i].priority,
        rounds(cs, n)[j].priority == cs[j].priority,
    decreases n,
{
    if n > 0 {
        lemma_round(cs);
        let d = next_up(cs);
        let r = round(cs);
        let pass = pass_of(cs[d].priority) as int;
        let runs = cs[d].runs as int;
        assert((runs + 1) * pass == runs * pass + pass) by (nonlinear_arith);
        if d == i {
            assert(strides_of(cs)[i] <= strides_of(cs)[j]);
        }
        assert(paced(r, i, j));
        lemma_paced(r, (n - 1) as nat, i, j);
    }
}

/// Of two tasks that start together, the one with the higher priority is
/// dispatched at least as often as the other, up to the one dispatch by
/// which the other may be ahead at any moment.
pub proof fn lemma_stride_share(cs: Seq<Contender>, n: nat, i: int, j: int)
    requires
        contenders_wf(cs),
        0 <= i < cs.len(),
        0 <= j < cs.len(),
        i != j,
        cs[i].stride == 0 && cs[i].runs == 0,
        cs[j].stride == 0 && cs[j].runs == 0,
        cs[i].priority <= cs[j].priority,
        steady(cs, n),
    ensures
        rounds(cs, n)[i].runs <= rounds(cs, n)[j].runs + 1,
{
    assert(paced(cs, i, j)) by {
        assert(cs[i].runs * pass_of(cs[i].priority) == 0) by (nonlinear_arith)
            requires
                cs[i].runs == 0,
        ;
        assert(cs[j].runs * pass_of(cs[j].priority) == 0) by (nonlinear_arith)
            requires
                cs[j].runs == 0,
        ;
    }
    lemma_paced(cs, n, i, j);
    let r = rounds(cs, n);
    assert(2 <= cs[i].priority <= BIG_STRIDE);
    lemma_pass_monotone(cs[i].priority, cs[j].priority);
    lemma_pass_monotone(cs[i].priority, cs[i].priority);
    let pi = pass_of(cs[i].priority) as int;
    let pj = pass_of(cs[j].priority) as int;
    let ri = r[i].runs as int;
    let rj = r[j].runs as int;
    assert(ri <= rj + 1) by (nonlinear_arith)
        requires
            ri * pi <= rj * pj + pi,
            0 <= pj <= pi,
            pi >= 1,
            ri >= 0,
            rj >= 0,
    ;
}

/// By how much the stride `me` is ahead of the stride `other`, counting
/// a tie as one: while this is positive, `other` may run before `me`.
pub open spec fn lead_over(me: u64, other: u64) -> nat {
    if other <= me {
        (me - other + 1) as nat
    } else {
        0
    }
}

/// The sum of the leads of contender `i` over the first `upto` others.
pub open spec fn lead(cs: Seq<Contender>, i: int, upto: int) -> nat
    decreases upto,
{
    if upto <= 0 {
        0
    } else {
        lead(cs, i, upto - 1) + if upto - 1 == i {
            0nat
        } else {
            lead_over(cs[i].stride, cs[upto - 1].stride)
        }
    }
}

/// The largest number of dispatches that contender `i` can have to wait
/// for its turn.
pub open spec fn wait_bound(cs: Seq<Contender>, i: int) -> nat {
    lead(cs, i, cs.len() as int)
}

/// When another contender `d`, not ahead of `i`, gains stride, the lead
/// of `i` over the others drops.
pub proof fn lemma_lead_drops(cs: Seq<Contender>, after: Seq<Contender>, i: int, d: int, upto: int)
    requires
        0 <= i < cs.len(),
        0 <= d < cs.len(),
        d != i,
        0 <= upto <= cs.len(),
        after.len() == cs.len(),
        forall|k: int| 0 <= k < cs.len() && k != d ==> #[trigger] after[k] == cs[k],
        cs[d].stride <= cs[i].stride,
        after[d].stride > cs[d].stride,
    ensures
        upto <= d ==> lead(after, i, upto) == lead(cs, i, upto),
        upto > d ==> lead(after, i, upto) < lead(cs, i, upto),
    decreases upto,
{
    if upto > 0 {
        lemma_lead_drops(cs, after, i, d, upto - 1);
        if upto - 1 != d && upto - 1 != i {
            assert(after[upto - 1] == cs[upto - 1]);
        }
        assert(after[i] == cs[i]);
    }
}

/// Dispatches never take a run away, and keep the number of contenders
/// and their priorities.
pub proof fn lemma_runs_grow(cs: Seq<Contender>, n: nat, i: int)
    requires
        contenders_wf(cs),
        0 <= i < cs.len(),
        steady(cs, n),
    ensures
        rounds(cs, n).len() == cs.len(),
        rounds(cs, n)[i].runs >= cs[i].runs,
    decreases n,
{
    if n > 0 {
        lemma_round(cs);
        lemma_runs_grow(round(cs), (n - 1) as nat, i);
    }
}

/// No contender is starved: within one dispatch more than its wait bound,
/// the sum of its leads over the others, its stride is the smallest and
/// it runs.
pub proof fn lemma_no_starvation(cs: Seq<Contender>, i: int, n: nat)
    requires
        contenders_wf(cs),
        0 <= i < cs.len(),
        n > wait_bound(cs, i),
        steady(cs, n),
    ensures
        rounds(cs, n)[i].runs > cs[i].runs,
    decreases n,
{
    lemma_round(cs);
    let d = next_up(cs);
    let r = round(cs);
    if d == i {
        lemma_runs_grow(r, (n - 1) as nat, i);
    } else {
        assert(strides_of(cs)[d] <= strides_of(cs)[i]);
        lemma_lead_drops(cs, r, i, d, cs.len() as int);
        assert(wait_bound(r, i) < wait_bound(cs, i));
        lemma_no_starvation(r, i, (n - 1) as nat);
    }
}

} // verus!
