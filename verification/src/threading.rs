//! Tasks, their priorities, the priority queue that the scheduler takes them
//! from, and the counters of the threading engine.
use vstd::prelude::*;
use crate::error::{NovaError, NovaResult};

verus! {

/// Task priority levels, from the lowest to the highest.
#[derive(Debug, Clone, Copy, PartialEq, Eq, PartialOrd, Ord, Hash)]
pub enum TaskPriority {
    Low,
    Normal,
    High,
    Critical,
}

impl TaskPriority {
    /// The numeric level of a priority (`Low` is 0, `Critical` is 3).
    pub open spec fn level(self) -> nat {
        match self {
            TaskPriority::Low => 0,
            TaskPriority::Normal => 1,
            TaskPriority::High => 2,
            TaskPriority::Critical => 3,
        }
    }

    pub fn rank(self) -> (r: u8)
        ensures
            r == self.level(),
    {
        match self {
            TaskPriority::Low => 0,
            TaskPriority::Normal => 1,
            TaskPriority::High => 2,
            TaskPriority::Critical => 3,
        }
    }

    /// Whether this priority is above `other`.
    pub fn is_above(self, other: TaskPriority) -> (b: bool)
        ensures
            b == (self.level() > other.level()),
    {
        self.rank() > other.rank()
    }
}

/// A unit of work.
pub trait Task {
    fn execute(&self) -> NovaResult<()>;

    /// A task runs at `Normal` priority unless it says otherwise.
    fn priority(&self) -> (p: TaskPriority)
        default_ensures
            p == TaskPriority::Normal,
    {
        TaskPriority::Normal
    }

    /// A task is named "UnnamedTask" unless it says otherwise.
    fn name(&self) -> (n: &str)
        default_ensures
            n@ == "UnnamedTask"@,
    {
        "UnnamedTask"
    }
}

/// A task that runs a function.
pub struct FunctionTask<F: Fn() -> NovaResult<()>> {
    function: F,
    name: String,
    priority: TaskPriority,
}

impl<F: Fn() -> NovaResult<()>> FunctionTask<F> {
    #[verifier::type_invariant]
    closed spec fn callable(&self) -> bool {
        call_requires(self.function, ())
    }

    pub closed spec fn name_view(&self) -> Seq<char> {
        self.name@
    }

    pub closed spec fn priority_view(&self) -> TaskPriority {
        self.priority
    }

    /// The function the task runs.
    pub closed spec fn function_view(&self) -> F {
        self.function
    }

    pub fn new(name: String, priority: TaskPriority, function: F) -> (t: Self)
        requires
            call_requires(function, ()),
        ensures
            t.name_view() == name@,
            t.priority_view() == priority,
            t.function_view() == function,
    {
        FunctionTask { function, name, priority }
    }
}

impl<F: Fn() -> NovaResult<()>> Task for FunctionTask<F> {
    /// Runs the function and returns what it returns.
    fn execute(&self) -> (r: NovaResult<()>)
        ensures
            call_ensures(self.function_view(), (), r),
    {
        proof {
            use_type_invariant(self);
        }
        (self.function)()
    }

    fn priority(&self) -> (p: TaskPriority)
        ensures
            p == self.priority_view(),
    {
        self.priority
    }

    fn name(&self) -> (n: &str)
        ensures
            n@ == self.name_view(),
    {
        self.name.as_str()
    }
}

/// The sum `0 + 1 + ... + (n - 1)` modulo 2^64.
pub open spec fn wrapping_sum(n: nat) -> int
    decreases n,
{
    if n == 0 {
        0
    } else {
        (wrapping_sum((n - 1) as nat) + (n - 1)) % 0x1_0000_0000_0000_0000
    }
}

/// A task that performs a given amount of arithmetic work.
pub struct ComputeTask {
    name: String,
    work_amount: usize,
}

impl ComputeTask {
    pub closed spec fn name_view(&self) -> Seq<char> {
        self.name@
    }

    pub closed spec fn work(&self) -> nat {
        self.work_amount as nat
    }

    pub fn new(name: String, work_amount: usize) -> (t: Self)
        ensures
            t.name_view() == name@,
            t.work() == work_amount,
    {
        ComputeTask { name, work_amount }
    }

    /// The work itself: the wrapping sum of the first `work_amount` numbers.
    pub fn checksum(&self) -> (sum: u64)
        ensures
            sum == wrapping_sum(self.work()),
    {
        let mut sum: u64 = 0;
        let mut i: usize = 0;
        while i < self.work_amount
            invariant
                i <= self.work_amount,
                sum == wrapping_sum(i as nat),
            decreases self.work_amount - i,
        {
            sum = sum.wrapping_add(i as u64);
            i = i + 1;
        }
        sum
    }
}

impl Task for ComputeTask {
    /// Does the work; it always succeeds.
    fn execute(&self) -> (r: NovaResult<()>)
        ensures
            r == Ok::<(), NovaError>(()),
    {
        let _sum = self.checksum();
        Ok(())
    }

    fn name(&self) -> (n: &str)
        ensures
            n@ == self.name_view(),
    {
        self.name.as_str()
    }
}

/// A task about a file, which the engine runs at high priority.
pub struct IOTask {
    name: String,
    file_path: String,
}

impl IOTask {
    pub closed spec fn name_view(&self) -> Seq<char> {
        self.name@
    }

    pub closed spec fn path_view(&self) -> Seq<char> {
        self.file_path@
    }

    pub fn new(name: String, file_path: String) -> (t: Self)
        ensures
            t.name_view() == name@,
            t.path_view() == file_path@,
    {
        IOTask { name, file_path }
    }

    pub fn file_path(&self) -> (p: &String)
        ensures
            p@ == self.path_view(),
    {
        &self.file_path
    }
}

impl Task for IOTask {
    /// An I/O task always succeeds.
    fn execute(&self) -> (r: NovaResult<()>)
        ensures
            r == Ok::<(), NovaError>(()),
    {
        Ok(())
    }

    fn name(&self) -> (n: &str)
        ensures
            n@ == self.name_view(),
    {
        self.name.as_str()
    }

    /// I/O tasks run at `High` priority.
    fn priority(&self) -> (p: TaskPriority)
        ensures
            p == TaskPriority::High,
    {
        TaskPriority::High
    }
}

/// A task waiting in the queue, with the time at which it was submitted.
pub struct QueuedTask<T> {
    pub priority: TaskPriority,
    pub submitted_at: u64,
    pub task: T,
}

/// Whether `a` is taken before `b`: a higher priority first, then the earlier
/// submission.
pub open spec fn runs_before<T>(a: QueuedTask<T>, b: QueuedTask<T>) -> bool {
    a.priority.level() > b.priority.level() || (a.priority.level() == b.priority.level()
        && a.submitted_at <= b.submitted_at)
}

/// The scheduler's queue of submitted tasks.
pub struct TaskQueue<T> {
    tasks: Vec<QueuedTask<T>>,
}

impl<T> TaskQueue<T> {
    /// The waiting tasks, in submission order.
    pub closed spec fn view(&self) -> Seq<QueuedTask<T>> {
        self.tasks@
    }

    pub fn new() -> (q: Self)
        ensures
            q@.len() == 0,
    {
        TaskQueue { tasks: Vec::new() }
    }

    pub fn len(&self) -> (n: usize)
        ensures
            n == self@.len(),
    {
        self.tasks.len()
    }

    pub fn push(&mut self, task: T, priority: TaskPriority, submitted_at: u64)
        ensures
            final(self)@ == old(self)@.push(QueuedTask { priority, submitted_at, task }),
    {
        self.tasks.push(QueuedTask { priority, submitted_at, task });
    }

    /// Takes the task to run next: one of the highest priority and, among
    /// those, of the earliest submission.
    pub fn pop(&mut self) -> (r: Option<QueuedTask<T>>)
        ensures
            old(self)@.len() == 0 ==> r is None && final(self)@ == old(self)@,
            old(self)@.len() > 0 ==> exists|i: int|
                0 <= i < old(self)@.len() && r == Some(#[trigger] old(self)@[i])
                && final(self)@ == old(self)@.remove(i)
                && forall|j: int| 0 <= j < old(self)@.len() ==> runs_before(old(self)@[i], #[trigger] old(self)@[j]),
    {
        if self.tasks.len() == 0 {
            return None;
        }
        let mut best: usize = 0;
        let mut j: usize = 1;
        while j < self.tasks.len()
            invariant
                self.tasks@ == old(self).tasks@,
                1 <= j <= self.tasks@.len(),
                best < j,
                forall|k: int| 0 <= k < j ==> runs_before(self.tasks@[best as int], #[trigger] self.tasks@[k]),
            decreases self.tasks@.len() - j,
        {
            let b = &self.tasks[best];
            let c = &self.tasks[j];
            if c.priority.is_above(b.priority) || (c.priority.rank() == b.priority.rank()
                && c.submitted_at < b.submitted_at) {
                best = j;
            }
            j = j + 1;
        }
        let t = self.tasks.remove(best);
        Some(t)
    }
}

/// Counters of the threading engine.
#[derive(Debug, Clone, Copy, PartialEq, Eq)]
pub struct ThreadingStats {
    pub total_tasks_submitted: u64,
    pub total_tasks_completed: u64,
    pub total_tasks_failed: u64,
    pub active_threads: usize,
    pub pending_tasks: usize,
}

impl ThreadingStats {
    /// The counters of an engine with `worker_threads` workers and no task yet.
    pub fn new(worker_threads: usize) -> (s: Self)
        ensures
            s == (ThreadingStats {
                total_tasks_submitted: 0,
                total_tasks_completed: 0,
                total_tasks_failed: 0,
                active_threads: worker_threads,
                pending_tasks: 0,
            }),
    {
        ThreadingStats {
            total_tasks_submitted: 0,
            total_tasks_completed: 0,
            total_tasks_failed: 0,
            active_threads: worker_threads,
            pending_tasks: 0,
        }
    }

    /// Counts a submitted task, which is pending until it finishes.
    pub fn record_submission(&mut self)
        requires
            old(self).total_tasks_submitted < u64::MAX,
            old(self).pending_tasks < usize::MAX,
        ensures
            *final(self) == (ThreadingStats {
                total_tasks_submitted: (old(self).total_tasks_submitted + 1) as u64,
                pending_tasks: (old(self).pending_tasks + 1) as usize,
                ..*old(self)
            }),
    {
        self.total_tasks_submitted = self.total_tasks_submitted + 1;
        self.pending_tasks = self.pending_tasks + 1;
    }

    /// Counts a finished task as completed or failed; it is no longer pending.
    pub fn record_completion(&mut self, succeeded: bool)
        requires
            succeeded ==> old(self).total_tasks_completed < u64::MAX,
            !succeeded ==> old(self).total_tasks_failed < u64::MAX,
        ensures
            final(self).total_tasks_submitted == old(self).total_tasks_submitted,
            final(self).active_threads == old(self).active_threads,
            final(self).pending_tasks == if old(self).pending_tasks > 0 {
                old(self).pending_tasks - 1
            } else {
                0
            },
            succeeded ==> final(self).total_tasks_completed == old(self).total_tasks_completed + 1
                && final(self).total_tasks_failed == old(self).total_tasks_failed,
            !succeeded ==> final(self).total_tasks_failed == old(self).total_tasks_failed + 1
                && final(self).total_tasks_completed == old(self).total_tasks_completed,
    {
        if succeeded {
            self.total_tasks_completed = self.total_tasks_completed + 1;
        } else {
            self.total_tasks_failed = self.total_tasks_failed + 1;
        }
        self.pending_tasks = self.pending_tasks.saturating_sub(1);
    }
}

/// A threading engine needs at least one worker thread.
pub fn check_worker_threads(worker_threads: usize) -> (r: NovaResult<()>)
    ensures
        worker_threads == 0 ==> r == Err::<(), NovaError>(NovaError::Threading(r->Err_0->Threading_0))
            && r->Err_0->Threading_0@ == "Worker thread count cannot be zero"@,
        worker_threads > 0 ==> r is Ok,
{
    if worker_threads == 0 {
        return Err(NovaError::threading("Worker thread count cannot be zero"));
    }
    Ok(())
}

} // verus!
