//! The pool's lifecycle: starting the workers, posting work, fetching results
//! and waiting for the workers to end.
use vstd::prelude::*;

verus! {

/// How one worker's slot fared in a call of [`ThreadPool::wait`].
#[derive(Clone, Copy, Debug, PartialEq, Eq, Structural)]
pub enum WorkerExit {
    /// The worker was joined and had ended normally.
    Finished,
    /// The worker was joined and had ended abnormally.
    Failed,
    /// The slot was empty: its worker had been joined by an earlier call.
    AlreadyJoined,
}

/// A fixed set of workers on one shared work queue.
///
/// `Q` is a handle to a shared queue and `H` a handle to a started worker.
/// The pool looks inside neither: it keeps them, and passes them to the
/// operations that its callers supply.
#[derive(Debug)]
pub struct ThreadPool<Q, H> {
    work: Q,
    results: Q,
    slots: Vec<Option<H>>,
}

/// What a pool is, to its contracts.
pub struct PoolView<Q, H> {
    /// The queue that work is posted on and that the workers read.
    pub input: Q,
    /// The queue that the workers put results on.
    pub output: Q,
    /// One entry per worker, in the order of their start: its handle, or
    /// `None` once it has been joined.
    pub slots: Seq<Option<H>>,
}

impl<Q, H> View for ThreadPool<Q, H> {
    type V = PoolView<Q, H>;

    closed spec fn view(&self) -> PoolView<Q, H> {
        PoolView { input: self.work, output: self.results, slots: self.slots@ }
    }
}

/// `slot` holds a handle that `start` gave for a worker on the queues
/// `input` and `output`.
pub open spec fn started_on<Q, H, S: Fn(&Q, &Q) -> H>(
    start: S,
    input: Q,
    output: Q,
    slot: Option<H>,
) -> bool {
    slot is Some && start.ensures((&input, &output), slot->0)
}

/// The exit that a joined worker is reported with: `ok` says that it ended
/// normally.
pub open spec fn exit_of(ok: bool) -> WorkerExit {
    if ok {
        WorkerExit::Finished
    } else {
        WorkerExit::Failed
    }
}

/// `exit` is a true account of `slot` under `join`: an empty slot is
/// reported as joined before, and a handle with an outcome that `join` gave
/// for that very handle.
pub open spec fn accounts_for<H, J: Fn(H) -> bool>(join: J, slot: Option<H>, exit: WorkerExit) -> bool {
    match slot {
        None => exit == WorkerExit::AlreadyJoined,
        Some(handle) => exists|ok: bool| join.ensures((handle,), ok) && exit == exit_of(ok),
    }
}

/// The slots after a wait: as many as before, and all of them empty.
pub open spec fn all_joined<H>(slots: Seq<Option<H>>) -> Seq<Option<H>> {
    Seq::new(slots.len(), |i: int| None)
}

impl WorkerExit {
    /// The exit to report for a worker that has just been joined.
    pub fn of_join(ok: bool) -> (exit: WorkerExit)
        ensures
            exit == exit_of(ok),
    {
        if ok {
            WorkerExit::Finished
        } else {
            WorkerExit::Failed
        }
    }
}

impl<Q, H> ThreadPool<Q, H> {
    /// Makes a pool of `nt` workers on the work queue `work` and the result
    /// queue `results`, calling `start` once for each worker, always with
    /// these two queues. Every count is accepted. A pool of no workers is
    /// legal: what is posted to it is never taken.
    pub fn new<S>(nt: u8, work: Q, results: Q, start: S) -> (pool: Self) where S: Fn(&Q, &Q) -> H
        requires
            start.requires((&work, &results)),
        ensures
            pool@.input == work,
            pool@.output == results,
            pool@.slots.len() == nt,
            forall|i: int|
                0 <= i < nt ==> started_on(start, work, results, #[trigger] pool@.slots[i]),
    {
        let mut vt: Vec<Option<H>> = Vec::new();
        for i in 0..nt
            invariant
                start.requires((&work, &results)),
                vt@.len() == i,
                forall|j: int| 0 <= j < i ==> started_on(start, work, results, #[trigger] vt@[j]),
        {
            let handle = start(&work, &results);
            vt.push(Some(handle));
        }
        ThreadPool { work, results, slots: vt }
    }

    /// Waits for the workers to end: calls `join` once on each handle that
    /// the pool still holds, in the order of the slots, and empties the slot.
    /// `join` says whether the worker ended normally. A worker that did not
    /// is reported and the others are joined all the same. A slot that is
    /// already empty is passed over, so a second call joins nothing.
    pub fn wait<J>(&mut self, join: J) -> (report: Vec<WorkerExit>) where J: Fn(H) -> bool
        requires
            forall|i: int|
                0 <= i < old(self)@.slots.len() && (#[trigger] old(self)@.slots[i]) is Some
                    ==> join.requires((old(self)@.slots[i]->0,)),
        ensures
            final(self)@.input == old(self)@.input,
            final(self)@.output == old(self)@.output,
            final(self)@.slots == all_joined(old(self)@.slots),
            report@.len() == old(self)@.slots.len(),
            forall|i: int|
                0 <= i < report@.len() ==> accounts_for(
                    join,
                    old(self)@.slots[i],
                    #[trigger] report@[i],
                ),
    {
        let mut report: Vec<WorkerExit> = Vec::new();
        let n = self.slots.len();
        for i in 0..n
            invariant
                n == old(self)@.slots.len(),
                self.slots@.len() == n,
                self.work == old(self).work,
                self.results == old(self).results,
                report@.len() == i,
                forall|j: int| 0 <= j < i ==> (#[trigger] self.slots@[j]) is None,
                forall|j: int| i <= j < n ==> #[trigger] self.slots@[j] == old(self)@.slots[j],
                forall|j: int|
                    0 <= j < i ==> accounts_for(join, old(self)@.slots[j], #[trigger] report@[j]),
                forall|j: int|
                    0 <= j < n && (#[trigger] old(self)@.slots[j]) is Some ==> join.requires(
                        (old(self)@.slots[j]->0,),
                    ),
        {
            let exit = match self.slots[i].take() {
                None => WorkerExit::AlreadyJoined,
                Some(handle) => {
                    let ok = join(handle);
                    WorkerExit::of_join(ok)
                },
            };
            report.push(exit);
        }
        assert(self.slots@ =~= all_joined(old(self)@.slots));
        report
    }

    /// Posts `msg` to the workers: calls `en_q` once, on the pool's work
    /// queue and `msg`, and returns what it gave, so that a queue that can
    /// refuse an item is heard. It blocks for as long as `en_q` does.
    pub fn post_message<M, R, E>(&mut self, msg: M, en_q: E) -> (outcome: R) where
        E: FnOnce(&Q, M) -> R,

        requires
            en_q.requires((&old(self)@.input, msg)),
        ensures
            en_q.ensures((&old(self)@.input, msg), outcome),
            final(self)@ == old(self)@,
    {
        en_q(&self.work, msg)
    }

    /// Fetches one result: calls `de_q` once, on the pool's result queue, and
    /// returns what it gave. It blocks for as long as `de_q` does, which is
    /// until a worker has put a result there.
    pub fn get_message<M, D>(&mut self, de_q: D) -> (msg: M) where D: FnOnce(&Q) -> M
        requires
            de_q.requires((&old(self)@.output,)),
        ensures
            de_q.ensures((&old(self)@.output,), msg),
            final(self)@ == old(self)@,
    {
        de_q(&self.results)
    }

    /// The number of workers that the pool was made with. It never changes.
    pub fn worker_count(&self) -> (n: usize)
        ensures
            n == self@.slots.len(),
    {
        self.slots.len()
    }
}

/// Waiting twice is safe. On the slots that one wait has left, no handle is
/// there to join, so a further wait may be called with any `join`; every
/// entry of its report is `AlreadyJoined`, and it leaves the slots as they
/// are.
pub proof fn wait_again_joins_nothing<H, J: Fn(H) -> bool>(
    slots: Seq<Option<H>>,
    join: J,
    report: Seq<WorkerExit>,
)
    requires
        report.len() == slots.len(),
        forall|i: int|
            0 <= i < report.len() ==> accounts_for(join, all_joined(slots)[i], #[trigger] report[i]),
    ensures
        forall|i: int| 0 <= i < slots.len() ==> (#[trigger] all_joined(slots)[i]) is None,
        forall|i: int| 0 <= i < report.len() ==> #[trigger] report[i] == WorkerExit::AlreadyJoined,
        all_joined(all_joined(slots)) == all_joined(slots),
{
    assert forall|i: int| 0 <= i < report.len() implies #[trigger] report[i]
        == WorkerExit::AlreadyJoined by {
        assert(accounts_for(join, all_joined(slots)[i], report[i]));
    }
    assert(all_joined(all_joined(slots)) =~= all_joined(slots));
}

} // verus!
