//! A run of the pool as a sequence of queue operations, and what the relay
//! guarantees of every such run.
//!
//! The shared queue serialises its operations, so a run is one sequence of
//! them: producers post items, and each worker takes an item, looks at it
//! and, when it is terminal, puts it back and exits, as [`step_on`] says.
//! A worker may also end abnormally while it executes a work item. Which
//! worker moves when is left open: the laws below hold of every order.
use crate::relay::{step_on, WorkerStep};
use vstd::prelude::*;

verus! {

/// Where a worker stands between two operations on the queue.
pub enum Worker<M> {
    /// In its loop, about to take an item.
    Taking,
    /// Holds the terminal item that it took, about to put it back.
    Holding(M),
    /// Has put the terminal item back and left its loop.
    Exited,
    /// Has ended abnormally while it executed a work item.
    Failed,
}

/// One operation on the shared queue.
pub enum Event<M> {
    /// A producer puts the item at the tail.
    Post(M),
    /// The worker of this index removes the head and looks at it.
    Take(nat),
    /// The worker of this index puts the terminal item it holds at the tail.
    PutBack(nat),
    /// The worker of this index removes the head, a work item, and ends
    /// abnormally while it executes it.
    Fail(nat),
}

/// A work item that was taken for execution, the index of the worker that
/// took it, and whether the execution came to its end.
pub struct Execution<M> {
    pub worker: nat,
    pub item: M,
    pub completed: bool,
}

/// The state of a pool in the middle of a run.
pub struct PoolRun<M> {
    /// The items on the queue, head first.
    pub queue: Seq<M>,
    /// Where each worker stands.
    pub workers: Seq<Worker<M>>,
    /// Every item that producers have posted so far, in the order of posting.
    pub posted: Seq<M>,
    /// Every execution so far, in the order in which the items were taken.
    pub log: Seq<Execution<M>>,
}

/// The items of `items` that are work, in their order.
pub open spec fn work_in<M>(items: Seq<M>, terminal: spec_fn(M) -> bool) -> Seq<M> {
    items.filter(|item: M| !terminal(item))
}

/// The items of `items` that are terminal, in their order.
pub open spec fn sentinels_in<M>(items: Seq<M>, terminal: spec_fn(M) -> bool) -> Seq<M> {
    items.filter(terminal)
}

/// No work item stands behind a terminal one.
pub open spec fn sentinels_last<M>(items: Seq<M>, terminal: spec_fn(M) -> bool) -> bool {
    forall|i: int, j: int|
        0 <= i <= j < items.len() && terminal(#[trigger] items[i]) ==> terminal(#[trigger] items[j])
}

/// How many of the workers hold a terminal item.
spec fn holding<M>(workers: Seq<Worker<M>>) -> nat
    decreases workers.len(),
{
    if workers.len() == 0 {
        0
    } else {
        holding(workers.drop_last()) + if workers.last() is Holding {
            1nat
        } else {
            0nat
        }
    }
}

/// How many of the workers have exited.
spec fn exited<M>(workers: Seq<Worker<M>>) -> nat
    decreases workers.len(),
{
    if workers.len() == 0 {
        0
    } else {
        exited(workers.drop_last()) + if workers.last() is Exited {
            1nat
        } else {
            0nat
        }
    }
}

/// How many of the events are a worker's: a take, a put-back or a failure.
pub open spec fn worker_moves<M>(events: Seq<Event<M>>) -> nat
    decreases events.len(),
{
    if events.len() == 0 {
        0
    } else {
        worker_moves(events.drop_last()) + if events.last() is Post {
            0nat
        } else {
            1nat
        }
    }
}

impl<M> PoolRun<M> {
    /// A pool of `workers` workers that has just been made: nothing is posted
    /// and every worker is about to take its first item.
    pub open spec fn fresh(workers: nat) -> Self {
        PoolRun {
            queue: Seq::empty(),
            workers: Seq::new(workers, |w: int| Worker::Taking),
            posted: Seq::empty(),
            log: Seq::empty(),
        }
    }

    /// Whether `event` can happen now. A post always can. A take needs a
    /// worker in its loop and an item on the queue: on an empty queue the
    /// worker blocks. A put-back needs a worker that holds an item. A worker
    /// can fail where it can take, if the head is a work item.
    pub open spec fn enabled(self, event: Event<M>, terminal: spec_fn(M) -> bool) -> bool {
        match event {
            Event::Post(_) => true,
            Event::Take(w) => w < self.workers.len() && self.workers[w as int] is Taking
                && self.queue.len() > 0,
            Event::PutBack(w) => w < self.workers.len() && self.workers[w as int] is Holding,
            Event::Fail(w) => w < self.workers.len() && self.workers[w as int] is Taking
                && self.queue.len() > 0 && !terminal(self.queue[0]),
        }
    }

    /// The state after `event`.
    pub open spec fn step(self, event: Event<M>, terminal: spec_fn(M) -> bool) -> Self {
        match event {
            Event::Post(item) => PoolRun {
                queue: self.queue.push(item),
                posted: self.posted.push(item),
                ..self
            },
            Event::Take(w) => {
                let item = self.queue[0];
                match step_on(terminal(item)) {
                    WorkerStep::Next => PoolRun {
                        queue: self.queue.drop_first(),
                        log: self.log.push(Execution { worker: w, item, completed: true }),
                        ..self
                    },
                    WorkerStep::Relay => PoolRun {
                        queue: self.queue.drop_first(),
                        workers: self.workers.update(w as int, Worker::Holding(item)),
                        ..self
                    },
                }
            },
            Event::PutBack(w) => match self.workers[w as int] {
                Worker::Holding(item) => PoolRun {
                    queue: self.queue.push(item),
                    workers: self.workers.update(w as int, Worker::Exited),
                    ..self
                },
                _ => self,
            },
            Event::Fail(w) => PoolRun {
                queue: self.queue.drop_first(),
                workers: self.workers.update(w as int, Worker::Failed),
                log: self.log.push(Execution { worker: w, item: self.queue[0], completed: false }),
                ..self
            },
        }
    }

    /// The state after `events`, one after the other.
    pub open spec fn after(self, events: Seq<Event<M>>, terminal: spec_fn(M) -> bool) -> Self
        decreases events.len(),
    {
        if events.len() == 0 {
            self
        } else {
            self.after(events.drop_last(), terminal).step(events.last(), terminal)
        }
    }

    /// Whether `events` can happen one after the other from this state.
    pub open spec fn allows(self, events: Seq<Event<M>>, terminal: spec_fn(M) -> bool) -> bool
        decreases events.len(),
    {
        events.len() == 0 || (self.allows(events.drop_last(), terminal) && self.after(
            events.drop_last(),
            terminal,
        ).enabled(events.last(), terminal))
    }

    /// The items taken for execution so far, in the order in which they were
    /// taken.
    pub open spec fn executed(self) -> Seq<M> {
        Seq::new(self.log.len(), |i: int| self.log[i].item)
    }

    /// No worker can move: each has ended, or waits at an empty queue.
    pub open spec fn at_rest(self, terminal: spec_fn(M) -> bool) -> bool {
        forall|w: nat|
            !self.enabled(Event::Take(w), terminal) && !self.enabled(Event::PutBack(w), terminal)
                && !self.enabled(Event::Fail(w), terminal)
    }

    /// Every worker has ended, by the relay or abnormally.
    pub open spec fn all_ended(self) -> bool {
        forall|w: int|
            0 <= w < self.workers.len() ==> (#[trigger] self.workers[w]) is Exited
                || self.workers[w] is Failed
    }

    /// Every worker has exited by the relay.
    pub open spec fn all_exited(self) -> bool {
        forall|w: int| 0 <= w < self.workers.len() ==> (#[trigger] self.workers[w]) is Exited
    }

    /// Every execution so far came to its end.
    pub open spec fn all_completed(self) -> bool {
        forall|i: int| 0 <= i < self.log.len() ==> (#[trigger] self.log[i]).completed
    }

    /// No worker has ended abnormally.
    pub open spec fn none_failed(self) -> bool {
        forall|w: int| 0 <= w < self.workers.len() ==> !((#[trigger] self.workers[w]) is Failed)
    }

    /// At least one worker has not ended abnormally.
    pub open spec fn some_survive(self) -> bool {
        exists|w: int| 0 <= w < self.workers.len() && !((#[trigger] self.workers[w]) is Failed)
    }

    /// What holds of every state that a fresh pool of `n` workers can reach.
    #[verifier::opaque]
    spec fn sound(self, n: nat, terminal: spec_fn(M) -> bool) -> bool {
        &&& self.workers.len() == n
        &&& self.executed() + work_in(self.queue, terminal) == work_in(self.posted, terminal)
        &&& sentinels_in(self.queue, terminal).len() + holding(self.workers) == sentinels_in(
            self.posted,
            terminal,
        ).len()
        &&& forall|i: int|
            0 <= i < self.queue.len() ==> self.posted.contains(#[trigger] self.queue[i])
        &&& forall|w: int|
            0 <= w < self.workers.len() ==> ((#[trigger] self.workers[w]) matches Worker::Holding(
                item,
            ) ==> terminal(item) && self.posted.contains(item))
        &&& forall|w: int|
            0 <= w < self.workers.len() && ((#[trigger] self.workers[w]) is Holding
                || self.workers[w] is Exited) ==> sentinels_in(self.posted, terminal).len() > 0
        &&& forall|i: int| 0 <= i < self.log.len() ==> (#[trigger] self.log[i]).worker < n
        &&& forall|i: int|
            0 <= i < self.log.len() && !(#[trigger] self.log[i]).completed
                ==> self.workers[self.log[i].worker as int] is Failed
    }

    /// What holds besides where no work was posted behind a terminal item:
    /// once a worker has taken a terminal item, only terminal items are on
    /// the queue.
    #[verifier::opaque]
    spec fn drained(self, terminal: spec_fn(M) -> bool) -> bool {
        &&& sentinels_last(self.queue, terminal)
        &&& forall|w: int, i: int|
            0 <= w < self.workers.len() && ((#[trigger] self.workers[w]) is Holding
                || self.workers[w] is Exited) && 0 <= i < self.queue.len() ==> terminal(
                #[trigger] self.queue[i],
            )
    }
}

/// What an item put at the tail adds to the work and to the terminal items.
proof fn lemma_work_in_push<M>(items: Seq<M>, item: M, terminal: spec_fn(M) -> bool)
    ensures
        work_in(items.push(item), terminal) == if terminal(item) {
            work_in(items, terminal)
        } else {
            work_in(items, terminal).push(item)
        },
        sentinels_in(items.push(item), terminal) == if terminal(item) {
            sentinels_in(items, terminal).push(item)
        } else {
            sentinels_in(items, terminal)
        },
{
    items.lemma_filter_push(item, |item: M| !terminal(item));
    items.lemma_filter_push(item, terminal);
}

/// What the head contributes to the work and to the terminal items.
proof fn lemma_work_in_drop_first<M>(items: Seq<M>, terminal: spec_fn(M) -> bool)
    requires
        items.len() > 0,
    ensures
        work_in(items, terminal) == (if terminal(items[0]) {
            Seq::empty()
        } else {
            seq![items[0]]
        }) + work_in(items.drop_first(), terminal),
        sentinels_in(items, terminal) == (if terminal(items[0]) {
            seq![items[0]]
        } else {
            Seq::empty()
        }) + sentinels_in(items.drop_first(), terminal),
{
    assert(items =~= seq![items[0]] + items.drop_first());
    items.drop_first().lemma_filter_prepend(items[0], |item: M| !terminal(item));
    items.drop_first().lemma_filter_prepend(items[0], terminal);
}

/// A filter keeps a sequence whose items all pass.
proof fn lemma_filter_all<M>(items: Seq<M>, pred: spec_fn(M) -> bool)
    requires
        forall|i: int| 0 <= i < items.len() ==> pred(#[trigger] items[i]),
    ensures
        items.filter(pred) == items,
    decreases items.len(),
{
    if items.len() == 0 {
        items.lemma_filter_len(pred);
        assert(items.filter(pred) =~= items);
    } else {
        lemma_filter_all(items.drop_last(), pred);
        items.drop_last().lemma_filter_push(items.last(), pred);
        assert(items.drop_last().push(items.last()) =~= items);
    }
}

/// A filter leaves nothing of a sequence of which no item passes.
proof fn lemma_filter_none<M>(items: Seq<M>, pred: spec_fn(M) -> bool)
    requires
        forall|i: int| 0 <= i < items.len() ==> !pred(#[trigger] items[i]),
    ensures
        items.filter(pred) == Seq::<M>::empty(),
    decreases items.len(),
{
    if items.len() == 0 {
        items.lemma_filter_len(pred);
        assert(items.filter(pred) =~= Seq::<M>::empty());
    } else {
        lemma_filter_none(items.drop_last(), pred);
        items.drop_last().lemma_filter_push(items.last(), pred);
        assert(items.drop_last().push(items.last()) =~= items);
    }
}

/// A filter leaves something where an item passes.
proof fn lemma_filter_some<M>(items: Seq<M>, pred: spec_fn(M) -> bool, i: int)
    requires
        0 <= i < items.len(),
        pred(items[i]),
    ensures
        items.filter(pred).len() > 0,
{
    items.lemma_filter_contains(pred, i);
}

/// How the two tallies change when one worker changes its state.
proof fn lemma_tally_update<M>(workers: Seq<Worker<M>>, w: int, to: Worker<M>)
    requires
        0 <= w < workers.len(),
    ensures
        holding(workers.update(w, to)) + (if workers[w] is Holding {
            1nat
        } else {
            0nat
        }) == holding(workers) + (if to is Holding {
            1nat
        } else {
            0nat
        }),
        exited(workers.update(w, to)) + (if workers[w] is Exited {
            1nat
        } else {
            0nat
        }) == exited(workers) + (if to is Exited {
            1nat
        } else {
            0nat
        }),
    decreases workers.len(),
{
    if w == workers.len() - 1 {
        assert(workers.update(w, to).drop_last() =~= workers.drop_last());
    } else {
        lemma_tally_update(workers.drop_last(), w, to);
        assert(workers.update(w, to).drop_last() =~= workers.drop_last().update(w, to));
    }
}

/// The two tallies count different workers, and no worker where none fits.
proof fn lemma_tally_bounds<M>(workers: Seq<Worker<M>>)
    ensures
        holding(workers) + exited(workers) <= workers.len(),
        (forall|w: int| 0 <= w < workers.len() ==> !((#[trigger] workers[w]) is Holding))
            ==> holding(workers) == 0,
    decreases workers.len(),
{
    if workers.len() > 0 {
        lemma_tally_bounds(workers.drop_last());
        assert(forall|w: int|
            0 <= w < workers.drop_last().len() ==> #[trigger] workers.drop_last()[w] == workers[w]);
    }
}

/// An event keeps a sound state sound, and a worker's event is one move.
proof fn lemma_step_sound<M>(
    s: PoolRun<M>,
    n: nat,
    event: Event<M>,
    terminal: spec_fn(M) -> bool,
)
    requires
        s.sound(n, terminal),
        s.enabled(event, terminal),
    ensures
        s.step(event, terminal).sound(n, terminal),
        s.step(event, terminal).log.len() + holding(s.step(event, terminal).workers) + 2 * exited(
            s.step(event, terminal).workers,
        ) == s.log.len() + holding(s.workers) + 2 * exited(s.workers) + if event is Post {
            0nat
        } else {
            1nat
        },
{
    reveal(PoolRun::sound);
    let t = s.step(event, terminal);
    match event {
        Event::Post(item) => {
            lemma_work_in_push(s.queue, item, terminal);
            lemma_work_in_push(s.posted, item, terminal);
            assert(t.executed() =~= s.executed());
            assert(t.executed() + work_in(t.queue, terminal) =~= work_in(t.posted, terminal));
            assert(t.posted[s.posted.len() as int] == item);
            assert forall|x: M| s.posted.contains(x) implies t.posted.contains(x) by {
                let j = choose|j: int| 0 <= j < s.posted.len() && s.posted[j] == x;
                assert(t.posted[j] == x);
            }
        },
        Event::Take(w) => {
            let item = s.queue[0];
            lemma_work_in_drop_first(s.queue, terminal);
            assert(s.posted.contains(s.queue[0]));
            assert forall|i: int| 0 <= i < t.queue.len() implies t.posted.contains(
                #[trigger] t.queue[i],
            ) by {
                assert(t.queue[i] == s.queue[i + 1]);
            }
            if terminal(item) {
                lemma_tally_update(s.workers, w as int, Worker::Holding(item));
                assert(t.executed() =~= s.executed());
                assert(t.executed() + work_in(t.queue, terminal) =~= work_in(t.posted, terminal));
                lemma_filter_some(s.queue, terminal, 0);
            } else {
                assert(t.executed() =~= s.executed().push(item));
                assert(t.executed() + work_in(t.queue, terminal) =~= work_in(t.posted, terminal));
            }
        },
        Event::PutBack(w) => {
            let item = s.workers[w as int]->Holding_0;
            assert(s.workers[w as int] matches Worker::Holding(held) && held == item);
            lemma_work_in_push(s.queue, item, terminal);
            lemma_tally_update(s.workers, w as int, Worker::Exited);
            assert(t.executed() =~= s.executed());
        },
        Event::Fail(w) => {
            let item = s.queue[0];
            lemma_work_in_drop_first(s.queue, terminal);
            lemma_tally_update(s.workers, w as int, Worker::Failed);
            assert forall|i: int| 0 <= i < t.queue.len() implies t.posted.contains(
                #[trigger] t.queue[i],
            ) by {
                assert(t.queue[i] == s.queue[i + 1]);
            }
            assert(t.executed() =~= s.executed().push(item));
            assert(t.executed() + work_in(t.queue, terminal) =~= work_in(t.posted, terminal));
        },
    }
}

/// An event keeps a drained state drained, where no work is posted behind
/// a terminal item.
proof fn lemma_step_drained<M>(
    s: PoolRun<M>,
    n: nat,
    event: Event<M>,
    terminal: spec_fn(M) -> bool,
)
    requires
        s.sound(n, terminal),
        s.drained(terminal),
        s.enabled(event, terminal),
        sentinels_last(s.step(event, terminal).posted, terminal),
    ensures
        s.step(event, terminal).drained(terminal),
{
    reveal(PoolRun::sound);
    reveal(PoolRun::drained);
    let t = s.step(event, terminal);
    match event {
        Event::Post(item) => {
            if !terminal(item) {
                let last = s.posted.len() as int;
                assert(t.posted[last] == item);
                assert forall|i: int| 0 <= i < s.posted.len() implies !terminal(
                    #[trigger] s.posted[i],
                ) by {
                    assert(t.posted[i] == s.posted[i]);
                }
                lemma_filter_none(s.posted, terminal);
                assert forall|i: int| 0 <= i < s.queue.len() implies !terminal(
                    #[trigger] s.queue[i],
                ) by {
                    if terminal(s.queue[i]) {
                        lemma_filter_some(s.queue, terminal, i);
                    }
                }
            }
        },
        Event::Take(w) => {
            assert forall|i: int| 0 <= i < t.queue.len() implies #[trigger] t.queue[i] == s.queue[i
                + 1] by {}
            if terminal(s.queue[0]) {
                assert forall|i: int| 0 <= i < t.queue.len() implies terminal(
                    #[trigger] t.queue[i],
                ) by {
                    assert(terminal(s.queue[0]) ==> terminal(s.queue[i + 1]));
                }
            } else {
                lemma_head_is_work(s, terminal);
            }
        },
        Event::PutBack(w) => {
            assert(s.workers[w as int] is Holding);
            assert forall|i: int| 0 <= i < s.queue.len() implies terminal(#[trigger] s.queue[i]) by {}
        },
        Event::Fail(w) => {
            assert forall|i: int| 0 <= i < t.queue.len() implies #[trigger] t.queue[i] == s.queue[i
                + 1] by {}
            lemma_head_is_work(s, terminal);
        },
    }
}

/// While a work item is at the head, no worker has met a terminal item yet.
proof fn lemma_head_is_work<M>(s: PoolRun<M>, terminal: spec_fn(M) -> bool)
    requires
        s.drained(terminal),
        s.queue.len() > 0,
        !terminal(s.queue[0]),
    ensures
        forall|v: int|
            0 <= v < s.workers.len() ==> !((#[trigger] s.workers[v]) is Holding) && !(s.workers[v]
                is Exited),
{
    reveal(PoolRun::drained);
    assert forall|v: int| 0 <= v < s.workers.len() implies !((#[trigger] s.workers[v]) is Holding)
        && !(s.workers[v] is Exited) by {
        if s.workers[v] is Holding || s.workers[v] is Exited {
            assert(terminal(s.queue[0]));
        }
    }
}

/// In a fresh pool no worker holds an item and none has exited.
proof fn lemma_fresh_tally<M>(n: nat)
    ensures
        holding(PoolRun::<M>::fresh(n).workers) == 0,
        exited(PoolRun::<M>::fresh(n).workers) == 0,
    decreases n,
{
    if n > 0 {
        lemma_fresh_tally::<M>((n - 1) as nat);
        assert(PoolRun::<M>::fresh(n).workers.drop_last() =~= PoolRun::<M>::fresh(
            (n - 1) as nat,
        ).workers);
    }
}

/// Every state of a run is sound, and the workers' moves are accounted for.
proof fn lemma_run_sound<M>(n: nat, events: Seq<Event<M>>, terminal: spec_fn(M) -> bool)
    requires
        PoolRun::<M>::fresh(n).allows(events, terminal),
    ensures
        PoolRun::<M>::fresh(n).after(events, terminal).sound(n, terminal),
        worker_moves(events) == PoolRun::<M>::fresh(n).after(events, terminal).log.len() + holding(
            PoolRun::<M>::fresh(n).after(events, terminal).workers,
        ) + 2 * exited(PoolRun::<M>::fresh(n).after(events, terminal).workers),
    decreases events.len(),
{
    let start = PoolRun::<M>::fresh(n);
    if events.len() == 0 {
        reveal(PoolRun::sound);
        lemma_filter_none(start.queue, terminal);
        lemma_filter_none(start.queue, |item: M| !terminal(item));
        assert(start.executed() + work_in(start.queue, terminal) =~= work_in(
            start.posted,
            terminal,
        ));
        lemma_fresh_tally::<M>(n);
    } else {
        lemma_run_sound(n, events.drop_last(), terminal);
        lemma_step_sound(start.after(events.drop_last(), terminal), n, events.last(), terminal);
    }
}

/// Every state of a run is drained, where no work is posted behind a
/// terminal item.
proof fn lemma_run_drained<M>(n: nat, events: Seq<Event<M>>, terminal: spec_fn(M) -> bool)
    requires
        PoolRun::<M>::fresh(n).allows(events, terminal),
        sentinels_last(PoolRun::<M>::fresh(n).after(events, terminal).posted, terminal),
    ensures
        PoolRun::<M>::fresh(n).after(events, terminal).drained(terminal),
    decreases events.len(),
{
    let start = PoolRun::<M>::fresh(n);
    if events.len() == 0 {
        reveal(PoolRun::drained);
    } else {
        let before = start.after(events.drop_last(), terminal);
        let end = before.step(events.last(), terminal);
        assert forall|i: int, j: int|
            0 <= i <= j < before.posted.len() && terminal(
                #[trigger] before.posted[i],
            ) implies terminal(#[trigger] before.posted[j]) by {
            assert(end.posted[i] == before.posted[i]);
            assert(end.posted[j] == before.posted[j]);
        }
        lemma_run_drained(n, events.drop_last(), terminal);
        lemma_run_sound(n, events.drop_last(), terminal);
        lemma_step_drained(before, n, events.last(), terminal);
    }
}

/// Work followed by one terminal item: what is work in it and what is not.
proof fn lemma_work_then_sentinel<M>(work: Seq<M>, sentinel: M, terminal: spec_fn(M) -> bool)
    requires
        forall|i: int| 0 <= i < work.len() ==> !terminal(#[trigger] work[i]),
        terminal(sentinel),
    ensures
        sentinels_last(work.push(sentinel), terminal),
        sentinels_in(work.push(sentinel), terminal) == seq![sentinel],
        work_in(work.push(sentinel), terminal) == work,
{
    lemma_work_in_push(work, sentinel, terminal);
    lemma_filter_none(work, terminal);
    lemma_filter_all(work, |item: M| !terminal(item));
    assert(Seq::<M>::empty().push(sentinel) =~= seq![sentinel]);
    let posted = work.push(sentinel);
    assert forall|i: int, j: int|
        0 <= i <= j < posted.len() && terminal(#[trigger] posted[i]) implies terminal(
        #[trigger] posted[j],
    ) by {
        if i < work.len() {
            assert(posted[i] == work[i]);
        }
    }
}

/// A queue of one terminal item that was posted holds the one that was.
proof fn lemma_only_sentinel<M>(
    queue: Seq<M>,
    work: Seq<M>,
    sentinel: M,
    terminal: spec_fn(M) -> bool,
)
    requires
        forall|i: int| 0 <= i < work.len() ==> !terminal(#[trigger] work[i]),
        queue.len() == 1,
        sentinels_in(queue, terminal) == queue,
        work.push(sentinel).contains(queue[0]),
    ensures
        queue == seq![sentinel],
{
    let posted = work.push(sentinel);
    let j = choose|j: int| 0 <= j < posted.len() && posted[j] == queue[0];
    queue.lemma_filter_pred(terminal, 0);
    if j < work.len() {
        assert(posted[j] == work[j]);
    }
    assert(queue =~= seq![sentinel]);
}

/// No posted work is lost and none is taken twice, whatever the number of
/// workers and of producers, the order of their moves, and the workers that
/// fail. At every moment of a run, the items taken for execution so far,
/// followed by the work that is still on the queue, are the work posted so
/// far, item for item and in the order of posting. Each item was taken by
/// one worker of the pool, and its execution came to its end unless that
/// worker failed.
pub proof fn work_is_executed_once<M>(n: nat, events: Seq<Event<M>>, terminal: spec_fn(M) -> bool)
    requires
        PoolRun::<M>::fresh(n).allows(events, terminal),
    ensures
        ({
            let end = PoolRun::<M>::fresh(n).after(events, terminal);
            &&& end.workers.len() == n
            &&& end.executed() + work_in(end.queue, terminal) == work_in(end.posted, terminal)
            &&& forall|i: int| 0 <= i < end.log.len() ==> (#[trigger] end.log[i]).worker < n
            &&& forall|i: int|
                0 <= i < end.log.len() && !(#[trigger] end.log[i]).completed
                    ==> end.workers[end.log[i].worker as int] is Failed
        }),
{
    reveal(PoolRun::sound);
    lemma_run_sound(n, events, terminal);
}

/// The workers cannot go on for ever. In a run of a pool of `n` workers, the
/// workers make at most one move for each work item posted, to take it, and
/// two more each: the take of a terminal item, and its put-back.
pub proof fn workers_move_boundedly<M>(n: nat, events: Seq<Event<M>>, terminal: spec_fn(M) -> bool)
    requires
        PoolRun::<M>::fresh(n).allows(events, terminal),
    ensures
        worker_moves(events) <= work_in(
            PoolRun::<M>::fresh(n).after(events, terminal).posted,
            terminal,
        ).len() + 2 * n,
{
    reveal(PoolRun::sound);
    let end = PoolRun::<M>::fresh(n).after(events, terminal);
    lemma_run_sound(n, events, terminal);
    lemma_tally_bounds(end.workers);
    assert(end.executed().len() + work_in(end.queue, terminal).len() == work_in(
        end.posted,
        terminal,
    ).len());
}

/// The relay reaches every worker, and a worker that fails does not stop it.
/// Once a terminal item has been posted, the workers can come to rest only
/// when all of them have ended: none is left waiting at the queue. No
/// terminal item is used up on the way: as many are on the queue then as
/// were posted.
pub proof fn relay_reaches_every_worker<M>(
    n: nat,
    events: Seq<Event<M>>,
    terminal: spec_fn(M) -> bool,
)
    requires
        PoolRun::<M>::fresh(n).allows(events, terminal),
        PoolRun::<M>::fresh(n).after(events, terminal).at_rest(terminal),
        sentinels_in(PoolRun::<M>::fresh(n).after(events, terminal).posted, terminal).len() > 0,
    ensures
        PoolRun::<M>::fresh(n).after(events, terminal).all_ended(),
        sentinels_in(PoolRun::<M>::fresh(n).after(events, terminal).queue, terminal).len()
            == sentinels_in(PoolRun::<M>::fresh(n).after(events, terminal).posted, terminal).len(),
{
    lemma_run_sound(n, events, terminal);
    lemma_rest_ended(PoolRun::<M>::fresh(n).after(events, terminal), n, terminal);
}

/// Where no work is posted behind a terminal item, all the work is done when
/// the workers come to rest, as long as one worker at least has not failed.
/// In a run in which a terminal item was posted, the items taken for
/// execution are then the work posted, item for item and in the order of
/// posting, and the queue holds the terminal items and nothing else.
pub proof fn all_work_is_done_at_rest<M>(
    n: nat,
    events: Seq<Event<M>>,
    terminal: spec_fn(M) -> bool,
)
    requires
        PoolRun::<M>::fresh(n).allows(events, terminal),
        PoolRun::<M>::fresh(n).after(events, terminal).at_rest(terminal),
        PoolRun::<M>::fresh(n).after(events, terminal).some_survive(),
        sentinels_last(PoolRun::<M>::fresh(n).after(events, terminal).posted, terminal),
        sentinels_in(PoolRun::<M>::fresh(n).after(events, terminal).posted, terminal).len() > 0,
    ensures
        ({
            let end = PoolRun::<M>::fresh(n).after(events, terminal);
            &&& end.all_ended()
            &&& end.executed() == work_in(end.posted, terminal)
            &&& sentinels_in(end.queue, terminal) == end.queue
            &&& end.queue.len() == sentinels_in(end.posted, terminal).len()
        }),
{
    lemma_run_sound(n, events, terminal);
    lemma_run_drained(n, events, terminal);
    lemma_rest_done(PoolRun::<M>::fresh(n).after(events, terminal), n, terminal);
}

/// One terminal item behind the work ends the run. For a pool of at least
/// one worker, where the items posted are `work`, none of it terminal, and
/// then the one terminal item `sentinel`, and where no worker fails: when the
/// workers come to rest, every one of them has exited, the items executed
/// are `work`, each once, in order and to its end, and the queue holds
/// `sentinel` and nothing else. The last worker puts it back like the
/// others, and no worker is left to take it.
pub proof fn one_sentinel_ends_the_run<M>(
    n: nat,
    work: Seq<M>,
    sentinel: M,
    events: Seq<Event<M>>,
    terminal: spec_fn(M) -> bool,
)
    requires
        n >= 1,
        forall|i: int| 0 <= i < work.len() ==> !terminal(#[trigger] work[i]),
        terminal(sentinel),
        PoolRun::<M>::fresh(n).allows(events, terminal),
        PoolRun::<M>::fresh(n).after(events, terminal).posted == work.push(sentinel),
        PoolRun::<M>::fresh(n).after(events, terminal).none_failed(),
        PoolRun::<M>::fresh(n).after(events, terminal).at_rest(terminal),
    ensures
        PoolRun::<M>::fresh(n).after(events, terminal).all_exited(),
        PoolRun::<M>::fresh(n).after(events, terminal).executed() == work,
        PoolRun::<M>::fresh(n).after(events, terminal).all_completed(),
        PoolRun::<M>::fresh(n).after(events, terminal).queue == seq![sentinel],
{
    lemma_work_then_sentinel(work, sentinel, terminal);
    lemma_run_sound(n, events, terminal);
    lemma_run_drained(n, events, terminal);
    lemma_rest_one_sentinel(
        PoolRun::<M>::fresh(n).after(events, terminal),
        n,
        work,
        sentinel,
        terminal,
    );
}

/// At rest, with a terminal item posted, every worker has ended.
proof fn lemma_rest_ended<M>(end: PoolRun<M>, n: nat, terminal: spec_fn(M) -> bool)
    requires
        end.sound(n, terminal),
        end.at_rest(terminal),
        sentinels_in(end.posted, terminal).len() > 0,
    ensures
        end.all_ended(),
        sentinels_in(end.queue, terminal).len() == sentinels_in(end.posted, terminal).len(),
{
    reveal(PoolRun::sound);
    assert forall|w: int| 0 <= w < end.workers.len() implies !((#[trigger] end.workers[w])
        is Holding) by {
        assert(!end.enabled(Event::PutBack(w as nat), terminal));
    }
    lemma_tally_bounds(end.workers);
    end.queue.lemma_filter_len(terminal);
    assert forall|w: int| 0 <= w < end.workers.len() implies (#[trigger] end.workers[w]) is Exited
        || end.workers[w] is Failed by {
        assert(!end.enabled(Event::Take(w as nat), terminal));
    }
}

/// At rest in a drained state, with a survivor, the work is done.
proof fn lemma_rest_done<M>(end: PoolRun<M>, n: nat, terminal: spec_fn(M) -> bool)
    requires
        end.sound(n, terminal),
        end.drained(terminal),
        end.at_rest(terminal),
        end.some_survive(),
        sentinels_in(end.posted, terminal).len() > 0,
    ensures
        end.all_ended(),
        end.executed() == work_in(end.posted, terminal),
        sentinels_in(end.queue, terminal) == end.queue,
        end.queue.len() == sentinels_in(end.posted, terminal).len(),
{
    reveal(PoolRun::sound);
    reveal(PoolRun::drained);
    lemma_rest_ended(end, n, terminal);
    let w = choose|w: int| 0 <= w < end.workers.len() && !((#[trigger] end.workers[w]) is Failed);
    assert(end.workers[w] is Exited);
    assert forall|i: int| 0 <= i < end.queue.len() implies terminal(#[trigger] end.queue[i]) by {}
    lemma_filter_all(end.queue, terminal);
    lemma_filter_none(end.queue, |item: M| !terminal(item));
    assert(end.executed() + work_in(end.queue, terminal) =~= end.executed());
}

/// At rest after work and one terminal item, where no worker failed.
proof fn lemma_rest_one_sentinel<M>(
    end: PoolRun<M>,
    n: nat,
    work: Seq<M>,
    sentinel: M,
    terminal: spec_fn(M) -> bool,
)
    requires
        n >= 1,
        forall|i: int| 0 <= i < work.len() ==> !terminal(#[trigger] work[i]),
        end.sound(n, terminal),
        end.drained(terminal),
        end.at_rest(terminal),
        end.none_failed(),
        end.posted == work.push(sentinel),
        sentinels_in(work.push(sentinel), terminal) == seq![sentinel],
        work_in(work.push(sentinel), terminal) == work,
    ensures
        end.all_exited(),
        end.executed() == work,
        end.all_completed(),
        end.queue == seq![sentinel],
{
    lemma_none_failed(end, n, terminal);
    lemma_rest_done(end, n, terminal);
    lemma_only_sentinel(end.queue, work, sentinel, terminal);
}

/// Where no worker has failed, one worker at least survives in a pool that
/// has one, every execution came to its end, and what is on the queue was
/// posted.
proof fn lemma_none_failed<M>(end: PoolRun<M>, n: nat, terminal: spec_fn(M) -> bool)
    requires
        n >= 1,
        end.sound(n, terminal),
        end.none_failed(),
    ensures
        end.some_survive(),
        end.all_completed(),
        end.all_ended() ==> end.all_exited(),
        end.queue.len() > 0 ==> end.posted.contains(end.queue[0]),
{
    reveal(PoolRun::sound);
    assert(!(end.workers[0] is Failed));
    assert forall|i: int| 0 <= i < end.log.len() implies (#[trigger] end.log[i]).completed by {
        if !end.log[i].completed {
            assert(end.workers[end.log[i].worker as int] is Failed);
        }
    }
}

} // verus!
