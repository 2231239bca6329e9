//! The shutdown relay, seen from one worker.
//!
//! Shutdown is cooperative. The caller posts one terminal item behind the
//! work. A worker that takes a terminal item puts the same item back on the
//! queue, so that the next worker takes it too, and only then leaves its
//! loop. The pool uses this convention alone: workers never expect one
//! terminal item each.
use vstd::prelude::*;

verus! {

/// What a worker does after it has looked at the item it took.
#[derive(Clone, Copy, Debug, PartialEq, Eq, Structural)]
pub enum WorkerStep {
    /// The item was work: take the next one.
    Next,
    /// The item was terminal: put it back on the queue, then exit.
    Relay,
}

/// The step that follows an item, by whether the item is terminal.
pub open spec fn step_on(terminal: bool) -> WorkerStep {
    if terminal {
        WorkerStep::Relay
    } else {
        WorkerStep::Next
    }
}

/// One turn of a worker on `queue` has been made with `item` and `terminal`:
/// `de_q` gave `item`, `execute` ran on it and said `terminal`, and if it
/// said so `en_q` put the same item back.
pub open spec fn turn_made<Q, M, D: Fn(&Q) -> M, X: Fn(&M) -> bool, E: Fn(&Q, M)>(
    queue: Q,
    de_q: D,
    execute: X,
    en_q: E,
    item: M,
    terminal: bool,
) -> bool {
    &&& de_q.ensures((&queue,), item)
    &&& execute.ensures((&item,), terminal)
    &&& terminal ==> en_q.ensures((&queue, item), ())
}

/// Decides what follows an item, for a worker that takes and executes items
/// by itself: `terminal` says whether the item was the terminal one.
pub fn worker_step(terminal: bool) -> (step: WorkerStep)
    ensures
        step == step_on(terminal),
{
    if terminal {
        WorkerStep::Relay
    } else {
        WorkerStep::Next
    }
}

/// Makes one turn of a worker's loop on `queue`: takes an item with `de_q`,
/// hands it to `execute`, which runs it and says whether it was the terminal
/// one, and puts a terminal item back with `en_q`. A worker calls this until
/// it returns `Relay`. The turn blocks for as long as `de_q` does.
pub fn worker_turn<Q, M, D, X, E>(queue: &Q, de_q: D, execute: X, en_q: E) -> (step: WorkerStep) where
    D: Fn(&Q) -> M,
    X: Fn(&M) -> bool,
    E: Fn(&Q, M),

    requires
        de_q.requires((queue,)),
        forall|item: M| de_q.ensures((queue,), item) ==> execute.requires((&item,)),
        forall|item: M|
            de_q.ensures((queue,), item) && execute.ensures((&item,), true) ==> en_q.requires(
                (queue, item),
            ),
    ensures
        exists|item: M, terminal: bool|
            turn_made(*queue, de_q, execute, en_q, item, terminal) && step == step_on(terminal),
{
    let item = de_q(queue);
    let terminal = execute(&item);
    let step = worker_step(terminal);
    match step {
        WorkerStep::Next => {},
        WorkerStep::Relay => {
            en_q(queue, item);
        },
    }
    assert(turn_made(*queue, de_q, execute, en_q, item, terminal));
    step
}

} // verus!
