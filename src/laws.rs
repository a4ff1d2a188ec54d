//! Properties of the engine that span several snapshots or several calls.
use vstd::prelude::*;
use crate::engine::{later, ran_until, Engine};
use crate::Timestamp;

verus! {

/// Snapshot times never go backward: no snapshot in the history is later than one
/// taken after it.
pub proof fn history_in_time_order<S, E>(e: Engine<S, E>, i: int, j: int)
    requires
        e.wf(),
        0 <= i <= j < e.spec_history().len(),
    ensures
        e.spec_history()[i].spec_now() <= e.spec_history()[j].spec_now(),
    decreases j - i,
{
    if i < j {
        history_in_time_order(e, i, j - 1);
        assert(e.spec_history()[j - 1].spec_now() <= e.spec_history()[j].spec_now());
    }
}

/// Log times never go backward: no logged event ran later than one logged after it.
pub proof fn log_in_time_order<S, E>(e: Engine<S, E>, i: int, j: int)
    requires
        e.wf(),
        0 <= i <= j < e.spec_events().len(),
    ensures
        e.spec_events()[i].0 <= e.spec_events()[j].0,
    decreases j - i,
{
    if i < j {
        log_in_time_order(e, i, j - 1);
        assert(e.spec_events()[j - 1].0 <= e.spec_events()[j].0);
    }
}

/// A run adds one log entry and one snapshot for each event that ran, plus at most one
/// closing snapshot, which is there exactly when the last snapshot of the events was
/// not at the final time.
pub proof fn records_per_event<S, E>(pre: Engine<S, E>, until: Timestamp, post: Engine<S, E>)
    requires
        ran_until(pre, until, post),
    ensures
        ({
            let ran = post.spec_events().len() - pre.spec_events().len();
            let closing = post.spec_history()[pre.spec_history().len() + ran - 1].spec_now()
                != post.spec_now();
            post.spec_history().len() == pre.spec_history().len() + ran + (if closing {
                1int
            } else {
                0int
            })
        }),
{
}

/// After a run to `until` the clock is at `until` or later, and exactly at `until`
/// when it was not already past it.
pub proof fn horizon_reached<S, E>(pre: Engine<S, E>, until: Timestamp, post: Engine<S, E>)
    requires
        ran_until(pre, until, post),
    ensures
        post.spec_now() >= until,
        pre.spec_now() <= until ==> post.spec_now() == until,
{
}

/// Running to `t1` and then to a later `t2` leaves the clock where one run to `t2`
/// leaves it, and either way nothing due by `t2` is left pending (unless the history
/// filled up).
pub proof fn split_run_ends_alike<S, E>(
    e0: Engine<S, E>,
    t1: Timestamp,
    e1: Engine<S, E>,
    t2: Timestamp,
    e2: Engine<S, E>,
    f: Engine<S, E>,
)
    requires
        t1 < t2,
        ran_until(e0, t1, e1),
        ran_until(e1, t2, e2),
        ran_until(e0, t2, f),
    ensures
        e2.spec_now() == f.spec_now(),
        e2.spec_now() == later(e0.spec_now(), t2),
        e2.spec_history().last().spec_now() == f.spec_history().last().spec_now(),
        !e2.can_step(t2),
        !f.can_step(t2),
{
}

/// Running again to the same time, with nothing scheduled in between, changes nothing:
/// not the clock, the data, the pending events, the history or the log.
pub proof fn rerun_changes_nothing<S, E>(
    e0: Engine<S, E>,
    until: Timestamp,
    e1: Engine<S, E>,
    e2: Engine<S, E>,
)
    requires
        ran_until(e0, until, e1),
        ran_until(e1, until, e2),
    ensures
        e2.spec_now() == e1.spec_now(),
        e2.spec_state().spec_data() == e1.spec_state().spec_data(),
        e2.spec_state().pending() == e1.spec_state().pending(),
        e2.spec_history() == e1.spec_history(),
        e2.spec_events() == e1.spec_events(),
{
    let h1 = e1.spec_history();
    let h2 = e2.spec_history();
    let l1 = e1.spec_events();
    let l2 = e2.spec_events();
    assert(l2.len() == l1.len());
    assert(l2 =~= l2.subrange(0, l1.len() as int));
    assert(h2[h1.len() - 1] == h2.subrange(0, h1.len() as int)[h1.len() - 1]);
    assert(h2.len() == h1.len());
    assert(h2 =~= h2.subrange(0, h1.len() as int));
}

} // verus!
