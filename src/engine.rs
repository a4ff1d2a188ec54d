//! The engine: drives the simulation forward and records what happened.
use vstd::prelude::*;
use vstd::multiset::Multiset;
use crate::queue::no_later_than_all;
use crate::state::{none_due, State};
use crate::{Event, Timestamp};

verus! {

/// Snapshot times never go backward along `h`.
pub open spec fn times_ascending<S, E>(h: Seq<State<S, E>>) -> bool {
    forall|i: int| 0 <= i < h.len() - 1 ==> #[trigger] h[i].spec_now() <= h[i + 1].spec_now()
}

/// Log times never go backward along `l`.
pub open spec fn log_ascending(l: Seq<(Timestamp, String)>) -> bool {
    forall|i: int| 0 <= i < l.len() - 1 ==> #[trigger] l[i].0 <= l[i + 1].0
}

/// The later of two times.
pub open spec fn later(a: Timestamp, b: Timestamp) -> Timestamp {
    if a < b {
        b
    } else {
        a
    }
}

/// Drives a simulation: owns the state handle, a history of snapshots and a log of
/// the events that ran.
pub struct Engine<S, E> {
    state: State<S, E>,
    history: Vec<State<S, E>>,
    events: Vec<(Timestamp, String)>,
}

impl<S, E> Engine<S, E> {
    /// The live state handle.
    pub closed spec fn spec_state(&self) -> State<S, E> {
        self.state
    }

    /// The snapshots taken so far, oldest first.
    pub closed spec fn spec_history(&self) -> Seq<State<S, E>> {
        self.history@
    }

    /// The log of events that ran: the time each ran at and its label.
    pub closed spec fn spec_events(&self) -> Seq<(Timestamp, String)> {
        self.events@
    }

    /// The current simulated time.
    pub open spec fn spec_now(&self) -> Timestamp {
        self.spec_state().spec_now()
    }

    /// The records are consistent with the clock: the history starts with a snapshot
    /// at time 0, snapshots and log entries are in time order and none is later than
    /// the clock, and each logged event has a snapshot after it.
    pub open spec fn wf(&self) -> bool {
        let h = self.spec_history();
        let l = self.spec_events();
        &&& h.len() >= 1
        &&& h[0].spec_now() == 0
        &&& times_ascending(h)
        &&& h.last().spec_now() <= self.spec_now()
        &&& log_ascending(l)
        &&& l.len() > 0 ==> l.last().0 <= self.spec_now()
        &&& l.len() < h.len()
    }

    /// Some pending event fires at or before `horizon`, and the history has room for
    /// the snapshot that running it takes.
    pub open spec fn can_step(&self, horizon: Timestamp) -> bool {
        &&& !none_due(self.spec_state().pending(), horizon)
        &&& self.spec_history().len() < usize::MAX - 1
    }
}

/// What a call `run_until(until)` does to an engine `pre`, giving `post`, as seen in
/// the clock and the records.
///
/// The clock ends at `until`, or stays where it was if it was already later. The log
/// and the history only grow. Each event that ran is logged at a time between the
/// old clock and `until`, and is followed by one snapshot at that time; one more
/// snapshot closes the history where the last one is not at the final clock. The run
/// stops only when nothing more is due by `until` (or the history is full). Where
/// nothing was due, no event runs and the data and pending events stay as they were.
/// Which events ran and what they did is told by `run_trace`.
pub open spec fn ran_until<S, E>(pre: Engine<S, E>, until: Timestamp, post: Engine<S, E>) -> bool {
    let h0 = pre.spec_history();
    let h1 = post.spec_history();
    let l0 = pre.spec_events();
    let l1 = post.spec_events();
    let k = l1.len() - l0.len();
    &&& post.wf()
    &&& post.spec_now() == later(pre.spec_now(), until)
    &&& l0.len() <= l1.len()
    &&& l1.subrange(0, l0.len() as int) == l0
    &&& h1.subrange(0, h0.len() as int) == h0
    &&& h1.len() == h0.len() + k || h1.len() == h0.len() + k + 1
    &&& h1.len() == h0.len() + k + 1 <==> h1[h0.len() + k - 1].spec_now() != post.spec_now()
    &&& h1.last().spec_now() == post.spec_now()
    &&& forall|i: int|
        l0.len() <= i < l1.len() ==> pre.spec_now() <= #[trigger] l1[i].0 && l1[i].0 <= later(
            pre.spec_now(),
            until,
        )
    &&& forall|i: int| 0 <= i < k ==> #[trigger] h1[h0.len() + i].spec_now() == l1[l0.len() + i].0
    &&& !post.can_step(until)
    &&& pre.can_step(until) <==> k > 0
    &&& k == 0 ==> {
        &&& post.spec_state().spec_data() == pre.spec_state().spec_data()
        &&& post.spec_state().pending() == pre.spec_state().pending()
    }
}

/// Each entry of `taken` was run by `E::execute` through the reference `lent[i]`, which
/// held `given[i]` when it was lent.
pub open spec fn executed_on<S, E: Event<S>>(
    given: Seq<State<S, E>>,
    taken: Seq<(Timestamp, E)>,
    lent: Seq<&mut State<S, E>>,
) -> bool {
    &&& lent.len() == taken.len()
    &&& forall|i: int|
        0 <= i < taken.len() ==> *#[trigger] lent[i] == given[i] && call_ensures(
            E::execute,
            (taken[i].1, lent[i]),
            (),
        )
}

/// The `i`-th event of a run. Before it, the handle is `handles[i]`; the entry `taken[i]`
/// is one of its earliest pending entries and is due by `until`. It runs with the clock
/// at the later of the handle's clock and its own firing time, on `given[i]`: the handle
/// with the entry taken out and the clock set. `left[i]` is the handle as the event left
/// it; `handles[i + 1]` is that handle with the clock back at the event's time. The
/// event is logged (at `lo + i` of `log`) at that time, and the snapshot after it (at
/// `ho + i` of `history`) holds that time and a clone of the data the event left.
pub open spec fn event_ran<S: Clone, E>(
    until: Timestamp,
    handles: Seq<State<S, E>>,
    given: Seq<State<S, E>>,
    left: Seq<State<S, E>>,
    taken: Seq<(Timestamp, E)>,
    history: Seq<State<S, E>>,
    ho: int,
    log: Seq<(Timestamp, String)>,
    lo: int,
    i: int,
) -> bool {
    let t = later(handles[i].spec_now(), taken[i].0);
    &&& handles[i].pending().contains(taken[i])
    &&& no_later_than_all(taken[i].0, handles[i].pending())
    &&& taken[i].0 <= until
    &&& given[i].spec_now() == t
    &&& given[i].spec_data() == handles[i].spec_data()
    &&& given[i].pending() == handles[i].pending().remove(taken[i])
    &&& handles[i + 1].spec_now() == t
    &&& handles[i + 1].spec_data() == left[i].spec_data()
    &&& handles[i + 1].pending() == left[i].pending()
    &&& log[lo + i].0 == t
    &&& history[ho + i].spec_now() == t
    &&& cloned(left[i].spec_data(), history[ho + i].spec_data())
}

/// An account of the events that a call `run_until(until)` ran on `pre`, giving `post`:
/// one entry of `taken` for each, in the order they ran, each as `event_ran` tells it.
/// The handle starts as `pre`'s; the data and pending events at the end are those the
/// last event left (`pre`'s own where none ran), and a closing snapshot holds a clone
/// of that data.
#[verifier::opaque]
pub open spec fn run_trace<S: Clone, E>(
    pre: Engine<S, E>,
    until: Timestamp,
    post: Engine<S, E>,
    handles: Seq<State<S, E>>,
    given: Seq<State<S, E>>,
    left: Seq<State<S, E>>,
    taken: Seq<(Timestamp, E)>,
) -> bool {
    let h0 = pre.spec_history();
    let h1 = post.spec_history();
    let l0 = pre.spec_events();
    let l1 = post.spec_events();
    let k = taken.len();
    &&& l1.len() == l0.len() + k
    &&& handles.len() == k + 1
    &&& given.len() == k
    &&& left.len() == k
    &&& handles[0] == pre.spec_state()
    &&& forall|i: int|
        0 <= i < k ==> #[trigger] event_ran(
            until,
            handles,
            given,
            left,
            taken,
            h1,
            h0.len() as int,
            l1,
            l0.len() as int,
            i,
        )
    &&& post.spec_state().spec_data() == handles[k as int].spec_data()
    &&& post.spec_state().pending() == handles[k as int].pending()
    &&& h1.len() == h0.len() + k + 1 ==> cloned(
        post.spec_state().spec_data(),
        h1.last().spec_data(),
    )
}

/// Relies on `format!` with `{:?}`: an event's log label is its `Debug` rendering.
#[verifier::external_body]
fn debug_label<E: std::fmt::Debug>(event: &E) -> String {
    format!("{:?}", event)
}

impl<S, E> Engine<S, E> {
    /// The current simulated time.
    pub fn now(&self) -> (t: Timestamp)
        ensures
            t == self.spec_now(),
    {
        self.state.now()
    }

    /// The model's data.
    pub fn state(&self) -> (d: &S)
        ensures
            *d == self.spec_state().spec_data(),
    {
        self.state.state()
    }

    /// The model's data, to change it between runs.
    pub fn state_mut(&mut self) -> (d: &mut S)
        ensures
            *d == old(self).spec_state().spec_data(),
            final(self).spec_state().spec_data() == *final(d),
            final(self).spec_now() == old(self).spec_now(),
            final(self).spec_state().pending() == old(self).spec_state().pending(),
            final(self).spec_history() == old(self).spec_history(),
            final(self).spec_events() == old(self).spec_events(),
    {
        self.state.state_mut()
    }

    /// The snapshots taken so far, oldest first.
    pub fn history(&self) -> (h: &[State<S, E>])
        ensures
            h@ == self.spec_history(),
    {
        self.history.as_slice()
    }

    /// The log of events that ran, in the order they ran.
    pub fn events(&self) -> (l: &[(Timestamp, String)])
        ensures
            l@ == self.spec_events(),
    {
        self.events.as_slice()
    }
}

impl<S, E: Event<S>> Engine<S, E> {
    /// Schedules `event` at the firing time it reports.
    pub fn schedule(&mut self, event: E)
        ensures
            final(self).spec_now() == old(self).spec_now(),
            final(self).spec_state().spec_data() == old(self).spec_state().spec_data(),
            exists|t: Timestamp|
                call_ensures(E::time, (&event,), t) && final(self).spec_state().pending() == old(
                    self,
                ).spec_state().pending().insert((t, event)),
            final(self).spec_history() == old(self).spec_history(),
            final(self).spec_events() == old(self).spec_events(),
    {
        self.state.schedule(event)
    }
}

impl<S: Clone, E: Event<S> + std::fmt::Debug> Engine<S, E> {
    /// An engine at time 0 with the given data, nothing pending, an empty log and a
    /// history that holds the initial snapshot.
    pub fn new(data: S) -> (e: Self)
        ensures
            e.wf(),
            e.spec_now() == 0,
            e.spec_state().spec_data() == data,
            e.spec_state().pending() == Multiset::<(Timestamp, E)>::empty(),
            e.spec_events().len() == 0,
            e.spec_history().len() == 1,
            cloned(data, e.spec_history()[0].spec_data()),
    {
        let state = State::new(data);
        let first = state.snapshot();
        let mut history = Vec::new();
        history.push(first);
        Engine { state, history, events: Vec::new() }
    }

    /// Runs every event that is due by `until_time`, earliest first, then moves the
    /// clock to `until_time` if it is not there yet.
    ///
    /// An event runs at its firing time, or at the current time where it was scheduled
    /// for an earlier one: the clock never goes backward. Events that share a firing
    /// time run in no particular order. Events due later stay pending for a later call.
    /// A model whose events keep scheduling work at or before `until_time` makes this
    /// call run until the history is full.
    ///
    /// Every event taken out is run once: `execute` is handed the handle with the entry
    /// taken out and the clock at the event's running time, and the next event starts
    /// from the handle it left (with the clock put back). `run_trace` lays this out event
    /// by event, and `executed_on` ties each step to the call of `execute`; where the
    /// history has a snapshot after an event, it holds a clone of the data that event left.
    pub fn run_until(&mut self, until_time: Timestamp)
        requires
            old(self).wf(),
        ensures
            ran_until(*old(self), until_time, *final(self)),
            exists|
                handles: Seq<State<S, E>>,
                given: Seq<State<S, E>>,
                left: Seq<State<S, E>>,
                taken: Seq<(Timestamp, E)>,
            |
                {
                    &&& #[trigger] run_trace(
                        *old(self),
                        until_time,
                        *final(self),
                        handles,
                        given,
                        left,
                        taken,
                    )
                    &&& exists|lent: Seq<&mut State<S, E>>|
                        #[trigger] executed_on(given, taken, lent) && forall|i: int|
                            0 <= i < taken.len() ==> *final(#[trigger] lent[i]) == left[i]
                },
    {
        let ghost pre = *self;
        let ghost mut handles: Seq<State<S, E>> = seq![self.state];
        let ghost mut given: Seq<State<S, E>> = Seq::empty();
        let ghost mut left: Seq<State<S, E>> = Seq::empty();
        let ghost mut taken: Seq<(Timestamp, E)> = Seq::empty();
        proof {
            lemma_progress_start(pre, until_time);
            lemma_trace_start(pre, until_time);
            assert(executed_on(given, taken, Seq::<&mut State<S, E>>::empty()));
        }
        loop
            invariant
                progressed(pre, until_time, *self),
                run_trace(pre, until_time, *self, handles, given, left, taken),
                handles.last() == self.state,
                exists|lent: Seq<&mut State<S, E>>|
                    #[trigger] executed_on(given, taken, lent) && forall|i: int|
                        0 <= i < taken.len() ==> *final(#[trigger] lent[i]) == left[i],
            ensures
                progressed(pre, until_time, *self),
                run_trace(pre, until_time, *self, handles, given, left, taken),
                handles.last() == self.state,
                exists|lent: Seq<&mut State<S, E>>|
                    #[trigger] executed_on(given, taken, lent) && forall|i: int|
                        0 <= i < taken.len() ==> *final(#[trigger] lent[i]) == left[i],
                !self.can_step(until_time),
            decreases usize::MAX - self.history@.len(),
        {
            if self.history.len() >= usize::MAX - 1 {
                break;
            }
            let ghost before = *self;
            proof {
                lemma_progress_facts(pre, until_time, before);
                lemma_trace_lengths(pre, until_time, before, handles, given, left, taken);
            }
            let next = self.state.take_due(until_time);
            let (at, event) = match next {
                None => {
                    break;
                },
                Some(entry) => entry,
            };
            let ghost entry = (at, event);
            let t = if at > self.state.now() {
                at
            } else {
                self.state.now()
            };
            let ran = self.step(event, t);
            let ghost g = ran@.0;
            let ghost x = ran@.1;
            proof {
                lemma_progress_step(pre, until_time, before, *self, entry, t);
                lemma_trace_step(
                    pre,
                    until_time,
                    before,
                    *self,
                    handles,
                    given,
                    left,
                    taken,
                    entry,
                    t,
                    g,
                    x,
                );
                let lent0 = choose|lent: Seq<&mut State<S, E>>|
                    #[trigger] executed_on(given, taken, lent) && forall|i: int|
                        0 <= i < taken.len() ==> *final(#[trigger] lent[i]) == left[i];
                let m = choose|m: &mut State<S, E>|
                    *m == g && *final(m) == x && #[trigger] call_ensures(E::execute, (entry.1, m), ());
                let lent1 = lent0.push(m);
                let n = taken.len();
                handles = handles.push(self.state);
                given = given.push(g);
                left = left.push(x);
                taken = taken.push(entry);
                assert forall|i: int| 0 <= i < taken.len() implies *#[trigger] lent1[i] == given[i]
                    && call_ensures(E::execute, (taken[i].1, lent1[i]), ()) by {
                    if i < n {
                        assert(lent1[i] == lent0[i]);
                    }
                }
                assert forall|i: int| 0 <= i < taken.len() implies *final(#[trigger] lent1[i])
                    == left[i] by {
                    if i < n {
                        assert(lent1[i] == lent0[i]);
                    }
                }
                assert(executed_on(given, taken, lent1));
            }
        }
        let ghost looped = *self;
        proof {
            lemma_progress_facts(pre, until_time, looped);
        }
        if self.state.now() < until_time {
            self.state.set_now(until_time);
        }
        let last_now = self.history[self.history.len() - 1].now();
        if last_now != self.state.now() {
            let snap = self.state.snapshot();
            self.history.push(snap);
            proof {
                assert(self.history@.drop_last() =~= looped.history@);
            }
        }
        proof {
            lemma_progress_close(pre, until_time, looped, *self);
            lemma_trace_close(pre, until_time, looped, *self, handles, given, left, taken);
            assert(run_trace(*old(self), until_time, *self, handles, given, left, taken));
        }
    }

    /// Runs `event` with the clock at `t`, logging it before and taking a snapshot after.
    fn step(&mut self, event: E, t: Timestamp) -> (r: Ghost<(State<S, E>, State<S, E>)>)
        requires
            old(self).wf(),
            old(self).spec_now() <= t,
            old(self).spec_history().len() < usize::MAX - 1,
        ensures
            final(self).spec_now() == t,
            final(self).spec_events().len() == old(self).spec_events().len() + 1,
            final(self).spec_events().drop_last() == old(self).spec_events(),
            final(self).spec_events().last().0 == t,
            final(self).spec_history().len() == old(self).spec_history().len() + 1,
            final(self).spec_history().drop_last() == old(self).spec_history(),
            final(self).spec_history().last().spec_now() == t,
            r@.0.spec_now() == t,
            r@.0.spec_data() == old(self).spec_state().spec_data(),
            r@.0.pending() == old(self).spec_state().pending(),
            final(self).spec_state().spec_data() == r@.1.spec_data(),
            final(self).spec_state().pending() == r@.1.pending(),
            cloned(r@.1.spec_data(), final(self).spec_history().last().spec_data()),
            exists|m: &mut State<S, E>|
                *m == r@.0 && *final(m) == r@.1 && #[trigger] call_ensures(E::execute, (event, m), ()),
    {
        self.state.set_now(t);
        let label = debug_label(&event);
        self.events.push((t, label));
        let ghost given = self.state;
        let ghost ev = event;
        event.execute(&mut self.state);
        let ghost left = self.state;
        // The handle offers no way to move the clock, but an event could replace the
        // handle as a whole; the clock stays at the event's time either way.
        self.state.set_now(t);
        let snap = self.state.snapshot();
        self.history.push(snap);
        proof {
            assert(self.events@.drop_last() =~= old(self).events@);
            assert(self.history@.drop_last() =~= old(self).history@);
        }
        Ghost((given, left))
    }
}

proof fn lemma_push_keeps<A>(before: Seq<A>, after: Seq<A>)
    requires
        after.len() == before.len() + 1,
        after.drop_last() == before,
    ensures
        forall|i: int| 0 <= i < before.len() ==> after[i] == #[trigger] before[i],
        forall|n: int| 0 <= n <= before.len() ==> #[trigger] after.subrange(0, n) == before.subrange(0, n),
{
    assert forall|i: int| 0 <= i < before.len() implies after[i] == #[trigger] before[i] by {
        assert(after.drop_last()[i] == after[i]);
    }
    assert forall|n: int| 0 <= n <= before.len() implies #[trigger] after.subrange(0, n)
        == before.subrange(0, n) by {
        assert(after.subrange(0, n) =~= before.subrange(0, n));
    }
}

proof fn lemma_push_times<S, E>(before: Seq<State<S, E>>, after: Seq<State<S, E>>)
    requires
        after.len() == before.len() + 1,
        after.drop_last() == before,
        before.len() >= 1,
        times_ascending(before),
        before.last().spec_now() <= after.last().spec_now(),
    ensures
        times_ascending(after),
        after[0] == before[0],
{
    lemma_push_keeps(before, after);
    assert forall|i: int| 0 <= i < after.len() - 1 implies #[trigger] after[i].spec_now()
        <= after[i + 1].spec_now() by {
        if i == after.len() - 2 {
            assert(after[i] == before[i]);
        } else {
            assert(after[i] == before[i]);
            assert(after[i + 1] == before[i + 1]);
        }
    }
}

proof fn lemma_push_log(before: Seq<(Timestamp, String)>, after: Seq<(Timestamp, String)>)
    requires
        after.len() == before.len() + 1,
        after.drop_last() == before,
        log_ascending(before),
        before.len() > 0 ==> before.last().0 <= after.last().0,
    ensures
        log_ascending(after),
{
    lemma_push_keeps(before, after);
    assert forall|i: int| 0 <= i < after.len() - 1 implies #[trigger] after[i].0 <= after[i + 1].0 by {
        if i == after.len() - 2 {
            assert(after[i] == before[i]);
        } else {
            assert(after[i] == before[i]);
            assert(after[i + 1] == before[i + 1]);
        }
    }
}

proof fn lemma_progress_facts<S, E>(pre: Engine<S, E>, until: Timestamp, cur: Engine<S, E>)
    requires
        progressed(pre, until, cur),
    ensures
        cur.wf(),
{
    reveal(progressed);
}

proof fn lemma_trace_lengths<S: Clone, E>(
    pre: Engine<S, E>,
    until: Timestamp,
    cur: Engine<S, E>,
    handles: Seq<State<S, E>>,
    given: Seq<State<S, E>>,
    left: Seq<State<S, E>>,
    taken: Seq<(Timestamp, E)>,
)
    requires
        run_trace(pre, until, cur, handles, given, left, taken),
    ensures
        handles.len() == taken.len() + 1,
        given.len() == taken.len(),
        left.len() == taken.len(),
{
    reveal(run_trace);
}

proof fn lemma_trace_start<S: Clone, E>(pre: Engine<S, E>, until: Timestamp)
    ensures
        run_trace(pre, until, pre, seq![pre.spec_state()], Seq::empty(), Seq::empty(), Seq::empty()),
{
    reveal(run_trace);
}

proof fn lemma_trace_step<S: Clone, E>(
    pre: Engine<S, E>,
    until: Timestamp,
    before: Engine<S, E>,
    after: Engine<S, E>,
    handles: Seq<State<S, E>>,
    given: Seq<State<S, E>>,
    left: Seq<State<S, E>>,
    taken: Seq<(Timestamp, E)>,
    entry: (Timestamp, E),
    t: Timestamp,
    g: State<S, E>,
    x: State<S, E>,
)
    requires
        progressed(pre, until, before),
        run_trace(pre, until, before, handles, given, left, taken),
        handles.last() == before.spec_state(),
        entry.0 <= until,
        before.spec_state().pending().contains(entry),
        no_later_than_all(entry.0, before.spec_state().pending()),
        t == later(before.spec_now(), entry.0),
        g.spec_now() == t,
        g.spec_data() == before.spec_state().spec_data(),
        g.pending() == before.spec_state().pending().remove(entry),
        after.spec_now() == t,
        after.spec_state().spec_data() == x.spec_data(),
        after.spec_state().pending() == x.pending(),
        after.spec_events().len() == before.spec_events().len() + 1,
        after.spec_events().drop_last() == before.spec_events(),
        after.spec_events().last().0 == t,
        after.spec_history().len() == before.spec_history().len() + 1,
        after.spec_history().drop_last() == before.spec_history(),
        after.spec_history().last().spec_now() == t,
        cloned(x.spec_data(), after.spec_history().last().spec_data()),
    ensures
        run_trace(
            pre,
            until,
            after,
            handles.push(after.spec_state()),
            given.push(g),
            left.push(x),
            taken.push(entry),
        ),
{
    reveal(progressed);
    reveal(run_trace);
    let h0 = pre.spec_history();
    let l0 = pre.spec_events();
    let hb = before.spec_history();
    let lb = before.spec_events();
    let h = after.spec_history();
    let l = after.spec_events();
    let hs = handles.push(after.spec_state());
    let gs = given.push(g);
    let xs = left.push(x);
    let ps = taken.push(entry);
    let k = taken.len() as int;
    lemma_push_keeps(hb, h);
    lemma_push_keeps(lb, l);
    assert(hb.len() == h0.len() + k);
    assert forall|i: int| 0 <= i < k + 1 implies #[trigger] event_ran(
        until,
        hs,
        gs,
        xs,
        ps,
        h,
        h0.len() as int,
        l,
        l0.len() as int,
        i,
    ) by {
        if i < k {
            assert(event_ran(until, handles, given, left, taken, hb, h0.len() as int, lb, l0.len() as int, i));
            assert(hs[i] == handles[i]);
            assert(hs[i + 1] == handles[i + 1]);
            assert(h[h0.len() + i] == hb[h0.len() + i]);
            assert(l[l0.len() + i] == lb[l0.len() + i]);
        } else {
            assert(hs[i] == handles.last());
            assert(h[h0.len() + i] == h.last());
            assert(l[l0.len() + i] == l.last());
        }
    }
}

proof fn lemma_trace_close<S: Clone, E>(
    pre: Engine<S, E>,
    until: Timestamp,
    looped: Engine<S, E>,
    post: Engine<S, E>,
    handles: Seq<State<S, E>>,
    given: Seq<State<S, E>>,
    left: Seq<State<S, E>>,
    taken: Seq<(Timestamp, E)>,
)
    requires
        progressed(pre, until, looped),
        run_trace(pre, until, looped, handles, given, left, taken),
        handles.last() == looped.spec_state(),
        post.spec_state().spec_data() == looped.spec_state().spec_data(),
        post.spec_state().pending() == looped.spec_state().pending(),
        post.spec_events() == looped.spec_events(),
        post.spec_history() == looped.spec_history() || {
            &&& post.spec_history().drop_last() == looped.spec_history()
            &&& post.spec_history().len() == looped.spec_history().len() + 1
            &&& cloned(post.spec_state().spec_data(), post.spec_history().last().spec_data())
        },
    ensures
        run_trace(pre, until, post, handles, given, left, taken),
{
    reveal(progressed);
    reveal(run_trace);
    let h0 = pre.spec_history();
    let l0 = pre.spec_events();
    let hl = looped.spec_history();
    let h = post.spec_history();
    let l = post.spec_events();
    let k = taken.len() as int;
    if h != hl {
        lemma_push_keeps(hl, h);
    }
    assert forall|i: int| 0 <= i < k implies #[trigger] event_ran(
        until,
        handles,
        given,
        left,
        taken,
        h,
        h0.len() as int,
        l,
        l0.len() as int,
        i,
    ) by {
        assert(event_ran(until, handles, given, left, taken, hl, h0.len() as int, l, l0.len() as int, i));
        assert(h[h0.len() + i] == hl[h0.len() + i]);
    }
}

/// The part of `ran_until` that holds at every turn of the loop in `run_until`.
#[verifier::opaque]
spec fn progressed<S, E>(pre: Engine<S, E>, until: Timestamp, cur: Engine<S, E>) -> bool {
    let h0 = pre.spec_history();
    let h = cur.spec_history();
    let l0 = pre.spec_events();
    let l = cur.spec_events();
    let k = l.len() - l0.len();
    &&& pre.wf()
    &&& cur.wf()
    &&& pre.spec_now() <= cur.spec_now() <= later(pre.spec_now(), until)
    &&& l0.len() <= l.len()
    &&& l.subrange(0, l0.len() as int) == l0
    &&& h.subrange(0, h0.len() as int) == h0
    &&& h.len() == h0.len() + k
    &&& forall|i: int|
        l0.len() <= i < l.len() ==> pre.spec_now() <= #[trigger] l[i].0 && l[i].0 <= later(
            pre.spec_now(),
            until,
        )
    &&& forall|i: int| 0 <= i < k ==> #[trigger] h[h0.len() + i].spec_now() == l[l0.len() + i].0
    &&& k == 0 ==> {
        &&& cur.spec_state().spec_data() == pre.spec_state().spec_data()
        &&& cur.spec_state().pending() == pre.spec_state().pending()
        &&& cur.spec_now() == pre.spec_now()
    }
    &&& k > 0 ==> pre.can_step(until)
}

proof fn lemma_progress_start<S, E>(pre: Engine<S, E>, until: Timestamp)
    requires
        pre.wf(),
    ensures
        progressed(pre, until, pre),
{
    reveal(progressed);
    assert(pre.spec_events().subrange(0, pre.spec_events().len() as int) =~= pre.spec_events());
    assert(pre.spec_history().subrange(0, pre.spec_history().len() as int) =~= pre.spec_history());
}

proof fn lemma_step_wf<S, E>(before: Engine<S, E>, after: Engine<S, E>, t: Timestamp)
    requires
        before.wf(),
        before.spec_now() <= t,
        after.spec_now() == t,
        after.spec_events().len() == before.spec_events().len() + 1,
        after.spec_events().drop_last() == before.spec_events(),
        after.spec_events().last().0 == t,
        after.spec_history().len() == before.spec_history().len() + 1,
        after.spec_history().drop_last() == before.spec_history(),
        after.spec_history().last().spec_now() == t,
    ensures
        after.wf(),
{
    lemma_push_times(before.spec_history(), after.spec_history());
    lemma_push_log(before.spec_events(), after.spec_events());
}

/// Appending one log entry and one snapshot, both at `t`, keeps the records of a run.
proof fn lemma_extend_records<S, E>(
    h0: Seq<State<S, E>>,
    l0: Seq<(Timestamp, String)>,
    hb: Seq<State<S, E>>,
    lb: Seq<(Timestamp, String)>,
    h: Seq<State<S, E>>,
    l: Seq<(Timestamp, String)>,
    low: Timestamp,
    high: Timestamp,
    t: Timestamp,
)
    requires
        l0.len() <= lb.len(),
        lb.subrange(0, l0.len() as int) == l0,
        hb.subrange(0, h0.len() as int) == h0,
        hb.len() == h0.len() + (lb.len() - l0.len()),
        forall|i: int| l0.len() <= i < lb.len() ==> low <= #[trigger] lb[i].0 && lb[i].0 <= high,
        forall|i: int|
            0 <= i < lb.len() - l0.len() ==> #[trigger] hb[h0.len() + i].spec_now() == lb[l0.len()
                + i].0,
        h.len() == hb.len() + 1,
        h.drop_last() == hb,
        l.len() == lb.len() + 1,
        l.drop_last() == lb,
        h.last().spec_now() == t,
        l.last().0 == t,
        low <= t <= high,
    ensures
        l.subrange(0, l0.len() as int) == l0,
        h.subrange(0, h0.len() as int) == h0,
        forall|i: int| l0.len() <= i < l.len() ==> low <= #[trigger] l[i].0 && l[i].0 <= high,
        forall|i: int|
            0 <= i < l.len() - l0.len() ==> #[trigger] h[h0.len() + i].spec_now() == l[l0.len()
                + i].0,
{
    lemma_push_keeps(hb, h);
    lemma_push_keeps(lb, l);
    assert(h.subrange(0, h0.len() as int) == hb.subrange(0, h0.len() as int));
    assert(l.subrange(0, l0.len() as int) == lb.subrange(0, l0.len() as int));
    assert forall|i: int| 0 <= i < l.len() - l0.len() implies #[trigger] h[h0.len() + i].spec_now()
        == l[l0.len() + i].0 by {
        if i < lb.len() - l0.len() {
            assert(h[h0.len() + i] == hb[h0.len() + i]);
            assert(l[l0.len() + i] == lb[l0.len() + i]);
        }
    }
    assert forall|i: int| l0.len() <= i < l.len() implies low <= #[trigger] l[i].0 && l[i].0
        <= high by {
        if i < lb.len() {
            assert(l[i] == lb[i]);
        }
    }
}

proof fn lemma_progress_step<S, E>(
    pre: Engine<S, E>,
    until: Timestamp,
    before: Engine<S, E>,
    after: Engine<S, E>,
    taken: (Timestamp, E),
    t: Timestamp,
)
    requires
        progressed(pre, until, before),
        taken.0 <= until,
        before.spec_history().len() < usize::MAX - 1,
        before.spec_state().pending().contains(taken),
        t == later(before.spec_now(), taken.0),
        after.spec_now() == t,
        after.spec_events().len() == before.spec_events().len() + 1,
        after.spec_events().drop_last() == before.spec_events(),
        after.spec_events().last().0 == t,
        after.spec_history().len() == before.spec_history().len() + 1,
        after.spec_history().drop_last() == before.spec_history(),
        after.spec_history().last().spec_now() == t,
    ensures
        progressed(pre, until, after),
{
    reveal(progressed);
    lemma_step_wf(before, after, t);
    lemma_extend_records(
        pre.spec_history(),
        pre.spec_events(),
        before.spec_history(),
        before.spec_events(),
        after.spec_history(),
        after.spec_events(),
        pre.spec_now(),
        later(pre.spec_now(), until),
        t,
    );
    if before.spec_events().len() == pre.spec_events().len() {
        assert(pre.spec_state().pending().contains(taken));
        assert(pre.can_step(until));
    }
}

proof fn lemma_progress_close<S, E>(
    pre: Engine<S, E>,
    until: Timestamp,
    looped: Engine<S, E>,
    post: Engine<S, E>,
)
    requires
        progressed(pre, until, looped),
        !looped.can_step(until),
        post.spec_now() == later(looped.spec_now(), until),
        post.spec_state().spec_data() == looped.spec_state().spec_data(),
        post.spec_state().pending() == looped.spec_state().pending(),
        post.spec_events() == looped.spec_events(),
        looped.spec_history().last().spec_now() == post.spec_now() ==> post.spec_history()
            == looped.spec_history(),
        looped.spec_history().last().spec_now() != post.spec_now() ==> {
            &&& post.spec_history().drop_last() == looped.spec_history()
            &&& post.spec_history().len() == looped.spec_history().len() + 1
            &&& post.spec_history().last().spec_now() == post.spec_now()
        },
    ensures
        ran_until(pre, until, post),
{
    reveal(progressed);
    let h0 = pre.spec_history();
    let hl = looped.spec_history();
    let h = post.spec_history();
    let l0 = pre.spec_events();
    let l = post.spec_events();
    let k = l.len() - l0.len();
    if hl.last().spec_now() != post.spec_now() {
        lemma_push_keeps(hl, h);
        lemma_push_times(hl, h);
        assert(h.subrange(0, h0.len() as int) == hl.subrange(0, h0.len() as int));
        assert(h[h0.len() + k - 1] == hl.last());
        assert forall|i: int| 0 <= i < k implies #[trigger] h[h0.len() + i].spec_now() == l[l0.len()
            + i].0 by {
            assert(h[h0.len() + i] == hl[h0.len() + i]);
        }
    } else {
        assert(h[h0.len() + k - 1] == hl.last());
    }
    if k == 0 {
        assert(!pre.can_step(until));
    }
}

} // verus!
