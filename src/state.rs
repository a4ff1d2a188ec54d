//! The handle through which events see the simulation: the clock, the model's data
//! and the queue of pending events.
use vstd::prelude::*;
use vstd::multiset::Multiset;
use crate::queue::{no_later_than_all, EventQueue};
use crate::{Event, Timestamp};

verus! {

/// No entry of `m` fires at or before `horizon`.
pub open spec fn none_due<E>(m: Multiset<(Timestamp, E)>, horizon: Timestamp) -> bool {
    forall|p: (Timestamp, E)| #[trigger] m.contains(p) ==> horizon < p.0
}

/// The simulated clock, the model's data and the pending events.
///
/// Events may read the clock, use the data and add work; they cannot move the clock,
/// nor look at or cancel pending events.
pub struct State<S, E> {
    now: Timestamp,
    data: S,
    queue: EventQueue<E>,
}

impl<S, E> State<S, E> {
    /// The current simulated time.
    pub closed spec fn spec_now(&self) -> Timestamp {
        self.now
    }

    /// The model's data.
    pub closed spec fn spec_data(&self) -> S {
        self.data
    }

    /// The pending events, each with its firing time.
    pub closed spec fn pending(&self) -> Multiset<(Timestamp, E)> {
        self.queue@
    }

    /// A handle at time 0 with the given data and nothing pending.
    pub fn new(data: S) -> (st: Self)
        ensures
            st.spec_now() == 0,
            st.spec_data() == data,
            st.pending() == Multiset::<(Timestamp, E)>::empty(),
    {
        State { now: 0, data, queue: EventQueue::new() }
    }

    /// The current simulated time.
    #[verifier::when_used_as_spec(spec_now)]
    pub fn now(&self) -> (t: Timestamp)
        ensures
            t == self.spec_now(),
    {
        self.now
    }

    /// The model's data.
    pub fn state(&self) -> (d: &S)
        ensures
            *d == self.spec_data(),
    {
        &self.data
    }

    /// The model's data, to change it.
    pub fn state_mut(&mut self) -> (d: &mut S)
        ensures
            *d == old(self).spec_data(),
            final(self).spec_data() == *final(d),
            final(self).spec_now() == old(self).spec_now(),
            final(self).pending() == old(self).pending(),
    {
        &mut self.data
    }
}

impl<S, E> State<S, E> {
    /// Moves the clock to `t`.
    pub(crate) fn set_now(&mut self, t: Timestamp)
        ensures
            final(self).spec_now() == t,
            final(self).spec_data() == old(self).spec_data(),
            final(self).pending() == old(self).pending(),
    {
        self.now = t;
    }

    /// Takes out an earliest pending event, provided it fires at or before `horizon`.
    pub(crate) fn take_due(&mut self, horizon: Timestamp) -> (r: Option<(Timestamp, E)>)
        ensures
            final(self).spec_now() == old(self).spec_now(),
            final(self).spec_data() == old(self).spec_data(),
            r is None <==> none_due(old(self).pending(), horizon),
            r is None ==> *final(self) == *old(self),
            r matches Some(p) ==> {
                &&& p.0 <= horizon
                &&& old(self).pending().contains(p)
                &&& no_later_than_all(p.0, old(self).pending())
                &&& final(self).pending() == old(self).pending().remove(p)
            },
    {
        match self.queue.peek_time() {
            None => {
                proof {
                    assert forall|p: (Timestamp, E)| #[trigger] self.queue@.contains(p) implies horizon
                        < p.0 by {
                        assert(self.queue@.count(p) <= self.queue@.len());
                    }
                }
                None
            },
            Some(t) => {
                if t <= horizon {
                    let r = self.queue.pop();
                    proof {
                        let e = choose|e: E| #[trigger] old(self).queue@.contains((t, e));
                        assert(old(self).queue@.contains((t, e)));
                    }
                    r
                } else {
                    None
                }
            },
        }
    }
}

impl<S: Clone, E> State<S, E> {
    /// A copy of the clock and the data, with nothing pending.
    pub(crate) fn snapshot(&self) -> (c: Self)
        ensures
            c.spec_now() == self.spec_now(),
            cloned(self.spec_data(), c.spec_data()),
            c.pending() == Multiset::<(Timestamp, E)>::empty(),
    {
        State { now: self.now, data: self.data.clone(), queue: EventQueue::new() }
    }
}

impl<S, E: Event<S>> State<S, E> {
    /// Schedules `event` at the firing time it reports. The time is taken as it is,
    /// even where it lies before the current time.
    pub fn schedule(&mut self, event: E)
        ensures
            final(self).spec_now() == old(self).spec_now(),
            final(self).spec_data() == old(self).spec_data(),
            exists|t: Timestamp|
                call_ensures(E::time, (&event,), t) && final(self).pending() == old(
                    self,
                ).pending().insert((t, event)),
    {
        let ghost ev = event;
        let at = event.time();
        self.queue.push(at, event);
        proof {
            assert(call_ensures(E::time, (&ev,), at));
            assert(self.pending() == old(self).pending().insert((at, ev)));
        }
    }
}

} // verus!
