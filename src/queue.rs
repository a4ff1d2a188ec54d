//! A min-priority queue of events keyed by firing time.
//!
//! The queue is a binary heap laid out in two parallel vectors: `times[i]` is the
//! firing time of the entry in slot `i` and `items[i]` holds its event. Entries that
//! share a firing time leave in no particular order.
use vstd::prelude::*;
use vstd::multiset::Multiset;
use crate::Timestamp;

verus! {

broadcast use {vstd::seq_lib::group_to_multiset_ensures, vstd::multiset::group_multiset_axioms};

/// Slot of the parent of slot `i` in the implicit binary tree.
pub open spec fn parent(i: int) -> int {
    (i - 1) / 2
}

/// No time in `t` is earlier than the time in its parent slot.
pub open spec fn heap_ordered(t: Seq<Timestamp>) -> bool {
    forall|k: int| 0 < k < t.len() ==> t[parent(k)] <= #[trigger] t[k]
}

/// `t` is no later than the firing time of any entry in `m`.
pub open spec fn no_later_than_all<E>(t: Timestamp, m: Multiset<(Timestamp, E)>) -> bool {
    forall|p: (Timestamp, E)| #[trigger] m.contains(p) ==> t <= p.0
}

/// Heap order everywhere but between slot `pos` and its parent; the parent of `pos`
/// is still no later than the children of `pos`.
spec fn ordered_except_up(t: Seq<Timestamp>, pos: int) -> bool {
    &&& forall|k: int| 0 < k < t.len() && k != pos ==> t[parent(k)] <= #[trigger] t[k]
    &&& forall|k: int|
        0 < k < t.len() && parent(k) == pos && pos > 0 ==> t[parent(pos)] <= #[trigger] t[k]
}

/// Heap order everywhere but between slot `pos` and its children; the parent of `pos`
/// is still no later than the children of `pos`.
spec fn ordered_except_down(t: Seq<Timestamp>, pos: int) -> bool {
    &&& forall|k: int| 0 < k < t.len() && parent(k) != pos ==> t[parent(k)] <= #[trigger] t[k]
    &&& forall|k: int|
        0 < k < t.len() && parent(k) == pos && pos > 0 ==> t[parent(pos)] <= #[trigger] t[k]
}

proof fn lemma_root_earliest(t: Seq<Timestamp>, i: int)
    requires
        heap_ordered(t),
        0 <= i < t.len(),
    ensures
        t[0] <= t[i],
    decreases i,
{
    if i > 0 {
        lemma_root_earliest(t, parent(i));
    }
}

/// The heap itself; its methods expect and keep the heap layout.
struct Heap<E> {
    times: Vec<Timestamp>,
    items: Vec<Option<E>>,
}

impl<E> View for Heap<E> {
    type V = Multiset<(Timestamp, E)>;

    /// The pending entries, as pairs of firing time and event.
    closed spec fn view(&self) -> Multiset<(Timestamp, E)> {
        self.entries().to_multiset()
    }
}

impl<E> Heap<E> {
    spec fn entries(&self) -> Seq<(Timestamp, E)> {
        Seq::new(self.times@.len(), |i: int| (self.times@[i], self.items@[i]->Some_0))
    }

    spec fn slots_filled(&self) -> bool {
        &&& self.times@.len() == self.items@.len()
        &&& forall|i: int| 0 <= i < self.items@.len() ==> #[trigger] self.items@[i] is Some
    }

    /// The queue's internal layout is a heap.
    spec fn wf(&self) -> bool {
        self.slots_filled() && heap_ordered(self.times@)
    }

    proof fn lemma_len(&self)
        requires
            self.slots_filled(),
        ensures
            self@.len() == self.times@.len(),
    {
        assert(self.entries().len() == self.times@.len());
    }

    proof fn lemma_root_is_earliest(&self)
        requires
            self.wf(),
            self.times@.len() > 0,
        ensures
            self@.contains((self.times@[0], self.items@[0]->Some_0)),
            no_later_than_all(self.times@[0], self@),
    {
        let s = self.entries();
        assert(s[0] == (self.times@[0], self.items@[0]->Some_0));
        assert(s.contains(s[0]));
        assert forall|p: (Timestamp, E)| #[trigger] self@.contains(p) implies self.times@[0]
            <= p.0 by {
            assert(s.contains(p));
            let i = choose|i: int| 0 <= i < s.len() && s[i] == p;
            lemma_root_earliest(self.times@, i);
        }
    }

    /// An empty queue.
    fn new() -> (q: Self)
        ensures
            q.wf(),
            q@ == Multiset::<(Timestamp, E)>::empty(),
    {
        let q = Heap { times: Vec::new(), items: Vec::new() };
        proof {
            q.lemma_len();
            assert(q@ =~= Multiset::<(Timestamp, E)>::empty());
        }
        q
    }

    /// Number of pending entries.
    fn len(&self) -> (n: usize)
        requires
            self.wf(),
        ensures
            n == self@.len(),
    {
        proof {
            self.lemma_len();
        }
        self.times.len()
    }

    /// Exchanges the entries in slots `i` and `j`.
    fn swap_slots(&mut self, i: usize, j: usize)
        requires
            old(self).slots_filled(),
            i < old(self).times@.len(),
            j < old(self).times@.len(),
            i != j,
        ensures
            final(self).slots_filled(),
            final(self).times@ == old(self).times@.update(i as int, old(self).times@[j as int]).update(
                j as int,
                old(self).times@[i as int],
            ),
            final(self).entries() == old(self).entries().update(i as int, old(self).entries()[j as int]).update(
                j as int,
                old(self).entries()[i as int],
            ),
            final(self)@ == old(self)@,
    {
        let ghost s0 = self.entries();
        let ti = self.times[i];
        let tj = self.times[j];
        self.times.set(i, tj);
        self.times.set(j, ti);
        let mut hold: Option<E> = None;
        self.items.set_and_swap(i, &mut hold);
        self.items.set_and_swap(j, &mut hold);
        self.items.set_and_swap(i, &mut hold);
        proof {
            let s1 = s0.update(i as int, s0[j as int]);
            assert(self.entries() =~= s1.update(j as int, s0[i as int]));
            assert(s1.to_multiset() == s0.to_multiset().insert(s0[j as int]).remove(s0[i as int]));
            assert(self@ == s1.to_multiset().insert(s0[i as int]).remove(s1[j as int]));
            assert(self@ =~= s0.to_multiset());
        }
    }

    /// Adds `event` to fire at `at`.
    fn push(&mut self, at: Timestamp, event: E)
        requires
            old(self).wf(),
        ensures
            final(self).wf(),
            final(self)@ == old(self)@.insert((at, event)),
    {
        let ghost s0 = self.entries();
        self.times.push(at);
        self.items.push(Some(event));
        proof {
            assert(self.entries() =~= s0.push((at, event)));
        }
        let mut pos: usize = self.times.len() - 1;
        while pos > 0 && self.times[(pos - 1) / 2] > self.times[pos]
            invariant
                self.slots_filled(),
                pos < self.times@.len(),
                ordered_except_up(self.times@, pos as int),
                self@ == old(self)@.insert((at, event)),
            decreases pos,
        {
            let p = (pos - 1) / 2;
            let ghost t0 = self.times@;
            self.swap_slots(p, pos);
            proof {
                let t1 = self.times@;
                assert forall|k: int| 0 < k < t1.len() && k != p implies t1[parent(k)]
                    <= #[trigger] t1[k] by {
                    if k == pos {
                    } else if parent(k) == pos {
                        assert(t0[parent(pos as int)] <= t0[k]);
                    } else if parent(k) == p {
                        assert(t0[p as int] <= t0[k]);
                    } else if p > 0 && k == p {
                    } else {
                    }
                }
                assert forall|k: int| 0 < k < t1.len() && parent(k) == p && p > 0 implies t1[parent(
                    p as int,
                )] <= #[trigger] t1[k] by {
                    assert(t0[parent(p as int)] <= t0[p as int]);
                    if k != pos {
                        assert(t0[p as int] <= t0[k]);
                    }
                }
            }
            pos = p;
        }
    }

    /// Removes and returns an entry with the earliest firing time, if there is one.
    fn pop(&mut self) -> (r: Option<(Timestamp, E)>)
        requires
            old(self).wf(),
        ensures
            final(self).wf(),
            r is None <==> old(self)@.len() == 0,
            r is None ==> final(self)@ == old(self)@,
            r matches Some(p) ==> {
                &&& old(self)@.contains(p)
                &&& no_later_than_all(p.0, old(self)@)
                &&& final(self)@ == old(self)@.remove(p)
            },
    {
        proof {
            self.lemma_len();
        }
        if self.times.len() == 0 {
            return None;
        }
        proof {
            self.lemma_root_is_earliest();
        }
        let ghost m0 = self@;
        let ghost first = (self.times@[0], self.items@[0]->Some_0);
        let last = self.times.len() - 1;
        if last > 0 {
            self.swap_slots(0, last);
        }
        let ghost s1 = self.entries();
        let ghost t1 = self.times@;
        let at = match self.times.pop() {
            Some(t) => t,
            None => 0,
        };
        let slot = self.items.pop();
        let event = match slot {
            Some(Some(e)) => e,
            _ => {
                proof {
                    assert(t1.len() == s1.len());
                }
                return None;
            },
        };
        proof {
            assert(s1[last as int] == first);
            assert(self.entries() =~= s1.remove(last as int));
            assert(self@ == m0.remove(first));
            assert(ordered_except_down(self.times@, 0)) by {
                assert forall|k: int| 0 < k < self.times@.len() && parent(k) != 0 implies self.times@[parent(k)]
                    <= #[trigger] self.times@[k] by {
                    assert(t1[parent(k)] <= t1[k]);
                }
            }
        }
        self.sift_down();
        Some((at, event))
    }

    /// Moves the entry at the root down until the layout is a heap again.
    fn sift_down(&mut self)
        requires
            old(self).slots_filled(),
            ordered_except_down(old(self).times@, 0),
        ensures
            final(self).wf(),
            final(self)@ == old(self)@,
    {
        let n = self.times.len();
        let mut pos: usize = 0;
        if n == 0 {
            return;
        }
        loop
            invariant
                self.slots_filled(),
                self.times@.len() == n,
                pos < n,
                ordered_except_down(self.times@, pos as int),
                self@ == old(self)@,
            ensures
                self.wf(),
                self@ == old(self)@,
            decreases n - pos,
        {
            if pos >= n / 2 {
                return;
            }
            let l = 2 * pos + 1;
            let r = l + 1;
            let c = if r < n && self.times[r] < self.times[l] {
                r
            } else {
                l
            };
            if self.times[pos] <= self.times[c] {
                proof {
                    let t = self.times@;
                    assert forall|k: int| 0 < k < t.len() implies t[parent(k)] <= #[trigger] t[k] by {
                        if parent(k) == pos {
                            assert(k == l || k == r);
                        }
                    }
                }
                return;
            }
            let ghost t0 = self.times@;
            self.swap_slots(pos, c);
            proof {
                let t1 = self.times@;
                assert forall|k: int| 0 < k < t1.len() && parent(k) != c implies t1[parent(k)]
                    <= #[trigger] t1[k] by {
                    if k == c {
                    } else if parent(k) == pos {
                        assert(k == l || k == r);
                    } else if k == pos {
                        assert(t0[parent(pos as int)] <= t0[c as int]);
                    } else {
                        assert(t0[parent(k)] <= t0[k]);
                    }
                }
                assert forall|k: int| 0 < k < t1.len() && parent(k) == c && c > 0 implies t1[parent(
                    c as int,
                )] <= #[trigger] t1[k] by {
                    assert(t0[c as int] <= t0[k]);
                }
            }
            pos = c;
        }
    }

    /// The earliest firing time among the pending entries, if any.
    fn peek_time(&self) -> (r: Option<Timestamp>)
        requires
            self.wf(),
        ensures
            r is None <==> self@.len() == 0,
            r matches Some(t) ==> no_later_than_all(t, self@) && exists|e: E|
                #[trigger] self@.contains((t, e)),
    {
        proof {
            self.lemma_len();
        }
        if self.times.len() == 0 {
            None
        } else {
            proof {
                self.lemma_root_is_earliest();
                let w = self.items@[0]->Some_0;
                assert(self@.contains((self.times@[0], w)));
                assert(exists|e: E| #[trigger] self@.contains((self.times@[0], e)));
            }
            Some(self.times[0])
        }
    }
}

/// Pending events, each with the firing time it was scheduled at.
pub struct EventQueue<E> {
    heap: Heap<E>,
}

impl<E> View for EventQueue<E> {
    type V = Multiset<(Timestamp, E)>;

    /// The pending entries, as pairs of firing time and event.
    closed spec fn view(&self) -> Multiset<(Timestamp, E)> {
        self.heap@
    }
}

impl<E> EventQueue<E> {
    #[verifier::type_invariant]
    spec fn is_heap(self) -> bool {
        self.heap.wf()
    }

    /// An empty queue.
    pub fn new() -> (q: Self)
        ensures
            q@ == Multiset::<(Timestamp, E)>::empty(),
    {
        EventQueue { heap: Heap::new() }
    }

    /// Number of pending entries.
    pub fn len(&self) -> (n: usize)
        ensures
            n == self@.len(),
    {
        proof {
            use_type_invariant(self);
        }
        self.heap.len()
    }

    /// Adds `event` to fire at `at`.
    pub fn push(&mut self, at: Timestamp, event: E)
        ensures
            final(self)@ == old(self)@.insert((at, event)),
    {
        proof {
            use_type_invariant(&*self);
        }
        let mut heap = Heap::new();
        std::mem::swap(&mut self.heap, &mut heap);
        heap.push(at, event);
        std::mem::swap(&mut self.heap, &mut heap);
    }

    /// The earliest firing time among the pending entries, if any.
    pub fn peek_time(&self) -> (r: Option<Timestamp>)
        ensures
            r is None <==> self@.len() == 0,
            r matches Some(t) ==> no_later_than_all(t, self@) && exists|e: E|
                #[trigger] self@.contains((t, e)),
    {
        proof {
            use_type_invariant(self);
        }
        self.heap.peek_time()
    }

    /// Removes and returns an entry with the earliest firing time, if there is one.
    pub fn pop(&mut self) -> (r: Option<(Timestamp, E)>)
        ensures
            r is None <==> old(self)@.len() == 0,
            r is None ==> final(self)@ == old(self)@,
            r matches Some(p) ==> {
                &&& old(self)@.contains(p)
                &&& no_later_than_all(p.0, old(self)@)
                &&& final(self)@ == old(self)@.remove(p)
            },
    {
        proof {
            use_type_invariant(&*self);
        }
        let mut heap = Heap::new();
        std::mem::swap(&mut self.heap, &mut heap);
        let r = heap.pop();
        std::mem::swap(&mut self.heap, &mut heap);
        r
    }
}

} // verus!
