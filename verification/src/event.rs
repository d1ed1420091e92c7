//! A double-buffered event bus with per-reader cursors.
//!
//! Events go to the active buffer; `update` clears the inactive buffer and
//! swaps roles, so an event survives through the tick after the one it was
//! sent in. Every event carries an implicit serial number: the value of
//! `count` when it was sent. The retained events are exactly the serials
//! from `first_retained` up to `count`.

use vstd::prelude::*;

use crate::entity::max_int;

verus! {

enum BufferState {
    A,
    B,
}

/// A double-buffered queue of events of one type.
pub struct Events<T> {
    events_a: Vec<T>,
    events_b: Vec<T>,
    start_a: usize,
    start_b: usize,
    count: usize,
    state: BufferState,
}

impl<T> Events<T> {
    /// Each buffer holds a contiguous serial range, the inactive buffer's
    /// range directly below the active one's, which ends at `count`.
    pub closed spec fn wf(self) -> bool {
        match self.state {
            BufferState::A => self.count == self.start_a + self.events_a@.len() && self.start_a
                == self.start_b + self.events_b@.len(),
            BufferState::B => self.count == self.start_b + self.events_b@.len() && self.start_b
                == self.start_a + self.events_a@.len(),
        }
    }

    /// How many events were ever sent.
    pub closed spec fn spec_count(self) -> nat {
        self.count as nat
    }

    /// The serial number of the oldest retained event.
    pub closed spec fn first_retained(self) -> nat {
        match self.state {
            BufferState::A => self.start_b as nat,
            BufferState::B => self.start_a as nat,
        }
    }

    /// Where the active buffer's serial range begins.
    pub closed spec fn active_start(self) -> nat {
        match self.state {
            BufferState::A => self.start_a as nat,
            BufferState::B => self.start_b as nat,
        }
    }

    /// The retained events in serial order: the inactive buffer's events
    /// followed by the active buffer's. `retained()[j]` carries serial
    /// number `first_retained() + j`.
    pub closed spec fn retained(self) -> Seq<T> {
        match self.state {
            BufferState::A => self.events_b@ + self.events_a@,
            BufferState::B => self.events_a@ + self.events_b@,
        }
    }

    /// Appends the event to the active buffer; its serial number is the old
    /// count.
    pub fn send(&mut self, event: T)
        requires
            old(self).wf(),
            old(self).spec_count() < usize::MAX,
        ensures
            final(self).wf(),
            final(self).spec_count() == old(self).spec_count() + 1,
            final(self).first_retained() == old(self).first_retained(),
            final(self).active_start() == old(self).active_start(),
            final(self).retained() == old(self).retained().push(event),
    {
        match self.state {
            BufferState::A => self.events_a.push(event),
            BufferState::B => self.events_b.push(event),
        }
        self.count = self.count + 1;
        proof {
            assert(self.retained() =~= old(self).retained().push(event));
        }
    }

    /// Swaps the buffers: the old inactive buffer's events are dropped, the
    /// old active buffer becomes inactive, and new events go to the freshly
    /// cleared buffer. Called once per tick.
    pub fn update(&mut self)
        requires
            old(self).wf(),
        ensures
            final(self).wf(),
            final(self).spec_count() == old(self).spec_count(),
            final(self).first_retained() == old(self).active_start(),
            final(self).active_start() == old(self).spec_count(),
            final(self).retained() == old(self).retained().skip(
                old(self).active_start() - old(self).first_retained(),
            ),
    {
        match self.state {
            BufferState::A => {
                self.events_b.clear();
                self.state = BufferState::B;
                self.start_b = self.count;
            },
            BufferState::B => {
                self.events_a.clear();
                self.state = BufferState::A;
                self.start_a = self.count;
            },
        }
        proof {
            assert(self.retained() =~= old(self).retained().skip(
                old(self).active_start() - old(self).first_retained(),
            ));
        }
    }

    /// Removes and returns every retained event, in serial order.
    pub fn drain(&mut self) -> (r: Vec<T>)
        requires
            old(self).wf(),
        ensures
            final(self).wf(),
            r@ == old(self).retained(),
            final(self).spec_count() == old(self).spec_count(),
            final(self).retained() == Seq::<T>::empty(),
            final(self).first_retained() == final(self).spec_count(),
    {
        self.start_a = self.count;
        self.start_b = self.count;
        let mut first: Vec<T> = Vec::new();
        let mut second: Vec<T> = Vec::new();
        match self.state {
            BufferState::A => {
                std::mem::swap(&mut first, &mut self.events_b);
                std::mem::swap(&mut second, &mut self.events_a);
            },
            BufferState::B => {
                std::mem::swap(&mut first, &mut self.events_a);
                std::mem::swap(&mut second, &mut self.events_b);
            },
        }
        first.append(&mut second);
        proof {
            assert(self.retained() =~= Seq::<T>::empty());
        }
        first
    }

    /// Drops every retained event without reading it.
    pub fn clear(&mut self)
        requires
            old(self).wf(),
        ensures
            final(self).wf(),
            final(self).spec_count() == old(self).spec_count(),
            final(self).retained() == Seq::<T>::empty(),
            final(self).first_retained() == final(self).spec_count(),
    {
        self.start_a = self.count;
        self.start_b = self.count;
        self.events_a.clear();
        self.events_b.clear();
        proof {
            assert(self.retained() =~= Seq::<T>::empty());
        }
    }

    pub fn is_empty(&self) -> (r: bool)
        requires
            self.wf(),
        ensures
            r == (self.retained().len() == 0),
    {
        self.events_a.is_empty() && self.events_b.is_empty()
    }

    /// Appends a batch of events to the active buffer, in order.
    pub fn extend(&mut self, mut events: Vec<T>)
        requires
            old(self).wf(),
            old(self).spec_count() + events@.len() <= usize::MAX,
        ensures
            final(self).wf(),
            final(self).spec_count() == old(self).spec_count() + events@.len(),
            final(self).first_retained() == old(self).first_retained(),
            final(self).active_start() == old(self).active_start(),
            final(self).retained() == old(self).retained() + events@,
    {
        let ghost evs = events@;
        let n = events.len();
        match self.state {
            BufferState::A => self.events_a.append(&mut events),
            BufferState::B => self.events_b.append(&mut events),
        }
        self.count = self.count + n;
        proof {
            assert(self.retained() =~= old(self).retained() + evs);
        }
    }
}

impl<T> Default for Events<T> {
    /// An empty bus: nothing sent, nothing retained.
    fn default() -> (r: Self)
        ensures
            r.wf(),
            r.spec_count() == 0,
            r.first_retained() == 0,
            r.active_start() == 0,
            r.retained() == Seq::<T>::empty(),
    {
        let r = Events {
            events_a: Vec::new(),
            events_b: Vec::new(),
            start_a: 0,
            start_b: 0,
            count: 0,
            state: BufferState::A,
        };
        proof {
            assert(r.retained() =~= Seq::<T>::empty());
        }
        r
    }
}

/// A value-type cursor over one event bus: remembers the count it last saw.
pub struct EventReader<T> {
    last_count: usize,
    _marker: core::marker::PhantomData<T>,
}

impl<T> EventReader<T> {
    /// The count observed by the last `iter` call.
    pub closed spec fn cursor(self) -> nat {
        self.last_count as nat
    }
}

impl<T> Default for EventReader<T> {
    /// A fresh reader that has observed nothing.
    fn default() -> (r: Self)
        ensures
            r.cursor() == 0,
    {
        EventReader { last_count: 0, _marker: core::marker::PhantomData }
    }
}

/// The events a reader at cursor `lc` observes: every retained event whose
/// serial number is at least `lc`, in serial order.
pub open spec fn observed<T>(lc: nat, ev: Events<T>) -> Seq<T> {
    ev.retained().skip(max_int(lc as int, ev.first_retained() as int) - ev.first_retained())
}

impl<T: Copy> EventReader<T> {
    /// Yields every retained event newer than the cursor, oldest first, and
    /// advances the cursor to the bus's count.
    pub fn iter(&mut self, events: &Events<T>) -> (r: Vec<T>)
        requires
            events.wf(),
            old(self).cursor() <= events.spec_count(),
        ensures
            final(self).cursor() == events.spec_count(),
            r@ == observed(old(self).cursor(), *events),
    {
        let a_index = if self.last_count > events.start_a {
            self.last_count - events.start_a
        } else {
            0
        };
        let b_index = if self.last_count > events.start_b {
            self.last_count - events.start_b
        } else {
            0
        };
        self.last_count = events.count;
        let mut r: Vec<T> = Vec::new();
        match events.state {
            BufferState::A => {
                let mut j = if b_index < events.events_b.len() {
                    b_index
                } else {
                    events.events_b.len()
                };
                let ghost j0 = j;
                while j < events.events_b.len()
                    invariant
                        j0 <= j <= events.events_b@.len(),
                        r@ == events.events_b@.subrange(j0 as int, j as int),
                    decreases events.events_b@.len() - j,
                {
                    r.push(events.events_b[j]);
                    proof {
                        assert(r@ =~= events.events_b@.subrange(j0 as int, j + 1));
                    }
                    j = j + 1;
                }
                let mut k = if a_index < events.events_a.len() {
                    a_index
                } else {
                    events.events_a.len()
                };
                let ghost k0 = k;
                let ghost rb = r@;
                while k < events.events_a.len()
                    invariant
                        k0 <= k <= events.events_a@.len(),
                        r@ == rb + events.events_a@.subrange(k0 as int, k as int),
                    decreases events.events_a@.len() - k,
                {
                    r.push(events.events_a[k]);
                    proof {
                        assert(r@ =~= rb + events.events_a@.subrange(k0 as int, k + 1));
                    }
                    k = k + 1;
                }
                proof {
                    assert(r@ =~= observed(old(self).cursor(), *events));
                }
            },
            BufferState::B => {
                let mut j = if a_index < events.events_a.len() {
                    a_index
                } else {
                    events.events_a.len()
                };
                let ghost j0 = j;
                while j < events.events_a.len()
                    invariant
                        j0 <= j <= events.events_a@.len(),
                        r@ == events.events_a@.subrange(j0 as int, j as int),
                    decreases events.events_a@.len() - j,
                {
                    r.push(events.events_a[j]);
                    proof {
                        assert(r@ =~= events.events_a@.subrange(j0 as int, j + 1));
                    }
                    j = j + 1;
                }
                let mut k = if b_index < events.events_b.len() {
                    b_index
                } else {
                    events.events_b.len()
                };
                let ghost k0 = k;
                let ghost rb = r@;
                while k < events.events_b.len()
                    invariant
                        k0 <= k <= events.events_b@.len(),
                        r@ == rb + events.events_b@.subrange(k0 as int, k as int),
                    decreases events.events_b@.len() - k,
                {
                    r.push(events.events_b[k]);
                    proof {
                        assert(r@ =~= rb + events.events_b@.subrange(k0 as int, k + 1));
                    }
                    k = k + 1;
                }
                proof {
                    assert(r@ =~= observed(old(self).cursor(), *events));
                }
            },
        }
        r
    }
}

/// The retained events span exactly the serials from `first_retained` up to
/// `count`, the active buffer's range sitting on top of the inactive one's.
pub proof fn lemma_retained_span<T>(e: Events<T>)
    requires
        e.wf(),
    ensures
        e.retained().len() == e.spec_count() - e.first_retained(),
        e.first_retained() <= e.active_start() <= e.spec_count(),
{
}

/// The serial numbers observed by one `iter` call at cursor `lc` on a bus
/// whose oldest retained serial is `fr` and whose count is `c`.
pub open spec fn observed_serials(lc: int, fr: int, c: int) -> Set<int> {
    Set::new(|n: int| max_int(lc, fr) <= n && n < c)
}

/// Event delivery is exactly once for a reader that polls every tick. One
/// `iter` call at cursor `lc` observes exactly the serials from `lc` up to
/// the count `c1` — provided the reader has not fallen behind the retention
/// window (`fr1 <= lc`) — and leaves the cursor at `c1`. If the reader polls
/// again after the bus moved on to count `c2` without dropping unobserved
/// events (`fr2 <= c1`), the two calls observe disjoint serial ranges that
/// together cover every serial from `lc` to `c2`: nothing twice, nothing
/// skipped.
pub proof fn lemma_reader_exactly_once(lc: int, fr1: int, c1: int, fr2: int, c2: int)
    requires
        fr1 <= lc <= c1,
        fr2 <= c1 <= c2,
    ensures
        observed_serials(lc, fr1, c1) =~= Set::new(|n: int| lc <= n && n < c1),
        observed_serials(c1, fr2, c2) =~= Set::new(|n: int| c1 <= n && n < c2),
        observed_serials(lc, fr1, c1).disjoint(observed_serials(c1, fr2, c2)),
        observed_serials(lc, fr1, c1).union(observed_serials(c1, fr2, c2)) =~= Set::new(
            |n: int| lc <= n && n < c2,
        ),
{
}

} // verus!
