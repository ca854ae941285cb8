//! The timer: pending deadlines, ordered by deadline and then by creation, each
//! with the waker of the task that waits for it.
//!
//! Times are nanoseconds since the timer was created, on the monotonic clock.
use std::time::Instant;
use vstd::prelude::*;

verus! {

#[verifier::external_type_specification]
#[verifier::external_body]
pub struct ExInstant(Instant);

/// Relies on std::time::Instant::now: a reading of the monotonic clock.
pub assume_specification[ Instant::now ]() -> Instant;

/// Relies on std::time::Instant::elapsed: the time since `base` on the
/// monotonic clock, in nanoseconds (saturated to `u64::MAX`). Nothing is
/// promised of its value.
#[verifier::external_body]
fn nanos_since(base: &Instant) -> (r: u64) {
    u64::try_from(base.elapsed().as_nanos()).unwrap_or(u64::MAX)
}

/// A pending deadline.
pub struct TimerEntry<W> {
    pub deadline: u64,
    /// Tells apart entries with the same deadline: earlier entries have smaller ids.
    pub id: u64,
    /// The waker of the task waiting for it, once it has polled.
    pub waker: Option<W>,
}

/// The key that orders entries: deadline, then id.
pub open spec fn key_of<W>(e: TimerEntry<W>) -> (u64, u64) {
    (e.deadline, e.id)
}

/// Whether key `a` comes before key `b`.
pub open spec fn key_lt(a: (u64, u64), b: (u64, u64)) -> bool {
    a.0 < b.0 || (a.0 == b.0 && a.1 < b.1)
}

/// Whether an entry with key `k` is pending.
pub open spec fn has_key<W>(es: Seq<TimerEntry<W>>, k: (u64, u64)) -> bool {
    exists|i: int| 0 <= i < es.len() && #[trigger] key_of(es[i]) == k
}

/// The entries that a tick at `now` leaves pending: it takes entries off the
/// end (the earliest) while their deadline has come.
pub open spec fn remaining<W>(es: Seq<TimerEntry<W>>, now: u64) -> Seq<TimerEntry<W>>
    decreases es.len(),
{
    if es.len() == 0 || es.last().deadline > now {
        es
    } else {
        remaining(es.drop_last(), now)
    }
}

/// The wakers that a tick at `now` releases, earliest deadline first.
pub open spec fn due_wakers<W>(es: Seq<TimerEntry<W>>, now: u64) -> Seq<W>
    decreases es.len(),
{
    if es.len() == 0 || es.last().deadline > now {
        Seq::empty()
    } else {
        (match es.last().waker {
            Some(w) => seq![w],
            None => Seq::empty(),
        }) + due_wakers(es.drop_last(), now)
    }
}

/// Entries stand latest key first.
pub open spec fn sorted_desc<W>(es: Seq<TimerEntry<W>>) -> bool {
    forall|i: int, j: int|
        0 <= i < j < es.len() ==> key_lt(key_of(#[trigger] es[j]), key_of(#[trigger] es[i]))
}

/// How long until the earliest pending deadline, from `now`: none if nothing
/// is pending, zero if it has come.
pub open spec fn time_to_next<W>(es: Seq<TimerEntry<W>>, now: u64) -> Option<u64> {
    if es.len() == 0 {
        None
    } else if es.last().deadline > now {
        Some((es.last().deadline - now) as u64)
    } else {
        Some(0)
    }
}

proof fn lemma_remaining<W>(es: Seq<TimerEntry<W>>, now: u64)
    requires
        sorted_desc(es),
    ensures
        remaining(es, now).len() <= es.len(),
        remaining(es, now) == es.take(remaining(es, now).len() as int),
        forall|i: int| 0 <= i < remaining(es, now).len() ==> #[trigger] es[i].deadline > now,
        forall|i: int| remaining(es, now).len() <= i < es.len() ==> #[trigger] es[i].deadline <= now,
    decreases es.len(),
{
    if es.len() == 0 {
        assert(es.take(0) =~= es);
    } else if es.last().deadline > now {
        assert(es.take(es.len() as int) =~= es);
        assert forall|i: int| 0 <= i < es.len() implies #[trigger] es[i].deadline > now by {
            if i < es.len() - 1 {
                assert(key_lt(key_of(es[es.len() - 1]), key_of(es[i])));
            }
        }
    } else {
        let front = es.drop_last();
        assert(sorted_desc(front)) by {
            assert forall|i: int, j: int| 0 <= i < j < front.len() implies key_lt(
                key_of(#[trigger] front[j]),
                key_of(#[trigger] front[i]),
            ) by {
                assert(front[i] == es[i] && front[j] == es[j]);
            }
        }
        lemma_remaining(front, now);
        let r = remaining(front, now);
        assert(r =~= es.take(r.len() as int));
        assert forall|i: int| 0 <= i < r.len() implies #[trigger] es[i].deadline > now by {
            assert(front[i] == es[i]);
        }
        assert forall|i: int| r.len() <= i < es.len() implies #[trigger] es[i].deadline <= now by {
            if i < es.len() - 1 {
                assert(front[i] == es[i]);
            }
        }
    }
}

/// A tick at `now` lets go exactly the pending entries whose deadline has
/// come; an entry still pending belongs to a sleep that has not resolved.
pub proof fn lemma_tick_lets_go_due<W>(t: TimerView<W>, now: u64, k: (u64, u64))
    requires
        t.wf(),
        has_key(t.entries, k),
    ensures
        has_key(remaining(t.entries, now), k) <==> k.0 > now,
{
    let es = t.entries;
    lemma_remaining(es, now);
    let r = remaining(es, now);
    let i = choose|i: int| 0 <= i < es.len() && #[trigger] key_of(es[i]) == k;
    if k.0 > now {
        assert(i < r.len());
        assert(key_of(r[i]) == k);
    } else {
        if has_key(r, k) {
            let j = choose|j: int| 0 <= j < r.len() && #[trigger] key_of(r[j]) == k;
            assert(r[j] == es[j]);
        }
    }
}

/// Sleeps resolve in the order of their deadlines: a tick that lets go a
/// sleep lets go every sleep with an earlier deadline.
pub proof fn lemma_tick_monotone<W>(t: TimerView<W>, now: u64, a: (u64, u64), b: (u64, u64))
    requires
        t.wf(),
        has_key(t.entries, a),
        has_key(t.entries, b),
        a.0 < b.0,
        !has_key(remaining(t.entries, now), b),
    ensures
        !has_key(remaining(t.entries, now), a),
{
    lemma_tick_lets_go_due(t, now, a);
    lemma_tick_lets_go_due(t, now, b);
}

proof fn lemma_last_is_earliest<W>(es: Seq<TimerEntry<W>>, i: int)
    requires
        sorted_desc(es),
        0 <= i < es.len(),
    ensures
        es.last().deadline <= es[i].deadline,
{
    if i < es.len() - 1 {
        assert(key_lt(key_of(es[es.len() - 1]), key_of(es[i])));
    }
}

/// A sleep whose deadline has already come (a zero-length sleep) makes the
/// time to wait zero, so the reactor does not block, and the next tick lets
/// it go.
pub proof fn lemma_due_sleep_does_not_block<W>(t: TimerView<W>, now: u64, k: (u64, u64))
    requires
        t.wf(),
        has_key(t.entries, k),
        k.0 <= now,
    ensures
        time_to_next(t.entries, now) == Some(0u64),
        !has_key(remaining(t.entries, now), k),
{
    let i = choose|i: int| 0 <= i < t.entries.len() && #[trigger] key_of(t.entries[i]) == k;
    lemma_last_is_earliest(t.entries, i);
    lemma_tick_lets_go_due(t, now, k);
}

/// The deadline `duration` after `now`, cut to the largest time.
pub open spec fn deadline_after(now: u64, duration: u64) -> u64 {
    if now + duration > u64::MAX {
        u64::MAX
    } else {
        (now + duration) as u64
    }
}

/// With nothing pending there is no deadline to bound a wait: the reactor
/// waits until an event wakes it.
pub proof fn lemma_idle_timer_sets_no_deadline<W>(t: TimerView<W>, now: u64)
    requires
        t.entries.len() == 0,
    ensures
        time_to_next(t.entries, now) is None,
{
}

/// The timer, as the contracts see it.
pub struct TimerView<W> {
    /// Pending entries, latest key first.
    pub entries: Seq<TimerEntry<W>>,
    /// The id that the next entry gets.
    pub next_id: u64,
}

impl<W> TimerView<W> {
    pub open spec fn wf(self) -> bool {
        &&& self.next_id >= 1
        &&& sorted_desc(self.entries)
        &&& forall|i: int| 0 <= i < self.entries.len() ==> 1 <= #[trigger] self.entries[i].id < self.next_id
    }
}

/// The pending deadlines of one thread's tasks.
pub struct Timer<W> {
    entries: Vec<TimerEntry<W>>,
    next_id: u64,
    base: Instant,
}

impl<W> View for Timer<W> {
    type V = TimerView<W>;

    closed spec fn view(&self) -> TimerView<W> {
        TimerView { entries: self.entries@, next_id: self.next_id }
    }
}

/// An awaitable deadline: ready once its timer has let it go.
#[derive(Clone, Copy, Debug, PartialEq, Eq, Structural)]
pub struct Sleep {
    deadline: u64,
    id: u64,
}

impl View for Sleep {
    type V = (u64, u64);

    /// Its key in the timer: deadline, then id.
    closed spec fn view(&self) -> (u64, u64) {
        (self.deadline, self.id)
    }
}

impl Sleep {
    /// When this sleep ends.
    pub fn deadline(&self) -> (r: u64)
        ensures
            r == self@.0,
    {
        self.deadline
    }

    /// Whether the deadline has come at time `now`.
    pub fn is_elapsed_at(&self, now: u64) -> (r: bool)
        ensures
            r == (now >= self@.0),
    {
        now >= self.deadline
    }

    /// Whether the deadline has come, by the timer's clock.
    pub fn is_elapsed<W>(&self, timer: &Timer<W>) -> bool {
        let now = timer.now();
        self.is_elapsed_at(now)
    }
}

impl<W> Timer<W> {
    /// A timer with nothing pending; its clock starts now.
    pub fn new() -> (r: Timer<W>)
        ensures
            r@.wf(),
            r@.entries.len() == 0,
            r@.next_id == 1,
    {
        Timer { entries: Vec::new(), next_id: 1, base: Instant::now() }
    }

    /// The time now, in nanoseconds since the timer was created.
    pub fn now(&self) -> u64 {
        nanos_since(&self.base)
    }

    /// The id that the next entry gets.
    pub fn next_id(&self) -> (r: u64)
        ensures
            r == self@.next_id,
    {
        self.next_id
    }

    /// Number of pending entries.
    pub fn len(&self) -> (r: usize)
        ensures
            r == self@.entries.len(),
    {
        self.entries.len()
    }
}

impl<W> Timer<W> {
    /// Add a pending entry for `deadline`, with the next id and no waker yet.
    pub fn insert(&mut self, deadline: u64) -> (r: Sleep)
        requires
            old(self)@.wf(),
            old(self)@.next_id < u64::MAX,
        ensures
            final(self)@.wf(),
            r@ == (deadline, old(self)@.next_id),
            has_key(final(self)@.entries, r@),
            final(self)@.next_id == old(self)@.next_id + 1,
            exists|p: int|
                0 <= p <= old(self)@.entries.len() && final(self)@.entries == old(self)@.entries.insert(
                    p,
                    TimerEntry { deadline, id: old(self)@.next_id, waker: None },
                ),
    {
        let ghost es = self.entries@;
        let id = self.next_id;
        let mut p: usize = 0;
        while p < self.entries.len() && self.entries[p].deadline > deadline
            invariant
                self@ == old(self)@,
                es == self.entries@,
                p <= es.len(),
                forall|j: int| 0 <= j < p ==> #[trigger] es[j].deadline > deadline,
            decreases es.len() - p,
        {
            p = p + 1;
        }
        let e = TimerEntry { deadline, id, waker: None };
        self.entries.insert(p, e);
        self.next_id = self.next_id + 1;
        proof {
            let ns = self.entries@;
            assert(ns == es.insert(p as int, e));
            assert(key_of(ns[p as int]) == (deadline, id));
            assert forall|j: int| p <= j < es.len() implies #[trigger] es[j].deadline <= deadline by {
                lemma_last_is_earliest(es.subrange(p as int, es.len() as int), j - p);
                let sub = es.subrange(p as int, es.len() as int);
                assert(sub[0] == es[p as int]);
                if j > p {
                    assert(key_lt(key_of(es[j]), key_of(es[p as int])));
                }
            }
            assert forall|a: int, b: int| 0 <= a < b < ns.len() implies key_lt(
                key_of(#[trigger] ns[b]),
                key_of(#[trigger] ns[a]),
            ) by {
                if a < p && b < p {
                    assert(ns[a] == es[a] && ns[b] == es[b]);
                } else if a < p && b == p {
                    assert(ns[a] == es[a]);
                } else if a < p {
                    assert(ns[a] == es[a] && ns[b] == es[b - 1]);
                } else if a == p {
                    assert(ns[b] == es[b - 1]);
                    assert(es[b - 1].id < id);
                } else {
                    assert(ns[a] == es[a - 1] && ns[b] == es[b - 1]);
                }
            }
        }
        Sleep { deadline, id }
    }

    fn find(&self, k: &Sleep) -> (r: Option<usize>)
        requires
            self@.wf(),
        ensures
            match r {
                Some(i) => i < self@.entries.len() && key_of(self@.entries[i as int]) == k@,
                None => !has_key(self@.entries, k@),
            },
    {
        let mut i: usize = 0;
        while i < self.entries.len()
            invariant
                i <= self@.entries.len(),
                forall|j: int| 0 <= j < i ==> key_of(#[trigger] self@.entries[j]) != k@,
            decreases self@.entries.len() - i,
        {
            if self.entries[i].deadline == k.deadline && self.entries[i].id == k.id {
                return Some(i);
            }
            i = i + 1;
        }
        None
    }

    /// One poll of a sleep. While its entry is pending the sleep is not
    /// ready, and `waker` is stored in the entry (in place of an older one).
    /// Once the timer has let the entry go the sleep is ready.
    pub fn poll_sleep(&mut self, s: &Sleep, waker: W) -> (r: bool)
        requires
            old(self)@.wf(),
        ensures
            final(self)@.wf(),
            r == !has_key(old(self)@.entries, s@),
            !r ==> final(self)@.next_id == old(self)@.next_id && forall|i: int|
                0 <= i < old(self)@.entries.len() && key_of(#[trigger] old(self)@.entries[i]) == s@
                    ==> final(self)@.entries == old(self)@.entries.update(
                    i,
                    TimerEntry { waker: Some(waker), ..old(self)@.entries[i] },
                ),
            r ==> final(self)@ == old(self)@,
    {
        match self.find(s) {
            Some(i) => {
                let ghost es = self.entries@;
                let e = TimerEntry { deadline: s.deadline, id: s.id, waker: Some(waker) };
                self.entries.set(i, e);
                proof {
                    assert forall|j: int|
                        0 <= j < es.len() && key_of(#[trigger] es[j]) == s@ implies j == i by {
                        if j < i {
                            assert(key_lt(key_of(es[i as int]), key_of(es[j])));
                        } else if j > i {
                            assert(key_lt(key_of(es[j]), key_of(es[i as int])));
                        }
                    }
                    assert(self@.entries =~= es.update(i as int, TimerEntry { waker: Some(waker), ..es[i as int] }));
                    assert forall|a: int, b: int| 0 <= a < b < self@.entries.len() implies key_lt(
                        key_of(#[trigger] self@.entries[b]),
                        key_of(#[trigger] self@.entries[a]),
                    ) by {
                        assert(key_of(self@.entries[a]) == key_of(es[a]));
                        assert(key_of(self@.entries[b]) == key_of(es[b]));
                    }
                    assert forall|a: int| 0 <= a < self@.entries.len() implies 1 <= #[trigger] self@.entries[a].id
                        < self@.next_id by {
                        assert(self@.entries[a].id == es[a].id);
                    }
                }
                false
            },
            None => true,
        }
    }

    /// A sleep goes away before it resolved: its entry, if still pending, is removed.
    pub fn cancel(&mut self, s: Sleep)
        requires
            old(self)@.wf(),
        ensures
            final(self)@.wf(),
            final(self)@.next_id == old(self)@.next_id,
            !has_key(final(self)@.entries, s@),
            !has_key(old(self)@.entries, s@) ==> final(self)@ == old(self)@,
            forall|i: int|
                0 <= i < old(self)@.entries.len() && key_of(#[trigger] old(self)@.entries[i]) == s@
                    ==> final(self)@.entries == old(self)@.entries.remove(i),
    {
        match self.find(&s) {
            Some(i) => {
                let ghost es = self.entries@;
                self.entries.remove(i);
                proof {
                    assert forall|j: int|
                        0 <= j < es.len() && key_of(#[trigger] es[j]) == s@ implies j == i by {
                        if j < i {
                            assert(key_lt(key_of(es[i as int]), key_of(es[j])));
                        } else if j > i {
                            assert(key_lt(key_of(es[j]), key_of(es[i as int])));
                        }
                    }
                    let ns = self@.entries;
                    assert forall|a: int, b: int| 0 <= a < b < ns.len() implies key_lt(
                        key_of(#[trigger] ns[b]),
                        key_of(#[trigger] ns[a]),
                    ) by {
                        if a < i {
                            assert(ns[a] == es[a]);
                        } else {
                            assert(ns[a] == es[a + 1]);
                        }
                        if b < i {
                            assert(ns[b] == es[b]);
                        } else {
                            assert(ns[b] == es[b + 1]);
                        }
                    }
                    assert forall|a: int| 0 <= a < ns.len() implies 1 <= #[trigger] ns[a].id < self@.next_id by {
                        if a < i {
                            assert(ns[a] == es[a]);
                        } else {
                            assert(ns[a] == es[a + 1]);
                        }
                    }
                }
            },
            None => {},
        }
    }

    /// How long until the earliest pending deadline, from `now`: `None` if
    /// nothing is pending, zero if it has come.
    pub fn next_deadline_at(&self, now: u64) -> (r: Option<u64>)
        requires
            self@.wf(),
        ensures
            r == time_to_next(self@.entries, now),
            forall|i: int|
                0 <= i < self@.entries.len() ==> self@.entries.last().deadline
                    <= #[trigger] self@.entries[i].deadline,
    {
        proof {
            assert forall|i: int| 0 <= i < self@.entries.len() implies self@.entries.last().deadline
                <= #[trigger] self@.entries[i].deadline by {
                lemma_last_is_earliest(self@.entries, i);
            }
        }
        let n = self.entries.len();
        if n == 0 {
            return None;
        }
        let d = self.entries[n - 1].deadline;
        if d > now {
            Some(d - now)
        } else {
            Some(0)
        }
    }

    /// How long until the earliest pending deadline, by the timer's clock.
    pub fn next_deadline(&self) -> (r: Option<u64>)
        requires
            self@.wf(),
        ensures
            exists|now: u64| r == time_to_next(self@.entries, now),
    {
        let now = self.now();
        self.next_deadline_at(now)
    }

    /// Let go every entry whose deadline has come by `now`, earliest first,
    /// and hand back the wakers stored in them.
    pub fn tick_at(&mut self, now: u64) -> (r: Vec<W>)
        requires
            old(self)@.wf(),
        ensures
            final(self)@.wf(),
            final(self)@.next_id == old(self)@.next_id,
            final(self)@.entries == remaining(old(self)@.entries, now),
            r@ == due_wakers(old(self)@.entries, now),
            forall|i: int|
                0 <= i < final(self)@.entries.len() ==> #[trigger] final(self)@.entries[i].deadline > now,
    {
        let ghost es = self.entries@;
        proof {
            lemma_remaining(es, now);
        }
        let mut out: Vec<W> = Vec::new();
        while self.entries.len() > 0 && self.entries[self.entries.len() - 1].deadline <= now
            invariant
                self@.next_id == old(self)@.next_id,
                remaining(self@.entries, now) == remaining(es, now),
                out@ + due_wakers(self@.entries, now) == due_wakers(es, now),
                self@.entries.len() <= es.len(),
                self@.entries == es.take(self@.entries.len() as int),
            decreases self@.entries.len(),
        {
            let ghost cur = self@.entries;
            let e = self.entries.pop().unwrap();
            assert(self@.entries == cur.drop_last());
            match e.waker {
                Some(w) => {
                    out.push(w);
                },
                None => {},
            }
            assert(out@ + due_wakers(self@.entries, now) =~= due_wakers(es, now));
            assert(self@.entries =~= es.take(self@.entries.len() as int));
        }
        proof {
            let ns = self@.entries;
            assert forall|a: int, b: int| 0 <= a < b < ns.len() implies key_lt(
                key_of(#[trigger] ns[b]),
                key_of(#[trigger] ns[a]),
            ) by {
                assert(ns[a] == es[a] && ns[b] == es[b]);
            }
            assert forall|a: int| 0 <= a < ns.len() implies 1 <= #[trigger] ns[a].id < self@.next_id by {
                assert(ns[a] == es[a]);
            }
            assert(due_wakers(ns, now) =~= Seq::<W>::empty());
            assert(out@ =~= out@ + due_wakers(ns, now));
        }
        out
    }

    /// Let go every entry whose deadline has come, by the timer's clock, and
    /// hand back the wakers stored in them.
    pub fn tick(&mut self) -> (r: Vec<W>)
        requires
            old(self)@.wf(),
        ensures
            final(self)@.wf(),
            final(self)@.next_id == old(self)@.next_id,
            exists|now: u64|
                final(self)@.entries == remaining(old(self)@.entries, now) && r@ == due_wakers(
                    old(self)@.entries,
                    now,
                ),
    {
        let now = self.now();
        self.tick_at(now)
    }
}

/// A sleep until `deadline`: a new pending entry in `timer`.
pub fn sleep_until<W>(timer: &mut Timer<W>, deadline: u64) -> (r: Sleep)
    requires
        old(timer)@.wf(),
        old(timer)@.next_id < u64::MAX,
    ensures
        final(timer)@.wf(),
        r@ == (deadline, old(timer)@.next_id),
        has_key(final(timer)@.entries, r@),
        final(timer)@.next_id == old(timer)@.next_id + 1,
        exists|p: int|
            0 <= p <= old(timer)@.entries.len() && final(timer)@.entries == old(timer)@.entries.insert(
                p,
                TimerEntry { deadline, id: old(timer)@.next_id, waker: None },
            ),
{
    timer.insert(deadline)
}

/// A sleep of `duration` nanoseconds from now by the timer's clock; a
/// deadline past the clock's range is cut to the largest time.
pub fn sleep<W>(timer: &mut Timer<W>, duration: u64) -> (r: Sleep)
    requires
        old(timer)@.wf(),
        old(timer)@.next_id < u64::MAX,
    ensures
        final(timer)@.wf(),
        exists|now: u64| r@.0 == #[trigger] deadline_after(now, duration),
        r@.1 == old(timer)@.next_id,
        has_key(final(timer)@.entries, r@),
        final(timer)@.next_id == old(timer)@.next_id + 1,
        exists|p: int|
            0 <= p <= old(timer)@.entries.len() && final(timer)@.entries == old(timer)@.entries.insert(
                p,
                TimerEntry { deadline: r@.0, id: old(timer)@.next_id, waker: None },
            ),
{
    let now = timer.now();
    let deadline = now.saturating_add(duration);
    assert(deadline == deadline_after(now, duration));
    sleep_until(timer, deadline)
}

} // verus!
