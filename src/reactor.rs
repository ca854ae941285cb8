//! Bookkeeping of the poll(2) reactor: one slot per file descriptor, with the
//! waiters on it, the event mask handed to poll(2), and the number of live
//! registrations. The poll(2) call itself is made by the caller, which hands
//! the returned events to `Reactor::react_to`.
use vstd::prelude::*;

verus! {

/// Relies on libc::POLLIN: the poll(2) event bit for readable data, 0x1.
#[verifier::external_body]
fn poll_in() -> (r: i16)
    ensures
        r == 0x1,
{
    libc::POLLIN
}

/// Relies on libc::POLLOUT: the poll(2) event bit for writability, 0x4.
#[verifier::external_body]
fn poll_out() -> (r: i16)
    ensures
        r == 0x4,
{
    libc::POLLOUT
}

/// Relies on libc::POLLERR: the poll(2) event bit for an error condition, 0x8.
#[verifier::external_body]
fn poll_err() -> (r: i16)
    ensures
        r == 0x8,
{
    libc::POLLERR
}

/// Relies on libc::POLLHUP: the poll(2) event bit for a hangup, 0x10.
#[verifier::external_body]
fn poll_hup() -> (r: i16)
    ensures
        r == 0x10,
{
    libc::POLLHUP
}

/// Relies on libc::POLLNVAL: the poll(2) event bit for an invalid descriptor, 0x20.
#[verifier::external_body]
fn poll_nval() -> (r: i16)
    ensures
        r == 0x20,
{
    libc::POLLNVAL
}

/// What a waiter waits for.
#[derive(Clone, Copy, Debug, PartialEq, Eq, Structural)]
pub enum Interest {
    Read,
    Write,
}

/// The poll(2) event bit of an interest.
pub open spec fn interest_bit(i: Interest) -> i16 {
    match i {
        Interest::Read => 0x1,
        Interest::Write => 0x4,
    }
}

/// Error, hangup and invalid-descriptor bits: they wake every waiter.
pub open spec fn always_wakes() -> i16 {
    0x38
}

/// The poll(2) event bit of an interest.
pub fn interest_bits(i: Interest) -> (r: i16)
    ensures
        r == interest_bit(i),
{
    match i {
        Interest::Read => poll_in(),
        Interest::Write => poll_out(),
    }
}

/// One waiter on a file descriptor.
pub struct FdWaiter<W> {
    /// The registration that asked.
    pub reg_id: u64,
    pub interest: Interest,
    pub waker: W,
}

/// The events to ask poll(2) for on behalf of some waiters: the union of their interests.
pub open spec fn mask_of<W>(ws: Seq<FdWaiter<W>>) -> i16
    decreases ws.len(),
{
    if ws.len() == 0 {
        0
    } else {
        mask_of(ws.drop_last()) | interest_bit(ws.last().interest)
    }
}

/// Whether returned events `rev` wake a waiter: its own bit or an error condition.
pub open spec fn fires<W>(w: FdWaiter<W>, rev: i16) -> bool {
    (interest_bit(w.interest) | always_wakes()) & rev != 0
}

/// The waiters that events `rev` leave waiting, order kept.
pub open spec fn kept<W>(ws: Seq<FdWaiter<W>>, rev: i16) -> Seq<FdWaiter<W>>
    decreases ws.len(),
{
    if ws.len() == 0 {
        ws
    } else if fires(ws.last(), rev) {
        kept(ws.drop_last(), rev)
    } else {
        kept(ws.drop_last(), rev).push(ws.last())
    }
}

/// The wakers that events `rev` release, order kept.
pub open spec fn fired<W>(ws: Seq<FdWaiter<W>>, rev: i16) -> Seq<W>
    decreases ws.len(),
{
    if ws.len() == 0 {
        Seq::empty()
    } else if fires(ws.last(), rev) {
        fired(ws.drop_last(), rev).push(ws.last().waker)
    } else {
        fired(ws.drop_last(), rev)
    }
}

/// The waiters left after the registration `reg` stops waiting for `interest`.
pub open spec fn without_interest<W>(ws: Seq<FdWaiter<W>>, reg: u64, interest: Interest) -> Seq<
    FdWaiter<W>,
>
    decreases ws.len(),
{
    if ws.len() == 0 {
        ws
    } else if ws.last().reg_id == reg && ws.last().interest == interest {
        without_interest(ws.drop_last(), reg, interest)
    } else {
        without_interest(ws.drop_last(), reg, interest).push(ws.last())
    }
}

/// Whether some waiter was put there by the registration `reg`.
pub open spec fn has_waiter_of<W>(ws: Seq<FdWaiter<W>>, reg: u64) -> bool {
    exists|i: int| 0 <= i < ws.len() && #[trigger] ws[i].reg_id == reg
}

/// A file descriptor's slot, as the contracts see it.
pub struct SlotView<W> {
    /// The file descriptor.
    pub fd: i32,
    /// What poll(2) is given as the descriptor: `fd`, or `-fd` while nobody waits.
    pub polled_fd: int,
    /// The events poll(2) is asked for.
    pub events: i16,
    /// Live registrations of `fd`.
    pub refcount: nat,
    /// Waiters, oldest first.
    pub waiters: Seq<FdWaiter<W>>,
    /// Ids of the live registrations of `fd`.
    pub regs: Set<u64>,
}

impl<W> SlotView<W> {
    pub open spec fn wf(self) -> bool {
        &&& self.fd >= 0
        &&& self.polled_fd == if self.waiters.len() > 0 {
            self.fd as int
        } else {
            -self.fd
        }
        &&& self.events == mask_of(self.waiters)
        &&& self.regs.finite()
        &&& self.refcount == self.regs.len()
        &&& self.refcount > 0
    }

    /// The slot after poll(2) returned events `rev` for it.
    pub open spec fn after_events(self, rev: i16) -> SlotView<W> {
        if rev == 0 {
            self
        } else {
            let ws = kept(self.waiters, rev);
            SlotView {
                polled_fd: if ws.len() > 0 {
                    self.fd as int
                } else {
                    -self.fd
                },
                events: mask_of(ws),
                waiters: ws,
                ..self
            }
        }
    }

    /// The slot with a new set of waiters, events and descriptor following.
    pub open spec fn with_waiters(self, ws: Seq<FdWaiter<W>>) -> SlotView<W> {
        SlotView {
            polled_fd: if ws.len() > 0 {
                self.fd as int
            } else {
                -self.fd
            },
            events: mask_of(ws),
            waiters: ws,
            ..self
        }
    }
}

/// The reactor, as the contracts see it.
pub struct ReactorView<W> {
    pub slots: Seq<SlotView<W>>,
    /// The id the next registration gets.
    pub next_id: u64,
}

impl<W> ReactorView<W> {
    pub open spec fn wf(self) -> bool {
        &&& self.next_id >= 1
        &&& forall|i: int| 0 <= i < self.slots.len() ==> #[trigger] self.slots[i].wf()
        &&& forall|i: int, j: int|
            0 <= i < j < self.slots.len() ==> #[trigger] self.slots[i].fd != #[trigger] self.slots[j].fd
        &&& forall|i: int, j: int, r: u64|
            0 <= i < j < self.slots.len() && #[trigger] self.slots[i].regs.contains(r)
                ==> !#[trigger] self.slots[j].regs.contains(r)
        &&& forall|i: int, r: u64|
            0 <= i < self.slots.len() && #[trigger] self.slots[i].regs.contains(r) ==> 1 <= r
                < self.next_id
        &&& forall|i: int|
            0 <= i < self.slots.len() ==> #[trigger] self.slots[i].refcount < self.next_id
    }

    /// Where the slot of `fd` stands.
    pub open spec fn index_of(self, fd: i32) -> int {
        choose|i: int| 0 <= i < self.slots.len() && self.slots[i].fd == fd
    }

    /// Whether `fd` has a slot.
    pub open spec fn has_fd(self, fd: i32) -> bool {
        exists|i: int| 0 <= i < self.slots.len() && #[trigger] self.slots[i].fd == fd
    }
}

struct Slot<W> {
    fd: i32,
    events: i16,
    refcount: u64,
    waiters: Vec<FdWaiter<W>>,
    regs: Ghost<Set<u64>>,
}

impl<W> View for Slot<W> {
    type V = SlotView<W>;

    closed spec fn view(&self) -> SlotView<W> {
        SlotView {
            fd: if self.fd < 0 {
                -self.fd
            } else {
                self.fd as int
            } as i32,
            polled_fd: self.fd as int,
            events: self.events,
            refcount: self.refcount as nat,
            waiters: self.waiters@,
            regs: self.regs@,
        }
    }
}

/// The reactor: the slots of the file descriptors it watches.
pub struct Reactor<W> {
    slots: Vec<Slot<W>>,
    next_id: u64,
}

impl<W> View for Reactor<W> {
    type V = ReactorView<W>;

    closed spec fn view(&self) -> ReactorView<W> {
        ReactorView { slots: self.slots@.map_values(|s: Slot<W>| s@), next_id: self.next_id }
    }
}

/// A live reference to a file descriptor's slot in a reactor.
pub struct Registration {
    id: u64,
    fd: i32,
    fd_index: usize,
}

impl Registration {
    /// The registration's id, unique within its reactor.
    pub closed spec fn id(self) -> u64 {
        self.id
    }

    /// The file descriptor registered.
    pub closed spec fn fd(self) -> i32 {
        self.fd
    }

    /// The registration's id.
    pub fn reg_id(&self) -> (r: u64)
        ensures
            r == self.id(),
    {
        self.id
    }

    /// The file descriptor registered.
    pub fn raw_fd(&self) -> (r: i32)
        ensures
            r == self.fd(),
    {
        self.fd
    }
}

impl<W> ReactorView<W> {
    /// Whether `reg` is a live registration of this reactor.
    pub open spec fn holds(self, reg: Registration) -> bool {
        exists|i: int|
            0 <= i < self.slots.len() && #[trigger] self.slots[i].fd == reg.fd()
                && self.slots[i].regs.contains(reg.id())
    }
}

/// The event mask of some waiters: the union of their interests.
fn poll_bits<W>(ws: &Vec<FdWaiter<W>>) -> (r: i16)
    ensures
        r == mask_of(ws@),
{
    let mut m: i16 = 0;
    let mut k: usize = 0;
    while k < ws.len()
        invariant
            k <= ws@.len(),
            m == mask_of(ws@.take(k as int)),
        decreases ws@.len() - k,
    {
        assert(ws@.take(k + 1).drop_last() =~= ws@.take(k as int));
        m = m | interest_bits(ws[k].interest);
        k = k + 1;
    }
    assert(ws@.take(ws@.len() as int) =~= ws@);
    m
}

/// The wakers released when poll(2) returned `revs` for the first `n` slots, slot by slot.
pub open spec fn fired_all<W>(slots: Seq<SlotView<W>>, revs: Seq<i16>, n: int) -> Seq<W>
    decreases n,
{
    if n <= 0 {
        Seq::empty()
    } else {
        fired_all(slots, revs, n - 1) + if revs[n - 1] != 0 {
            fired(slots[n - 1].waiters, revs[n - 1])
        } else {
            Seq::empty()
        }
    }
}

proof fn lemma_with_waiters_wf<W>(r: ReactorView<W>, i: int, ws: Seq<FdWaiter<W>>)
    requires
        r.wf(),
        0 <= i < r.slots.len(),
    ensures
        (ReactorView { slots: r.slots.update(i, r.slots[i].with_waiters(ws)), ..r }).wf(),
{
    let r2 = ReactorView { slots: r.slots.update(i, r.slots[i].with_waiters(ws)), ..r };
    assert forall|k: int| 0 <= k < r2.slots.len() implies #[trigger] r2.slots[k].wf() by {
        assert(r.slots[k].wf());
    }
    assert forall|k: int| 0 <= k < r2.slots.len() implies #[trigger] r2.slots[k].fd == r.slots[k].fd
        && r2.slots[k].regs == r.slots[k].regs && r2.slots[k].refcount == r.slots[k].refcount by {}
}

/// Split waiters into those that events `rev` leave waiting and the wakers they release.
fn split_waiters<W>(ws: Vec<FdWaiter<W>>, rev: i16) -> (r: (Vec<FdWaiter<W>>, Vec<W>))
    ensures
        r.0@ == kept(ws@, rev),
        r.1@ == fired(ws@, rev),
{
    let ghost all = ws@;
    let mut rest = ws;
    let mut keep: Vec<FdWaiter<W>> = Vec::new();
    let mut wake: Vec<W> = Vec::new();
    let n = rest.len();
    let mut k: usize = 0;
    let mask = poll_err() | poll_hup() | poll_nval();
    assert(mask == 0x38i16) by (bit_vector)
        requires
            mask == 0x8i16 | 0x10i16 | 0x20i16,
    ;
    assert(all.take(0) =~= Seq::<FdWaiter<W>>::empty());
    while rest.len() > 0
        invariant
            n == all.len(),
            k + rest@.len() == n,
            rest@ == all.subrange(k as int, n as int),
            keep@ == kept(all.take(k as int), rev),
            wake@ == fired(all.take(k as int), rev),
            mask == always_wakes(),
        decreases rest@.len(),
    {
        let w = rest.remove(0);
        assert(all.take(k + 1).drop_last() =~= all.take(k as int));
        assert(all.take(k + 1).last() == w);
        if (interest_bits(w.interest) | mask) & rev != 0 {
            wake.push(w.waker);
        } else {
            keep.push(w);
        }
        k = k + 1;
        assert(rest@ =~= all.subrange(k as int, n as int));
    }
    assert(all.take(n as int) =~= all);
    (keep, wake)
}

/// The waiters without those of registration `reg` for `interest`.
fn drop_interest<W>(ws: Vec<FdWaiter<W>>, reg: u64, interest: Interest) -> (r: Vec<FdWaiter<W>>)
    ensures
        r@ == without_interest(ws@, reg, interest),
{
    let ghost all = ws@;
    let mut rest = ws;
    let mut keep: Vec<FdWaiter<W>> = Vec::new();
    let n = rest.len();
    let mut k: usize = 0;
    assert(all.take(0) =~= Seq::<FdWaiter<W>>::empty());
    while rest.len() > 0
        invariant
            n == all.len(),
            k + rest@.len() == n,
            rest@ == all.subrange(k as int, n as int),
            keep@ == without_interest(all.take(k as int), reg, interest),
        decreases rest@.len(),
    {
        let w = rest.remove(0);
        assert(all.take(k + 1).drop_last() =~= all.take(k as int));
        assert(all.take(k + 1).last() == w);
        if !(w.reg_id == reg && w.interest == interest) {
            keep.push(w);
        }
        k = k + 1;
        assert(rest@ =~= all.subrange(k as int, n as int));
    }
    assert(all.take(n as int) =~= all);
    keep
}

impl<W> Reactor<W> {
    /// A reactor that watches nothing.
    pub fn new() -> (r: Reactor<W>)
        ensures
            r@.wf(),
            r@.slots.len() == 0,
            r@.next_id == 1,
    {
        let r = Reactor { slots: Vec::new(), next_id: 1 };
        assert(r@.slots =~= Seq::<SlotView<W>>::empty());
        r
    }

    /// The id that the next registration gets.
    pub fn next_id(&self) -> (r: u64)
        ensures
            r == self@.next_id,
    {
        self.next_id
    }

    /// Number of slots.
    pub fn len(&self) -> (r: usize)
        ensures
            r == self@.slots.len(),
    {
        self.slots.len()
    }

    /// The descriptor and event mask to hand poll(2) for each slot, in slot order.
    pub fn poll_list(&self) -> (r: Vec<(i32, i16)>)
        requires
            self@.wf(),
        ensures
            r@.len() == self@.slots.len(),
            forall|i: int|
                0 <= i < r@.len() ==> #[trigger] r@[i].0 == self@.slots[i].polled_fd && r@[i].1
                    == self@.slots[i].events,
    {
        let mut out: Vec<(i32, i16)> = Vec::new();
        let mut i: usize = 0;
        while i < self.slots.len()
            invariant
                i <= self@.slots.len(),
                out@.len() == i,
                forall|k: int|
                    0 <= k < i ==> #[trigger] out@[k].0 == self@.slots[k].polled_fd && out@[k].1
                        == self@.slots[k].events,
            decreases self@.slots.len() - i,
        {
            out.push((self.slots[i].fd, self.slots[i].events));
            i = i + 1;
        }
        out
    }

    /// Where the slot of `fd` stands, if it has one.
    fn find_slot(&self, fd: i32) -> (r: Option<usize>)
        requires
            self@.wf(),
        ensures
            match r {
                Some(i) => i < self@.slots.len() && self@.slots[i as int].fd == fd,
                None => !self@.has_fd(fd),
            },
    {
        let mut i: usize = 0;
        while i < self.slots.len()
            invariant
                self@.wf(),
                i <= self@.slots.len(),
                forall|k: int| 0 <= k < i ==> #[trigger] self@.slots[k].fd != fd,
            decreases self@.slots.len() - i,
        {
            assert(self@.slots[i as int].wf());
            let f = self.slots[i].fd;
            let plain: i32 = if f < 0 {
                -f
            } else {
                f
            };
            if plain == fd {
                return Some(i);
            }
            i = i + 1;
        }
        None
    }

    /// Register `fd`: its slot's count of registrations goes up by one, or a
    /// slot is added at the end, idle, for it.
    pub fn registration(&mut self, fd: i32) -> (r: Registration)
        requires
            old(self)@.wf(),
            fd >= 0,
            old(self)@.next_id < u64::MAX,
        ensures
            final(self)@.wf(),
            final(self)@.holds(r),
            r.fd() == fd,
            r.id() == old(self)@.next_id,
            final(self)@.next_id == old(self)@.next_id + 1,
            old(self)@.has_fd(fd) ==> {
                let i = old(self)@.index_of(fd);
                let s = old(self)@.slots[i];
                final(self)@.slots == old(self)@.slots.update(
                    i,
                    SlotView { refcount: s.refcount + 1, regs: s.regs.insert(r.id()), ..s },
                )
            },
            !old(self)@.has_fd(fd) ==> final(self)@.slots == old(self)@.slots.push(
                SlotView {
                    fd: fd,
                    polled_fd: -fd,
                    events: 0,
                    refcount: 1,
                    waiters: Seq::empty(),
                    regs: set![r.id()],
                },
            ),
    {
        let ghost old_v = self@;
        let id = self.next_id;
        let found = self.find_slot(fd);
        self.next_id = self.next_id + 1;
        let idx = match found {
            Some(i) => {
                assert(old_v.slots[i as int].wf());
                assert(old_v.index_of(fd) == i) by {
                    let j = old_v.index_of(fd);
                    assert(old_v.slots[j].fd == fd);
                }
                assert(!old_v.slots[i as int].regs.contains(id));
                let slot = &mut self.slots[i];
                slot.refcount = slot.refcount + 1;
                let regs: Ghost<Set<u64>> = Ghost(slot.regs@.insert(id));
                slot.regs = regs;
                i
            },
            None => {
                let regs: Ghost<Set<u64>> = Ghost(Set::empty().insert(id));
                self.slots.push(Slot { fd: -fd, events: 0, refcount: 1, waiters: Vec::new(), regs });
                self.slots.len() - 1
            },
        };
        let r = Registration { id, fd, fd_index: idx };
        proof {
            let v = self@;
            if old_v.has_fd(fd) {
                let s = old_v.slots[idx as int];
                assert(v.slots =~= old_v.slots.update(
                    idx as int,
                    SlotView { refcount: s.refcount + 1, regs: s.regs.insert(id), ..s },
                ));
            } else {
                assert(set![id].len() == 1) by {
                    assert(set![id] =~= Set::<u64>::empty().insert(id));
                }
                assert(v.slots =~= old_v.slots.push(
                    SlotView {
                        fd: fd,
                        polled_fd: -fd,
                        events: 0,
                        refcount: 1,
                        waiters: Seq::empty(),
                        regs: set![id],
                    },
                ));
            }
            assert(v.slots[idx as int].fd == fd && v.slots[idx as int].regs.contains(id));
        }
        r
    }
}

impl<W> Reactor<W> {
    /// Where the slot of a live registration stands. The registration's index
    /// hint is tried first and brought up to date.
    fn slot_of(&self, reg: &mut Registration) -> (r: usize)
        requires
            self@.wf(),
            self@.holds(*old(reg)),
        ensures
            r < self@.slots.len(),
            r == self@.index_of(old(reg).fd()),
            self@.slots[r as int].fd == old(reg).fd(),
            final(reg).id() == old(reg).id(),
            final(reg).fd() == old(reg).fd(),
    {
        let hint = reg.fd_index;
        let mut idx: usize = 0;
        let mut hit = false;
        if hint < self.slots.len() {
            assert(self@.slots[hint as int].wf());
            let f = self.slots[hint].fd;
            let plain: i32 = if f < 0 {
                -f
            } else {
                f
            };
            if plain == reg.fd {
                idx = hint;
                hit = true;
            }
        }
        if !hit {
            match self.find_slot(reg.fd) {
                Some(i) => {
                    idx = i;
                },
                None => {
                    assert(false);
                },
            }
            reg.fd_index = idx;
        }
        assert(self@.index_of(reg.fd()) == idx) by {
            let j = self@.index_of(reg.fd());
            assert(self@.slots[j].fd == reg.fd());
        }
        idx
    }

    /// Give slot `i` new waiters; its event mask and polled descriptor follow.
    fn set_waiters(&mut self, i: usize, ws: Vec<FdWaiter<W>>)
        requires
            i < old(self)@.slots.len(),
            old(self)@.slots[i as int].fd >= 0,
            old(self)@.slots[i as int].polled_fd >= -i32::MAX,
        ensures
            final(self)@ == (ReactorView {
                slots: old(self)@.slots.update(i as int, old(self)@.slots[i as int].with_waiters(ws@)),
                ..old(self)@
            }),
    {
        let ghost old_v = self@;
        let events = poll_bits(&ws);
        let nonempty = ws.len() > 0;
        let slot = &mut self.slots[i];
        let f = slot.fd;
        let plain: i32 = if f < 0 {
            -f
        } else {
            f
        };
        slot.fd = if nonempty {
            plain
        } else {
            -plain
        };
        slot.events = events;
        slot.waiters = ws;
        assert(self@.slots =~= old_v.slots.update(i as int, old_v.slots[i as int].with_waiters(ws@)));
    }

    /// A registration goes away: its slot's count goes down by one, and the
    /// slot is removed with the last one.
    pub fn deregister(&mut self, reg: Registration)
        requires
            old(self)@.wf(),
            old(self)@.holds(reg),
        ensures
            final(self)@.wf(),
            final(self)@.next_id == old(self)@.next_id,
            ({
                let i = old(self)@.index_of(reg.fd());
                let s = old(self)@.slots[i];
                &&& s.refcount == 1 ==> final(self)@.slots == old(self)@.slots.remove(i)
                &&& s.refcount > 1 ==> final(self)@.slots == old(self)@.slots.update(
                    i,
                    SlotView { refcount: (s.refcount - 1) as nat, regs: s.regs.remove(reg.id()), ..s },
                )
            }),
    {
        let ghost old_v = self@;
        let mut reg = reg;
        let i = self.slot_of(&mut reg);
        assert(old_v.slots[i as int].wf());
        if self.slots[i].refcount == 1 {
            self.slots.remove(i);
            assert(self@.slots =~= old_v.slots.remove(i as int));
        } else {
            let ghost s = old_v.slots[i as int];
            assert(s.regs.contains(reg.id)) by {
                let j = choose|j: int|
                    0 <= j < old_v.slots.len() && #[trigger] old_v.slots[j].fd == reg.fd()
                        && old_v.slots[j].regs.contains(reg.id());
                assert(j == i);
            }
            let slot = &mut self.slots[i];
            slot.refcount = slot.refcount - 1;
            let regs: Ghost<Set<u64>> = Ghost(slot.regs@.remove(reg.id));
            slot.regs = regs;
            assert(self@.slots =~= old_v.slots.update(
                i as int,
                SlotView { refcount: (s.refcount - 1) as nat, regs: s.regs.remove(reg.id), ..s },
            ));
        }
    }

    /// Handle the events that poll(2) returned, one entry per slot in slot
    /// order. In each slot with events, the waiters they concern (their own
    /// interest, or an error, hangup or invalid descriptor) are removed and
    /// their wakers handed back; the slot's mask is recomputed, and the slot
    /// is made idle if nobody is left waiting.
    pub fn react_to(&mut self, revents: &[i16]) -> (r: Vec<W>)
        requires
            old(self)@.wf(),
            revents@.len() == old(self)@.slots.len(),
        ensures
            final(self)@.wf(),
            final(self)@.next_id == old(self)@.next_id,
            final(self)@.slots.len() == old(self)@.slots.len(),
            forall|i: int|
                0 <= i < old(self)@.slots.len() ==> #[trigger] final(self)@.slots[i]
                    == old(self)@.slots[i].after_events(revents@[i]),
            r@ == fired_all(old(self)@.slots, revents@, old(self)@.slots.len() as int),
    {
        let ghost old_v = self@;
        let mut out: Vec<W> = Vec::new();
        let n = self.slots.len();
        let mut i: usize = 0;
        while i < n
            invariant
                n == old_v.slots.len(),
                revents@.len() == n,
                i <= n,
                self@.wf(),
                self@.next_id == old_v.next_id,
                self@.slots.len() == n,
                forall|k: int| 0 <= k < i ==> #[trigger] self@.slots[k] == old_v.slots[k].after_events(
                    revents@[k],
                ),
                forall|k: int| i <= k < n ==> #[trigger] self@.slots[k] == old_v.slots[k],
                out@ == fired_all(old_v.slots, revents@, i as int),
            decreases n - i,
        {
            let rev = revents[i];
            if rev != 0 {
                let ghost before = self@;
                assert(before.slots[i as int].wf());
                let mut ws: Vec<FdWaiter<W>> = Vec::new();
                std::mem::swap(&mut ws, &mut self.slots[i].waiters);
                assert(ws@ == old_v.slots[i as int].waiters);
                let (keep, wake) = split_waiters(ws, rev);
                let mut wake = wake;
                out.append(&mut wake);
                self.set_waiters(i, keep);
                proof {
                    lemma_with_waiters_wf(before, i as int, keep@);
                    assert(self@.slots =~= before.slots.update(
                        i as int,
                        before.slots[i as int].with_waiters(keep@),
                    ));
                }
            }
            i = i + 1;
            assert(out@ =~= fired_all(old_v.slots, revents@, i as int));
        }
        out
    }
}

impl Registration {
    /// Wake `waker` when `interest` (or an error condition) is reported on
    /// the registered descriptor. The waiter goes to the end of the slot's
    /// list, the mask takes its bit, and the slot becomes active.
    pub fn wake_when<W>(&mut self, reactor: &mut Reactor<W>, interest: Interest, waker: W)
        requires
            old(reactor)@.wf(),
            old(reactor)@.holds(*old(self)),
        ensures
            final(reactor)@.wf(),
            final(self).id() == old(self).id(),
            final(self).fd() == old(self).fd(),
            ({
                let i = old(reactor)@.index_of(old(self).fd());
                let s = old(reactor)@.slots[i];
                final(reactor)@ == (ReactorView {
                    slots: old(reactor)@.slots.update(
                        i,
                        s.with_waiters(
                            s.waiters.push(FdWaiter { reg_id: old(self).id(), interest, waker }),
                        ),
                    ),
                    ..old(reactor)@
                })
            }),
    {
        let ghost before = reactor@;
        let i = reactor.slot_of(self);
        assert(before.slots[i as int].wf());
        let mut ws: Vec<FdWaiter<W>> = Vec::new();
        std::mem::swap(&mut ws, &mut reactor.slots[i].waiters);
        ws.push(FdWaiter { reg_id: self.id, interest, waker });
        reactor.set_waiters(i, ws);
        proof {
            lemma_with_waiters_wf(before, i as int, ws@);
            assert(reactor@.slots =~= before.slots.update(
                i as int,
                before.slots[i as int].with_waiters(ws@),
            ));
        }
    }

    /// Stop waiting for `interest`: this registration's waiters for it are
    /// removed from the slot, and the slot becomes idle if nobody is left.
    pub fn remove_wake_when<W>(&mut self, reactor: &mut Reactor<W>, interest: Interest)
        requires
            old(reactor)@.wf(),
            old(reactor)@.holds(*old(self)),
        ensures
            final(reactor)@.wf(),
            final(self).id() == old(self).id(),
            final(self).fd() == old(self).fd(),
            ({
                let i = old(reactor)@.index_of(old(self).fd());
                let s = old(reactor)@.slots[i];
                final(reactor)@ == (ReactorView {
                    slots: old(reactor)@.slots.update(
                        i,
                        s.with_waiters(without_interest(s.waiters, old(self).id(), interest)),
                    ),
                    ..old(reactor)@
                })
            }),
    {
        let ghost before = reactor@;
        let i = reactor.slot_of(self);
        assert(before.slots[i as int].wf());
        let mut ws: Vec<FdWaiter<W>> = Vec::new();
        std::mem::swap(&mut ws, &mut reactor.slots[i].waiters);
        let keep = drop_interest(ws, self.id, interest);
        reactor.set_waiters(i, keep);
        proof {
            lemma_with_waiters_wf(before, i as int, keep@);
            assert(reactor@.slots =~= before.slots.update(
                i as int,
                before.slots[i as int].with_waiters(keep@),
            ));
        }
    }

    /// Whether this registration has no waiter left in its slot: what it
    /// waited for has been reported.
    pub fn was_woken<W>(&mut self, reactor: &Reactor<W>) -> (r: bool)
        requires
            reactor@.wf(),
            reactor@.holds(*old(self)),
        ensures
            final(self).id() == old(self).id(),
            final(self).fd() == old(self).fd(),
            r == !has_waiter_of(reactor@.slots[reactor@.index_of(old(self).fd())].waiters, old(self).id()),
    {
        let i = reactor.slot_of(self);
        let ws = &reactor.slots[i].waiters;
        let mut k: usize = 0;
        while k < ws.len()
            invariant
                k <= ws@.len(),
                i < reactor@.slots.len(),
                i == reactor@.index_of(old(self).fd()),
                ws@ == reactor@.slots[i as int].waiters,
                self.id() == old(self).id(),
                self.fd() == old(self).fd(),
                forall|j: int| 0 <= j < k ==> #[trigger] ws@[j].reg_id != self.id,
            decreases ws@.len() - k,
        {
            if ws[k].reg_id == self.id {
                return false;
            }
            k = k + 1;
        }
        true
    }
}

/// Every slot whose count of registrations is not zero has at least one live
/// registration of its descriptor; the count is the number of them.
pub proof fn lemma_counted_slot_has_registration<W>(r: ReactorView<W>, i: int)
    requires
        r.wf(),
        0 <= i < r.slots.len(),
        r.slots[i].refcount > 0,
    ensures
        r.slots[i].refcount == r.slots[i].regs.len(),
        exists|id: u64| #[trigger] r.slots[i].regs.contains(id) && 1 <= id < r.next_id,
{
    assert(r.slots[i].wf());
    let regs = r.slots[i].regs;
    if forall|id: u64| !regs.contains(id) {
        assert(regs =~= Set::<u64>::empty());
    }
    let id = choose|id: u64| regs.contains(id);
    assert(regs.contains(id) && 1 <= id < r.next_id);
}

/// Readiness of a registered descriptor for one interest, as an awaitable:
/// the first poll arms a waiter, and a later poll finds it consumed.
pub struct FdReady {
    armed: bool,
    interest: Interest,
}

impl FdReady {
    /// Whether a waiter was put in place by this awaitable and not yet found consumed.
    pub closed spec fn armed(self) -> bool {
        self.armed
    }

    /// What this awaitable waits for.
    pub closed spec fn interest(self) -> Interest {
        self.interest
    }

    /// Wait for `interest` on a registration.
    pub fn new(interest: Interest) -> (r: FdReady)
        ensures
            !r.armed(),
            r.interest() == interest,
    {
        FdReady { armed: false, interest }
    }

    /// One poll. While this registration still has a waiter in its slot the
    /// answer is "not ready". Otherwise, if nothing is armed, a waiter with
    /// `waker` is put in place and the answer is "not ready"; if one was armed
    /// it has been consumed, so the descriptor is ready.
    pub fn poll<W>(&mut self, reg: &mut Registration, reactor: &mut Reactor<W>, waker: W) -> (r: bool)
        requires
            old(reactor)@.wf(),
            old(reactor)@.holds(*old(reg)),
        ensures
            final(reactor)@.wf(),
            final(reg).id() == old(reg).id(),
            final(reg).fd() == old(reg).fd(),
            final(self).interest() == old(self).interest(),
            ({
                let i = old(reactor)@.index_of(old(reg).fd());
                let s = old(reactor)@.slots[i];
                let woken = !has_waiter_of(s.waiters, old(reg).id());
                &&& r == (woken && old(self).armed())
                &&& !woken ==> final(reactor)@ == old(reactor)@ && final(self).armed() == old(self).armed()
                &&& woken && old(self).armed() ==> final(reactor)@ == old(reactor)@ && !final(self).armed()
                &&& woken && !old(self).armed() ==> final(self).armed() && final(reactor)@ == (ReactorView {
                    slots: old(reactor)@.slots.update(
                        i,
                        s.with_waiters(
                            s.waiters.push(
                                FdWaiter { reg_id: old(reg).id(), interest: old(self).interest(), waker },
                            ),
                        ),
                    ),
                    ..old(reactor)@
                })
            }),
    {
        if !reg.was_woken(reactor) {
            return false;
        }
        if !self.armed {
            self.armed = true;
            reg.wake_when(reactor, self.interest, waker);
            return false;
        }
        self.armed = false;
        true
    }

    /// The awaitable goes away: an armed waiter is withdrawn.
    pub fn cancel<W>(self, reg: &mut Registration, reactor: &mut Reactor<W>)
        requires
            old(reactor)@.wf(),
            old(reactor)@.holds(*old(reg)),
        ensures
            final(reactor)@.wf(),
            final(reg).id() == old(reg).id(),
            final(reg).fd() == old(reg).fd(),
            !self.armed() ==> final(reactor)@ == old(reactor)@,
            self.armed() ==> ({
                let i = old(reactor)@.index_of(old(reg).fd());
                let s = old(reactor)@.slots[i];
                final(reactor)@ == (ReactorView {
                    slots: old(reactor)@.slots.update(
                        i,
                        s.with_waiters(without_interest(s.waiters, old(reg).id(), self.interest())),
                    ),
                    ..old(reactor)@
                })
            }),
    {
        if self.armed {
            reg.remove_wake_when(reactor, self.interest);
        }
    }
}

} // verus!
