//! The executor-local channel: a queue of values with backpressure, shared by
//! any number of senders and one receiver.
//!
//! The channel's state is a `Channel` value; `Sender`, `UnboundedSender` and
//! `Receiver` name the party that acts on it. Each operation returns the wakers
//! that it released, for the caller to invoke.
use std::collections::VecDeque;
use vstd::prelude::*;

verus! {

/// The state of a channel, as the contracts see it.
pub struct ChannelView<T, W> {
    /// Values sent and not yet received, oldest first.
    pub queue: Seq<T>,
    /// How many values the queue holds at most; `usize::MAX` for an unbounded channel.
    pub capacity: nat,
    /// Wakers of senders waiting for room, oldest first, tagged with the sender's id.
    pub tx_wakers: Seq<(u64, W)>,
    /// The waker of the receiver waiting for a value.
    pub rx_waker: Option<W>,
    /// Whether the receiver is gone.
    pub recv_gone: bool,
    /// The largest sender id handed out so far.
    pub last_id: u64,
    /// How many sender handles are alive.
    pub senders: nat,
}

/// Why a value could not be sent: the receiver is gone. The value comes back.
pub struct SendError<T>(pub T);

/// What one attempt to send on a bounded channel came to.
pub enum SendPoll<T, W> {
    /// The value is queued; the receiver's waker, if one was waiting, is to be woken.
    Sent(Option<W>),
    /// The receiver is gone; the value comes back.
    Closed(SendError<T>),
    /// The queue is full; the value comes back and the sender's waker is stored.
    Full(T),
}

/// What one attempt to receive came to.
pub enum RecvPoll<T, W> {
    /// A value, and the waker of the oldest waiting sender, if any, to be woken.
    Value(T, Option<W>),
    /// The queue is empty and no sender is left.
    Closed,
    /// The queue is empty; the receiver's waker is stored.
    Pending,
}

/// Shared state of a channel.
pub struct Channel<T, W> {
    queue: VecDeque<T>,
    capacity: usize,
    tx_wakers: Vec<(u64, W)>,
    rx_waker: Option<W>,
    recv_gone: bool,
    last_id: u64,
    senders: usize,
}

/// Sender side of a bounded channel, known to the channel by its id.
pub struct Sender {
    id: u64,
}

/// Sender side of an unbounded channel.
pub struct UnboundedSender {}

/// The one receiving side of a channel.
pub struct Receiver {}

/// The receiving side of an unbounded channel is an ordinary receiver.
pub type UnboundedReceiver = Receiver;

/// Where the last entry for `id` stands in a list of sender wakers; -1 if none.
pub open spec fn waker_pos<W>(ws: Seq<(u64, W)>, id: u64) -> int
    decreases ws.len(),
{
    if ws.len() == 0 {
        -1
    } else if ws.last().0 == id {
        ws.len() - 1
    } else {
        waker_pos(ws.drop_last(), id)
    }
}

/// The list of sender wakers after the sender `id` stores `w`: its entry is
/// updated in place, or a new one goes to the end.
pub open spec fn with_waker<W>(ws: Seq<(u64, W)>, id: u64, w: W) -> Seq<(u64, W)> {
    let p = waker_pos(ws, id);
    if p >= 0 {
        ws.update(p, (id, w))
    } else {
        ws.push((id, w))
    }
}

/// The list of sender wakers without those of the sender `id`, order kept.
pub open spec fn without_waker<W>(ws: Seq<(u64, W)>, id: u64) -> Seq<(u64, W)>
    decreases ws.len(),
{
    if ws.len() == 0 {
        ws
    } else if ws.last().0 == id {
        without_waker(ws.drop_last(), id)
    } else {
        without_waker(ws.drop_last(), id).push(ws.last())
    }
}

/// The wakers of a list, order kept.
pub open spec fn wakers_of<W>(ws: Seq<(u64, W)>) -> Seq<W> {
    ws.map_values(|e: (u64, W)| e.1)
}

proof fn lemma_waker_pos<W>(ws: Seq<(u64, W)>, id: u64)
    ensures
        -1 <= waker_pos(ws, id) < ws.len(),
        waker_pos(ws, id) >= 0 ==> ws[waker_pos(ws, id)].0 == id,
        waker_pos(ws, id) == -1 <==> forall|i: int| 0 <= i < ws.len() ==> ws[i].0 != id,
    decreases ws.len(),
{
    if ws.len() > 0 {
        lemma_waker_pos(ws.drop_last(), id);
        if ws.last().0 != id {
            assert forall|i: int| 0 <= i < ws.len() - 1 implies ws[i] == ws.drop_last()[i] by {}
        }
    }
}

proof fn lemma_without_waker<W>(ws: Seq<(u64, W)>, id: u64)
    ensures
        forall|i: int|
            0 <= i < without_waker(ws, id).len() ==> #[trigger] without_waker(ws, id)[i].0 != id,
        forall|e: (u64, W)| without_waker(ws, id).contains(e) ==> ws.contains(e),
        without_waker(ws, id).len() <= ws.len(),
    decreases ws.len(),
{
    if ws.len() > 0 {
        lemma_without_waker(ws.drop_last(), id);
        let r = without_waker(ws, id);
        assert forall|e: (u64, W)| r.contains(e) implies ws.contains(e) by {
            let i = choose|i: int| 0 <= i < r.len() && r[i] == e;
            let rest = without_waker(ws.drop_last(), id);
            if ws.last().0 == id || i < r.len() - 1 {
                assert(rest[i] == e);
                assert(rest.contains(e));
                assert(ws.drop_last().contains(e));
                let j = choose|j: int| 0 <= j < ws.drop_last().len() && ws.drop_last()[j] == e;
                assert(ws[j] == e);
            } else {
                assert(ws[ws.len() - 1] == e);
            }
        }
    }
}

/// Ids are unique in a list of sender wakers.
pub open spec fn ids_unique<W>(ws: Seq<(u64, W)>) -> bool {
    forall|i: int, j: int| 0 <= i < j < ws.len() ==> #[trigger] ws[i].0 != #[trigger] ws[j].0
}

proof fn lemma_without_waker_unique<W>(ws: Seq<(u64, W)>, id: u64)
    requires
        ids_unique(ws),
    ensures
        ids_unique(without_waker(ws, id)),
    decreases ws.len(),
{
    if ws.len() > 0 {
        let front = ws.drop_last();
        assert(ids_unique(front)) by {
            assert forall|i: int, j: int| 0 <= i < j < front.len() implies #[trigger] front[i].0
                != #[trigger] front[j].0 by {
                assert(front[i] == ws[i] && front[j] == ws[j]);
            }
        }
        lemma_without_waker_unique(front, id);
        lemma_without_waker(front, id);
        let rest = without_waker(front, id);
        if ws.last().0 != id {
            let r = rest.push(ws.last());
            assert forall|i: int, j: int| 0 <= i < j < r.len() implies #[trigger] r[i].0
                != #[trigger] r[j].0 by {
                if j == r.len() - 1 {
                    assert(rest.contains(r[i]));
                    assert(front.contains(r[i]));
                    let k = choose|k: int| 0 <= k < front.len() && front[k] == r[i];
                    assert(ws[k] == r[i]);
                }
            }
        }
    }
}

impl<T, W> ChannelView<T, W> {
    /// Sender ids are unique in the list of sender wakers, and were handed out.
    pub open spec fn wf(self) -> bool {
        &&& self.queue.len() <= self.capacity
        &&& self.capacity <= usize::MAX
        &&& self.senders <= usize::MAX
        &&& ids_unique(self.tx_wakers)
        &&& forall|i: int| 0 <= i < self.tx_wakers.len() ==> 1 <= #[trigger] self.tx_wakers[i].0
                <= self.last_id
    }

    /// Whether a send is accepted now.
    pub open spec fn has_room(self) -> bool {
        !self.recv_gone && self.queue.len() < self.capacity
    }
}

impl<T, W> View for Channel<T, W> {
    type V = ChannelView<T, W>;

    closed spec fn view(&self) -> ChannelView<T, W> {
        ChannelView {
            queue: self.queue@,
            capacity: self.capacity as nat,
            tx_wakers: self.tx_wakers@,
            rx_waker: self.rx_waker,
            recv_gone: self.recv_gone,
            last_id: self.last_id,
            senders: self.senders as nat,
        }
    }
}

impl<T, W> Channel<T, W> {
    /// A channel with an empty queue, one sender and a receiver.
    pub fn new(capacity: usize) -> (r: Channel<T, W>)
        ensures
            r@ == (ChannelView::<T, W> {
                queue: Seq::empty(),
                capacity: capacity as nat,
                tx_wakers: Seq::empty(),
                rx_waker: None,
                recv_gone: false,
                last_id: 1,
                senders: 1,
            }),
            r@.wf(),
    {
        Channel {
            queue: VecDeque::new(),
            capacity,
            tx_wakers: Vec::new(),
            rx_waker: None,
            recv_gone: false,
            last_id: 1,
            senders: 1,
        }
    }

    /// Whether another sender can be added: ids and the count of senders are not exhausted.
    pub fn can_add_sender(&self) -> (r: bool)
        ensures
            r == (self@.last_id < u64::MAX && self@.senders < usize::MAX),
    {
        self.last_id < u64::MAX && self.senders < usize::MAX
    }

    /// Number of live senders.
    pub fn senders(&self) -> (r: usize)
        ensures
            r == self@.senders,
    {
        self.senders
    }

    /// Whether the channel is unbounded.
    pub fn is_unbounded(&self) -> (r: bool)
        ensures
            r == (self@.capacity == usize::MAX as nat),
    {
        self.capacity == usize::MAX
    }

    /// Number of values waiting in the queue.
    pub fn len(&self) -> (r: usize)
        ensures
            r == self@.queue.len(),
    {
        self.queue.len()
    }

    /// Whether a bounded sender with this id may act on this channel: its id was
    /// handed out by it.
    pub open spec fn issued(self, s: Sender) -> bool {
        1 <= s.id() <= self@.last_id
    }
}

impl Sender {
    /// The sender's id, unique among the senders of its channel.
    pub closed spec fn id(self) -> u64 {
        self.id
    }

    /// The sender's id.
    pub fn sender_id(&self) -> (r: u64)
        ensures
            r == self.id(),
    {
        self.id
    }
}

/// A bounded channel of the given capacity, with its first sender (id 1) and
/// its receiver.
pub fn channel<T, W>(capacity: usize) -> (r: (Channel<T, W>, Sender, Receiver))
    ensures
        r.0@ == (ChannelView::<T, W> {
            queue: Seq::empty(),
            capacity: capacity as nat,
            tx_wakers: Seq::empty(),
            rx_waker: None,
            recv_gone: false,
            last_id: 1,
            senders: 1,
        }),
        r.1.id() == 1,
{
    (Channel::new(capacity), Sender { id: 1 }, Receiver {})
}

/// An unbounded channel, with its first sender and its receiver.
pub fn unbounded_channel<T, W>() -> (r: (Channel<T, W>, UnboundedSender, Receiver))
    ensures
        r.0@ == (ChannelView::<T, W> {
            queue: Seq::empty(),
            capacity: usize::MAX as nat,
            tx_wakers: Seq::empty(),
            rx_waker: None,
            recv_gone: false,
            last_id: 1,
            senders: 1,
        }),
{
    (Channel::new(usize::MAX), UnboundedSender {}, Receiver {})
}

/// Another name for `unbounded_channel`.
pub fn unbounded<T, W>() -> (r: (Channel<T, W>, UnboundedSender, Receiver))
    ensures
        r.0@ == (ChannelView::<T, W> {
            queue: Seq::empty(),
            capacity: usize::MAX as nat,
            tx_wakers: Seq::empty(),
            rx_waker: None,
            recv_gone: false,
            last_id: 1,
            senders: 1,
        }),
{
    unbounded_channel()
}

/// The channel after a value is queued: the receiver's waker is taken to be woken.
pub open spec fn after_send<T, W>(c: ChannelView<T, W>, v: T) -> ChannelView<T, W> {
    ChannelView { queue: c.queue.push(v), rx_waker: None, ..c }
}

/// Whether taking a value releases the oldest waiting sender: on a bounded
/// channel with one waiting.
pub open spec fn releases_sender<T, W>(c: ChannelView<T, W>) -> bool {
    c.capacity != usize::MAX as nat && c.tx_wakers.len() > 0
}

/// The channel after the oldest value is taken.
pub open spec fn after_recv<T, W>(c: ChannelView<T, W>) -> ChannelView<T, W> {
    ChannelView {
        queue: c.queue.drop_first(),
        tx_wakers: if releases_sender(c) {
            c.tx_wakers.drop_first()
        } else {
            c.tx_wakers
        },
        ..c
    }
}

impl Sender {
    /// One attempt to send `value`. If the receiver is gone the value comes
    /// back in a `SendError`. If there is room it is queued, and the
    /// receiver's waker is handed back. Otherwise the queue is full: the value
    /// comes back and `waker` is stored as this sender's (in place of an older one).
    pub fn poll_send<T, W>(&self, chan: &mut Channel<T, W>, value: T, waker: W) -> (r: SendPoll<T, W>)
        requires
            old(chan)@.wf(),
            old(chan).issued(*self),
        ensures
            final(chan)@.wf(),
            old(chan)@.recv_gone ==> r == SendPoll::<T, W>::Closed(SendError(value))
                && final(chan)@ == old(chan)@,
            old(chan)@.has_room() ==> r == SendPoll::<T, W>::Sent(old(chan)@.rx_waker)
                && final(chan)@ == after_send(old(chan)@, value),
            !old(chan)@.recv_gone && !old(chan)@.has_room() ==> r == SendPoll::<T, W>::Full(value)
                && final(chan)@ == (ChannelView {
                tx_wakers: with_waker(old(chan)@.tx_wakers, self.id(), waker),
                ..old(chan)@
            }),
    {
        if chan.recv_gone {
            return SendPoll::Closed(SendError(value));
        }
        if chan.queue.len() < chan.capacity {
            chan.queue.push_back(value);
            let w = chan.rx_waker.take();
            return SendPoll::Sent(w);
        }
        chan.store_sender_waker(self.id, waker);
        SendPoll::Full(value)
    }
}

impl<T, W> Channel<T, W> {
    fn find_sender_waker(&self, id: u64) -> (r: Option<usize>)
        ensures
            match r {
                Some(p) => p == waker_pos(self@.tx_wakers, id),
                None => waker_pos(self@.tx_wakers, id) == -1,
            },
    {
        let ghost ws = self.tx_wakers@;
        assert(ws.take(ws.len() as int) =~= ws);
        let mut i: usize = self.tx_wakers.len();
        while i > 0
            invariant
                ws == self.tx_wakers@,
                i <= ws.len(),
                waker_pos(ws, id) == waker_pos(ws.take(i as int), id),
            decreases i,
        {
            let ghost prefix = ws.take(i as int);
            assert(prefix.drop_last() =~= ws.take(i - 1));
            assert(prefix.last() == ws[i - 1]);
            if self.tx_wakers[i - 1].0 == id {
                return Some(i - 1);
            }
            i = i - 1;
        }
        assert(ws.take(0) =~= Seq::<(u64, W)>::empty());
        None
    }

    fn store_sender_waker(&mut self, id: u64, waker: W)
        requires
            old(self)@.wf(),
            1 <= id <= old(self)@.last_id,
        ensures
            final(self)@ == (ChannelView {
                tx_wakers: with_waker(old(self)@.tx_wakers, id, waker),
                ..old(self)@
            }),
            final(self)@.wf(),
    {
        proof {
            lemma_waker_pos(self.tx_wakers@, id);
        }
        let ghost ws = self.tx_wakers@;
        let found = self.find_sender_waker(id);
        match found {
            Some(p) => {
                self.tx_wakers.set(p, (id, waker));
            },
            None => {
                self.tx_wakers.push((id, waker));
            },
        }
        assert(self.tx_wakers@ == with_waker(ws, id, waker));
        proof {
            let r = self.tx_wakers@;
            assert forall|a: int, b: int| 0 <= a < b < r.len() implies #[trigger] r[a].0
                != #[trigger] r[b].0 by {
                if found is None {
                    assert(forall|k: int| 0 <= k < ws.len() ==> ws[k].0 != id);
                }
            }
        }
    }
}

impl UnboundedSender {
    /// Send a value on an unbounded channel; never waits. If the receiver is
    /// gone the value comes back in a `SendError`; otherwise it is queued and
    /// the receiver's waker is handed back.
    pub fn send<T, W>(&self, chan: &mut Channel<T, W>, value: T) -> (r: Result<Option<W>, SendError<T>>)
        requires
            old(chan)@.wf(),
            old(chan)@.capacity == usize::MAX as nat,
            old(chan)@.queue.len() < usize::MAX,
        ensures
            final(chan)@.wf(),
            old(chan)@.recv_gone ==> r == Err::<Option<W>, SendError<T>>(SendError(value))
                && final(chan)@ == old(chan)@,
            !old(chan)@.recv_gone ==> r == Ok::<Option<W>, SendError<T>>(old(chan)@.rx_waker)
                && final(chan)@ == after_send(old(chan)@, value),
    {
        if chan.recv_gone {
            return Err(SendError(value));
        }
        chan.queue.push_back(value);
        Ok(chan.rx_waker.take())
    }
}

impl Receiver {
    /// One attempt to receive. The oldest queued value comes out, and on a
    /// bounded channel the oldest waiting sender's waker with it. With nothing
    /// queued: `Closed` once no sender is left, else `waker` is stored as the
    /// receiver's and the attempt is pending.
    pub fn poll_recv<T, W>(&self, chan: &mut Channel<T, W>, waker: W) -> (r: RecvPoll<T, W>)
        requires
            old(chan)@.wf(),
        ensures
            final(chan)@.wf(),
            old(chan)@.queue.len() > 0 ==> r == RecvPoll::Value(
                old(chan)@.queue[0],
                if releases_sender(old(chan)@) {
                    Some(old(chan)@.tx_wakers[0].1)
                } else {
                    None
                },
            ) && final(chan)@ == after_recv(old(chan)@),
            old(chan)@.queue.len() == 0 && old(chan)@.senders == 0 ==> r == RecvPoll::<T, W>::Closed
                && final(chan)@ == old(chan)@,
            old(chan)@.queue.len() == 0 && old(chan)@.senders > 0 ==> r == RecvPoll::<T, W>::Pending
                && final(chan)@ == (ChannelView { rx_waker: Some(waker), ..old(chan)@ }),
    {
        match chan.queue.pop_front() {
            Some(value) => {
                let mut w: Option<W> = None;
                if chan.capacity != usize::MAX && chan.tx_wakers.len() > 0 {
                    let e = chan.tx_wakers.remove(0);
                    w = Some(e.1);
                }
                proof {
                    let c = old(chan)@;
                    assert(chan@.tx_wakers =~= after_recv(c).tx_wakers);
                    assert(chan@.queue =~= after_recv(c).queue);
                    assert forall|a: int, b: int| 0 <= a < b < chan@.tx_wakers.len()
                        implies #[trigger] chan@.tx_wakers[a].0 != #[trigger] chan@.tx_wakers[b].0 by {
                        if releases_sender(c) {
                            assert(chan@.tx_wakers[a] == c.tx_wakers[a + 1]);
                            assert(chan@.tx_wakers[b] == c.tx_wakers[b + 1]);
                        }
                    }
                    assert forall|a: int| 0 <= a < chan@.tx_wakers.len()
                        implies 1 <= #[trigger] chan@.tx_wakers[a].0 <= chan@.last_id by {
                        if releases_sender(c) {
                            assert(chan@.tx_wakers[a] == c.tx_wakers[a + 1]);
                        }
                    }
                }
                RecvPoll::Value(value, w)
            },
            None => {
                if chan.senders == 0 {
                    return RecvPoll::Closed;
                }
                chan.rx_waker = Some(waker);
                RecvPoll::Pending
            },
        }
    }
}

impl<T, W> Channel<T, W> {
    /// A new bounded sender for this channel, with the next unused id.
    pub fn clone_sender(&mut self, s: &Sender) -> (r: Sender)
        requires
            old(self)@.wf(),
            old(self).issued(*s),
            old(self)@.last_id < u64::MAX,
            old(self)@.senders < usize::MAX,
        ensures
            final(self)@.wf(),
            r.id() == old(self)@.last_id + 1,
            final(self)@ == (ChannelView {
                last_id: (old(self)@.last_id + 1) as u64,
                senders: old(self)@.senders + 1,
                ..old(self)@
            }),
            final(self).issued(r),
    {
        self.last_id = self.last_id + 1;
        self.senders = self.senders + 1;
        Sender { id: self.last_id }
    }

    /// A new unbounded sender for this channel.
    pub fn clone_unbounded_sender(&mut self, s: &UnboundedSender) -> (r: UnboundedSender)
        requires
            old(self)@.wf(),
            old(self)@.senders < usize::MAX,
        ensures
            final(self)@.wf(),
            final(self)@ == (ChannelView { senders: old(self)@.senders + 1, ..old(self)@ }),
    {
        self.senders = self.senders + 1;
        UnboundedSender {}
    }

    /// A bounded sender goes away: its stored wakers are dropped, and when it
    /// was the last sender the receiver's waker is handed back to be woken.
    pub fn drop_sender(&mut self, s: Sender) -> (r: Option<W>)
        requires
            old(self)@.wf(),
            old(self)@.senders > 0,
        ensures
            final(self)@.wf(),
            final(self)@.tx_wakers == without_waker(old(self)@.tx_wakers, s.id()),
            final(self)@.senders == old(self)@.senders - 1,
            old(self)@.senders == 1 ==> r == old(self)@.rx_waker && final(self)@.rx_waker is None,
            old(self)@.senders > 1 ==> r is None && final(self)@.rx_waker == old(self)@.rx_waker,
            final(self)@.queue == old(self)@.queue,
            final(self)@.capacity == old(self)@.capacity,
            final(self)@.recv_gone == old(self)@.recv_gone,
            final(self)@.last_id == old(self)@.last_id,
    {
        self.remove_sender_wakers(s.id);
        self.release_sender()
    }

    /// An unbounded sender goes away; when it was the last sender the
    /// receiver's waker is handed back to be woken.
    pub fn drop_unbounded_sender(&mut self, s: UnboundedSender) -> (r: Option<W>)
        requires
            old(self)@.wf(),
            old(self)@.senders > 0,
        ensures
            final(self)@.wf(),
            old(self)@.senders == 1 ==> r == old(self)@.rx_waker && final(self)@ == (ChannelView {
                senders: 0,
                rx_waker: None,
                ..old(self)@
            }),
            old(self)@.senders > 1 ==> r is None && final(self)@ == (ChannelView {
                senders: (old(self)@.senders - 1) as nat,
                ..old(self)@
            }),
    {
        self.release_sender()
    }

    fn release_sender(&mut self) -> (r: Option<W>)
        requires
            old(self)@.wf(),
            old(self)@.senders > 0,
        ensures
            final(self)@.wf(),
            old(self)@.senders == 1 ==> r == old(self)@.rx_waker && final(self)@ == (ChannelView {
                senders: 0,
                rx_waker: None,
                ..old(self)@
            }),
            old(self)@.senders > 1 ==> r is None && final(self)@ == (ChannelView {
                senders: (old(self)@.senders - 1) as nat,
                ..old(self)@
            }),
    {
        self.senders = self.senders - 1;
        if self.senders == 0 {
            self.rx_waker.take()
        } else {
            None
        }
    }

    fn remove_sender_wakers(&mut self, id: u64)
        requires
            old(self)@.wf(),
        ensures
            final(self)@.wf(),
            final(self)@ == (ChannelView {
                tx_wakers: without_waker(old(self)@.tx_wakers, id),
                ..old(self)@
            }),
    {
        let ghost ws = self.tx_wakers@;
        let mut rest: Vec<(u64, W)> = Vec::new();
        std::mem::swap(&mut rest, &mut self.tx_wakers);
        let mut k: usize = 0;
        let n = rest.len();
        assert(ws.take(0) =~= Seq::<(u64, W)>::empty());
        while rest.len() > 0
            invariant
                n == ws.len(),
                k + rest@.len() == n,
                rest@ == ws.subrange(k as int, n as int),
                self.tx_wakers@ == without_waker(ws.take(k as int), id),
                self@ == (ChannelView { tx_wakers: self@.tx_wakers, ..old(self)@ }),
            decreases rest@.len(),
        {
            let e = rest.remove(0);
            assert(ws.take(k + 1).drop_last() =~= ws.take(k as int));
            assert(ws.take(k + 1).last() == e);
            if e.0 != id {
                self.tx_wakers.push(e);
            }
            k = k + 1;
            assert(rest@ =~= ws.subrange(k as int, n as int));
        }
        assert(ws.take(n as int) =~= ws);
        proof {
            lemma_without_waker(ws, id);
            let r = self.tx_wakers@;
            assert forall|a: int| 0 <= a < r.len() implies 1 <= #[trigger] r[a].0 <= self.last_id by {
                assert(r.contains(r[a]));
                assert(ws.contains(r[a]));
                let j = choose|j: int| 0 <= j < ws.len() && ws[j] == r[a];
                assert(1 <= ws[j].0 <= old(self)@.last_id);
            }
            assert forall|a: int, b: int| 0 <= a < b < r.len() implies #[trigger] r[a].0
                != #[trigger] r[b].0 by {
                lemma_without_waker_unique(ws, id);
            }
        }
    }

    /// The receiver goes away: later sends fail, and every waiting sender's
    /// waker is handed back to be woken, oldest first.
    pub fn drop_receiver(&mut self, r: Receiver) -> (ws: Vec<W>)
        requires
            old(self)@.wf(),
        ensures
            final(self)@.wf(),
            ws@ == wakers_of(old(self)@.tx_wakers),
            final(self)@ == (ChannelView {
                recv_gone: true,
                tx_wakers: Seq::empty(),
                ..old(self)@
            }),
    {
        self.recv_gone = true;
        let ghost ws = self.tx_wakers@;
        let mut rest: Vec<(u64, W)> = Vec::new();
        std::mem::swap(&mut rest, &mut self.tx_wakers);
        let mut out: Vec<W> = Vec::new();
        let mut k: usize = 0;
        let n = rest.len();
        while rest.len() > 0
            invariant
                n == ws.len(),
                k + rest@.len() == n,
                rest@ == ws.subrange(k as int, n as int),
                out@ == wakers_of(ws.take(k as int)),
                self@ == (ChannelView { recv_gone: true, tx_wakers: Seq::empty(), ..old(self)@ }),
            decreases rest@.len(),
        {
            let e = rest.remove(0);
            out.push(e.1);
            k = k + 1;
            assert(out@ =~= wakers_of(ws.take(k as int)));
            assert(rest@ =~= ws.subrange(k as int, n as int));
        }
        assert(ws.take(n as int) =~= ws);
        assert(self.tx_wakers@ =~= Seq::<(u64, W)>::empty());
        out
    }
}

/// The channel after each value of `vs` is queued, first to last.
pub open spec fn after_sends<T, W>(c: ChannelView<T, W>, vs: Seq<T>) -> ChannelView<T, W>
    decreases vs.len(),
{
    if vs.len() == 0 {
        c
    } else {
        after_send(after_sends(c, vs.drop_last()), vs.last())
    }
}

/// The values that `n` successive receives take out of the channel, in order.
pub open spec fn received<T, W>(c: ChannelView<T, W>, n: nat) -> Seq<T>
    decreases n,
{
    if n == 0 || c.queue.len() == 0 {
        Seq::empty()
    } else {
        seq![c.queue[0]] + received(after_recv(c), (n - 1) as nat)
    }
}

proof fn lemma_after_sends_queue<T, W>(c: ChannelView<T, W>, vs: Seq<T>)
    ensures
        after_sends(c, vs).queue == c.queue + vs,
    decreases vs.len(),
{
    if vs.len() > 0 {
        lemma_after_sends_queue(c, vs.drop_last());
        assert(c.queue + vs =~= (c.queue + vs.drop_last()).push(vs.last()));
    }
}

proof fn lemma_received<T, W>(c: ChannelView<T, W>, n: nat)
    requires
        n <= c.queue.len(),
    ensures
        received(c, n) == c.queue.take(n as int),
    decreases n,
{
    if n > 0 {
        lemma_received(after_recv(c), (n - 1) as nat);
        assert(seq![c.queue[0]] + c.queue.drop_first().take(n - 1) =~= c.queue.take(n as int));
    } else {
        assert(c.queue.take(0) =~= Seq::<T>::empty());
    }
}

/// Sending values and then receiving as many times as there are values
/// yields what was already queued followed by the values sent, each exactly
/// once and in the order in which they were sent.
pub proof fn lemma_send_recv_round_trip<T, W>(c: ChannelView<T, W>, vs: Seq<T>)
    ensures
        received(after_sends(c, vs), c.queue.len() + vs.len()) == c.queue + vs,
{
    lemma_after_sends_queue(c, vs);
    lemma_received(after_sends(c, vs), c.queue.len() + vs.len());
    assert((c.queue + vs).take((c.queue.len() + vs.len()) as int) =~= c.queue + vs);
}

/// On a channel of capacity one whose receiver is there, a send waits exactly
/// when the one slot is filled; taking the value out releases exactly one
/// waiting sender, the oldest, keeps the others waiting, and makes room.
pub proof fn lemma_capacity_one<T, W>(c: ChannelView<T, W>)
    requires
        c.wf(),
        c.capacity == 1,
        !c.recv_gone,
    ensures
        c.has_room() <==> c.queue.len() == 0,
        c.queue.len() > 0 && c.tx_wakers.len() > 0 ==> {
            &&& releases_sender(c)
            &&& after_recv(c).tx_wakers == c.tx_wakers.drop_first()
            &&& after_recv(c).has_room()
        },
{
}

} // verus!
