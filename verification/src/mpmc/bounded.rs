//! Array based bounded async mpmc channel.

use crate::mpmc::layout::valid_capacity;
use crate::mpmc::queue::{Queue, QueueState};
use crate::mpmc::ring::{Inner, RecvStep};
use crate::shared::{guarded, inside, lock, wake};
use crate::sync::Poll;
use std::collections::VecDeque;
use std::sync::{Arc, Mutex, MutexGuard};
use std::task::Waker;
use vstd::prelude::*;

verus! {

/// Why a send was refused.
#[derive(PartialEq, Eq, Debug, Structural)]
pub enum TxError {
    Full,
    Closed,
}

/// Why a receive was refused.
#[derive(PartialEq, Eq, Debug, Structural)]
pub enum RxError {
    NoValueToRead,
    Closed,
}

/// What the handles of one channel share.
pub struct Channel<T, const N: usize> {
    queue: Queue<T, N>,
    /// Wait list of senders
    tx_wakers: VecDeque<Waker>,
    /// Wait list of receivers
    rx_wakers: VecDeque<Waker>,
}

/// A channel: its queue, and who waits on either side, longest first.
#[verifier::ext_equal]
pub struct ChannelState<T> {
    pub queue: QueueState<T>,
    pub tx_waiting: Seq<Waker>,
    pub rx_waiting: Seq<Waker>,
}

/// The one that has waited longest.
pub open spec fn longest(waiting: Seq<Waker>) -> Option<Waker> {
    if waiting.len() == 0 {
        None
    } else {
        Some(waiting[0])
    }
}

/// All but the one that has waited longest.
pub open spec fn others(waiting: Seq<Waker>) -> Seq<Waker> {
    if waiting.len() == 0 {
        waiting
    } else {
        waiting.drop_first()
    }
}

impl<T> ChannelState<T> {
    /// An empty channel with one handle on each side.
    pub open spec fn fresh() -> Self {
        ChannelState {
            queue: QueueState::fresh(),
            tx_waiting: Seq::empty(),
            rx_waiting: Seq::empty(),
        }
    }

    /// What comes of sending a value to a channel of capacity `n`.
    pub open spec fn send_result(self, n: nat) -> Result<(), TxError> {
        self.queue.send_result(n)
    }

    /// The channel after sending `v`. One waiting receiver is let go.
    pub open spec fn after_send(self, n: nat, v: T) -> Self {
        if self.send_result(n) is Ok {
            ChannelState {
                queue: self.queue.after_send(n, v),
                rx_waiting: others(self.rx_waiting),
                ..self
            }
        } else {
            self
        }
    }

    /// The receiver that sending a value wakes up.
    pub open spec fn woken_by_send(self, n: nat) -> Option<Waker> {
        if self.send_result(n) is Ok {
            longest(self.rx_waiting)
        } else {
            None
        }
    }

    /// What comes of receiving a value.
    pub open spec fn recv_result(self) -> Result<T, RxError> {
        self.queue.recv_result()
    }

    /// The channel after receiving. One waiting sender is let go.
    pub open spec fn after_recv(self) -> Self {
        if self.recv_result() is Ok {
            ChannelState {
                queue: self.queue.after_recv(),
                tx_waiting: others(self.tx_waiting),
                ..self
            }
        } else {
            self
        }
    }

    /// The sender that receiving a value wakes up.
    pub open spec fn woken_by_recv(self) -> Option<Waker> {
        if self.recv_result() is Ok {
            longest(self.tx_waiting)
        } else {
            None
        }
    }

    /// What comes of sending a value, or waiting for room.
    pub open spec fn poll_send_result(self, n: nat) -> Poll<Result<(), TxError>> {
        match self.send_result(n) {
            Err(TxError::Full) => Poll::Pending,
            r => Poll::Ready(r),
        }
    }

    /// The channel after sending `v`, or after `waker` began to wait for room.
    pub open spec fn after_poll_send(self, n: nat, v: T, waker: Waker) -> Self {
        if self.poll_send_result(n) is Pending {
            ChannelState { tx_waiting: self.tx_waiting.push(waker), ..self }
        } else {
            self.after_send(n, v)
        }
    }

    /// There is nothing to receive, and a receiver that looks again until there
    /// is looks for ever: the head is closed, so that no one can send a value.
    pub open spec fn stuck(self) -> bool {
        self.queue.stuck()
    }

    /// What comes of receiving a value, or waiting for one.
    pub open spec fn poll_recv_result(self) -> Poll<Result<T, RxError>>
        recommends
            !self.stuck(),
    {
        match self.recv_result() {
            Err(_) => Poll::Pending,
            r => Poll::Ready(r),
        }
    }

    /// The channel after receiving, or after `waker` began to wait for a value.
    pub open spec fn after_poll_recv(self, waker: Waker) -> Self
        recommends
            !self.stuck(),
    {
        if self.poll_recv_result() is Pending {
            ChannelState { rx_waiting: self.rx_waiting.push(waker), ..self }
        } else {
            self.after_recv()
        }
    }

    /// The channel with another queue.
    pub open spec fn with_queue(self, queue: QueueState<T>) -> Self {
        ChannelState { queue, ..self }
    }

    /// The channel holds no more values than it has room for.
    pub open spec fn within(self, n: nat) -> bool {
        self.queue.values.len() <= n
    }
}

impl<T, const N: usize> View for Channel<T, N> {
    type V = ChannelState<T>;

    closed spec fn view(&self) -> ChannelState<T> {
        ChannelState {
            queue: self.queue@,
            tx_waiting: self.tx_wakers@,
            rx_waiting: self.rx_wakers@,
        }
    }
}

impl<T, const N: usize> Channel<T, N> {
    /// The ring, whose words and stamps the view leaves out.
    pub closed spec fn ring(&self) -> Inner<T, N> {
        self.queue.ring()
    }

    /// What the view has from the ring.
    pub proof fn law_ring(&self)
        ensures
            self@.queue.values == self.ring()@.values(),
            self@.queue.head_closed == self.ring()@.head_closed,
            self@.queue.tail_closed == self.ring()@.tail_closed,
            self@.queue.tx_count == self.ring()@.tx_count,
            self@.queue.rx_count == self.ring()@.rx_count,
    {
        self.queue.law_ring();
    }

    /// An empty channel with one handle on each side.
    pub fn new() -> (r: Self)
        requires
            valid_capacity(N),
        ensures
            r@ == ChannelState::<T>::fresh(),
            r.ring().wf(),
            r.ring().has_lap_left(),
            r.ring().words_fresh(),
    {
        Channel { queue: Queue::new(), tx_wakers: VecDeque::new(), rx_wakers: VecDeque::new() }
    }

    /// Sends the value in `val`, and gives back the receiver to wake up. A value
    /// that is refused stays where it is.
    pub fn try_send(&mut self, val: &mut Option<T>) -> (r: (Result<(), TxError>, Option<Waker>))
        requires
            *old(val) is Some || old(self)@.send_result(N as nat) is Err,
        ensures
            old(self)@.within(N as nat),
            old(self).ring().wf(),
            final(self).ring().wf(),
            r.0 == old(self)@.send_result(N as nat),
            r.1 == old(self)@.woken_by_send(N as nat),
            final(self)@ == old(self)@.after_send(N as nat, (*old(val))->0),
            r.0 is Err ==> final(self).ring() == old(self).ring(),
            r.0 is Ok && old(self).ring().has_lap_left()
                ==> final(self).ring().words_sent(old(self).ring()),
            *final(val) == (if r.0 is Ok {
                None
            } else {
                *old(val)
            }),
    {
        match self.queue.try_send(val) {
            Err(e) => (Err(e), None),
            Ok(()) => {
                // If there is a waiting receiver, then it is to be woken up
                (Ok(()), self.rx_wakers.pop_front())
            },
        }
    }

    /// Receives a value, and gives back the sender to wake up.
    ///
    /// There is no value to read even if all senders are gone and there is no
    /// value available.
    pub fn try_recv(&mut self) -> (r: (Result<T, RxError>, Option<Waker>))
        ensures
            old(self)@.within(N as nat),
            old(self).ring().wf(),
            final(self).ring().wf(),
            r.0 == old(self)@.recv_result(),
            r.1 == old(self)@.woken_by_recv(),
            final(self)@ == old(self)@.after_recv(),
            r.0 is Err ==> final(self).ring() == old(self).ring(),
            r.0 is Ok ==> final(self).ring().words_received(old(self).ring()),
    {
        match self.queue.try_recv() {
            Err(e) => (Err(e), None),
            Ok(res) => {
                // If there is a waiting sender, then it is to be woken up
                (Ok(res), self.tx_wakers.pop_front())
            },
        }
    }

    /// Sends the value in `val`, and gives back the receiver to wake up, or
    /// lets the task of `waker` wait until there is room. What is not used stays
    /// where it is.
    pub fn poll_send(&mut self, val: &mut Option<T>, waker: &mut Option<Waker>) -> (r: (
        Poll<Result<(), TxError>>,
        Option<Waker>,
    ))
        requires
            *old(val) is Some || old(self)@.send_result(N as nat) is Err,
            *old(waker) is Some,
        ensures
            old(self)@.within(N as nat),
            old(self).ring().wf(),
            final(self).ring().wf(),
            r.0 == old(self)@.poll_send_result(N as nat),
            r.1 == old(self)@.woken_by_send(N as nat),
            final(self)@ == old(self)@.after_poll_send(
                N as nat,
                (*old(val))->0,
                (*old(waker))->0,
            ),
            r.0 != Poll::Ready(Ok::<(), TxError>(())) ==> final(self).ring() == old(self).ring(),
            r.0 == Poll::Ready(Ok::<(), TxError>(())) && old(self).ring().has_lap_left()
                ==> final(self).ring().words_sent(old(self).ring()),
            *final(val) == (if r.0 == Poll::Ready(Ok::<(), TxError>(())) {
                None
            } else {
                *old(val)
            }),
            *final(waker) == (if r.0 is Pending {
                None
            } else {
                *old(waker)
            }),
    {
        match self.queue.try_send(val) {
            Err(TxError::Full) => {
                if let Some(waker) = waker.take() {
                    self.tx_wakers.push_back(waker);
                }
                (Poll::Pending, None)
            },
            Err(TxError::Closed) => (Poll::Ready(Err(TxError::Closed)), None),
            Ok(()) => (Poll::Ready(Ok(())), self.rx_wakers.pop_front()),
        }
    }

    /// Does what [`Self::poll_send`] does, but for a value that there is not and
    /// that there would be room for: then nothing happens, and the result is
    /// `None`.
    pub fn try_poll_send(&mut self, val: &mut Option<T>, waker: &mut Option<Waker>) -> (r: Option<
        (Poll<Result<(), TxError>>, Option<Waker>),
    >)
        requires
            *old(waker) is Some,
        ensures
            old(self)@.within(N as nat),
            old(self).ring().wf(),
            final(self).ring().wf(),
            r is None <==> *old(val) is None && old(self)@.send_result(N as nat) is Ok,
            r is None ==> *final(self) == *old(self) && *final(val) == *old(val) && *final(waker)
                == *old(waker),
            r matches Some(p) ==> {
                &&& p.0 == old(self)@.poll_send_result(N as nat)
                &&& p.1 == old(self)@.woken_by_send(N as nat)
                &&& final(self)@ == old(self)@.after_poll_send(
                    N as nat,
                    (*old(val))->0,
                    (*old(waker))->0,
                )
                &&& p.0 != Poll::Ready(Ok::<(), TxError>(()))
                    ==> final(self).ring() == old(self).ring()
                &&& p.0 == Poll::Ready(Ok::<(), TxError>(())) && old(self).ring().has_lap_left()
                    ==> final(self).ring().words_sent(old(self).ring())
                &&& *final(val) == (if p.0 == Poll::Ready(Ok::<(), TxError>(())) {
                    None
                } else {
                    *old(val)
                })
                &&& *final(waker) == (if p.0 is Pending {
                    None
                } else {
                    *old(waker)
                })
            },
    {
        if val.is_none() && self.queue.has_room() {
            return None;
        }
        Some(self.poll_send(val, waker))
    }

    /// Receives a value, and gives back the sender to wake up, or lets the task
    /// of `waker` wait until there is a value. There must be a value, or someone
    /// who could send one: otherwise this would look again for ever.
    pub fn poll_recv(&mut self, waker: &mut Option<Waker>) -> (r: (
        Poll<Result<T, RxError>>,
        Option<Waker>,
    ))
        requires
            *old(waker) is Some,
            !old(self)@.stuck(),
        ensures
            old(self)@.within(N as nat),
            old(self).ring().wf(),
            final(self).ring().wf(),
            r.0 == old(self)@.poll_recv_result(),
            r.1 == old(self)@.woken_by_recv(),
            final(self)@ == old(self)@.after_poll_recv((*old(waker))->0),
            r.0 is Pending ==> final(self).ring() == old(self).ring(),
            r.0 is Ready ==> final(self).ring().words_received(old(self).ring()),
            *final(waker) == (if r.0 is Pending {
                None
            } else {
                *old(waker)
            }),
    {
        loop
            invariant
                *self == *old(self),
                *waker == *old(waker),
                *waker is Some,
                !old(self)@.stuck(),
            decreases 0nat,
        {
            match self.try_poll_recv(waker) {
                Some(r) => {
                    return r;
                },
                None => {},
            }
        }
    }

    /// One attempt to do what [`Self::poll_recv`] does. If there is nothing to
    /// receive and no one left who could send, nothing happens and the result is
    /// `None`.
    pub fn try_poll_recv(&mut self, waker: &mut Option<Waker>) -> (r: Option<
        (Poll<Result<T, RxError>>, Option<Waker>),
    >)
        requires
            *old(waker) is Some,
        ensures
            old(self)@.within(N as nat),
            old(self).ring().wf(),
            final(self).ring().wf(),
            r is None <==> old(self)@.stuck(),
            r is None ==> final(self)@ == old(self)@ && final(self).ring() == old(self).ring()
                && *final(waker) == *old(waker),
            r matches Some(p) ==> {
                &&& p.0 == old(self)@.poll_recv_result()
                &&& p.1 == old(self)@.woken_by_recv()
                &&& final(self)@ == old(self)@.after_poll_recv((*old(waker))->0)
                &&& p.0 is Pending ==> final(self).ring() == old(self).ring()
                &&& p.0 is Ready ==> final(self).ring().words_received(old(self).ring())
                &&& *final(waker) == (if p.0 is Pending {
                    None
                } else {
                    *old(waker)
                })
            },
    {
        match self.queue.recv_step() {
            RecvStep::Wait => {
                if let Some(waker) = waker.take() {
                    self.rx_wakers.push_back(waker);
                }
                Some((Poll::Pending, None))
            },
            RecvStep::Again => None,
            RecvStep::Done(Err(e)) => Some((Poll::Ready(Err(e)), None)),
            RecvStep::Done(Ok(res)) => {
                // If there is a waiting sender, then it is to be woken up
                Some((Poll::Ready(Ok(res)), self.tx_wakers.pop_front()))
            },
        }
    }

    /// Counts one more sending handle.
    pub fn add_tx(&mut self)
        ensures
            final(self)@ == old(self)@.with_queue(old(self)@.queue.add_tx()),
            old(self).ring().wf(),
            final(self).ring().wf(),
            final(self).ring().words_kept(old(self).ring()),
    {
        self.queue.add_tx();
    }

    /// Counts one more receiving handle.
    pub fn add_rx(&mut self)
        ensures
            final(self)@ == old(self)@.with_queue(old(self)@.queue.add_rx()),
            old(self).ring().wf(),
            final(self).ring().wf(),
            final(self).ring().words_kept(old(self).ring()),
    {
        self.queue.add_rx();
    }

    /// Counts one sending handle less.
    pub fn drop_tx(&mut self)
        ensures
            final(self)@ == old(self)@.with_queue(old(self)@.queue.drop_tx()),
            old(self).ring().wf(),
            final(self).ring().wf(),
            final(self).ring().words_tx_dropped(old(self).ring()),
        opens_invariants none
        no_unwind
    {
        self.queue.drop_tx();
    }

    /// Counts one receiving handle less.
    pub fn drop_rx(&mut self)
        ensures
            final(self)@ == old(self)@.with_queue(old(self)@.queue.drop_rx()),
            old(self).ring().wf(),
            final(self).ring().wf(),
            final(self).ring().words_rx_dropped(old(self).ring()),
        opens_invariants none
        no_unwind
    {
        self.queue.drop_rx();
    }
}

/// A channel of capacity `N`, which must be at least 1.
pub fn bounded<T, const N: usize>() -> (r: (Tx<T, N>, Rx<T, N>))
    requires
        valid_capacity(N),
    ensures
        r.0.channel() == r.1.channel(),
        exists|c: Channel<T, N>| {
            &&& #[trigger] c@ == ChannelState::<T>::fresh()
            &&& c.ring().wf()
            &&& c.ring().has_lap_left()
            &&& c.ring().words_fresh()
            &&& call_ensures(Mutex::<Channel<T, N>>::new, (c,), r.0.channel())
        },
{
    let channel: Channel<T, N> = Channel::new();
    let ghost fresh = channel;
    let mutex = Mutex::new(channel);
    assert(call_ensures(Mutex::<Channel<T, N>>::new, (fresh,), mutex));
    let inner: Arc<Mutex<Channel<T, N>>> = Arc::new(mutex);
    let tx = Tx { inner: inner.clone() };
    let rx = Rx { inner };
    (tx, rx)
}

/// Sending handle of a channel.
#[verifier::reject_recursive_types(T)]
#[verifier::reject_recursive_types(N)]
pub struct Tx<T, const N: usize> {
    inner: Arc<Mutex<Channel<T, N>>>,
}

/// Receiving handle of a channel.
#[verifier::reject_recursive_types(T)]
#[verifier::reject_recursive_types(N)]
pub struct Rx<T, const N: usize> {
    inner: Arc<Mutex<Channel<T, N>>>,
}

/// A value on its way into a channel.
#[verifier::reject_recursive_types(T)]
#[verifier::reject_recursive_types(N)]
pub struct TxRef<'a, T, const N: usize> {
    inner: &'a Tx<T, N>,
    val: Option<T>,
}

/// A receiver that waits for a value.
#[verifier::reject_recursive_types(T)]
#[verifier::reject_recursive_types(N)]
pub struct RxRef<'a, T, const N: usize> {
    inner: &'a Rx<T, N>,
}

impl<T, const N: usize> Tx<T, N> {
    /// The channel that the handle is on.
    pub closed spec fn channel(&self) -> Mutex<Channel<T, N>> {
        *self.inner
    }

    /// A sender that is suspended when the buffer is full, and is woken up when
    /// the channel gets additional space.
    pub fn send(&self, v: T) -> (r: TxRef<'_, T, N>)
        ensures
            r.channel() == self.channel(),
            r.value() == Some(v),
    {
        TxRef { inner: self, val: Some(v) }
    }

    /// Tries to send a value, and wakes up a waiting receiver.
    ///
    /// What the lock of the channel gives is what other handles left there: the
    /// result is that of sending to the channel that was found, and the channel
    /// that is left is the one after the send.
    pub fn try_send(&self, v: T) -> (r: Result<(), TxError>)
        ensures
            exists|
                g: MutexGuard<'_, Channel<T, N>>,
                gm: &mut MutexGuard<'_, Channel<T, N>>,
                c: &mut Channel<T, N>,
            | {
                &&& #[trigger] call_ensures(lock::<Channel<T, N>>, (&self.channel(),), g)
                &&& *gm == g
                &&& #[trigger] call_ensures(guarded::<Channel<T, N>>, (gm,), c)
                &&& (*c)@.within(N as nat)
                &&& r == (*c)@.send_result(N as nat)
                &&& (*final(c))@ == (*c)@.after_send(N as nat, v)
                &&& r is Err ==> (*final(c)).ring() == (*c).ring()
                &&& r is Ok && (*c).ring().has_lap_left()
                    ==> (*final(c)).ring().words_sent((*c).ring())
                &&& (*c)@.woken_by_send(N as nat) matches Some(w) ==> call_ensures(
                    Waker::wake,
                    (w,),
                    (),
                )
            },
    {
        let mut val: Option<T> = Some(v);
        let (r, woken) = {
            let mut guard = lock(&self.inner);
            assert(call_ensures(lock::<Channel<T, N>>, (&self.channel(),), guard));
            let channel = inside(&mut guard);
            channel.try_send(&mut val)
        };
        wake(woken);
        r
    }
}

impl<T, const N: usize> Rx<T, N> {
    /// The channel that the handle is on.
    pub closed spec fn channel(&self) -> Mutex<Channel<T, N>> {
        *self.inner
    }

    /// A receiver that is suspended while there is no value.
    pub fn recv(&self) -> (r: RxRef<'_, T, N>)
        ensures
            r.channel() == self.channel(),
    {
        RxRef { inner: self }
    }

    /// Try to receive a value from the queue, and wakes up a waiting sender.
    ///
    /// If there is no value available, then returns
    /// `Err(RxError::NoValueToRead)`, otherwise returns a value.
    ///
    /// Note that this api returns `RxError::NoValueToRead` even if all senders
    /// are dropped and there is no value available.
    pub fn try_recv(&self) -> (r: Result<T, RxError>)
        ensures
            exists|
                g: MutexGuard<'_, Channel<T, N>>,
                gm: &mut MutexGuard<'_, Channel<T, N>>,
                c: &mut Channel<T, N>,
            | {
                &&& #[trigger] call_ensures(lock::<Channel<T, N>>, (&self.channel(),), g)
                &&& *gm == g
                &&& #[trigger] call_ensures(guarded::<Channel<T, N>>, (gm,), c)
                &&& (*c)@.within(N as nat)
                &&& r == (*c)@.recv_result()
                &&& (*final(c))@ == (*c)@.after_recv()
                &&& r is Err ==> (*final(c)).ring() == (*c).ring()
                &&& r is Ok ==> (*final(c)).ring().words_received((*c).ring())
                &&& (*c)@.woken_by_recv() matches Some(w) ==> call_ensures(
                    Waker::wake,
                    (w,),
                    (),
                )
            },
    {
        let (r, woken) = {
            let mut guard = lock(&self.inner);
            assert(call_ensures(lock::<Channel<T, N>>, (&self.channel(),), guard));
            let channel = inside(&mut guard);
            channel.try_recv()
        };
        wake(woken);
        r
    }
}

impl<'a, T, const N: usize> TxRef<'a, T, N> {
    /// The channel that the value is to go into.
    pub closed spec fn channel(&self) -> Mutex<Channel<T, N>> {
        self.inner.channel()
    }

    /// The value, until it is sent.
    pub closed spec fn value(&self) -> Option<T> {
        self.val
    }

    /// Sends the value, or lets `waker` wait until there is room. If the value
    /// was sent before, there must not be room for another.
    pub fn poll(&mut self, waker: Waker) -> (r: Poll<Result<(), TxError>>)
        requires
            old(self).value() is Some || forall|
                g: MutexGuard<'_, Channel<T, N>>,
                gm: &mut MutexGuard<'_, Channel<T, N>>,
                c: &mut Channel<T, N>,
            |
                #[trigger] call_ensures(lock::<Channel<T, N>>, (&old(self).channel(),), g) && *gm
                    == g && #[trigger] call_ensures(guarded::<Channel<T, N>>, (gm,), c)
                    ==> (*c)@.send_result(N as nat) is Err,
        ensures
            exists|
                g: MutexGuard<'_, Channel<T, N>>,
                gm: &mut MutexGuard<'_, Channel<T, N>>,
                c: &mut Channel<T, N>,
            | {
                &&& #[trigger] call_ensures(lock::<Channel<T, N>>, (&old(self).channel(),), g)
                &&& *gm == g
                &&& #[trigger] call_ensures(guarded::<Channel<T, N>>, (gm,), c)
                &&& (*c)@.within(N as nat)
                &&& r == (*c)@.poll_send_result(N as nat)
                &&& (*final(c))@ == (*c)@.after_poll_send(
                    N as nat,
                    old(self).value()->0,
                    waker,
                )
                &&& r != Poll::Ready(Ok::<(), TxError>(())) ==> (*final(c)).ring() == (*c).ring()
                &&& r == Poll::Ready(Ok::<(), TxError>(())) && (*c).ring().has_lap_left()
                    ==> (*final(c)).ring().words_sent((*c).ring())
                &&& (*c)@.woken_by_send(N as nat) matches Some(w) ==> call_ensures(
                    Waker::wake,
                    (w,),
                    (),
                )
            },
            final(self).channel() == old(self).channel(),
            final(self).value() == (if r == Poll::Ready(Ok::<(), TxError>(())) {
                None
            } else {
                old(self).value()
            }),
    {
        let mut waker: Option<Waker> = Some(waker);
        let (r, woken) = {
            let mut guard = lock(&self.inner.inner);
            assert(call_ensures(lock::<Channel<T, N>>, (&self.channel(),), guard));
            let channel = inside(&mut guard);
            channel.poll_send(&mut self.val, &mut waker)
        };
        wake(woken);
        r
    }

    /// Sends the value, or lets `waker` wait until there is room. If the value
    /// was sent before and there is room for another, nothing happens and the
    /// result is `None`.
    pub fn try_poll(&mut self, waker: Waker) -> (r: Option<Poll<Result<(), TxError>>>)
        ensures
            exists|
                g: MutexGuard<'_, Channel<T, N>>,
                gm: &mut MutexGuard<'_, Channel<T, N>>,
                c: &mut Channel<T, N>,
            | {
                &&& #[trigger] call_ensures(lock::<Channel<T, N>>, (&old(self).channel(),), g)
                &&& *gm == g
                &&& #[trigger] call_ensures(guarded::<Channel<T, N>>, (gm,), c)
                &&& (*c)@.within(N as nat)
                &&& r == (if old(self).value() is None && (*c)@.send_result(N as nat) is Ok {
                    None
                } else {
                    Some((*c)@.poll_send_result(N as nat))
                })
                &&& (*final(c))@ == (if r is None {
                    (*c)@
                } else {
                    (*c)@.after_poll_send(N as nat, old(self).value()->0, waker)
                })
                &&& r != Some(Poll::Ready(Ok::<(), TxError>(())))
                    ==> (*final(c)).ring() == (*c).ring()
                &&& r == Some(Poll::Ready(Ok::<(), TxError>(()))) && (*c).ring().has_lap_left()
                    ==> (*final(c)).ring().words_sent((*c).ring())
                &&& r is Some ==> ((*c)@.woken_by_send(N as nat) matches Some(w) ==> call_ensures(
                    Waker::wake,
                    (w,),
                    (),
                ))
            },
            final(self).channel() == old(self).channel(),
            final(self).value() == (if r == Some(Poll::Ready(Ok::<(), TxError>(()))) {
                None
            } else {
                old(self).value()
            }),
    {
        let mut waker: Option<Waker> = Some(waker);
        let polled = {
            let mut guard = lock(&self.inner.inner);
            assert(call_ensures(lock::<Channel<T, N>>, (&self.channel(),), guard));
            let channel = inside(&mut guard);
            channel.try_poll_send(&mut self.val, &mut waker)
        };
        match polled {
            Some((r, woken)) => {
                wake(woken);
                Some(r)
            },
            None => None,
        }
    }

    /// Whether the value is still to be sent.
    pub fn has_value(&self) -> (r: bool)
        ensures
            r == (self.value() is Some),
    {
        self.val.is_some()
    }
}

impl<'a, T, const N: usize> RxRef<'a, T, N> {
    /// The channel that a value is to come from.
    pub closed spec fn channel(&self) -> Mutex<Channel<T, N>> {
        self.inner.channel()
    }

    /// Receives a value, or lets `waker` wait until there is one. There must be
    /// a value, or someone who could send one.
    pub fn poll(&mut self, waker: Waker) -> (r: Poll<Result<T, RxError>>)
        requires
            forall|
                g: MutexGuard<'_, Channel<T, N>>,
                gm: &mut MutexGuard<'_, Channel<T, N>>,
                c: &mut Channel<T, N>,
            |
                #[trigger] call_ensures(lock::<Channel<T, N>>, (&old(self).channel(),), g) && *gm
                    == g && #[trigger] call_ensures(guarded::<Channel<T, N>>, (gm,), c)
                    ==> !(*c)@.stuck(),
        ensures
            exists|
                g: MutexGuard<'_, Channel<T, N>>,
                gm: &mut MutexGuard<'_, Channel<T, N>>,
                c: &mut Channel<T, N>,
            | {
                &&& #[trigger] call_ensures(lock::<Channel<T, N>>, (&old(self).channel(),), g)
                &&& *gm == g
                &&& #[trigger] call_ensures(guarded::<Channel<T, N>>, (gm,), c)
                &&& (*c)@.within(N as nat)
                &&& r == (*c)@.poll_recv_result()
                &&& (*final(c))@ == (*c)@.after_poll_recv(waker)
                &&& r is Pending ==> (*final(c)).ring() == (*c).ring()
                &&& r is Ready ==> (*final(c)).ring().words_received((*c).ring())
                &&& (*c)@.woken_by_recv() matches Some(w) ==> call_ensures(
                    Waker::wake,
                    (w,),
                    (),
                )
            },
            final(self).channel() == old(self).channel(),
    {
        let mut waker: Option<Waker> = Some(waker);
        let (r, woken) = {
            let mut guard = lock(&self.inner.inner);
            assert(call_ensures(lock::<Channel<T, N>>, (&self.channel(),), guard));
            let channel = inside(&mut guard);
            channel.poll_recv(&mut waker)
        };
        wake(woken);
        r
    }

    /// Receives a value, or lets `waker` wait until there is one. If there is
    /// nothing to receive and no one left who could send, nothing happens and the
    /// result is `None`.
    pub fn try_poll(&mut self, waker: Waker) -> (r: Option<Poll<Result<T, RxError>>>)
        ensures
            exists|
                g: MutexGuard<'_, Channel<T, N>>,
                gm: &mut MutexGuard<'_, Channel<T, N>>,
                c: &mut Channel<T, N>,
            | {
                &&& #[trigger] call_ensures(lock::<Channel<T, N>>, (&old(self).channel(),), g)
                &&& *gm == g
                &&& #[trigger] call_ensures(guarded::<Channel<T, N>>, (gm,), c)
                &&& (*c)@.within(N as nat)
                &&& r == (if (*c)@.stuck() {
                    None
                } else {
                    Some((*c)@.poll_recv_result())
                })
                &&& (*final(c))@ == (if r is None {
                    (*c)@
                } else {
                    (*c)@.after_poll_recv(waker)
                })
                &&& !(r matches Some(Poll::Ready(_))) ==> (*final(c)).ring() == (*c).ring()
                &&& (r matches Some(Poll::Ready(_))) ==> (*final(c)).ring().words_received(
                    (*c).ring(),
                )
                &&& (*c)@.woken_by_recv() matches Some(w) ==> call_ensures(
                    Waker::wake,
                    (w,),
                    (),
                )
            },
            final(self).channel() == old(self).channel(),
    {
        let mut waker: Option<Waker> = Some(waker);
        let polled = {
            let mut guard = lock(&self.inner.inner);
            assert(call_ensures(lock::<Channel<T, N>>, (&self.channel(),), guard));
            let channel = inside(&mut guard);
            channel.try_poll_recv(&mut waker)
        };
        match polled {
            Some((r, woken)) => {
                wake(woken);
                Some(r)
            },
            None => None,
        }
    }
}

impl<T, const N: usize> Clone for Tx<T, N> {
    /// One more handle on the channel, which is counted there.
    fn clone(&self) -> (r: Self)
        ensures
            r.channel() == self.channel(),
            exists|
                g: MutexGuard<'_, Channel<T, N>>,
                gm: &mut MutexGuard<'_, Channel<T, N>>,
                c: &mut Channel<T, N>,
            | {
                &&& #[trigger] call_ensures(lock::<Channel<T, N>>, (&self.channel(),), g)
                &&& *gm == g
                &&& #[trigger] call_ensures(guarded::<Channel<T, N>>, (gm,), c)
                &&& (*final(c))@ == (*c)@.with_queue((*c)@.queue.add_tx())
                &&& (*final(c)).ring().words_kept((*c).ring())
            },
    {
        {
            let mut guard = lock(&self.inner);
            assert(call_ensures(lock::<Channel<T, N>>, (&self.channel(),), guard));
            let channel = inside(&mut guard);
            channel.add_tx();
        }
        let inner = self.inner.clone();
        Tx { inner }
    }
}

impl<T, const N: usize> Drop for Tx<T, N> {
    /// One handle less on the channel.
    fn drop(&mut self)
        ensures
            final(self).channel() == old(self).channel(),
            exists|
                g: MutexGuard<'_, Channel<T, N>>,
                gm: &mut MutexGuard<'_, Channel<T, N>>,
                c: &mut Channel<T, N>,
            | {
                &&& #[trigger] call_ensures(lock::<Channel<T, N>>, (&old(self).channel(),), g)
                &&& *gm == g
                &&& #[trigger] call_ensures(guarded::<Channel<T, N>>, (gm,), c)
                &&& (*final(c))@ == (*c)@.with_queue((*c)@.queue.drop_tx())
                &&& (*final(c)).ring().words_tx_dropped((*c).ring())
            },
        opens_invariants none
        no_unwind
    {
        let mut guard = lock(&self.inner);
        assert(call_ensures(lock::<Channel<T, N>>, (&self.channel(),), guard));
        let channel = inside(&mut guard);
        channel.drop_tx();
    }
}

impl<T, const N: usize> Clone for Rx<T, N> {
    /// One more handle on the channel, which is counted there.
    fn clone(&self) -> (r: Self)
        ensures
            r.channel() == self.channel(),
            exists|
                g: MutexGuard<'_, Channel<T, N>>,
                gm: &mut MutexGuard<'_, Channel<T, N>>,
                c: &mut Channel<T, N>,
            | {
                &&& #[trigger] call_ensures(lock::<Channel<T, N>>, (&self.channel(),), g)
                &&& *gm == g
                &&& #[trigger] call_ensures(guarded::<Channel<T, N>>, (gm,), c)
                &&& (*final(c))@ == (*c)@.with_queue((*c)@.queue.add_rx())
                &&& (*final(c)).ring().words_kept((*c).ring())
            },
    {
        {
            let mut guard = lock(&self.inner);
            assert(call_ensures(lock::<Channel<T, N>>, (&self.channel(),), guard));
            let channel = inside(&mut guard);
            channel.add_rx();
        }
        let inner = self.inner.clone();
        Rx { inner }
    }
}

impl<T, const N: usize> Drop for Rx<T, N> {
    /// One handle less on the channel.
    fn drop(&mut self)
        ensures
            final(self).channel() == old(self).channel(),
            exists|
                g: MutexGuard<'_, Channel<T, N>>,
                gm: &mut MutexGuard<'_, Channel<T, N>>,
                c: &mut Channel<T, N>,
            | {
                &&& #[trigger] call_ensures(lock::<Channel<T, N>>, (&old(self).channel(),), g)
                &&& *gm == g
                &&& #[trigger] call_ensures(guarded::<Channel<T, N>>, (gm,), c)
                &&& (*final(c))@ == (*c)@.with_queue((*c)@.queue.drop_rx())
                &&& (*final(c)).ring().words_rx_dropped((*c).ring())
            },
        opens_invariants none
        no_unwind
    {
        let mut guard = lock(&self.inner);
        assert(call_ensures(lock::<Channel<T, N>>, (&self.channel(),), guard));
        let channel = inside(&mut guard);
        channel.drop_rx();
    }
}

} // verus!
