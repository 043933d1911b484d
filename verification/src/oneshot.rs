//! Oneshot channel that can send or receive a value only once.

use crate::shared::{guarded, inside, lock, wake_by_ref};
use crate::sync::{compare_exchange, content, Poll};
use std::cell::Cell;
use std::marker::PhantomData;
use std::mem::ManuallyDrop;
use std::sync::{Arc, Mutex, MutexGuard};
use std::task::Waker;
use vstd::prelude::*;

verus! {

// Inner states
pub const SENDER_SET: usize = 1;

pub const RECEIVER_WAIT: usize = 2;

pub const COMPLETE: usize = 4;

/// The state word, the value on its way, and the receiver that waits for it. A
/// value that is never received is not dropped.
pub struct Inner<T> {
    state: usize,
    bucket: Option<ManuallyDrop<T>>,
    waker: Option<Arc<Waker>>,
}

/// What a poll gave, out of the bucket.
pub open spec fn polled<T>(r: Poll<Option<ManuallyDrop<T>>>) -> Poll<Option<T>> {
    match r {
        Poll::Ready(bucket) => Poll::Ready(content(bucket)),
        Poll::Pending => Poll::Pending,
    }
}

/// The waker that is shared.
pub open spec fn behind(waker: Option<Arc<Waker>>) -> Option<Waker> {
    match waker {
        Some(waker) => Some(*waker),
        None => None,
    }
}

/// A oneshot channel, without the way its state is packed.
#[verifier::ext_equal]
pub struct OneshotState<T> {
    /// The value that was sent and not received.
    pub value: Option<T>,
    /// The receiver waits for the value.
    pub waiting: bool,
    /// A value was received.
    pub complete: bool,
    /// The receiver to wake up.
    pub waker: Option<Waker>,
}

/// The state word of a channel.
pub open spec fn state_word(sent: bool, waiting: bool, complete: bool) -> int {
    (if sent {
        1int
    } else {
        0
    }) + (if waiting {
        2int
    } else {
        0
    }) + (if complete {
        4int
    } else {
        0
    })
}

/// Each flag of a state word can be read and set on its own.
pub proof fn law_flags(word: usize, sent: bool, waiting: bool, complete: bool)
    requires
        word == state_word(sent, waiting, complete),
    ensures
        word & SENDER_SET == (if sent {
            1usize
        } else {
            0
        }),
        word & RECEIVER_WAIT == (if waiting {
            2usize
        } else {
            0
        }),
        word & COMPLETE == (if complete {
            4usize
        } else {
            0
        }),
        word | SENDER_SET == state_word(true, waiting, complete),
        word | RECEIVER_WAIT == state_word(sent, true, complete),
{
    assert(word < 8 ==> {
        &&& word & 1 == word % 2
        &&& word & 2 == 2 * ((word / 2) % 2)
        &&& word & 4 == 4 * ((word / 4) % 2)
        &&& word | 1 == word + 1 - word % 2
        &&& word | 2 == word + 2 - 2 * ((word / 2) % 2)
    }) by (bit_vector);
}

impl<T> OneshotState<T> {
    /// A channel that no one has used.
    pub open spec fn fresh() -> Self {
        OneshotState { value: None, waiting: false, complete: false, waker: None }
    }

    /// The state word.
    pub open spec fn word(self) -> int {
        state_word(self.value is Some, self.waiting, self.complete)
    }

    /// The channel after sending `val`, which does nothing if a value is on its
    /// way already.
    pub open spec fn after_send(self, val: T) -> Self {
        if self.value is Some {
            self
        } else {
            OneshotState { value: Some(val), ..self }
        }
    }

    /// The receiver that sending wakes up.
    pub open spec fn woken_by_send(self) -> Option<Waker> {
        if self.value is None && self.waiting {
            self.waker
        } else {
            None
        }
    }

    /// What is received: the value, if no value was received before.
    pub open spec fn recv_result(self) -> Option<T> {
        if self.complete {
            None
        } else {
            self.value
        }
    }

    /// The channel after receiving.
    pub open spec fn after_recv(self) -> Self {
        if self.recv_result() is Some {
            OneshotState { value: None, waiting: false, complete: true, ..self }
        } else {
            self
        }
    }

    /// What comes of receiving, or waiting for the value.
    pub open spec fn poll_result(self) -> Poll<Option<T>> {
        if self.complete || self.value is Some {
            Poll::Ready(self.recv_result())
        } else {
            Poll::Pending
        }
    }

    /// The channel after receiving, or after `waker` began to wait for the value.
    pub open spec fn after_poll(self, waker: Waker) -> Self {
        if self.poll_result() is Pending {
            OneshotState { waiting: true, waker: Some(waker), ..self }
        } else {
            self.after_recv()
        }
    }
}

impl<T> View for Inner<T> {
    type V = OneshotState<T>;

    closed spec fn view(&self) -> OneshotState<T> {
        OneshotState {
            value: content(self.bucket),
            waiting: self.state & RECEIVER_WAIT == RECEIVER_WAIT,
            complete: self.state & COMPLETE == COMPLETE,
            waker: behind(self.waker),
        }
    }
}

impl<T> Inner<T> {
    /// The channel is in a state that its operations lead to.
    pub closed spec fn wf(&self) -> bool {
        &&& self.state == self@.word()
        &&& self@.waiting && self.bucket is None ==> self.waker is Some
        &&& self@.complete ==> !self@.waiting
    }

    /// What the state word is now.
    pub closed spec fn state(&self) -> usize {
        self.state
    }

    /// `loaded` is what the state word is now, or what it was before the sender
    /// sent a value.
    pub open spec fn sent_since(&self, loaded: usize) -> bool {
        loaded == self.state() || loaded | SENDER_SET == self.state()
    }

    /// The state word tells how far the channel is.
    pub proof fn law_word(&self)
        requires
            self.wf(),
        ensures
            self.state() == self@.word(),
    {
    }

    /// A channel that no one has used.
    pub fn new() -> (r: Self)
        ensures
            r.wf(),
            r@ == OneshotState::<T>::fresh(),
    {
        let r: Inner<T> = Inner { state: 0, bucket: None, waker: None };
        proof {
            law_flags(0, false, false, false);
        }
        r
    }

    /// What the state word is now.
    pub fn load(&self) -> (r: usize)
        ensures
            r == self.state(),
        no_unwind
    {
        self.state
    }

    /// Sends the value in `val`, and tells whether the receiver is to be woken up.
    ///
    /// `loaded` may be an old value of the state word: the receiver may have
    /// begun to wait since it was loaded.
    pub fn send_from(&mut self, loaded: usize, val: &mut Option<ManuallyDrop<T>>) -> (r: bool)
        requires
            old(self).wf(),
            *old(val) is Some,
            loaded & SENDER_SET == 0 ==> old(self)@.value is None,
        ensures
            final(self).wf(),
            if loaded & SENDER_SET != 0 {
                &&& !r
                &&& final(self)@ == old(self)@
                &&& *final(val) == *old(val)
            } else {
                &&& r == (old(self)@.woken_by_send() is Some)
                &&& final(self)@ == old(self)@.after_send(content(*old(val))->0)
                &&& *final(val) == None::<ManuallyDrop<T>>
            },
        no_unwind
    {
        if loaded & SENDER_SET != 0 {
            // We've already sent a value to this channel, so do nothing.
            return false;
        }
        // Set a value.

        std::mem::swap(&mut self.bucket, val);
        let ghost before = old(self)@;
        proof {
            law_flags(self.state, false, before.waiting, before.complete);
            law_flags(
                (self.state | SENDER_SET) as usize,
                true,
                before.waiting,
                before.complete,
            );
        }
        // Change the flag.
        let mut cur: usize = loaded;
        let mut next: usize = loaded | SENDER_SET;
        loop
            invariant_except_break
                self.state == old(self).state,
                cur == loaded || cur == self.state,
            invariant
                self.bucket == *old(val),
                self.waker == old(self).waker,
                *val == None::<ManuallyDrop<T>>,
                next == cur | SENDER_SET,
            ensures
                self.state == old(self).state | SENDER_SET,
                next == self.state,
            decreases
                    if cur == self.state {
                        0int
                    } else {
                        1int
                    },
        {
            match compare_exchange(&mut self.state, cur, next) {
                Ok(_) => {
                    break;
                },
                Err(now) => {
                    // Receiver has just updated the inner value, so try again.
                    cur = now;
                    next = cur | SENDER_SET;
                },
            }
        }
        next & RECEIVER_WAIT == RECEIVER_WAIT
    }

    /// The receiver to wake up, if one ever waited.
    pub fn waker(&self) -> (r: Option<Arc<Waker>>)
        ensures
            behind(r) == self@.waker,
    {
        match &self.waker {
            Some(waker) => Some(waker.clone()),
            None => None,
        }
    }

    /// Sends the value in `val`, and tells whether the receiver is to be woken up.
    /// If a value is on its way already, this one stays where it is.
    pub fn send(&mut self, val: &mut Option<ManuallyDrop<T>>) -> (r: bool)
        requires
            old(self).wf(),
            *old(val) is Some,
        ensures
            final(self).wf(),
            r == (old(self)@.woken_by_send() is Some),
            final(self)@ == old(self)@.after_send(content(*old(val))->0),
            *final(val) == (if old(self)@.value is None {
                None
            } else {
                *old(val)
            }),
        no_unwind
    {
        proof {
            law_flags(self.state, self@.value is Some, self@.waiting, self@.complete);
        }
        let state: usize = self.load();
        self.send_from(state, val)
    }

    /// Receives the value, if the state word is still what was `loaded`.
    pub fn try_recv_from(&mut self, loaded: usize) -> (r: Option<ManuallyDrop<T>>)
        requires
            old(self).wf(),
        ensures
            final(self).wf(),
            if loaded == old(self).state() {
                &&& content(r) == old(self)@.recv_result()
                &&& final(self)@ == old(self)@.after_recv()
            } else {
                &&& r is None
                &&& final(self)@ == old(self)@
            },
        no_unwind
    {
        proof {
            law_flags(self.state, self@.value is Some, self@.waiting, self@.complete);
            law_flags(COMPLETE, false, false, true);
        }
        // Check if the sender is set and the operation is not complete
        if loaded & SENDER_SET != SENDER_SET || loaded & COMPLETE == COMPLETE {
            return None;
        }
        // Try to update the state
        match compare_exchange(&mut self.state, loaded, COMPLETE) {
            Err(_) => None,
            Ok(_) => {
                // Read the value
                let mut value: Option<ManuallyDrop<T>> = None;
                std::mem::swap(&mut self.bucket, &mut value);
                value
            },
        }
    }

    /// Receives the value, if it is there and no value was received before.
    pub fn try_recv(&mut self) -> (r: Option<ManuallyDrop<T>>)
        requires
            old(self).wf(),
        ensures
            final(self).wf(),
            content(r) == old(self)@.recv_result(),
            final(self)@ == old(self)@.after_recv(),
        no_unwind
    {
        let state: usize = self.load();
        self.try_recv_from(state)
    }

    /// Receives the value, or lets the task of `waker` wait for it. A task that
    /// waited before is put in the place of `waker`.
    ///
    /// `loaded` may be an old value of the state word: the sender may have sent
    /// the value since it was loaded.
    pub fn poll_from(&mut self, loaded: usize, waker: &mut Option<Arc<Waker>>) -> (r: Poll<
        Option<ManuallyDrop<T>>,
    >)
        requires
            old(self).wf(),
            old(self).sent_since(loaded),
            *old(waker) is Some,
        ensures
            final(self).wf(),
            polled(r) == old(self)@.poll_result(),
            ({
                // The waker is set before the value is seen.
                let set = loaded & COMPLETE != COMPLETE && loaded & SENDER_SET != SENDER_SET;
                &&& final(self)@ == (OneshotState {
                    waker: if set {
                        behind(*old(waker))
                    } else {
                        old(self)@.waker
                    },
                    ..old(self)@.after_poll(*(*old(waker))->0)
                })
                &&& behind(*final(waker)) == (if set {
                    old(self)@.waker
                } else {
                    behind(*old(waker))
                })
            }),
        no_unwind
    {
        let ghost s = self@;
        proof {
            law_flags(self.state, s.value is Some, s.waiting, s.complete);
            law_flags(COMPLETE, false, false, true);
            lemma_unsent(loaded, self.state, s.value is Some, s.waiting, s.complete);
            law_flags(state_word(false, true, false) as usize, false, true, false);
        }
        let sender_set: bool = loaded & SENDER_SET == SENDER_SET;
        let complete: bool = loaded & COMPLETE == COMPLETE;
        if complete {
            return Poll::Ready(None);
        }
        if sender_set {
            // Since we have a exclusive ownership of the receiver, we don't have to perform CAS
            // loop.
            return Poll::Ready(self.finish());
        }
        // Set the waker

        std::mem::swap(&mut self.waker, waker);
        // Try to set the RECEIVER_WAIT flag
        let next: usize = loaded | RECEIVER_WAIT;
        match compare_exchange(&mut self.state, loaded, next) {
            Ok(_) => Poll::Pending,
            Err(_) => {
                // Sender has just updated the inner value!
                Poll::Ready(self.finish())
            },
        }
    }

    /// Takes the value out, and marks the channel as complete.
    fn finish(&mut self) -> (r: Option<ManuallyDrop<T>>)
        ensures
            r == old(self).bucket,
            *final(self) == (Inner { state: COMPLETE, bucket: None, ..*old(self) }),
        no_unwind
    {
        // Get the inner value
        let mut value: Option<ManuallyDrop<T>> = None;
        std::mem::swap(&mut self.bucket, &mut value);
        // Set COMPLETE flag
        self.state = COMPLETE;
        value
    }

    /// Receives the value, or lets the task of `waker` wait for it. A task that
    /// waited before is put in the place of `waker`.
    pub fn poll(&mut self, waker: &mut Option<Arc<Waker>>) -> (r: Poll<Option<ManuallyDrop<T>>>)
        requires
            old(self).wf(),
            *old(waker) is Some,
        ensures
            final(self).wf(),
            polled(r) == old(self)@.poll_result(),
            final(self)@ == old(self)@.after_poll(*(*old(waker))->0),
            behind(*final(waker)) == (if r is Pending {
                old(self)@.waker
            } else {
                behind(*old(waker))
            }),
        no_unwind
    {
        proof {
            law_flags(self.state, self@.value is Some, self@.waiting, self@.complete);
        }
        let state: usize = self.load();
        self.poll_from(state, waker)
    }
}

/// What the state word was if it is `word` now and the sender alone may have
/// changed it.
proof fn lemma_unsent(loaded: usize, word: usize, sent: bool, waiting: bool, complete: bool)
    requires
        word == state_word(sent, waiting, complete),
        loaded == word || loaded | SENDER_SET == word,
    ensures
        loaded == word || sent && loaded == state_word(false, waiting, complete),
        loaded & COMPLETE == (if complete {
            4usize
        } else {
            0
        }),
        loaded | RECEIVER_WAIT == state_word(loaded & SENDER_SET == SENDER_SET, true, complete),
{
    assert(loaded | 1 == word ==> loaded == word || word & 1 == 1 && loaded == word - 1)
        by (bit_vector);
    law_flags(word, sent, waiting, complete);
    if loaded != word {
        law_flags(loaded, false, waiting, complete);
    }
}

/// What the two handles of a channel share.
pub struct Channel<T> {
    inner: Inner<T>,
}

impl<T> View for Channel<T> {
    type V = OneshotState<T>;

    closed spec fn view(&self) -> OneshotState<T> {
        self.inner@
    }
}

impl<T> Channel<T> {
    #[verifier::type_invariant]
    spec fn inv(self) -> bool {
        self.inner.wf()
    }

    /// A channel that no one has used.
    pub fn new() -> (r: Self)
        ensures
            r@ == OneshotState::<T>::fresh(),
    {
        Channel { inner: Inner::new() }
    }

    /// Sends the value in `val`, and gives back the receiver to wake up. If a
    /// value is on its way already, this one stays where it is.
    pub fn send(&mut self, val: &mut Option<T>) -> (r: Option<Arc<Waker>>)
        requires
            *old(val) is Some,
        ensures
            behind(r) == old(self)@.woken_by_send(),
            final(self)@ == old(self)@.after_send((*old(val))->0),
            *final(val) == (if old(self)@.value is None {
                None
            } else {
                *old(val)
            }),
    {
        proof {
            use_type_invariant(&*self);
        }
        let mut bucket: Option<ManuallyDrop<T>> = match val.take() {
            Some(v) => Some(ManuallyDrop::new(v)),
            None => None,
        };
        let wake: bool = self.inner.send(&mut bucket);
        *val = out_of(bucket);
        if wake {
            // wakeup the receiver
            self.inner.waker()
        } else {
            None
        }
    }

    /// Receives the value, if it is there and no value was received before.
    pub fn try_recv(&mut self) -> (r: Option<T>)
        ensures
            r == old(self)@.recv_result(),
            final(self)@ == old(self)@.after_recv(),
    {
        proof {
            use_type_invariant(&*self);
        }
        out_of(self.inner.try_recv())
    }

    /// Receives the value, or lets the task of `waker` wait for it. A task that
    /// waited before is put in the place of `waker`.
    pub fn poll(&mut self, waker: &mut Option<Arc<Waker>>) -> (r: Poll<Option<T>>)
        requires
            *old(waker) is Some,
        ensures
            r == old(self)@.poll_result(),
            final(self)@ == old(self)@.after_poll(*(*old(waker))->0),
            behind(*final(waker)) == (if r is Pending {
                old(self)@.waker
            } else {
                behind(*old(waker))
            }),
    {
        proof {
            use_type_invariant(&*self);
        }
        match self.inner.poll(waker) {
            Poll::Ready(bucket) => Poll::Ready(out_of(bucket)),
            Poll::Pending => Poll::Pending,
        }
    }
}

/// Takes the value out of a bucket.
fn out_of<T>(bucket: Option<ManuallyDrop<T>>) -> (r: Option<T>)
    ensures
        r == content(bucket),
{
    match bucket {
        Some(value) => Some(ManuallyDrop::into_inner(value)),
        None => None,
    }
}

/// Oneshot channel that can send or receive a value only once.
pub fn channel<T>() -> (r: (Tx<T>, Rx<T>))
    ensures
        r.0.channel() == r.1.channel(),
        exists|c: Channel<T>| {
            &&& #[trigger] c@ == OneshotState::<T>::fresh()
            &&& call_ensures(Mutex::<Channel<T>>::new, (c,), r.0.channel())
        },
{
    let channel: Channel<T> = Channel::new();
    let ghost fresh = channel;
    let mutex = Mutex::new(channel);
    assert(call_ensures(Mutex::<Channel<T>>::new, (fresh,), mutex));
    let inner: Arc<Mutex<Channel<T>>> = Arc::new(mutex);
    let tx = Tx { inner: inner.clone(), _p: PhantomData };
    let rx = Rx { inner, _p: PhantomData };
    (tx, rx)
}

/// Sender handle of the channel. This implements `Send` but not `Sync`.
#[verifier::reject_recursive_types(T)]
pub struct Tx<T> {
    inner: Arc<Mutex<Channel<T>>>,
    // To make `Tx` !Sync
    _p: PhantomData<Cell<()>>,
}

/// Receiver handle of the channel. This implements `Send` but not `Sync`.
#[verifier::reject_recursive_types(T)]
pub struct Rx<T> {
    inner: Arc<Mutex<Channel<T>>>,
    // To make `Rx` !Sync
    _p: PhantomData<Cell<()>>,
}

/// A receiver that waits for the value.
#[verifier::reject_recursive_types(T)]
pub struct RxRef<'a, T> {
    inner: &'a mut Rx<T>,
}

impl<T> Tx<T> {
    /// The channel that the handle is on.
    pub closed spec fn channel(&self) -> Mutex<Channel<T>> {
        *self.inner
    }

    /// Sends the value, and wakes up the receiver. Does nothing if a value was
    /// sent before that is still on its way.
    ///
    /// What the lock of the channel gives is what the other handle left there.
    pub fn send(&self, val: T)
        ensures
            exists|
                g: MutexGuard<'_, Channel<T>>,
                gm: &mut MutexGuard<'_, Channel<T>>,
                c: &mut Channel<T>,
            | {
                &&& #[trigger] call_ensures(lock::<Channel<T>>, (&self.channel(),), g)
                &&& *gm == g
                &&& #[trigger] call_ensures(guarded::<Channel<T>>, (gm,), c)
                &&& (*final(c))@ == (*c)@.after_send(val)
                &&& (*c)@.woken_by_send() matches Some(w) ==> call_ensures(
                    Waker::wake_by_ref,
                    (&w,),
                    (),
                )
            },
    {
        let mut val: Option<T> = Some(val);
        let woken = {
            let mut guard = lock(&self.inner);
            assert(call_ensures(lock::<Channel<T>>, (&self.channel(),), guard));
            let channel = inside(&mut guard);
            channel.send(&mut val)
        };
        wake_by_ref(woken);
    }
}

impl<T> Rx<T> {
    /// The channel that the handle is on.
    pub closed spec fn channel(&self) -> Mutex<Channel<T>> {
        *self.inner
    }

    /// Sync variant
    pub fn try_recv(&self) -> (r: Option<T>)
        ensures
            exists|
                g: MutexGuard<'_, Channel<T>>,
                gm: &mut MutexGuard<'_, Channel<T>>,
                c: &mut Channel<T>,
            | {
                &&& #[trigger] call_ensures(lock::<Channel<T>>, (&self.channel(),), g)
                &&& *gm == g
                &&& #[trigger] call_ensures(guarded::<Channel<T>>, (gm,), c)
                &&& r == (*c)@.recv_result()
                &&& (*final(c))@ == (*c)@.after_recv()
            },
    {
        let mut guard = lock(&self.inner);
        assert(call_ensures(lock::<Channel<T>>, (&self.channel(),), guard));
        let channel = inside(&mut guard);
        channel.try_recv()
    }

    /// Receives the value, or lets `waker` wait for it.
    pub fn poll(&mut self, waker: Waker) -> (r: Poll<Option<T>>)
        ensures
            exists|
                g: MutexGuard<'_, Channel<T>>,
                gm: &mut MutexGuard<'_, Channel<T>>,
                c: &mut Channel<T>,
            | {
                &&& #[trigger] call_ensures(lock::<Channel<T>>, (&old(self).channel(),), g)
                &&& *gm == g
                &&& #[trigger] call_ensures(guarded::<Channel<T>>, (gm,), c)
                &&& r == (*c)@.poll_result()
                &&& (*final(c))@ == (*c)@.after_poll(waker)
            },
            final(self).channel() == old(self).channel(),
    {
        let mut waker: Option<Arc<Waker>> = Some(Arc::new(waker));
        let mut guard = lock(&self.inner);
        assert(call_ensures(lock::<Channel<T>>, (&self.channel(),), guard));
        let channel = inside(&mut guard);
        channel.poll(&mut waker)
    }

    /// Async variant
    pub fn recv(&mut self) -> (r: RxRef<'_, T>)
        ensures
            r.channel() == old(self).channel(),
    {
        RxRef { inner: self }
    }
}

impl<'a, T> RxRef<'a, T> {
    /// The channel that the value is to come from.
    pub closed spec fn channel(&self) -> Mutex<Channel<T>> {
        self.inner.channel()
    }

    /// Receives the value, or lets `waker` wait for it.
    pub fn poll(&mut self, waker: Waker) -> (r: Poll<Option<T>>)
        ensures
            exists|
                g: MutexGuard<'_, Channel<T>>,
                gm: &mut MutexGuard<'_, Channel<T>>,
                c: &mut Channel<T>,
            | {
                &&& #[trigger] call_ensures(lock::<Channel<T>>, (&old(self).channel(),), g)
                &&& *gm == g
                &&& #[trigger] call_ensures(guarded::<Channel<T>>, (gm,), c)
                &&& r == (*c)@.poll_result()
                &&& (*final(c))@ == (*c)@.after_poll(waker)
            },
            final(self).channel() == old(self).channel(),
    {
        let ghost channel = self.inner.channel();
        assert(channel == old(self).channel());
        self.inner.poll(waker)
    }
}

/// An operation on a channel.
pub enum Op<T> {
    Send(T),
    TryRecv,
    Poll(Waker),
}

/// What a run of operations has done, in order.
pub struct Log<T> {
    /// The values that were handed to the sender.
    pub sent: Seq<T>,
    /// The values that were received.
    pub received: Seq<T>,
}

impl<T> Op<T> {
    /// The channel after the operation.
    pub open spec fn apply(self, s: OneshotState<T>) -> OneshotState<T> {
        match self {
            Op::Send(v) => s.after_send(v),
            Op::TryRecv => s.after_recv(),
            Op::Poll(waker) => s.after_poll(waker),
        }
    }

    /// What the operation adds to the log.
    pub open spec fn record(self, s: OneshotState<T>, log: Log<T>) -> Log<T> {
        match self {
            Op::Send(v) => Log { sent: log.sent.push(v), ..log },
            Op::TryRecv => match s.recv_result() {
                Some(v) => Log { received: log.received.push(v), ..log },
                None => log,
            },
            Op::Poll(_) => match s.poll_result() {
                Poll::Ready(Some(v)) => Log { received: log.received.push(v), ..log },
                _ => log,
            },
        }
    }
}

/// A fresh channel after a run of operations.
pub open spec fn after<T>(ops: Seq<Op<T>>) -> OneshotState<T>
    decreases ops.len(),
{
    if ops.len() == 0 {
        OneshotState::fresh()
    } else {
        ops.last().apply(after(ops.drop_last()))
    }
}

/// The log of a run of operations on a fresh channel.
pub open spec fn log<T>(ops: Seq<Op<T>>) -> Log<T>
    decreases ops.len(),
{
    if ops.len() == 0 {
        Log { sent: Seq::empty(), received: Seq::empty() }
    } else {
        ops.last().record(after(ops.drop_last()), log(ops.drop_last()))
    }
}

/// At most one value is ever received, and that is the first one sent. Until it
/// is received, it is in the channel.
pub proof fn law_once<T>(ops: Seq<Op<T>>)
    ensures
        if after(ops).complete {
            log(ops).sent.len() > 0 && log(ops).received =~= seq![log(ops).sent[0]]
        } else {
            &&& log(ops).received.len() == 0
            &&& after(ops).value == (if log(ops).sent.len() == 0 {
                None
            } else {
                Some(log(ops).sent[0])
            })
        },
    decreases ops.len(),
{
    if ops.len() > 0 {
        law_once(ops.drop_last());
    }
}

/// Once a value was received, no value is ever received again, and no one waits.
pub proof fn law_complete_for_good<T>(s: OneshotState<T>, op: Op<T>)
    requires
        s.complete,
    ensures
        op.apply(s).complete,
        s.recv_result() is None,
        s.poll_result() == Poll::Ready(None::<T>),
{
}

/// A value that is sent while another is on its way changes nothing.
pub proof fn law_second_send<T>(s: OneshotState<T>, v: T, w: T)
    ensures
        s.after_send(v).after_send(w) == s.after_send(v),
        s.after_send(v).woken_by_send() is None,
{
}

/// What is sent is received, once.
pub proof fn law_send_recv<T>(s: OneshotState<T>, v: T)
    requires
        s.value is None,
        !s.complete,
    ensures
        s.after_send(v).recv_result() == Some(v),
        s.after_send(v).poll_result() == Poll::Ready(Some(v)),
        s.after_send(v).after_recv().recv_result() is None,
{
}

/// A receiver that waits is woken up by the send, and then finds the value.
pub proof fn law_wake_up<T>(s: OneshotState<T>, v: T, waker: Waker)
    requires
        s.poll_result() is Pending,
    ensures
        s.after_poll(waker).woken_by_send() == Some(waker),
        s.after_poll(waker).after_send(v).poll_result() == Poll::Ready(Some(v)),
{
}

/// A new channel holds no value, and no one waits.
pub proof fn law_fresh<T>()
    ensures
        OneshotState::<T>::fresh().value is None,
        !OneshotState::<T>::fresh().waiting,
        !OneshotState::<T>::fresh().complete,
        OneshotState::<T>::fresh().waker is None,
{
}

/// What a send changes: if no value is on its way, this one is, and a receiver
/// that waits is woken up; otherwise nothing changes and no one is woken up.
pub proof fn law_send_effect<T>(s: OneshotState<T>, v: T)
    ensures
        ({
            let u = s.after_send(v);
            &&& s.value is None ==> u.value == Some(v)
            &&& s.value is Some ==> u.value == s.value
            &&& u.waiting == s.waiting
            &&& u.complete == s.complete
            &&& u.waker == s.waker
            &&& s.value is None && s.waiting ==> s.woken_by_send() == s.waker
            &&& s.value is Some || !s.waiting ==> s.woken_by_send() is None
        }),
{
}

/// What a receive gives and changes: the value, if none was received before, and
/// then none is there and none is waited for; otherwise nothing.
pub proof fn law_recv_effect<T>(s: OneshotState<T>)
    ensures
        s.complete ==> s.recv_result() is None,
        !s.complete ==> s.recv_result() == s.value,
        s.recv_result() is Some ==> {
            let u = s.after_recv();
            &&& u.value is None
            &&& u.complete
            &&& !u.waiting
            &&& u.waker == s.waker
        },
        s.recv_result() is None ==> s.after_recv() == s,
{
}

/// A receiver waits just while no value was sent or received. Otherwise polling
/// is receiving.
pub proof fn law_poll_effect<T>(s: OneshotState<T>, waker: Waker)
    ensures
        s.poll_result() is Pending <==> s.value is None && !s.complete,
        s.poll_result() is Pending ==> {
            let u = s.after_poll(waker);
            &&& u.value is None
            &&& !u.complete
            &&& u.waiting
            &&& u.waker == Some(waker)
        },
        !(s.poll_result() is Pending) ==> s.poll_result() == Poll::Ready(s.recv_result())
            && s.after_poll(waker) == s.after_recv(),
{
}

/// The waker that was handed in by the last poll before a value was sent.
pub open spec fn last_waker<T>(ops: Seq<Op<T>>) -> Option<Waker>
    decreases ops.len(),
{
    if ops.len() == 0 {
        None
    } else {
        match ops.last() {
            Op::Poll(waker) => if log(ops.drop_last()).sent.len() == 0 {
                Some(waker)
            } else {
                last_waker(ops.drop_last())
            },
            _ => last_waker(ops.drop_last()),
        }
    }
}

/// What comes next after a run of operations: the first value sent is received if
/// none was, a receiver waits just while none was sent, and the first send, and
/// no other, wakes up the task that polled last.
pub proof fn law_next<T>(ops: Seq<Op<T>>)
    ensures
        ({
            let s = after(ops);
            let l = log(ops);
            &&& l.received.len() <= 1
            &&& l.received.len() == 1 ==> l.sent.len() > 0 && l.received[0] == l.sent[0]
            &&& l.received.len() == 0 && l.sent.len() > 0 ==> s.recv_result() == Some(l.sent[0])
                && s.poll_result() == Poll::Ready(Some(l.sent[0]))
            &&& l.received.len() == 1 ==> s.recv_result() is None && s.poll_result()
                == Poll::Ready(None::<T>)
            &&& l.sent.len() == 0 ==> s.recv_result() is None && s.poll_result() is Pending
            &&& l.sent.len() == 0 ==> s.woken_by_send() == last_waker(ops)
            &&& l.sent.len() > 0 ==> s.woken_by_send() is None
        }),
{
    law_once(ops);
    lemma_waiting(ops);
}

/// Who waits after a run of operations.
proof fn lemma_waiting<T>(ops: Seq<Op<T>>)
    ensures
        log(ops).sent.len() == 0 ==> after(ops).value is None && !after(ops).complete && (
        if after(ops).waiting {
            after(ops).waker == last_waker(ops) && after(ops).waker is Some
        } else {
            last_waker(ops) is None
        }),
        after(ops).complete ==> !after(ops).waiting,
    decreases ops.len(),
{
    if ops.len() > 0 {
        lemma_waiting(ops.drop_last());
        law_once(ops.drop_last());
    }
}

/// One call of a handle: the channel that it found under the lock, and the one
/// that it left there.
pub struct Call<T> {
    pub op: Op<T>,
    pub found: OneshotState<T>,
    pub left: OneshotState<T>,
}

/// The operations of a history of calls.
pub open spec fn ops_of<T>(calls: Seq<Call<T>>) -> Seq<Op<T>> {
    calls.map_values(|call: Call<T>| call.op)
}

/// Each call found what the one before it left, the first one a fresh channel.
pub open spec fn linked<T>(calls: Seq<Call<T>>) -> bool {
    forall|i: int|
        0 <= i < calls.len() ==> {
            &&& (#[trigger] calls[i]).left == calls[i].op.apply(calls[i].found)
            &&& calls[i].found == (if i == 0 {
                OneshotState::fresh()
            } else {
                calls[i - 1].left
            })
        }
}

/// A history of calls that each do one operation on what they find leaves the
/// channel as the run of those operations does, so what holds of runs holds of
/// the calls of handles, on whatever threads they are made.
pub proof fn law_calls<T>(calls: Seq<Call<T>>)
    requires
        linked(calls),
    ensures
        calls.len() > 0 ==> calls.last().left == after(ops_of(calls)),
        calls.len() > 0 ==> calls.last().found == after(ops_of(calls).drop_last()),
    decreases calls.len(),
{
    let ops = ops_of(calls);
    if calls.len() > 0 {
        let before = calls.drop_last();
        assert forall|i: int| 0 <= i < before.len() implies {
            &&& (#[trigger] before[i]).left == before[i].op.apply(before[i].found)
            &&& before[i].found == (if i == 0 {
                OneshotState::fresh()
            } else {
                before[i - 1].left
            })
        } by {
            assert(before[i] == calls[i]);
            if i > 0 {
                assert(before[i - 1] == calls[i - 1]);
            }
        }
        law_calls(before);
        assert(ops.drop_last() =~= ops_of(before));
        let last = calls.len() - 1;
        assert(calls[last].found == after(ops_of(before))) by {
            if last > 0 {
                assert(calls[last - 1] == before.last());
            }
        }
    }
}

} // verus!
