//! The ring between operations: a bounded queue.

use crate::mpmc::bounded::{RxError, TxError};
use crate::mpmc::interleaving::{at, law_claim, law_item_changed, law_items_kept, law_take, lemma_at};
use crate::mpmc::layout::valid_capacity;
use crate::mpmc::ring::{
    saturating_decrement, wrapping_increment, Inner, RecvStep, RingState, Slot,
};
use vstd::arithmetic::div_mod::{lemma_mod_add_multiples_vanish, lemma_small_mod};
use vstd::prelude::*;

verus! {

/// A ring in which no sender and no receiver is halfway through.
pub struct Queue<T, const N: usize> {
    ring: Inner<T, N>,
}

/// What a queue holds, oldest first, and who may use it.
#[verifier::ext_equal]
pub struct QueueState<T> {
    pub values: Seq<T>,
    /// Senders are refused.
    pub head_closed: bool,
    /// Receivers are refused.
    pub tail_closed: bool,
    pub tx_count: usize,
    pub rx_count: usize,
}

impl<T> RingState<T> {
    /// No sender and no receiver holds a bucket, and there is a value in a bucket
    /// just when it is published.
    pub open spec fn settled(self) -> bool {
        forall|i: int|
            0 <= i < self.slots.len() ==> match #[trigger] self.slots[i] {
                Slot::Free(data) => data is None,
                Slot::Published(data) => data is Some,
                _ => false,
            }
    }

    /// The values in a settled ring, oldest first.
    pub open spec fn values(self) -> Seq<T> {
        self.items().map_values(|slot: Slot<T>| slot->Published_0->0)
    }
}

impl<T> QueueState<T> {
    /// An empty queue with one handle on each side.
    pub open spec fn fresh() -> Self {
        QueueState {
            values: Seq::empty(),
            head_closed: false,
            tail_closed: false,
            tx_count: 1,
            rx_count: 1,
        }
    }

    /// What comes of sending a value to a queue with room for `n` values.
    pub open spec fn send_result(self, n: nat) -> Result<(), TxError> {
        if self.head_closed {
            Err(TxError::Closed)
        } else if self.values.len() >= n {
            Err(TxError::Full)
        } else {
            Ok(())
        }
    }

    /// The queue after sending `v`.
    pub open spec fn after_send(self, n: nat, v: T) -> Self {
        if self.send_result(n) is Ok {
            QueueState { values: self.values.push(v), ..self }
        } else {
            self
        }
    }

    /// What comes of receiving.
    pub open spec fn recv_result(self) -> Result<T, RxError> {
        if self.values.len() == 0 || self.tail_closed {
            Err(RxError::NoValueToRead)
        } else {
            Ok(self.values[0])
        }
    }

    /// There is nothing to receive, and yet the tail is behind the head: a
    /// receiver that looks again until this changes looks for ever.
    pub open spec fn stuck(self) -> bool {
        self.recv_result() is Err && (if self.tail_closed {
            self.values.len() > 0
        } else {
            self.head_closed
        })
    }

    /// The queue after receiving.
    pub open spec fn after_recv(self) -> Self {
        if self.recv_result() is Ok {
            QueueState { values: self.values.drop_first(), ..self }
        } else {
            self
        }
    }

    /// There is one more sending handle. The count wraps around.
    pub open spec fn add_tx(self) -> Self {
        QueueState { tx_count: wrapping_increment(self.tx_count), ..self }
    }

    /// There is one more receiving handle. The count wraps around.
    pub open spec fn add_rx(self) -> Self {
        QueueState { rx_count: wrapping_increment(self.rx_count), ..self }
    }

    /// A sending handle is gone. The last one closes the head.
    pub open spec fn drop_tx(self) -> Self {
        QueueState {
            tx_count: saturating_decrement(self.tx_count),
            head_closed: self.head_closed || self.tx_count == 1,
            ..self
        }
    }

    /// A receiving handle is gone. The last one closes both ends.
    pub open spec fn drop_rx(self) -> Self {
        QueueState {
            rx_count: saturating_decrement(self.rx_count),
            head_closed: self.head_closed || self.rx_count == 1,
            tail_closed: self.tail_closed || self.rx_count == 1,
            ..self
        }
    }
}

impl<T, const N: usize> View for Queue<T, N> {
    type V = QueueState<T>;

    closed spec fn view(&self) -> QueueState<T> {
        QueueState {
            values: self.ring@.values(),
            head_closed: self.ring@.head_closed,
            tail_closed: self.ring@.tail_closed,
            tx_count: self.ring@.tx_count,
            rx_count: self.ring@.rx_count,
        }
    }
}

/// The next bucket of a settled ring is free unless all are in use, and the
/// oldest one holds a value unless none is in use.
proof fn lemma_settled<T>(s: RingState<T>, n: nat)
    requires
        s.consistent(n),
        s.settled(),
    ensures
        s.values().len() == s.pending,
        s.next_send < n,
        s.slots[s.next_send as int] is Free <==> s.pending < n,
        s.slots[s.next_recv as int] is Published <==> s.pending > 0,
{
    lemma_at(n, s.next_recv, 0);
    assert(s.slots[at(n, s.next_recv, 0) as int] == s.slots[s.next_recv as int]);
    if s.pending < n {
        lemma_at(n, s.next_recv, s.pending);
        assert(s.slots[at(n, s.next_recv, s.pending) as int] == s.slots[s.next_send as int]);
    } else {
        lemma_mod_add_multiples_vanish(s.next_recv as int, n as int);
        lemma_small_mod(s.next_recv, n);
    }
}

/// Sending to a settled ring puts the value behind all others.
proof fn lemma_settled_send<T>(s: RingState<T>, n: nat, v: T)
    requires
        s.consistent(n),
        s.settled(),
        s.slots[s.next_send as int] is Free,
    ensures
        s.claim().with_slot(s.next_send as int, Slot::Published(Some(v))).settled(),
        s.claim().with_slot(s.next_send as int, Slot::Published(Some(v))).values() == s.values().push(v),
{
    lemma_settled(s, n);
    law_claim(s, n);
    lemma_at(n, s.next_recv, s.pending);
    law_item_changed(s.claim(), n, s.next_send, Slot::Published(Some(v)));
    let u = s.claim().with_slot(s.next_send as int, Slot::Published(Some(v)));
    assert(u.values() =~= s.values().push(v));
}

/// Receiving from a settled ring takes the oldest value.
proof fn lemma_settled_recv<T>(s: RingState<T>, n: nat)
    requires
        s.consistent(n),
        s.settled(),
        s.slots[s.next_recv as int] is Published,
    ensures
        s.values().len() > 0,
        s.values()[0] == s.slots[s.next_recv as int]->Published_0->0,
        s.take().with_slot(s.next_recv as int, Slot::Free(None)).settled(),
        s.take().with_slot(s.next_recv as int, Slot::Free(None)).values() == s.values().drop_first(),
{
    lemma_settled(s, n);
    law_take(s, n);
    law_items_kept(s.take(), n, s.next_recv, Slot::Free(None));
    let u = s.take().with_slot(s.next_recv as int, Slot::Free(None));
    assert(u.values() =~= s.values().drop_first());
}

impl<T, const N: usize> Queue<T, N> {
    #[verifier::type_invariant]
    spec fn inv(self) -> bool {
        &&& self.ring.wf()
        &&& self.ring@.settled()
        &&& self.ring@.tail_closed ==> self.ring@.head_closed
    }

    /// The ring, whose words and stamps the view leaves out.
    pub closed spec fn ring(&self) -> Inner<T, N> {
        self.ring
    }

    /// What the view has from the ring.
    pub proof fn law_ring(&self)
        ensures
            self@.values == self.ring()@.values(),
            self@.head_closed == self.ring()@.head_closed,
            self@.tail_closed == self.ring()@.tail_closed,
            self@.tx_count == self.ring()@.tx_count,
            self@.rx_count == self.ring()@.rx_count,
    {
    }

    /// An empty queue with one handle on each side.
    pub fn new() -> (r: Self)
        requires
            valid_capacity(N),
        ensures
            r@ == QueueState::<T>::fresh(),
            r.ring().wf(),
            r.ring().has_lap_left(),
            r.ring().words_fresh(),
    {
        let ring: Inner<T, N> = Inner::new();
        proof {
            assert(ring@.values() =~= Seq::empty());
        }
        Queue { ring }
    }

    /// Puts the value in `val` at the back, if there is room and senders are
    /// not refused. Otherwise the value stays where it is.
    pub fn try_send(&mut self, val: &mut Option<T>) -> (r: Result<(), TxError>)
        requires
            *old(val) is Some || old(self)@.send_result(N as nat) is Err,
        ensures
            old(self)@.values.len() <= N,
            old(self).ring().wf(),
            final(self).ring().wf(),
            r == old(self)@.send_result(N as nat),
            final(self)@ == old(self)@.after_send(N as nat, (*old(val))->0),
            r is Err ==> final(self).ring() == old(self).ring(),
            r is Ok && old(self).ring().has_lap_left()
                ==> final(self).ring().words_sent(old(self).ring()),
            *final(val) == (if r is Ok {
                None
            } else {
                *old(val)
            }),
    {
        proof {
            use_type_invariant(&*self);
            self.ring.law_consistent();
            lemma_settled(self.ring@, N as nat);
            if self.ring@.slots[self.ring@.next_send as int] is Free {
                lemma_settled_send(self.ring@, N as nat, (*val)->0);
            }
        }
        self.ring.try_send(val)
    }

    /// Whether a value would be taken in.
    pub fn has_room(&self) -> (r: bool)
        ensures
            self@.values.len() <= N,
            self.ring().wf(),
            r == (self@.send_result(N as nat) is Ok),
    {
        proof {
            use_type_invariant(self);
            self.ring.law_consistent();
            lemma_settled(self.ring@, N as nat);
        }
        self.ring.has_room()
    }

    /// Takes the value at the front.
    pub fn try_recv(&mut self) -> (r: Result<T, RxError>)
        ensures
            old(self)@.values.len() <= N,
            old(self).ring().wf(),
            final(self).ring().wf(),
            r == old(self)@.recv_result(),
            final(self)@ == old(self)@.after_recv(),
            r is Err ==> final(self).ring() == old(self).ring(),
            r is Ok ==> final(self).ring().words_received(old(self).ring()),
    {
        proof {
            use_type_invariant(&*self);
            self.ring.law_consistent();
            lemma_settled(self.ring@, N as nat);
            if self.ring@.slots[self.ring@.next_recv as int] is Published {
                lemma_settled_recv(self.ring@, N as nat);
            }
        }
        self.ring.try_recv()
    }

    /// One attempt of a receiver that would rather wait than be refused.
    pub fn recv_step(&mut self) -> (r: RecvStep<T>)
        ensures
            old(self)@.values.len() <= N,
            old(self).ring().wf(),
            final(self).ring().wf(),
            r == (match old(self)@.recv_result() {
                Ok(v) => RecvStep::Done(Ok::<T, RxError>(v)),
                Err(_) => if old(self)@.stuck() {
                    RecvStep::Again
                } else {
                    RecvStep::Wait
                },
            }),
            final(self)@ == old(self)@.after_recv(),
            !(r is Done) ==> final(self).ring() == old(self).ring(),
            r is Done ==> final(self).ring().words_received(old(self).ring()),
    {
        proof {
            use_type_invariant(&*self);
            self.ring.law_consistent();
            self.ring.law_just_inserted();
            lemma_settled(self.ring@, N as nat);
            if self.ring@.slots[self.ring@.next_recv as int] is Published {
                lemma_settled_recv(self.ring@, N as nat);
            }
        }
        self.ring.recv_step()
    }

    /// Counts one more sending handle.
    pub fn add_tx(&mut self)
        ensures
            final(self)@ == old(self)@.add_tx(),
            old(self).ring().wf(),
            final(self).ring().wf(),
            final(self).ring().words_kept(old(self).ring()),
    {
        proof {
            use_type_invariant(&*self);
        }
        self.ring.add_tx();
        proof {
            assert(self.ring@.items() =~= old(self).ring@.items());
        }
    }

    /// Counts one more receiving handle.
    pub fn add_rx(&mut self)
        ensures
            final(self)@ == old(self)@.add_rx(),
            old(self).ring().wf(),
            final(self).ring().wf(),
            final(self).ring().words_kept(old(self).ring()),
    {
        proof {
            use_type_invariant(&*self);
        }
        self.ring.add_rx();
        proof {
            assert(self.ring@.items() =~= old(self).ring@.items());
        }
    }

    /// Counts one sending handle less.
    pub fn drop_tx(&mut self)
        ensures
            final(self)@ == old(self)@.drop_tx(),
            old(self).ring().wf(),
            final(self).ring().wf(),
            final(self).ring().words_tx_dropped(old(self).ring()),
        opens_invariants none
        no_unwind
    {
        proof {
            use_type_invariant(&*self);
        }
        self.ring.drop_tx();
        proof {
            assert(self.ring@.items() =~= old(self).ring@.items());
        }
    }

    /// Counts one receiving handle less.
    pub fn drop_rx(&mut self)
        ensures
            final(self)@ == old(self)@.drop_rx(),
            old(self).ring().wf(),
            final(self).ring().wf(),
            final(self).ring().words_rx_dropped(old(self).ring()),
        opens_invariants none
        no_unwind
    {
        proof {
            use_type_invariant(&*self);
        }
        self.ring.drop_rx();
        proof {
            assert(self.ring@.items() =~= old(self).ring@.items());
        }
    }
}

} // verus!
