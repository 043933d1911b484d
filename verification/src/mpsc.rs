//! Channel for one receiver.

use crate::shared::{guarded, inside, lock};
use crate::sync::content;
use std::mem::ManuallyDrop;
use std::sync::{Arc, Mutex, MutexGuard};
use vstd::prelude::*;

verus! {

/// The places for values, and which of them are next. What is in the places is
/// not dropped.
pub struct Inner<T, const N: usize> {
    bucket: Vec<Option<ManuallyDrop<T>>>,
    /// A place next sender will write to.
    head: usize,
    /// A place receiver will read from.
    tail: usize,
}

/// What is in each place, and which places are next.
#[verifier::ext_equal]
pub struct PlacesState<T> {
    pub places: Seq<Option<T>>,
    pub head: usize,
    pub tail: usize,
}

impl<T> PlacesState<T> {
    /// Empty places, of which the first is next.
    pub open spec fn fresh(n: nat) -> Self {
        PlacesState { places: Seq::new(n, |i: int| None), head: 0, tail: 0 }
    }

    /// The places after `v` was written to the one at the head.
    pub open spec fn after_send(self, v: Option<T>) -> Self {
        PlacesState { places: self.places.update(self.head as int, v), ..self }
    }
}

impl<T, const N: usize> View for Inner<T, N> {
    type V = PlacesState<T>;

    closed spec fn view(&self) -> PlacesState<T> {
        PlacesState {
            places: Seq::new(self.bucket@.len(), |i: int| content(self.bucket@[i])),
            head: self.head,
            tail: self.tail,
        }
    }
}

impl<T, const N: usize> Inner<T, N> {
    #[verifier::type_invariant]
    spec fn inv(self) -> bool {
        self.bucket@.len() == N && self.head == 0
    }

    /// Empty places, of which the first is next.
    pub fn new() -> (r: Self)
        ensures
            r@ == PlacesState::<T>::fresh(N as nat),
    {
        let mut bucket: Vec<Option<ManuallyDrop<T>>> = Vec::new();
        while bucket.len() < N
            invariant
                bucket@.len() <= N,
                forall|i: int| 0 <= i < bucket@.len() ==> (#[trigger] bucket@[i]) is None,
            decreases N - bucket@.len(),
        {
            bucket.push(None);
        }
        let r = Inner { bucket, head: 0, tail: 0 };
        proof {
            assert(r@.places =~= PlacesState::<T>::fresh(N as nat).places);
        }
        r
    }

    /// Writes a value to the place at the head, over what was there.
    pub fn send(&mut self, v: T)
        requires
            1 <= N,
        ensures
            old(self)@.places.len() == N,
            old(self)@.head < N,
            final(self)@ == old(self)@.after_send(Some(v)),
    {
        proof {
            use_type_invariant(&*self);
        }
        let head: usize = self.head;
        let mut place: Option<ManuallyDrop<T>> = Some(ManuallyDrop::new(v));
        std::mem::swap(&mut self.bucket[head], &mut place);
        proof {
            assert(self@.places =~= old(self)@.after_send(Some(v)).places);
        }
    }
}

/// A channel with `N` places.
pub fn channel<T, const N: usize>() -> (r: (Tx<T, N>, Rx<T, N>))
    ensures
        r.0.channel() == r.1.channel(),
        exists|c: Inner<T, N>| {
            &&& #[trigger] c@ == PlacesState::<T>::fresh(N as nat)
            &&& call_ensures(Mutex::<Inner<T, N>>::new, (c,), r.0.channel())
        },
{
    let places: Inner<T, N> = Inner::new();
    let ghost fresh = places;
    let mutex = Mutex::new(places);
    assert(call_ensures(Mutex::<Inner<T, N>>::new, (fresh,), mutex));
    let inner: Arc<Mutex<Inner<T, N>>> = Arc::new(mutex);
    let tx = Tx { inner: inner.clone() };
    let rx = Rx { inner };
    (tx, rx)
}

/// Sending handle of a channel.
#[verifier::reject_recursive_types(T)]
#[verifier::reject_recursive_types(N)]
pub struct Tx<T, const N: usize> {
    inner: Arc<Mutex<Inner<T, N>>>,
}

/// Receiving handle of a channel.
#[verifier::reject_recursive_types(T)]
#[verifier::reject_recursive_types(N)]
pub struct Rx<T, const N: usize> {
    inner: Arc<Mutex<Inner<T, N>>>,
}

impl<T, const N: usize> Tx<T, N> {
    /// The channel that the handle is on.
    pub closed spec fn channel(&self) -> Mutex<Inner<T, N>> {
        *self.inner
    }

    /// Writes a value to the place at the head, which there must be.
    pub fn send(&self, v: T)
        requires
            1 <= N,
        ensures
            exists|
                g: MutexGuard<'_, Inner<T, N>>,
                gm: &mut MutexGuard<'_, Inner<T, N>>,
                c: &mut Inner<T, N>,
            | {
                &&& #[trigger] call_ensures(lock::<Inner<T, N>>, (&self.channel(),), g)
                &&& *gm == g
                &&& #[trigger] call_ensures(guarded::<Inner<T, N>>, (gm,), c)
                &&& (*c)@.places.len() == N
                &&& (*c)@.head < N
                &&& (*final(c))@ == (*c)@.after_send(Some(v))
            },
    {
        let mut guard = lock(&self.inner);
        assert(call_ensures(lock::<Inner<T, N>>, (&self.channel(),), guard));
        let inner = inside(&mut guard);
        inner.send(v);
    }
}

impl<T, const N: usize> Rx<T, N> {
    /// The channel that the handle is on.
    pub closed spec fn channel(&self) -> Mutex<Inner<T, N>> {
        *self.inner
    }

    /// Receives nothing, whatever was sent.
    pub fn recv(&mut self) -> (r: Option<T>)
        ensures
            r is None,
            final(self).channel() == old(self).channel(),
    {
        None
    }
}

impl<T, const N: usize> Clone for Tx<T, N> {
    fn clone(&self) -> (r: Self)
        ensures
            r.channel() == self.channel(),
    {
        let inner = self.inner.clone();
        Tx { inner }
    }
}

/// New places are empty, and the first is next.
pub proof fn law_fresh<T>(n: nat)
    ensures
        PlacesState::<T>::fresh(n).places.len() == n,
        forall|i: int|
            0 <= i < n ==> (#[trigger] PlacesState::<T>::fresh(n).places[i]) is None,
        PlacesState::<T>::fresh(n).head == 0,
        PlacesState::<T>::fresh(n).tail == 0,
{
}

/// A send writes to the place at the head, and changes nothing else.
pub proof fn law_send_effect<T>(s: PlacesState<T>, v: Option<T>)
    requires
        s.head < s.places.len(),
    ensures
        s.after_send(v).places.len() == s.places.len(),
        s.after_send(v).places[s.head as int] == v,
        forall|i: int|
            0 <= i < s.places.len() && i != s.head ==> #[trigger] s.after_send(v).places[i]
                == s.places[i],
        s.after_send(v).head == s.head,
        s.after_send(v).tail == s.tail,
{
}

} // verus!
