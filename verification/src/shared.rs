//! What the handles of a channel share: a lock of `std` around the channel, and
//! the wakers of waiting tasks.
//!
//! The contracts of the handles speak of these functions, to say which lock is
//! taken and which task is woken up. No one but the handles can call them.

use std::sync::{Arc, Mutex, MutexGuard};
use std::task::Waker;
use vstd::prelude::*;

verus! {

/// `std::sync::Mutex`, which gives one thread at a time access to its value.
#[verifier::external_type_specification]
#[verifier::external_body]
#[verifier::reject_recursive_types(T)]
pub struct ExMutex<T: ?Sized>(std::sync::Mutex<T>);

/// `std::sync::MutexGuard`, which holds a mutex until it is dropped.
#[verifier::external_type_specification]
#[verifier::external_body]
#[verifier::reject_recursive_types(T)]
pub struct ExMutexGuard<'a, T: ?Sized + 'a>(std::sync::MutexGuard<'a, T>);

/// `std::cell::Cell`, which a type mentions so as not to be `Sync`.
#[verifier::external_type_specification]
#[verifier::external_body]
#[verifier::reject_recursive_types(T)]
pub struct ExCell<T: ?Sized>(std::cell::Cell<T>);

/// `std::task::Waker`, by which a waiting task is woken up.
#[verifier::external_type_specification]
#[verifier::external_body]
pub struct ExWaker(std::task::Waker);

/// `Mutex::new`: a mutex, unlocked, around `value`.
pub assume_specification<T>[ std::sync::Mutex::<T>::new ](value: T) -> Mutex<T>;

/// `Waker::wake`: wakes up the task that `waker` belongs to.
pub assume_specification[ std::task::Waker::wake ](waker: Waker);

/// `Waker::wake_by_ref`: wakes up the task that `waker` belongs to, and leaves
/// `waker` as it is.
pub assume_specification[ std::task::Waker::wake_by_ref ](waker: &Waker);

/// `Mutex::lock`: waits until the mutex is free and takes it. A mutex whose
/// holder panicked is taken all the same. What it guards is what other threads
/// left there, so nothing is said of it. A thread that holds the mutex already
/// may not lock it again: every caller drops its guard before it runs code that
/// is not of this crate.
#[verifier::external_body]
pub fn lock<'a, T>(mutex: &'a Mutex<T>) -> (guard: MutexGuard<'a, T>)
    opens_invariants none
    no_unwind
{
    match mutex.lock() {
        Ok(guard) => guard,
        Err(poisoned) => poisoned.into_inner(),
    }
}

/// `MutexGuard::deref_mut`: the value that the mutex guards.
#[verifier::external_body]
pub fn guarded<'a, T>(guard: &'a mut MutexGuard<'_, T>) -> (value: &'a mut T)
    opens_invariants none
    no_unwind
{
    &mut **guard
}

/// What a mutex guards, for as long as the guard is borrowed.
pub(crate) fn inside<'a, T>(guard: &'a mut MutexGuard<'_, T>) -> (value: &'a mut T)
    ensures
        exists|g: &mut MutexGuard<'_, T>|
            *g == *old(guard) && #[trigger] call_ensures(guarded::<T>, (g,), value),
    opens_invariants none
    no_unwind
{
    guarded(guard)
}

/// Wakes up a task, if there is one, by a waker that others have too.
pub(crate) fn wake_by_ref(waker: Option<Arc<Waker>>)
    ensures
        waker matches Some(w) ==> call_ensures(Waker::wake_by_ref, (&*w,), ()),
{
    match waker {
        Some(waker) => waker.wake_by_ref(),
        None => {},
    }
}

/// Wakes up a task, if there is one.
pub(crate) fn wake(waker: Option<Waker>)
    ensures
        waker matches Some(w) ==> call_ensures(Waker::wake, (w,), ()),
{
    match waker {
        Some(waker) => waker.wake(),
        None => {},
    }
}

} // verus!
