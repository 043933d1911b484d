//! What the channels have in common.

use std::mem::ManuallyDrop;
use vstd::prelude::*;

verus! {

/// Whether a task got what it asked for, or has to wait.
#[derive(PartialEq, Eq, Debug, Structural)]
pub enum Poll<T> {
    Ready(T),
    Pending,
}

/// What is in a bucket whose value is not dropped with it.
pub open spec fn content<T>(bucket: Option<ManuallyDrop<T>>) -> Option<T> {
    match bucket {
        Some(value) => Some(value@),
        None => None,
    }
}

/// Replaces `*word` by `new` if it is `current`, and gives back what it was.
pub(crate) fn compare_exchange(word: &mut usize, current: usize, new: usize) -> (r: Result<
    usize,
    usize,
>)
    ensures
        r == (if *old(word) == current {
            Ok::<usize, usize>(*old(word))
        } else {
            Err::<usize, usize>(*old(word))
        }),
        *final(word) == (if *old(word) == current {
            new
        } else {
            *old(word)
        }),
    no_unwind
{
    let found: usize = *word;
    if found == current {
        *word = new;
        Ok(found)
    } else {
        Err(found)
    }
}

} // verus!
