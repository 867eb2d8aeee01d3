//! Shared ownership and deque access, as the standard library provides them.

use std::collections::VecDeque;
use std::sync::Arc;

use vstd::prelude::*;

verus! {

/// `Arc::clone`: another handle on the same value.
#[verifier::external_body]
pub(crate) fn arc_clone<T>(this: &Arc<T>) -> (copy: Arc<T>)
    ensures
        copy == *this,
{
    Arc::clone(this)
}

/// `Arc::get_mut`: the value itself if nothing else holds it, else `None`. Which of the two comes
/// is left open.
#[verifier::external_body]
pub(crate) fn arc_get_mut<T>(this: &mut Arc<T>) -> (value: Option<&mut T>)
    ensures
        match value {
            Some(value) => *value == **old(this) && **final(this) == *final(value),
            None => *final(this) == *old(this),
        },
{
    Arc::get_mut(this)
}

/// `Arc::make_mut`: the value itself if nothing else holds it, else a clone of it that the handle
/// holds from now on. Which of the two it is is left open.
#[verifier::external_body]
pub(crate) fn arc_make_mut<T: Clone>(this: &mut Arc<T>) -> (value: &mut T)
    ensures
        *value == **old(this) || cloned::<T>(**old(this), *value),
        **final(this) == *final(value),
{
    Arc::make_mut(this)
}

/// `Arc::try_unwrap`: the value if nothing else holds it, else the handle. Which of the two comes
/// is left open.
#[verifier::external_body]
pub(crate) fn arc_try_unwrap<T>(this: Arc<T>) -> (result: Result<T, Arc<T>>)
    ensures
        match result {
            Ok(value) => value == *this,
            Err(handle) => handle == this,
        },
{
    Arc::try_unwrap(this)
}

/// `IndexMut::index_mut` on a deque: the item at `index`, for writing. It panics where `index` is
/// past the end.
#[verifier::external_body]
pub(crate) fn deque_slot<T>(deque: &mut VecDeque<T>, index: usize) -> (slot: &mut T)
    requires
        index < old(deque).len(),
    ensures
        *slot == old(deque)@[index as int],
        final(deque)@ == old(deque)@.update(index as int, *final(slot)),
{
    &mut deque[index]
}

} // verus!
