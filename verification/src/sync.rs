//! The storage that graph handles share: a spin lock behind a reference count.
//!
//! Nothing in this module is proved. Each function is one call into `spin` or
//! into `std::sync::Arc`, and what it says of the call is stated in its
//! documentation. Of what a lock holds they say nothing: another handle may
//! have changed it since this one last looked.
use spin::Mutex;
use spin::MutexGuard;
use std::sync::Arc;
use vstd::prelude::*;

verus! {

/// `spin::Mutex`, a lock that waits by spinning.
#[verifier::external_type_specification]
#[verifier::external_body]
#[verifier::reject_recursive_types(T)]
#[verifier::reject_recursive_types(R)]
pub struct ExMutex<T: ?Sized, R>(spin::mutex::Mutex<T, R>);

/// `spin::relax::Spin`, the way in which a `spin::Mutex` waits unless told
/// otherwise.
#[verifier::external_type_specification]
#[verifier::external_body]
pub struct ExSpin(spin::relax::Spin);

/// `spin::MutexGuard`, the right to use what a locked `spin::Mutex` holds.
#[verifier::external_type_specification]
#[verifier::external_body]
#[verifier::reject_recursive_types(T)]
pub struct ExMutexGuard<'a, T: 'a + ?Sized>(spin::mutex::MutexGuard<'a, T>);

/// `spin::Mutex::new`: a lock that holds `value`. Nothing is claimed of it.
#[verifier::external_body]
pub(crate) fn new_mutex<T>(value: T) -> (mutex: Mutex<T>) {
    Mutex::new(value)
}

/// `spin::Mutex::lock`: waits until the lock is free and takes it. The lock is
/// given back when the guard is dropped. Nothing is claimed of what the lock
/// holds at that moment. The call does not return while the caller itself
/// holds the lock: no function of this crate asks for a lock that it holds.
#[verifier::external_body]
pub(crate) fn lock<'a, T>(mutex: &'a Mutex<T>) -> (guard: MutexGuard<'a, T>) {
    mutex.lock()
}

/// `DerefMut::deref_mut` of `spin::MutexGuard`: what the locked mutex holds,
/// to read and to change. Nothing is claimed of what is found there.
#[verifier::external_body]
pub(crate) fn guarded<'a, 'b, T>(guard: &'a mut MutexGuard<'b, T>) -> (held: &'a mut T) {
    &mut *guard
}

/// `spin::Mutex::get_mut`: what the mutex holds, without locking, for a caller
/// that has the mutex to itself. Nothing is claimed of what is found there.
#[verifier::external_body]
pub(crate) fn unlocked<'a, T>(mutex: &'a mut Mutex<T>) -> (held: &'a mut T) {
    mutex.get_mut()
}

/// `Arc::get_mut`: the shared value itself if this handle is the only one to
/// it, and `None` if there are others, in which case nothing changes.
#[verifier::external_body]
pub(crate) fn sole_owner<'a, T>(handle: &'a mut Arc<T>) -> (owned: Option<&'a mut T>)
    ensures
        match owned {
            Some(value) => *value == **old(handle) && **final(handle) == *final(value),
            None => *final(handle) == *old(handle),
        },
{
    Arc::get_mut(handle)
}

/// `Arc::ptr_eq`: whether two handles lead to the same storage. The answer
/// depends on where the storage lies, so nothing is claimed of it.
#[verifier::external_body]
pub(crate) fn same_storage<T>(a: &Arc<T>, b: &Arc<T>) -> (same: bool) {
    Arc::ptr_eq(a, b)
}

/// `Arc::clone`: one more handle to the same storage.
#[verifier::external_body]
pub(crate) fn share<T>(handle: &Arc<T>) -> (other: Arc<T>)
    ensures
        other == *handle,
{
    Arc::clone(handle)
}

} // verus!
