//! What the store takes from std's hasher, tokio's broadcast channels, its
//! wake signal and its clock.

use vstd::prelude::*;
use std::hash::BuildHasher;
use tokio::sync::broadcast::{Receiver, Sender};

verus! {

#[verifier::external_type_specification]
#[verifier::external_body]
#[verifier::reject_recursive_types(T)]
pub struct ExSender<T>(tokio::sync::broadcast::Sender<T>);

#[verifier::external_type_specification]
#[verifier::external_body]
#[verifier::reject_recursive_types(T)]
pub struct ExReceiver<T>(tokio::sync::broadcast::Receiver<T>);

#[verifier::external_type_specification]
#[verifier::external_body]
pub struct ExNotify(tokio::sync::Notify);

#[verifier::external_type_specification]
#[verifier::external_body]
pub struct ExInstant(tokio::time::Instant);

/// tokio::sync::broadcast::channel: a sender and its first receiver. It
/// panics on a capacity of zero or above `usize::MAX >> 1`.
pub assume_specification<T: Clone>[ tokio::sync::broadcast::channel::<T> ](capacity: usize) -> (
    Sender<T>,
    Receiver<T>,
)
    requires
        0 < capacity <= usize::MAX / 2,
;

/// tokio::sync::broadcast::Sender::subscribe: a new receiver of the values
/// sent after the call.
pub assume_specification<T>[ tokio::sync::broadcast::Sender::<T>::subscribe ](
    s: &Sender<T>,
) -> Receiver<T>;

/// tokio::sync::Notify::new: a wake signal with no stored permit.
pub assume_specification[ tokio::sync::Notify::new ]() -> tokio::sync::Notify;

/// tokio::sync::Notify::notify_one: wakes one waiter, or stores a permit.
pub assume_specification[ tokio::sync::Notify::notify_one ](n: &tokio::sync::Notify);

/// tokio::time::Instant::now: the current instant of tokio's clock.
pub assume_specification[ tokio::time::Instant::now ]() -> tokio::time::Instant;

/// What std's default hasher gives for a key hashed as a byte slice.
pub uninterp spec fn key_hash(key: Seq<u8>) -> u64;

/// Relies on `BuildHasher::hash_one` with `BuildHasherDefault<DefaultHasher>`:
/// a `DefaultHasher::new()` fed the slice, then `finish`; every such hasher
/// starts from the same keys, so the result depends on the bytes alone.
#[verifier::external_body]
pub(crate) fn hash_key(key: &[u8]) -> (r: u64)
    ensures
        r == key_hash(key@),
{
    std::hash::BuildHasherDefault::<std::hash::DefaultHasher>::default().hash_one(key)
}

/// Relies on tokio::sync::broadcast::Sender::send, which hands the value to
/// every live receiver and reports their number; an error (no receiver) is
/// reported as zero.
#[verifier::external_body]
pub(crate) fn send_value(s: &Sender<Vec<u8>>, value: Vec<u8>) -> (r: usize) {
    match s.send(value) {
        Ok(n) => n,
        Err(_) => 0,
    }
}

/// Relies on tokio::time::Instant::elapsed: the whole nanoseconds since
/// `origin` on tokio's clock.
#[verifier::external_body]
pub(crate) fn nanos_since(origin: &tokio::time::Instant) -> (r: u64) {
    origin.elapsed().as_nanos() as u64
}

} // verus!
