//! Types and calls of `bytes`, `tokio` and `std` that the broker core uses,
//! with the contracts the rest of the crate relies on.
use vstd::prelude::*;

use bytes::Bytes;
use tokio::sync::mpsc::Sender;

verus! {

/// `bytes::Bytes`, an immutable shared byte buffer.
#[verifier::external_type_specification]
#[verifier::external_body]
pub struct ExBytes(Bytes);

/// `tokio::sync::mpsc::Sender`, the sending half of a bounded channel.
#[verifier::external_type_specification]
#[verifier::external_body]
#[verifier::reject_recursive_types(T)]
pub struct ExSender<T>(Sender<T>);

/// `std::sync::Mutex`, a mutual exclusion lock.
#[verifier::external_type_specification]
#[verifier::external_body]
#[verifier::reject_recursive_types(T)]
pub struct ExMutex<T: ?Sized>(std::sync::Mutex<T>);

/// `std::io::Error`, the error of an I/O operation.
#[verifier::external_type_specification]
#[verifier::external_body]
pub struct ExIoError(std::io::Error);

/// The bytes held by a `Bytes` buffer.
pub uninterp spec fn bytes_content(b: Bytes) -> Seq<u8>;

/// `<Bytes as Clone>::clone`: a new handle to the same bytes.
pub assume_specification[ <Bytes as Clone>::clone ](b: &Bytes) -> (r: Bytes)
    ensures
        bytes_content(r) == bytes_content(*b),
;

/// Calls `Bytes::copy_from_slice`: the new buffer holds a copy of `data`.
#[verifier::external_body]
pub fn bytes_copy_from_slice(data: &[u8]) -> (r: Bytes)
    ensures
        bytes_content(r) == data@,
{
    Bytes::copy_from_slice(data)
}

/// Calls `<Bytes as From<Vec<u8>>>::from`: the buffer takes over the vector's bytes.
#[verifier::external_body]
pub fn bytes_from_vec(v: Vec<u8>) -> (r: Bytes)
    ensures
        bytes_content(r) == v@,
{
    Bytes::from(v)
}

/// Calls `<Bytes as Deref>::deref`: a view of the buffer's bytes.
#[verifier::external_body]
pub fn bytes_as_slice(b: &Bytes) -> (r: &[u8])
    ensures
        r@ == bytes_content(*b),
{
    b
}

/// `<Sender<T> as Clone>::clone`. The clone sends into the same channel as
/// `tx`; contracts in this crate identify a sender with the channel it sends
/// into, so the clone is stated equal to `tx`.
pub assume_specification<T>[ <Sender<T> as Clone>::clone ](tx: &Sender<T>) -> (r: Sender<T>)
    ensures
        r == *tx,
;

/// Calls `Sender::same_channel`: whether both senders send into one channel.
/// With senders identified by their channel (see the specification of `Sender::clone`), that is
/// equality.
#[verifier::external_body]
pub fn sender_same_channel<T>(a: &Sender<T>, b: &Sender<T>) -> (r: bool)
    ensures
        r == (*a == *b),
{
    a.same_channel(b)
}

/// Calls `<std::io::Error as ToString>::to_string`. The text depends on how
/// the error was made (for an operating system error, on the system's message
/// for its code), so nothing is stated of it.
#[verifier::external_body]
pub fn io_error_text(e: &std::io::Error) -> String {
    e.to_string()
}

/// Calls `std::sync::Mutex::new`. Nothing is stated of the lock's contents:
/// they are only reached by locking, outside verified code.
#[verifier::external_body]
pub fn new_mutex<T>(value: T) -> std::sync::Mutex<T> {
    std::sync::Mutex::new(value)
}

} // verus!
