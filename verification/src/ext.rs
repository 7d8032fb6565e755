//! Trusted boundary to the outside crates the core leans on.
//!
//! Each item here makes exactly one outside call; its contract is what that
//! call's source and documentation promise, and nothing in this module is
//! checked by the verifier.

use vstd::prelude::*;

verus! {

/// Outbound queue endpoint of one connection: tokio's multi-producer handle
/// into the channel that the connection's writer task drains.
#[verifier::external_type_specification]
#[verifier::external_body]
#[verifier::reject_recursive_types(T)]
pub struct ExUnboundedSender<T>(tokio::sync::mpsc::UnboundedSender<T>);

/// Relies on `tokio::sync::mpsc::UnboundedSender::clone`: a clone is a
/// handle to the same channel as the original, so it stands for the same
/// queue endpoint.
#[verifier::external_body]
pub(crate) fn clone_sender(
    tx: &tokio::sync::mpsc::UnboundedSender<String>,
) -> (r: tokio::sync::mpsc::UnboundedSender<String>)
    ensures
        r == *tx,
{
    tx.clone()
}

/// Relies on `tokio::sync::mpsc::UnboundedSender::send`: the payload is
/// enqueued and `Ok` comes back unless the receiving half has been dropped.
/// Whether that has happened cannot be known here, so nothing is promised of
/// the outcome; callers treat delivery as best-effort.
#[verifier::external_body]
pub(crate) fn send_text(
    tx: &tokio::sync::mpsc::UnboundedSender<String>,
    payload: String,
) -> (delivered: bool) {
    tx.send(payload).is_ok()
}

/// Relies on `uuid::Uuid::new_v4` and `uuid::Uuid::as_u128`: a freshly drawn
/// random 128-bit identifier. Randomness promises nothing a proof could lean
/// on, so no clause is stated; the registry itself refuses a duplicate.
#[verifier::external_body]
pub(crate) fn fresh_id() -> (id: u128) {
    uuid::Uuid::new_v4().as_u128()
}

/// Relies on `char::from_u32`: `Some` exactly on Unicode scalar values —
/// everything but the surrogate range and values past the maximum — and
/// the returned character carries the given value.
#[verifier::external_body]
pub(crate) fn char_from_u32(v: u32) -> (r: Option<char>)
    ensures
        r matches Some(c) ==> c as u32 == v,
        r is Some <==> (v < 0xD800 || (0xE000 <= v && v <= 0x10FFFF)),
{
    char::from_u32(v)
}

/// Relies on `String`'s `FromIterator<char>`: collecting yields the string
/// of exactly these characters in order.
#[verifier::external_body]
pub(crate) fn string_from_chars(chars: &Vec<char>) -> (r: String)
    ensures
        r@ == chars@,
{
    chars.iter().collect()
}

} // verus!
