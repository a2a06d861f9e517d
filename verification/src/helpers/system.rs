//! What the library takes from outside without proof: the wall clock,
//! randomness, and a few operations of the standard library.

use std::sync::Arc;
use vstd::prelude::*;

verus! {

/// `chrono::Utc::now`, read with `DateTime::timestamp_micros`: the wall clock
/// in microseconds since the Unix epoch. Nothing is claimed of the reading.
/// The call expects the system clock to stand at or after the epoch.
#[verifier::external_body]
pub(crate) fn utc_now_micros() -> (micros: i64) {
    chrono::Utc::now().timestamp_micros()
}

/// `rand::Rng::gen` on `rand::thread_rng`: 128 random bits. Nothing is
/// claimed of them. The call expects the operating system to seed the
/// generator.
#[verifier::external_body]
pub(crate) fn random_u128() -> (bits: u128) {
    rand::Rng::gen(&mut rand::thread_rng())
}

/// `uuid::Uuid::new_v4`, read with `Uuid::as_u128`: a random identifier of
/// version 4. Its version field holds 4 and its variant field the bits 10;
/// of the other 122 bits, which are random, nothing is claimed. The call
/// expects the operating system to provide randomness.
#[verifier::external_body]
pub(crate) fn random_uuid_bits() -> (bits: u128)
    ensures
        bits & 0xF000_0000_0000_0000_0000 == 0x4000_0000_0000_0000_0000,
        bits & 0xC000_0000_0000_0000 == 0x8000_0000_0000_0000,
{
    uuid::Uuid::new_v4().as_u128()
}

/// `Arc::clone`: another handle to the same value.
#[verifier::external_body]
pub(crate) fn share<T>(handle: &Arc<T>) -> (other: Arc<T>)
    ensures
        other == *handle,
{
    Arc::clone(handle)
}

/// `String::push`: appends one character.
#[verifier::external_body]
pub(crate) fn push_char(text: &mut String, c: char)
    ensures
        final(text)@ == old(text)@.push(c),
{
    text.push(c)
}

} // verus!
