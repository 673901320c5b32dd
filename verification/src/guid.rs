//! Entity identifiers: an identifier is both an entity's primary key and the
//! bearer credential of whoever holds it. The serial half makes identifiers
//! provably unique within one world; the tag half is random entropy that
//! makes them unguessable.
use vstd::prelude::*;

verus! {

/// An opaque entity identifier. `serial` is assigned by the world and is
/// unique across all identifiers the world ever handed out; `tag` is random
/// entropy so that holding a valid identifier cannot be guessed.
#[derive(Clone, Copy, PartialEq, Eq, Structural, Hash, Debug)]
pub struct Guid {
    pub serial: u64,
    pub tag: u64,
}

/// Relies on uuid::Uuid::new_v4 for random bits; nothing is promised of the
/// value, callers treat it as arbitrary.
#[verifier::external_body]
pub(crate) fn random_tag() -> u64 {
    (uuid::Uuid::new_v4().as_u128() >> 64) as u64
}

} // verus!
