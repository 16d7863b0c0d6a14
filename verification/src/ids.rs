//! Opaque identifiers of restreams and of their outputs.
//!
//! An identifier is a 128-bit universally unique value, freshly drawn for
//! every created restream or output and never reused.

use vstd::prelude::*;

verus! {

/// ID of a restream (one input with its outputs).
#[derive(Clone, Copy, Debug, PartialEq, Eq, Structural)]
pub struct InputId(pub u128);

impl View for InputId {
    type V = u128;

    open spec fn view(&self) -> u128 {
        self.0
    }
}

impl InputId {
    /// Generates a fresh random ID.
    ///
    /// Relies on `uuid::Uuid::new_v4`: a randomly generated version-4 UUID;
    /// nothing is promised of the drawn value.
    #[verifier::external_body]
    pub fn new() -> Self {
        Self(uuid::Uuid::new_v4().as_u128())
    }

    /// Rebuilds an ID from its 128 bits, as kept in the journal.
    pub fn from_u128(v: u128) -> (r: Self)
        ensures
            r@ == v,
    {
        InputId(v)
    }

    /// The 128 bits of this ID.
    pub fn as_u128(&self) -> (r: u128)
        ensures
            r == self@,
    {
        self.0
    }
}

/// ID of an output destination within a restream.
#[derive(Clone, Copy, Debug, PartialEq, Eq, Structural)]
pub struct OutputId(pub u128);

impl View for OutputId {
    type V = u128;

    open spec fn view(&self) -> u128 {
        self.0
    }
}

impl OutputId {
    /// Generates a fresh random ID.
    ///
    /// Relies on `uuid::Uuid::new_v4`: a randomly generated version-4 UUID;
    /// nothing is promised of the drawn value.
    #[verifier::external_body]
    pub fn new() -> Self {
        Self(uuid::Uuid::new_v4().as_u128())
    }

    /// Rebuilds an ID from its 128 bits, as kept in the journal.
    pub fn from_u128(v: u128) -> (r: Self)
        ensures
            r@ == v,
    {
        OutputId(v)
    }

    /// The 128 bits of this ID.
    pub fn as_u128(&self) -> (r: u128)
        ensures
            r == self@,
    {
        self.0
    }
}

} // verus!
