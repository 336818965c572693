//! The boundary to an embedded foreign interpreter.
//!
//! Verification stops at the foreign-function boundary: every value that crosses
//! from foreign code is a trusted axiom, never a verified step. Such values are
//! wrapped in [`Trusted`], whose provenance is always [`Provenance::Trusted`],
//! and there is no path from a `Trusted` value to a verified one.

use vstd::prelude::*;

verus! {

/// Where a value came from. `Verified` is reserved for kernels backed by a
/// machine-checked certificate; anything obtained through foreign code is
/// `Trusted`.
#[derive(Clone, Copy, Debug, PartialEq, Eq, Structural)]
pub enum Provenance {
    /// Produced and checked entirely inside JEFF.
    Verified,
    /// Obtained through foreign code: an axiom, not a proof.
    Trusted,
}

/// A value obtained across the foreign boundary. It can only ever be trusted:
/// constructing one asserts nothing about correctness.
#[derive(Clone, Copy, Debug, PartialEq, Eq)]
pub struct Trusted<T> {
    value: T,
}

impl<T> Trusted<T> {
    /// The wrapped value.
    pub closed spec fn value_spec(self) -> T {
        self.value
    }

    /// Wraps a foreign value. Always `Trusted` provenance.
    pub fn new(value: T) -> (t: Self)
        ensures
            t.value_spec() == value,
    {
        Trusted { value }
    }

    /// The provenance is always [`Provenance::Trusted`].
    pub fn provenance(&self) -> (p: Provenance)
        ensures
            p == Provenance::Trusted,
    {
        Provenance::Trusted
    }

    /// Reads the underlying value (the caller acknowledges it is unverified).
    pub fn get(&self) -> (v: &T)
        ensures
            *v == self.value_spec(),
    {
        &self.value
    }

    /// Consumes the wrapper and returns the underlying value.
    pub fn into_inner(self) -> (v: T)
        ensures
            v == self.value_spec(),
    {
        self.value
    }
}

/// An error raised by the embedded interpreter (its exception text), or a
/// marshalling failure at the boundary.
#[derive(Clone, Debug, PartialEq, Eq)]
pub struct PyError(pub String);

impl PyError {
    /// The error as shown to a user: `python: <text>`.
    pub fn to_text(&self) -> (s: String)
        ensures
            s@ == "python: "@ + self.0@,
    {
        let mut s = crate::text::str_to_string("python: ");
        crate::text::push_str(&mut s, self.0.as_str());
        s
    }
}

} // verus!
