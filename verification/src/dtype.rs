//! Storage types of activations.
use vstd::prelude::*;

verus! {

/// The floating-point types that a buffer can hold.
#[derive(Clone, Copy, PartialEq, Eq, Structural, Debug)]
pub enum Dt {
    F32,
    F16,
    Bf16,
}

impl Dt {
    pub open spec fn width(self) -> nat {
        match self {
            Dt::F32 => 4,
            Dt::F16 | Dt::Bf16 => 2,
        }
    }

    /// Bytes per element.
    pub fn bytes(self) -> (n: usize)
        ensures
            n == self.width(),
    {
        match self {
            Dt::F32 => 4,
            Dt::F16 | Dt::Bf16 => 2,
        }
    }

    /// The type in which a cooperative matrix tile stages this one: the matrix
    /// unit mishandles bfloat, and half covers its mantissa.
    pub open spec fn staged(self) -> Dt {
        match self {
            Dt::Bf16 => Dt::F16,
            other => other,
        }
    }

    pub fn coop_stage(self) -> (dt: Dt)
        ensures
            dt == self.staged(),
    {
        match self {
            Dt::Bf16 => Dt::F16,
            Dt::F32 => Dt::F32,
            Dt::F16 => Dt::F16,
        }
    }
}

} // verus!
