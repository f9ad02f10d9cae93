//! Durations in milliseconds.

use vstd::prelude::*;

verus! {

/// A duration in whole milliseconds.
#[derive(Clone, Copy, Debug, PartialEq, Eq, Structural, PartialOrd, Ord, Hash)]
pub struct Milliseconds {
    value: u32,
}

impl View for Milliseconds {
    type V = u32;

    closed spec fn view(&self) -> u32 {
        self.value
    }
}

impl Milliseconds {
    pub fn new(value: u32) -> (r: Milliseconds)
        ensures
            r@ == value,
    {
        Milliseconds { value }
    }

    pub fn zero() -> (r: Milliseconds)
        ensures
            r@ == 0,
    {
        Milliseconds { value: 0 }
    }

    /// The smallest duration.
    pub fn neg_inf() -> (r: Milliseconds)
        ensures
            r@ == 0,
    {
        Milliseconds { value: u32::MIN }
    }

    /// The largest duration, standing for "unreachable".
    pub fn inf() -> (r: Milliseconds)
        ensures
            r@ == u32::MAX,
    {
        Milliseconds { value: u32::MAX }
    }

    /// The number of milliseconds.
    pub fn value(&self) -> (r: u32)
        ensures
            r == self@,
    {
        self.value
    }

    /// Sum of two durations.
    pub fn add(self, other: Milliseconds) -> (r: Milliseconds)
        requires
            self@ + other@ <= u32::MAX,
        ensures
            r@ == self@ + other@,
    {
        Milliseconds { value: self.value + other.value }
    }

    pub fn add_assign(&mut self, other: Milliseconds)
        requires
            old(self)@ + other@ <= u32::MAX,
        ensures
            final(self)@ == old(self)@ + other@,
    {
        self.value = self.value + other.value;
    }

    /// The duration taken `scale` times.
    pub fn mul(self, scale: u32) -> (r: Milliseconds)
        requires
            self@ * scale <= u32::MAX,
        ensures
            r@ == self@ * scale,
    {
        proof {
            assert(scale * self.value == self.value * scale) by (nonlinear_arith);
        }
        Milliseconds { value: self.value * scale }
    }

    pub fn mul_assign(&mut self, scale: u32)
        requires
            old(self)@ * scale <= u32::MAX,
        ensures
            final(self)@ == old(self)@ * scale,
    {
        self.value = self.value * scale;
    }
}

impl From<u8> for Milliseconds {
    fn from(value: u8) -> (r: Milliseconds)
        ensures
            r@ == value,
    {
        Milliseconds { value: value as u32 }
    }
}

impl vstd::std_specs::convert::FromSpecImpl<u8> for Milliseconds {
    open spec fn obeys_from_spec() -> bool {
        true
    }

    closed spec fn from_spec(value: u8) -> Milliseconds {
        Milliseconds { value: value as u32 }
    }
}

impl From<u16> for Milliseconds {
    fn from(value: u16) -> (r: Milliseconds)
        ensures
            r@ == value,
    {
        Milliseconds { value: value as u32 }
    }
}

impl vstd::std_specs::convert::FromSpecImpl<u16> for Milliseconds {
    open spec fn obeys_from_spec() -> bool {
        true
    }

    closed spec fn from_spec(value: u16) -> Milliseconds {
        Milliseconds { value: value as u32 }
    }
}

impl From<u32> for Milliseconds {
    fn from(value: u32) -> (r: Milliseconds)
        ensures
            r@ == value,
    {
        Milliseconds { value }
    }
}

impl vstd::std_specs::convert::FromSpecImpl<u32> for Milliseconds {
    open spec fn obeys_from_spec() -> bool {
        true
    }

    closed spec fn from_spec(value: u32) -> Milliseconds {
        Milliseconds { value }
    }
}

} // verus!
