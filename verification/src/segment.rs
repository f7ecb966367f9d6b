//! Numbers of pages inside a segment.

use vstd::prelude::*;

verus! {

/// The number of a page in its segment. It is never zero: zero stands for
/// "no page" wherever a page number is stored.
#[derive(Debug, Clone, Copy, PartialEq, Eq, Structural, Hash)]
pub struct PageNumber {
    value: u32,
}

impl PageNumber {
    #[verifier::type_invariant]
    spec fn inv(&self) -> bool {
        self.value != 0
    }

    /// The number as an integer.
    pub closed spec fn value(self) -> u32 {
        self.value
    }

    /// The page number `value`, unless `value` is zero.
    pub fn new(value: u32) -> (number: Option<Self>)
        ensures
            value == 0 <==> number is None,
            number matches Some(n) ==> n.value() == value,
    {
        if value == 0 {
            None
        } else {
            Some(Self { value })
        }
    }

    /// The number as an integer, which is not zero.
    pub fn get(self) -> (value: u32)
        ensures
            value == self.value(),
            value != 0,
    {
        proof {
            use_type_invariant(self);
        }
        self.value
    }
}

} // verus!
