//! The calculator service.

use vstd::prelude::*;

verus! {

/// The calculator service.
#[derive(Debug, Default)]
pub struct CalculatorService {}

impl CalculatorService {
    /// The sum of `a` and `b`, which fits an `i32`.
    pub fn add(&self, a: i32, b: i32) -> (result: i32)
        requires
            i32::MIN <= a + b <= i32::MAX,
        ensures
            result == a + b,
    {
        a + b
    }
}

} // verus!
