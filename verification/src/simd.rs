//! Adding two rows of numbers place by place.

use vstd::prelude::*;

verus! {

/// Every sum of `a` and `b`, place by place, fits an `i32`.
pub open spec fn sums_fit(a: Seq<i32>, b: Seq<i32>) -> bool {
    forall|i: int| 0 <= i < a.len() ==> i32::MIN <= #[trigger] (a[i] + b[i]) <= i32::MAX
}

/// Adds `a` and `b` place by place, one number at a time.
///
/// `b` has a number for each number of `a`, and each sum fits an `i32`.
pub fn add_numbers_slow(a: &[i32], b: &[i32]) -> (result: Vec<i32>)
    requires
        a@.len() <= b@.len(),
        sums_fit(a@, b@),
    ensures
        result@.len() == a@.len(),
        forall|i: int| 0 <= i < a@.len() ==> #[trigger] result@[i] == a@[i] + b@[i],
{
    let mut result: Vec<i32> = Vec::new();
    let mut i: usize = 0;
    while i < a.len()
        invariant
            i <= a@.len(),
            a@.len() <= b@.len(),
            sums_fit(a@, b@),
            result@.len() == i,
            forall|k: int| 0 <= k < i ==> #[trigger] result@[k] == a@[k] + b@[k],
        decreases a@.len() - i,
    {
        assert(i32::MIN <= a@[i as int] + b@[i as int] <= i32::MAX);
        result.push(a[i] + b[i]);
        i += 1;
    }
    result
}

/// The worked example: `[1, 2, 3, 4, 5]` and `[10, 20, 30, 40, 50]` add up to
/// `[11, 22, 33, 44, 55]`.
pub fn example() -> (result: Vec<i32>)
    ensures
        result@ == seq![11i32, 22, 33, 44, 55],
{
    let small_a: [i32; 5] = [1, 2, 3, 4, 5];
    let small_b: [i32; 5] = [10, 20, 30, 40, 50];
    let result = add_numbers_slow(&small_a, &small_b);
    assert(result@ =~= seq![11i32, 22, 33, 44, 55]);
    result
}

} // verus!
