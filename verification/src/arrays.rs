//! Fixed-size arrays over the boundary: a constant producer and an exact
//! eight-element sum.

use vstd::prelude::*;

verus! {

/// The constant test array one to eight.
pub fn get_fixed_array() -> (r: [i32; 8])
    ensures
        forall|i: int| 0 <= i < 8 ==> r@[i] == i + 1,
{
    let r = [1i32, 2, 3, 4, 5, 6, 7, 8];
    proof {
        assert(r@[0] == 1 && r@[1] == 2 && r@[2] == 3 && r@[3] == 4 && r@[4] == 5 && r@[5] == 6
            && r@[6] == 7 && r@[7] == 8);
    }
    r
}

/// The sum of an eight-element array.
pub fn sum_fixed_array(arr: [i32; 8]) -> (r: i32)
    requires
        i32::MIN <= arr@[0] + arr@[1] + arr@[2] + arr@[3] + arr@[4] + arr@[5] + arr@[6] + arr@[7]
            <= i32::MAX,
    ensures
        r == arr@[0] + arr@[1] + arr@[2] + arr@[3] + arr@[4] + arr@[5] + arr@[6] + arr@[7],
{
    let mut acc: i64 = 0;
    let mut i: usize = 0;
    while i < 8
        invariant
            i <= 8,
            acc == spec_prefix_sum(arr@, i as int),
            -(i as int) * 0x8000_0000 <= acc <= (i as int) * 0x7fff_ffff,
        decreases 8 - i,
    {
        proof {
            assert(i32::MIN <= arr@[i as int] <= i32::MAX);
        }
        acc = acc + (arr[i] as i64);
        i = i + 1;
    }
    proof {
        reveal_with_fuel(spec_prefix_sum, 9);
        assert(spec_prefix_sum(arr@, 8) == arr@[0] + arr@[1] + arr@[2] + arr@[3] + arr@[4]
            + arr@[5] + arr@[6] + arr@[7]);
    }
    acc as i32
}

/// The sum of the first `n` elements.
pub open spec fn spec_prefix_sum(s: Seq<i32>, n: int) -> int
    decreases n,
{
    if n <= 0 {
        0
    } else {
        spec_prefix_sum(s, n - 1) + s[n - 1]
    }
}

} // verus!
