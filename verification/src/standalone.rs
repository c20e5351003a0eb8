//! Free functions exposed over the boundary: arithmetic, greetings, and a
//! trial-division prime-factor counter with an exact contract.

use vstd::prelude::*;

use vstd::arithmetic::div_mod::lemma_fundamental_div_mod;
use vstd::arithmetic::div_mod::lemma_mod_multiples_basic;
use vstd::arithmetic::power2::lemma2_to64;
use vstd::arithmetic::power2::lemma2_to64_rest;
use vstd::arithmetic::power2::lemma_pow2_strictly_increases;
use vstd::arithmetic::power2::lemma_pow2_unfold;
use vstd::arithmetic::power2::pow2;
use vstd::string::StringExecFns;

verus! {

/// Plain addition.
pub fn global_add(a: i32, b: i32) -> (r: i32)
    requires
        i32::MIN <= a + b <= i32::MAX,
    ensures
        r == a + b,
{
    a + b
}

/// A greeting around the given name.
pub fn global_greet(name: String) -> (r: String)
    ensures
        r@ == "Hello, "@ + name@ + "!"@,
{
    let r = String::from_str("Hello, ").concat(name.as_str()).concat("!");
    proof {
        assert(r@ =~= "Hello, "@ + name@ + "!"@);
    }
    r
}

/// Plain addition over the raw calling convention.
pub fn raw_global_add(a: i32, b: i32) -> (r: i32)
    requires
        i32::MIN <= a + b <= i32::MAX,
    ensures
        r == a + b,
{
    a + b
}

/// Plain addition over the raw calling convention, on the critical path.
pub fn raw_global_add_critical(a: i32, b: i32) -> (r: i32)
    requires
        i32::MIN <= a + b <= i32::MAX,
    ensures
        r == a + b,
{
    a + b
}

/// The well-behaved half of the deliberate-panic probe: the input that asks
/// for a panic is ruled out, every other input gets the fixed answer.
pub fn raw_global_panic(should_panic: u8) -> (r: String)
    requires
        should_panic == 0,
    ensures
        r@ == "Safe"@,
{
    String::from_str("Safe")
}

/// The sum of three unsigned values of different widths.
pub fn test_unsigned(a: u8, b: u32, c: u64) -> (r: u64)
    requires
        a + b + c <= u64::MAX,
    ensures
        r == a + b + c,
{
    (a as u64) + (b as u64) + c
}

/// Plain multiplication.
pub fn global_multiply(a: i32, b: i32) -> (r: i32)
    requires
        i32::MIN <= a * b <= i32::MAX,
    ensures
        r == a * b,
{
    a * b
}

/// The vector of the numbers zero up to `size`.
pub fn get_large_array(size: usize) -> (r: Vec<i32>)
    requires
        size <= i32::MAX,
    ensures
        r@.len() == size,
        forall|i: int| 0 <= i < size ==> r@[i] == i,
{
    let mut r: Vec<i32> = Vec::new();
    let mut i: usize = 0;
    while i < size
        invariant
            i <= size,
            size <= i32::MAX,
            r@.len() == i,
            forall|k: int| 0 <= k < i ==> r@[k] == k,
        decreases size - i,
    {
        r.push(i as i32);
        i = i + 1;
    }
    r
}

/// The number of prime factors of `n`, counted with multiplicity, defined
/// by the upward factor scan itself: divide out each candidate that hits;
/// once the candidate's square exceeds what is left, the remainder is prime
/// (or one and the count is closed).
pub open spec fn spec_factor_count(n: int, d: int) -> int
    decreases n, n - d,
    via spec_factor_count_decreases
{
    if n <= 1 {
        0
    } else if d < 2 {
        spec_factor_count(n, 2)
    } else if d * d > n {
        1
    } else if n % d == 0 {
        1 + spec_factor_count(n / d, d)
    } else {
        spec_factor_count(n, d + 1)
    }
}

#[via_fn]
proof fn spec_factor_count_decreases(n: int, d: int) {
    if n > 1 && d >= 2 && d * d <= n {
        assert(d < n && (n % d == 0 ==> 0 <= n / d < n)) by (nonlinear_arith)
            requires
                n > 1,
                d >= 2,
                d * d <= n,
        ;
    }
}

/// No candidate below `d` divides `n`.
pub open spec fn spec_no_factor_below(n: int, d: int) -> bool {
    forall|e: int| 2 <= e < d ==> #[trigger] (n % e) != 0
}

/// The factor count never goes negative.
proof fn lemma_count_nonneg(n: int, d: int)
    ensures
        spec_factor_count(n, d) >= 0,
    decreases n, n - d,
{
    if n <= 1 {
    } else if d < 2 {
        lemma_count_nonneg(n, 2);
    } else if d * d > n {
    } else if n % d == 0 {
        assert(0 <= n / d < n) by (nonlinear_arith)
            requires
                n > 1,
                d >= 2,
                d * d <= n,
        ;
        lemma_count_nonneg(n / d, d);
    } else {
        assert(d < n) by (nonlinear_arith)
            requires
                d * d <= n,
                d >= 2,
                n > 1,
        ;
        lemma_count_nonneg(n, d + 1);
    }
}

/// A candidate that misses does not change the count.
proof fn lemma_count_skip(n: int, d: int)
    requires
        n >= 1,
        d >= 2,
        n % d != 0,
    ensures
        spec_factor_count(n, d) == spec_factor_count(n, d + 1),
{
    if n > 1 && d * d > n {
        assert((d + 1) * (d + 1) > n) by (nonlinear_arith)
            requires
                d * d > n,
                d >= 2,
        ;
    }
}

/// A candidate divisible by an earlier miss also misses.
proof fn lemma_skip_composite(n: int, s: int, p: int)
    requires
        n >= 0,
        2 <= p < s,
        s % p == 0,
        n % p != 0,
    ensures
        n % s != 0,
{
    if n % s == 0 {
        crate::lemma_mod_chain(n, s, p);
    }
}

/// Dividing out a candidate that hits, while nothing below it divides,
/// takes exactly one factor off the count and keeps the scan's invariant.
proof fn lemma_count_divide(n: int, d: int)
    requires
        n >= 2,
        d >= 2,
        n % d == 0,
        spec_no_factor_below(n, d),
    ensures
        spec_factor_count(n, d) == 1 + spec_factor_count(n / d, d),
        spec_no_factor_below(n / d, d),
        n / d >= 1,
        n / d < n,
{
    lemma_fundamental_div_mod(n, d);
    let k = n / d;
    assert(1 <= k < n) by (nonlinear_arith)
        requires
            n == d * k,
            n >= 2,
            d >= 2,
    ;
    if d * d > n {
        assert(k < d) by (nonlinear_arith)
            requires
                n == d * k,
                d * d > n,
                d >= 2,
                k >= 1,
        ;
        if k >= 2 {
            assert(n % k == 0) by {
                lemma_mod_multiples_basic(d, k);
                assert(d * k == n);
            }
            assert(false);
        }
        assert(k == 1);
        assert(n == d * 1) by (nonlinear_arith)
            requires
                n == d * k,
                k == 1,
        ;
        assert(n == d);
        assert(spec_factor_count(n, d) == 1);
        assert(spec_factor_count(1, d) == 0);
    }
    assert forall|e: int| 2 <= e < d implies #[trigger] (k % e) != 0 by {
        if k % e == 0 {
            lemma_fundamental_div_mod(k, e);
            assert(n == e * (d * (k / e))) by (nonlinear_arith)
                requires
                    n == d * k,
                    k == e * (k / e),
            ;
            lemma_mod_multiples_basic(d * (k / e), e);
            assert((e * (d * (k / e))) % e == 0) by {
                assert(e * (d * (k / e)) == (d * (k / e)) * e) by (nonlinear_arith);
            }
            assert(n % e == 0);
            assert(false);
        }
    }
}

/// Every factor halves what is left at least: two to the count never
/// exceeds the number itself.
proof fn lemma_count_bound(n: int, d: int)
    requires
        1 <= n,
        2 <= d,
    ensures
        pow2(spec_factor_count(n, d) as nat) <= n,
    decreases n, n - d,
{
    lemma_count_nonneg(n, d);
    if n <= 1 {
        lemma2_to64();
    } else if d * d > n {
        lemma2_to64();
    } else if n % d == 0 {
        lemma_fundamental_div_mod(n, d);
        assert(1 <= n / d < n && 2 * (n / d) <= n) by (nonlinear_arith)
            requires
                n > 1,
                d >= 2,
                d * d <= n,
                n == d * (n / d),
        ;
        lemma_count_nonneg(n / d, d);
        lemma_count_bound(n / d, d);
        lemma_pow2_unfold((spec_factor_count(n, d)) as nat);
    } else {
        assert(d < n) by (nonlinear_arith)
            requires
                d * d <= n,
                d >= 2,
                n > 1,
        ;
        lemma_count_bound(n, d + 1);
    }
}

/// The factor count of a 64-bit number fits comfortably in 32 bits.
proof fn lemma_count_small(n: int)
    requires
        1 <= n <= u64::MAX,
    ensures
        0 <= spec_factor_count(n, 2) < 64,
{
    lemma_count_nonneg(n, 2);
    lemma_count_bound(n, 2);
    let c = spec_factor_count(n, 2) as nat;
    if c >= 64 {
        lemma2_to64_rest();
        if c > 64 {
            lemma_pow2_strictly_increases(64, c);
        }
        assert(pow2(64) <= pow2(c));
        assert(false);
    }
}

/// Count the prime factors of `n`, with multiplicity, by trial division:
/// strip twos and threes, then walk the candidates of the form six k plus
/// or minus one; whatever survives past the square root is one last prime.
pub fn heavy_prime_factorization(n: u64) -> (r: u32)
    requires
        n >= 1,
    ensures
        r == spec_factor_count(n as int, 2),
{
    let ghost total = spec_factor_count(n as int, 2);
    proof {
        lemma_count_small(n as int);
    }
    let mut m = n;
    let mut count: u32 = 0;
    while m % 2 == 0
        invariant
            m >= 1,
            count + spec_factor_count(m as int, 2) == total,
            0 <= total < 64,
        decreases m,
    {
        proof {
            lemma_count_divide(m as int, 2);
            lemma_count_nonneg(m as int / 2, 2);
        }
        count = count + 1;
        m = m / 2;
    }
    proof {
        lemma_count_skip(m as int, 2);
        assert(spec_no_factor_below(m as int, 3));
    }
    while m % 3 == 0
        invariant
            m >= 1,
            spec_no_factor_below(m as int, 3),
            count + spec_factor_count(m as int, 3) == total,
            0 <= total < 64,
        decreases m,
    {
        proof {
            lemma_count_divide(m as int, 3);
            lemma_count_nonneg(m as int / 3, 3);
        }
        count = count + 1;
        m = m / 3;
    }
    proof {
        lemma_count_skip(m as int, 3);
        lemma_skip_composite(m as int, 4, 2);
        lemma_count_skip(m as int, 4);
        assert(spec_no_factor_below(m as int, 5));
    }
    let mut d: u64 = 5;
    while d <= m / d
        invariant
            m >= 1,
            d >= 5,
            d as int % 6 == 5,
            spec_no_factor_below(m as int, d as int),
            count + spec_factor_count(m as int, d as int) == total,
            0 <= total < 64,
        decreases m, m - d,
    {
        proof {
            lemma_div_bound_square(m as int, d as int);
            assert(d as int + 4 <= m as int) by (nonlinear_arith)
                requires
                    (d as int) * (d as int) <= m as int,
                    d >= 5,
            ;
        }
        let ghost m_head = m;
        while m % d == 0
            invariant
                m >= 1,
                m <= m_head,
                d >= 5,
                spec_no_factor_below(m as int, d as int),
                count + spec_factor_count(m as int, d as int) == total,
                0 <= total < 64,
            decreases m,
        {
            proof {
                if m < 2 {
                    vstd::arithmetic::div_mod::lemma_small_mod(m as nat, d as nat);
                }
                lemma_count_divide(m as int, d as int);
                lemma_count_nonneg(m as int / d as int, d as int);
            }
            count = count + 1;
            m = m / d;
        }
        proof {
            lemma_count_skip(m as int, d as int);
            lemma_skip_composite(m as int, d as int + 1, 2);
            lemma_count_skip(m as int, d as int + 1);
            assert(spec_no_factor_below(m as int, d as int + 2));
        }
        d = d + 2;
        proof {
            let q = (d as int - 2) / 6;
            lemma_fundamental_div_mod(d as int - 2, 6);
            vstd::arithmetic::div_mod::lemma_mod_multiples_vanish(q + 1, 1, 6);
            assert(6 * (q + 1) + 1 == d as int);
            assert(d as int % 6 == 1);
        }
        while m % d == 0
            invariant
                m >= 1,
                m <= m_head,
                d >= 7,
                spec_no_factor_below(m as int, d as int),
                count + spec_factor_count(m as int, d as int) == total,
                0 <= total < 64,
            decreases m,
        {
            proof {
                if m < 2 {
                    vstd::arithmetic::div_mod::lemma_small_mod(m as nat, d as nat);
                }
                lemma_count_divide(m as int, d as int);
                lemma_count_nonneg(m as int / d as int, d as int);
            }
            count = count + 1;
            m = m / d;
        }
        proof {
            let di = d as int;
            lemma_count_skip(m as int, di);
            lemma_skip_composite(m as int, di + 1, 2);
            lemma_count_skip(m as int, di + 1);
            // the middle skipped candidate is a multiple of three
            lemma_fundamental_div_mod(di, 6);
            assert(di == 6 * (di / 6) + 1);
            assert(di + 2 == 3 * (2 * (di / 6) + 1)) by (nonlinear_arith)
                requires
                    di == 6 * (di / 6) + 1,
            ;
            assert((di + 2) % 3 == 0) by {
                lemma_mod_multiples_basic(2 * (di / 6) + 1, 3);
                assert(3 * (2 * (di / 6) + 1) == (2 * (di / 6) + 1) * 3) by (nonlinear_arith);
            }
            lemma_skip_composite(m as int, di + 2, 3);
            lemma_count_skip(m as int, di + 2);
            lemma_skip_composite(m as int, di + 3, 2);
            lemma_count_skip(m as int, di + 3);
            assert(spec_no_factor_below(m as int, di + 4));
        }
        d = d + 4;
        proof {
            let q = (d as int - 4) / 6;
            lemma_fundamental_div_mod(d as int - 4, 6);
            vstd::arithmetic::div_mod::lemma_mod_multiples_vanish(q, 5, 6);
            assert(6 * q + 5 == d as int);
            assert(d as int % 6 == 5) by {
                assert(5int % 6 == 5);
            }
        }
    }
    proof {
        lemma_div_exit_square(m as int, d as int);
        if m > 1 {
            assert(spec_factor_count(m as int, d as int) == 1);
        }
    }
    if m > 1 {
        count = count + 1;
    }
    count
}

/// Inside the scan the candidate is at most the square root of what is
/// left, so its square stays within bounds.
proof fn lemma_div_bound_square(m: int, d: int)
    requires
        m >= 1,
        d >= 2,
        d <= m / d,
    ensures
        d * d <= m,
        d <= m,
{
    lemma_fundamental_div_mod(m, d);
    vstd::arithmetic::div_mod::lemma_mod_bound(m, d);
    assert(d * d <= m && d <= m) by (nonlinear_arith)
        requires
            d <= m / d,
            m == d * (m / d) + m % d,
            m % d >= 0,
            d >= 2,
    ;
}

/// Past the scan the candidate's square exceeds what is left.
proof fn lemma_div_exit_square(m: int, d: int)
    requires
        m >= 1,
        d >= 2,
        d > m / d,
    ensures
        d * d > m,
{
    lemma_fundamental_div_mod(m, d);
    vstd::arithmetic::div_mod::lemma_mod_bound(m, d);
    assert(d * d > m) by (nonlinear_arith)
        requires
            d > m / d,
            m == d * (m / d) + m % d,
            m % d < d,
            d >= 2,
    ;
}

/// Repeat the factor count; the last run's result is returned.
pub fn batch_heavy_prime_factorization(n: u64, repeat: u32) -> (r: u32)
    requires
        repeat > 0 ==> n >= 1,
    ensures
        repeat > 0 ==> r == spec_factor_count(n as int, 2),
        repeat == 0 ==> r == 0,
{
    let mut last_count: u32 = 0;
    let mut i: u32 = 0;
    while i < repeat
        invariant
            i <= repeat,
            i > 0 ==> last_count == spec_factor_count(n as int, 2),
            i == 0 ==> last_count == 0,
            repeat > 0 ==> n >= 1,
        decreases repeat - i,
    {
        last_count = heavy_prime_factorization(n);
        i = i + 1;
    }
    last_count
}

} // verus!
