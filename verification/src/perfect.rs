//! Perfect numbers: the divisor-sum specification, a verified O(sqrt n)
//! per-candidate test, and enumeration of all even perfect numbers up to a
//! bound.
use vstd::prelude::*;
use vstd::arithmetic::div_mod::lemma_fundamental_div_mod;
use vstd::arithmetic::div_mod::lemma_fundamental_div_mod_converse;

verus! {

/// `d` is a proper divisor of `n`: it divides `n` evenly and is strictly
/// smaller than `n`.
pub open spec fn is_proper_divisor(n: int, d: int) -> bool {
    1 <= d < n && n % d == 0
}

/// Sum of the proper divisors of `n` that are strictly below `j`.
pub open spec fn divisor_sum_below(n: int, j: int) -> int
    decreases j,
{
    if j <= 1 {
        0
    } else {
        divisor_sum_below(n, j - 1) + if is_proper_divisor(n, j - 1) {
            j - 1
        } else {
            0
        }
    }
}

/// Sum of all proper divisors of `n` (every proper divisor is below `n`).
pub open spec fn proper_divisor_sum(n: int) -> int {
    divisor_sum_below(n, n)
}

/// A perfect number equals the sum of its proper divisors.
pub open spec fn is_perfect_number(n: int) -> bool {
    2 <= n && proper_divisor_sum(n) == n
}

/// What trial division accumulates over the candidate divisors `i` in
/// `[2, j)`: each divisor `i` found, together with its cofactor `n / i`
/// when that cofactor is strictly larger than `i`.
pub open spec fn trial_sum(n: int, j: int) -> int
    decreases j,
{
    if j <= 2 {
        0
    } else {
        let i = j - 1;
        trial_sum(n, i) + if n % i == 0 {
            i + if n / i > i {
                n / i
            } else {
                0
            }
        } else {
            0
        }
    }
}

/// The cofactor part of `trial_sum` alone.
pub open spec fn cofactor_sum(n: int, j: int) -> int
    decreases j,
{
    if j <= 2 {
        0
    } else {
        let i = j - 1;
        cofactor_sum(n, i) + if n % i == 0 && n / i > i {
            n / i
        } else {
            0
        }
    }
}

/// Sum of the divisors `d` of `n` with `d < m` that lie above the square
/// root (`d * d > n`) and whose cofactor is below `j`.
pub open spec fn large_divisor_sum(n: int, j: int, m: int) -> int
    decreases m,
{
    if m <= 1 {
        0
    } else {
        let d = m - 1;
        large_divisor_sum(n, j, d) + if n % d == 0 && d * d > n && n / d < j {
            d
        } else {
            0
        }
    }
}

/// Trial division up to `j` gathers exactly the proper divisors below `j`
/// (except 1) plus the matching cofactors.
proof fn lemma_trial_split(n: int, j: int)
    requires
        2 <= n,
        2 <= j,
        (j - 1) * (j - 1) <= n,
    ensures
        trial_sum(n, j) == divisor_sum_below(n, j) - 1 + cofactor_sum(n, j),
    decreases j,
{
    if j == 2 {
        assert(n % 1 == 0);
        assert(divisor_sum_below(n, 1) == 0);
        assert(is_proper_divisor(n, 1));
        assert(divisor_sum_below(n, 2) == 1);
        assert(trial_sum(n, 2) == 0);
        assert(cofactor_sum(n, 2) == 0);
    } else {
        assert((j - 2) * (j - 2) <= (j - 1) * (j - 1)) by (nonlinear_arith)
            requires
                3 <= j,
        ;
        lemma_trial_split(n, j - 1);
        let i: int = j - 1;
        if n % i == 0 {
            assert(i < n) by (nonlinear_arith)
                requires
                    2 <= i,
                    i * i <= n,
            ;
            assert(is_proper_divisor(n, i));
        }
        assert(trial_sum(n, j) == trial_sum(n, i) + if n % i == 0 {
            i + if n / i > i {
                n / i
            } else {
                0
            }
        } else {
            0
        });
        assert(cofactor_sum(n, j) == cofactor_sum(n, i) + if n % i == 0 && n / i > i {
            n / i
        } else {
            0
        });
        assert(divisor_sum_below(n, j) == divisor_sum_below(n, i) + if is_proper_divisor(n, i) {
            i
        } else {
            0
        });
    }
}

/// No divisor has a cofactor below 2 except `n` itself, which is not proper.
proof fn lemma_large_none_below_two(n: int, m: int)
    requires
        2 <= n,
        1 <= m <= n,
    ensures
        large_divisor_sum(n, 2, m) == 0,
    decreases m,
{
    if m > 1 {
        lemma_large_none_below_two(n, m - 1);
        let d: int = m - 1;
        if n % d == 0 && d * d > n && n / d < 2 {
            lemma_fundamental_div_mod(n, d);
            assert(false) by (nonlinear_arith)
                requires
                    1 <= d <= n - 1,
                    2 <= n,
                    n == d * (n / d),
                    n / d < 2,
            ;
        }
    }
}

/// Raising the cofactor bound from `i` to `i + 1` admits exactly the
/// cofactor `n / i`, when `i` divides `n` and its cofactor is the larger
/// half of the pair.
proof fn lemma_large_step(n: int, i: int, m: int)
    requires
        2 <= n,
        2 <= i,
        1 <= m <= n,
    ensures
        large_divisor_sum(n, i + 1, m) == large_divisor_sum(n, i, m) + if n % i == 0 && n / i > i
            && n / i < m {
            n / i
        } else {
            0
        },
    decreases m,
{
    if m == 1 {
        if n % i == 0 && n / i > i {
            assert(n / i >= 1);
        }
    } else {
        lemma_large_step(n, i, m - 1);
        let d: int = m - 1;
        if n % d == 0 && d * d > n && n / d == i {
            // The one divisor whose cofactor is exactly i: d == n / i.
            lemma_fundamental_div_mod(n, d);
            assert(d >= 1);
            lemma_fundamental_div_mod_converse(n, i, d, 0);
            assert(n / i == d);
            assert(n / i > i) by (nonlinear_arith)
                requires
                    1 <= d,
                    d * d > n,
                    n == d * i,
                    n / i == d,
            ;
        } else {
            // No change at d; show the overall indicator does not flip at
            // m - 1 either: if the cofactor n / i equalled d, then d would
            // satisfy the case above.
            if n % i == 0 && n / i > i && n / i == d {
                lemma_fundamental_div_mod(n, i);
                lemma_fundamental_div_mod_converse(n, d, i, 0);
                assert(n % d == 0 && n / d == i);
                assert(d * d > n) by (nonlinear_arith)
                    requires
                        2 <= i,
                        d > i,
                        n == i * d,
                ;
                assert(false);
            }
        }
    }
}

/// The cofactors gathered by trial division up to `j` are exactly the
/// divisors of `n` above the square root whose cofactor is below `j`.
proof fn lemma_cofactor_as_large(n: int, j: int)
    requires
        2 <= n,
        2 <= j,
    ensures
        cofactor_sum(n, j) == large_divisor_sum(n, j, n),
    decreases j,
{
    if j == 2 {
        lemma_large_none_below_two(n, n);
    } else {
        lemma_cofactor_as_large(n, j - 1);
        lemma_large_step(n, j - 1, n);
        let i: int = j - 1;
        if n % i == 0 && n / i > i {
            lemma_fundamental_div_mod(n, i);
            assert(n / i < n) by (nonlinear_arith)
                requires
                    2 <= i,
                    2 <= n,
                    n == i * (n / i),
            ;
        }
    }
}

/// Below `j` there are no divisors above the square root, when `j - 1` is
/// at most the square root.
proof fn lemma_large_none_small_range(n: int, j: int, m: int)
    requires
        2 <= n,
        2 <= j,
        (j - 1) * (j - 1) <= n,
        1 <= m <= j,
    ensures
        large_divisor_sum(n, j, m) == 0,
    decreases m,
{
    if m > 1 {
        lemma_large_none_small_range(n, j, m - 1);
        let d: int = m - 1;
        if n % d == 0 && d * d > n && n / d < j {
            assert(false) by (nonlinear_arith)
                requires
                    1 <= d <= j - 1,
                    (j - 1) * (j - 1) <= n,
                    d * d > n,
            ;
        }
    }
}

/// The proper divisors of `n` below `m` split at the square root: those
/// below `j` and, above it, exactly the ones `large_divisor_sum` counts.
proof fn lemma_divisor_sum_split(n: int, j: int, m: int)
    requires
        2 <= n,
        2 <= j,
        (j - 1) * (j - 1) <= n,
        n < j * j,
        j <= m <= n,
    ensures
        divisor_sum_below(n, m) == divisor_sum_below(n, j) + large_divisor_sum(n, j, m),
    decreases m,
{
    if m == j {
        lemma_large_none_small_range(n, j, j);
    } else {
        lemma_divisor_sum_split(n, j, m - 1);
        let d: int = m - 1;
        if n % d == 0 {
            assert(d * d > n) by (nonlinear_arith)
                requires
                    2 <= j <= d,
                    n < j * j,
            ;
            lemma_fundamental_div_mod(n, d);
            assert(n / d < j) by (nonlinear_arith)
                requires
                    2 <= j <= d,
                    n == d * (n / d),
                    n < j * j,
                    2 <= n,
            ;
        }
    }
}

/// Trial division over `[2, j)`, with `j` just past the square root of
/// `n`, accounts (with the initial 1) for every proper divisor of `n`.
proof fn lemma_trial_division_counts(n: int, j: int)
    requires
        2 <= n,
        2 <= j,
        (j - 1) * (j - 1) <= n,
        n < j * j,
    ensures
        1 + trial_sum(n, j) == proper_divisor_sum(n),
{
    lemma_trial_split(n, j);
    lemma_cofactor_as_large(n, j);
    if j > 2 {
        assert(j <= n) by (nonlinear_arith)
            requires
                3 <= j,
                (j - 1) * (j - 1) <= n,
        ;
    }
    lemma_divisor_sum_split(n, j, n);
}

/// The divisor sums are small: each one is below `j * j`.
proof fn lemma_divisor_sum_below_bounds(n: int, j: int)
    ensures
        0 <= divisor_sum_below(n, j),
        divisor_sum_below(n, j) <= j * j,
    decreases j,
{
    if j <= 1 {
        assert(0 <= j * j) by (nonlinear_arith);
    } else {
        lemma_divisor_sum_below_bounds(n, j - 1);
        assert((j - 1) * (j - 1) + (j - 1) <= j * j) by (nonlinear_arith)
            requires
                2 <= j,
        ;
    }
}

/// Divisor sums below a bound stop growing once the bound passes half of
/// `n`: any further proper divisor would have a cofactor below 2.
proof fn lemma_divisor_sum_high(n: int, j1: int, j2: int)
    requires
        2 <= n,
        1 <= j1 <= j2,
        2 * j1 >= n + 1,
    ensures
        divisor_sum_below(n, j2) == divisor_sum_below(n, j1),
    decreases j2,
{
    if j2 > j1 {
        lemma_divisor_sum_high(n, j1, j2 - 1);
        let e: int = j2 - 1;
        if is_proper_divisor(n, e) {
            lemma_fundamental_div_mod(n, e);
            assert(false) by (nonlinear_arith)
                requires
                    1 <= e,
                    j1 <= e,
                    e < n,
                    n == e * (n / e),
                    2 * j1 >= n + 1,
            ;
        }
    }
}

/// Decides whether `n` is a perfect number by summing its divisors in
/// pairs up to the square root of `n`.
pub fn is_perfect(n: i32) -> (r: bool)
    requires
        2 <= n,
    ensures
        r == is_perfect_number(n as int),
{
    let nu: u64 = n as u64;
    let mut tot: u64 = 1;
    let mut i: u64 = 2;
    while i <= nu / i
        invariant
            2 <= nu <= i32::MAX,
            2 <= i,
            (i - 1) * (i - 1) <= nu,
            tot == 1 + trial_sum(nu as int, i as int),
            tot <= 1 + 2 * (nu as int) * (i - 2),
        decreases nu - i,
    {
        proof {
            assert(i * i <= i * (nu / i)) by (nonlinear_arith)
                requires
                    2 <= i,
                    i <= nu / i,
            ;
            lemma_fundamental_div_mod(nu as int, i as int);
            assert(i * (nu / i) <= nu);
            assert(2 * i <= nu) by (nonlinear_arith)
                requires
                    2 <= i,
                    i * i <= nu,
            ;
            assert(i - 1 <= 46340) by (nonlinear_arith)
                requires
                    2 <= i,
                    (i - 1) * (i - 1) <= nu,
                    nu <= i32::MAX,
            ;
            assert(2 * (nu as int) * (i - 2) <= 2 * (nu as int) * (i - 1)) by (nonlinear_arith)
                requires
                    2 <= i,
                    2 <= nu,
            ;
            assert(2 * (nu as int) * (i - 1) <= 2 * 0x7fffffff * 46340) by (nonlinear_arith)
                requires
                    2 <= nu <= 0x7fffffff,
                    i - 1 <= 46340,
                    2 <= i,
            ;
        }
        if nu % i == 0 {
            proof {
                let q2: int = (nu as int) / (i as int);
                let rem: int = (nu as int) % (i as int);
                assert(i + q2 <= 2 * (nu as int)) by (nonlinear_arith)
                    requires
                        2 <= i,
                        2 * i <= nu,
                        nu == i * q2 + rem,
                        0 <= rem,
                ;
                assert(1 + 2 * (nu as int) * (i - 2) + 2 * (nu as int) == 1 + 2 * (nu as int) * (i
                    - 1)) by (nonlinear_arith);
            }
            tot = tot + i;
            let q: u64 = nu / i;
            if q > i {
                tot = tot + q;
            }
        }
        i = i + 1;
    }
    proof {
        lemma_fundamental_div_mod(nu as int, i as int);
        let q: int = (nu as int) / (i as int);
        let rem: int = (nu as int) % (i as int);
        assert(nu < i * i) by (nonlinear_arith)
            requires
                2 <= i,
                nu == i * q + rem,
                0 <= rem < i,
                q < i,
        ;
        lemma_trial_division_counts(nu as int, i as int);
    }
    tot == nu
}

/// The ascending sequence of even perfect numbers up to and including `n`.
/// Only even candidates are considered: every known perfect number is
/// even, and the search space is restricted to them by design.
pub open spec fn perfect_list(n: int) -> Seq<int>
    decreases n,
{
    if n < 2 {
        Seq::empty()
    } else {
        perfect_list(n - 1) + if n % 2 == 0 && is_perfect_number(n) {
            seq![n]
        } else {
            Seq::empty()
        }
    }
}

/// Every entry of the perfect-number list lies in `[2, n]`.
proof fn lemma_perfect_list_range(n: int)
    ensures
        forall|i: int|
            0 <= i < perfect_list(n).len() ==> 2 <= #[trigger] perfect_list(n)[i] <= n,
    decreases n,
{
    if n >= 2 {
        lemma_perfect_list_range(n - 1);
        let pre = perfect_list(n - 1);
        assert forall|i: int|
            0 <= i < perfect_list(n).len() implies 2 <= #[trigger] perfect_list(n)[i]
            <= n by {
            if i < pre.len() {
                assert(perfect_list(n)[i] == pre[i]);
                assert(2 <= pre[i] <= n - 1);
            } else {
                assert(perfect_list(n)[i] == n);
            }
        }
    }
}

/// The perfect-number list is strictly ascending, so it holds no
/// duplicates.
pub proof fn lemma_perfect_list_ascending(n: int)
    ensures
        forall|i: int, j: int|
            0 <= i < j < perfect_list(n).len() ==> #[trigger] perfect_list(n)[i]
                < #[trigger] perfect_list(n)[j],
    decreases n,
{
    if n >= 2 {
        lemma_perfect_list_ascending(n - 1);
        lemma_perfect_list_range(n - 1);
        let pre = perfect_list(n - 1);
        assert forall|i: int, j: int|
            0 <= i < j < perfect_list(n).len() implies #[trigger] perfect_list(n)[i]
            < #[trigger] perfect_list(n)[j] by {
            if j < pre.len() {
                assert(perfect_list(n)[i] == pre[i]);
                assert(perfect_list(n)[j] == pre[j]);
            } else {
                assert(perfect_list(n)[i] == pre[i]);
                assert(2 <= pre[i] <= n - 1);
                assert(perfect_list(n)[j] == n);
            }
        }
    }
}

/// Every element of the perfect-number list is even, and the sum of its
/// proper divisors equals the element itself.
pub proof fn lemma_perfect_list_sound(n: int)
    ensures
        forall|i: int|
            0 <= i < perfect_list(n).len() ==> is_perfect_number(
                #[trigger] perfect_list(n)[i],
            ) && perfect_list(n)[i] % 2 == 0,
    decreases n,
{
    if n >= 2 {
        lemma_perfect_list_sound(n - 1);
        let pre = perfect_list(n - 1);
        assert forall|i: int|
            0 <= i < perfect_list(n).len() implies is_perfect_number(
            #[trigger] perfect_list(n)[i],
        ) && perfect_list(n)[i] % 2 == 0 by {
            if i < pre.len() {
                assert(perfect_list(n)[i] == pre[i]);
            } else {
                assert(perfect_list(n)[i] == n);
            }
        }
    }
}

/// The elements of a sequence of machine integers, as mathematical ones.
pub open spec fn as_ints(s: Seq<i32>) -> Seq<int> {
    s.map_values(|x: i32| x as int)
}

/// Returns the even perfect numbers in `[2, input]`, in ascending order.
/// A proper-divisor sieve fills in the divisor sum of every candidate at
/// once, so the whole enumeration costs O(input log input) additions of
/// work rather than a square-root scan per candidate, at the cost of
/// working memory proportional to the bound.
pub fn perfect_numbers(input: i32) -> (r: Vec<i32>)
    ensures
        as_ints(r@) == perfect_list(input as int),
{
    let mut result: Vec<i32> = Vec::new();
    if input < 2 {
        proof {
            assert(as_ints(result@) =~= perfect_list(input as int));
        }
        return result;
    }
    let n: usize = input as usize;
    let mut sums: Vec<u64> = Vec::new();
    while sums.len() <= n
        invariant
            2 <= n <= 0x7fffffff,
            sums.len() <= n + 1,
            forall|k: int| 0 <= k < sums.len() ==> sums@[k] == 0,
        decreases n + 1 - sums.len(),
    {
        sums.push(0);
    }
    let mut d: usize = 1;
    while 2 * d <= n
        invariant
            2 <= n <= 0x7fffffff,
            sums.len() == n + 1,
            1 <= d <= n,
            forall|k: int| 2 <= k <= n ==> sums@[k] == divisor_sum_below(k, d as int),
        decreases n - d,
    {
        let mut m: usize = 2 * d;
        proof {
            vstd::arithmetic::div_mod::lemma_mod_multiples_basic(2, d as int);
        }
        while m <= n
            invariant
                2 <= n <= 0x7fffffff,
                sums.len() == n + 1,
                1 <= d <= n,
                2 * d <= m <= n + d,
                m % d == 0,
                forall|k: int| 2 <= k <= n ==> sums@[k] == divisor_sum_below(k, d as int) + (
                if k % (d as int) == 0 && 2 * (d as int) <= k && k < m {
                    d as int
                } else {
                    0
                }),
            decreases n + d - m,
        {
            let s: u64 = sums[m];
            proof {
                lemma_divisor_sum_below_bounds(m as int, d as int);
                assert((d as int) * (d as int) <= 0x1000000000000000) by (nonlinear_arith)
                    requires
                        1 <= d <= 0x40000000,
                ;
            }
            sums[m] = s + (d as u64);
            proof {
                assert forall|k: int| 2 <= k <= n && m < k < m + d implies #[trigger] (k % (
                d as int)) != 0 by {
                    if k % (d as int) == 0 {
                        lemma_fundamental_div_mod(k, d as int);
                        lemma_fundamental_div_mod(m as int, d as int);
                        assert(false) by (nonlinear_arith)
                            requires
                                1 <= d,
                                k == (d as int) * (k / (d as int)),
                                (m as int) == (d as int) * ((m as int) / (d as int)),
                                m < k < m + d,
                        ;
                    }
                }
            }
            proof {
                vstd::arithmetic::div_mod::lemma_mod_multiples_vanish(1, m as int, d as int);
            }
            m = m + d;
        }
        proof {
            assert forall|k: int| 2 <= k <= n implies sums@[k] == divisor_sum_below(
                k,
                d as int + 1,
            ) by {
                if k % (d as int) == 0 {
                    lemma_fundamental_div_mod(k, d as int);
                    if (d as int) < k {
                        assert(2 * (d as int) <= k) by (nonlinear_arith)
                            requires
                                1 <= d,
                                k == (d as int) * (k / (d as int)),
                                (d as int) < k,
                        ;
                    }
                }
            }
        }
        d = d + 1;
    }
    proof {
        assert forall|k: int| 2 <= k <= n implies sums@[k] == proper_divisor_sum(k) by {
            if d as int <= k {
                lemma_divisor_sum_high(k, d as int, k);
            } else {
                lemma_divisor_sum_high(k, k, d as int);
            }
        }
    }
    let mut k: usize = 2;
    proof {
        assert(as_ints(result@) =~= perfect_list(1));
    }
    while k <= n
        invariant
            2 <= n <= 0x7fffffff,
            sums.len() == n + 1,
            2 <= k <= n + 1,
            forall|j: int| 2 <= j <= n ==> sums@[j] == proper_divisor_sum(j),
            as_ints(result@) == perfect_list(k - 1),
        decreases n + 1 - k,
    {
        if k % 2 == 0 && sums[k] == k as u64 {
            result.push(k as i32);
        }
        proof {
            assert(as_ints(result@) =~= perfect_list(k as int));
        }
        k = k + 1;
    }
    result
}

} // verus!

