//! Overflow-checked counting of ordered and unordered selections.

use vstd::prelude::*;

verus! {

/// The falling factorial `n * (n - 1) * ... * (n - k + 1)`: the number of
/// ordered selections of `k` items out of `n`.
pub open spec fn falling(n: nat, k: nat) -> nat
    decreases k,
{
    if k == 0 {
        1
    } else {
        n * falling((n - 1) as nat, (k - 1) as nat)
    }
}

/// The binomial coefficient, by Pascal's rule: the number of unordered
/// selections of `k` items out of `n`. It is zero when `k > n`.
pub open spec fn binomial(n: nat, k: nat) -> nat
    decreases n,
{
    if k == 0 {
        1
    } else if n == 0 {
        0
    } else {
        binomial((n - 1) as nat, (k - 1) as nat) + binomial((n - 1) as nat, k)
    }
}

/// The smaller of `k` and `n - k`: the number of factors that
/// [`combination_n`] multiplies.
pub open spec fn shorter_side(n: nat, k: nat) -> nat
    recommends
        k <= n,
{
    if k <= n - k {
        k
    } else {
        (n - k) as nat
    }
}

/// What [`permutation_n`] returns: the falling factorial where `k <= n` and the
/// product fits in 64 bits, and nothing otherwise.
pub open spec fn spec_permutation(n: u64, k: u64) -> Option<u64> {
    if k <= n && falling(n as nat, k as nat) <= u64::MAX {
        Some(falling(n as nat, k as nat) as u64)
    } else {
        None
    }
}

/// What [`combination_n`] returns: the binomial coefficient where `k <= n` and
/// the product of the `min(k, n - k)` largest factors fits in 64 bits, and
/// nothing otherwise.
pub open spec fn spec_combination(n: u64, k: u64) -> Option<u64> {
    if k <= n && falling(n as nat, shorter_side(n as nat, k as nat)) <= u64::MAX {
        Some(binomial(n as nat, k as nat) as u64)
    } else {
        None
    }
}

/// A falling factorial of at most `n` factors taken from `n` downwards is positive.
pub proof fn lemma_falling_positive(n: nat, k: nat)
    requires
        k <= n,
    ensures
        falling(n, k) >= 1,
    decreases k,
{
    if k > 0 {
        lemma_falling_positive((n - 1) as nat, (k - 1) as nat);
        assert(n * falling((n - 1) as nat, (k - 1) as nat) >= 1) by (nonlinear_arith)
            requires
                n >= 1,
                falling((n - 1) as nat, (k - 1) as nat) >= 1,
        ;
    }
}

/// Dropping the largest factors of a falling factorial does not make it larger:
/// the product of the `j` factors that end at `n - k + j` is at most the
/// product of all `k` factors that end at `n`.
pub proof fn lemma_falling_prefix(n: nat, k: nat, j: nat)
    requires
        j <= k <= n,
    ensures
        falling((n - k + j) as nat, j) <= falling(n, k),
    decreases k - j,
{
    if j < k {
        lemma_falling_prefix(n, k, j + 1);
        lemma_falling_positive((n - k + j) as nat, j);
        let m = (n - k + j + 1) as nat;
        let f = falling((n - k + j) as nat, j);
        assert(falling(m, j + 1) == m * f);
        assert(m * f >= f) by (nonlinear_arith)
            requires
                m >= 1,
                f >= 0,
        ;
    }
}

/// A falling factorial grows with its first argument.
pub proof fn lemma_falling_monotone(m: nat, n: nat, k: nat)
    requires
        k <= m <= n,
    ensures
        falling(m, k) <= falling(n, k),
    decreases k,
{
    if k > 0 {
        lemma_falling_monotone((m - 1) as nat, (n - 1) as nat, (k - 1) as nat);
        let a = falling((m - 1) as nat, (k - 1) as nat);
        let b = falling((n - 1) as nat, (k - 1) as nat);
        assert(m * a <= n * b) by (nonlinear_arith)
            requires
                m <= n,
                a <= b,
                0 <= a,
                0 <= m,
        ;
    }
}

/// The absorption identity: `k * C(n, k) == n * C(n - 1, k - 1)`.
pub proof fn lemma_binomial_absorb(n: nat, k: nat)
    requires
        1 <= k,
        1 <= n,
    ensures
        k * binomial(n, k) == n * binomial((n - 1) as nat, (k - 1) as nat),
    decreases n,
{
    let n1 = (n - 1) as nat;
    let k1 = (k - 1) as nat;
    if n == 1 {
        assert(binomial(0, k) == 0);
        if k == 1 {
            assert(binomial(0, 0) == 1);
            assert(binomial(1, 1) == 1);
        } else {
            assert(binomial(0, k1) == 0);
            assert(binomial(1, k) == 0);
        }
    } else {
        // C(n, k) = C(n-1, k-1) + C(n-1, k)
        let a = binomial(n1, k1);
        let b = binomial(n1, k);
        assert(binomial(n, k) == a + b);
        lemma_binomial_absorb(n1, k);
        // k * b == n1 * C(n-2, k-1)
        let c = binomial((n1 - 1) as nat, k1);
        assert(k * b == n1 * c);
        if k == 1 {
            assert(a == 1);
            assert(c == 1);
            assert(k * (a + b) == n * a) by (nonlinear_arith)
                requires
                    k == 1,
                    a == 1,
                    c == 1,
                    k * b == n1 * c,
                    n == n1 + 1,
            ;
        } else {
            lemma_binomial_absorb(n1, k1);
            // k1 * a == n1 * C(n-2, k-2), and a == C(n-2, k-2) + c
            let d = binomial((n1 - 1) as nat, (k1 - 1) as nat);
            assert(k1 * a == n1 * d);
            assert(a == d + c);
            assert(k * (a + b) == n * a) by (nonlinear_arith)
                requires
                    k == k1 + 1,
                    n == n1 + 1,
                    k * b == n1 * c,
                    k1 * a == n1 * d,
                    a == d + c,
            ;
        }
    }
}

/// Ordered selections are unordered selections times the orderings of each:
/// `falling(n, k) == C(n, k) * k!`.
pub proof fn lemma_falling_is_binomial_times_factorial(n: nat, k: nat)
    requires
        k <= n,
    ensures
        falling(n, k) == binomial(n, k) * falling(k, k),
    decreases k,
{
    if k == 0 {
        assert(binomial(n, 0) == 1);
    } else {
        let n1 = (n - 1) as nat;
        let k1 = (k - 1) as nat;
        lemma_falling_is_binomial_times_factorial(n1, k1);
        lemma_binomial_absorb(n, k);
        let p = falling(n1, k1);
        let q = falling(k1, k1);
        let c1 = binomial(n1, k1);
        let c = binomial(n, k);
        assert(falling(n, k) == n * p);
        assert(falling(k, k) == k * q);
        assert(n * p == c * (k * q)) by (nonlinear_arith)
            requires
                p == c1 * q,
                k * c == n * c1,
        ;
    }
}

/// Choosing which `k` items to take is choosing which `n - k` to leave.
pub proof fn lemma_binomial_symmetric(n: nat, k: nat)
    requires
        k <= n,
    ensures
        binomial(n, k) == binomial(n, (n - k) as nat),
    decreases n,
{
    if n == 0 {
    } else if k == 0 {
        lemma_binomial_full(n);
    } else if k == n {
        lemma_binomial_full(n);
    } else {
        let n1 = (n - 1) as nat;
        lemma_binomial_symmetric(n1, (k - 1) as nat);
        lemma_binomial_symmetric(n1, k);
        assert(binomial(n, k) == binomial(n1, (k - 1) as nat) + binomial(n1, k));
        assert(binomial(n, (n - k) as nat) == binomial(n1, (n - k - 1) as nat) + binomial(
            n1,
            (n - k) as nat,
        ));
    }
}

/// There is no way to choose more items than there are.
pub proof fn lemma_binomial_beyond(n: nat, k: nat)
    requires
        k > n,
    ensures
        binomial(n, k) == 0,
    decreases n,
{
    if n > 0 {
        lemma_binomial_beyond((n - 1) as nat, (k - 1) as nat);
        lemma_binomial_beyond((n - 1) as nat, k);
    }
}

/// There is exactly one way to choose everything.
pub proof fn lemma_binomial_full(n: nat)
    ensures
        binomial(n, n) == 1,
    decreases n,
{
    if n > 0 {
        lemma_binomial_full((n - 1) as nat);
        lemma_binomial_beyond((n - 1) as nat, n);
    }
}

/// Counts the ordered selections of `k` items out of `n`.
///
/// Returns `None` when `k > n`, and when the product does not fit in 64 bits.
pub fn permutation_n(n: u64, k: u64) -> (r: Option<u64>)
    ensures
        r == spec_permutation(n, k),
{
    if n < k {
        return None;
    }
    let mut acc: u64 = 1;
    let mut i: u64 = 0;
    while i < k
        invariant
            i <= k <= n,
            acc == falling((n - k + i) as nat, i as nat),
        decreases k - i,
    {
        let factor: u64 = n - k + i + 1;
        proof {
            lemma_falling_prefix(n as nat, k as nat, (i + 1) as nat);
            assert(falling((n - k + i + 1) as nat, (i + 1) as nat) == factor * acc);
        }
        match acc.checked_mul(factor) {
            Some(next) => {
                proof {
                    assert(acc * factor == factor * acc) by (nonlinear_arith);
                }
                acc = next;
            },
            None => {
                proof {
                    assert(acc * factor == factor * acc) by (nonlinear_arith);
                }
                return None;
            },
        }
        i = i + 1;
    }
    Some(acc)
}

/// The factorial: the number of orders in which `n` items can be put.
pub open spec fn factorial(n: nat) -> nat {
    falling(n, n)
}

/// The factorial of `n`, or `None` when it does not fit in 64 bits, which is
/// so from 21 on.
pub fn factorial_u64(n: u64) -> (r: Option<u64>)
    ensures
        r == if factorial(n as nat) <= u64::MAX {
            Some(factorial(n as nat) as u64)
        } else {
            None
        },
{
    let mut acc: u64 = 1;
    let mut i: u64 = 0;
    while i < n
        invariant
            i <= n,
            acc == factorial(i as nat),
        decreases n - i,
    {
        i = i + 1;
        proof {
            lemma_falling_prefix(n as nat, n as nat, i as nat);
            assert(factorial(i as nat) == i * acc);
            assert(acc * i == i * acc) by (nonlinear_arith);
        }
        match acc.checked_mul(i) {
            Some(next) => {
                acc = next;
            },
            None => {
                return None;
            },
        }
    }
    Some(acc)
}

/// The factorial of `n`, or `None` when it does not fit in 128 bits, which is
/// so from 35 on.
pub fn factorial_u128(n: u128) -> (r: Option<u128>)
    ensures
        r == if factorial(n as nat) <= u128::MAX {
            Some(factorial(n as nat) as u128)
        } else {
            None
        },
{
    let mut acc: u128 = 1;
    let mut i: u128 = 0;
    while i < n
        invariant
            i <= n,
            acc == factorial(i as nat),
        decreases n - i,
    {
        i = i + 1;
        proof {
            lemma_falling_prefix(n as nat, n as nat, i as nat);
            assert(factorial(i as nat) == i * acc);
            assert(acc * i == i * acc) by (nonlinear_arith);
        }
        match acc.checked_mul(i) {
            Some(next) => {
                acc = next;
            },
            None => {
                return None;
            },
        }
    }
    Some(acc)
}

/// Counts the unordered selections of `k` items out of `n`.
///
/// The count is the quotient of two products of `min(k, n - k)` factors each.
/// Returns `None` when `k > n`, and when the larger product does not fit in
/// 64 bits.
pub fn combination_n(n: u64, k: u64) -> (r: Option<u64>)
    ensures
        r == spec_combination(n, k),
        k > n ==> r is None,
        r matches Some(c) ==> c == binomial(n as nat, k as nat),
{
    proof {
        lemma_combination_value(n, k);
    }
    let rest: u64 = match n.checked_sub(k) {
        Some(rest) => rest,
        None => {
            return None;
        },
    };
    let m: u64 = if k <= rest {
        k
    } else {
        rest
    };
    proof {
        assert(m == shorter_side(n as nat, k as nat));
        lemma_falling_monotone(m as nat, n as nat, m as nat);
        lemma_falling_positive(m as nat, m as nat);
        lemma_falling_is_binomial_times_factorial(n as nat, m as nat);
        lemma_binomial_symmetric(n as nat, k as nat);
        assert(binomial(n as nat, m as nat) == binomial(n as nat, k as nat));
    }
    match (permutation_n(n, m), permutation_n(m, m)) {
        (Some(den), Some(num)) => {
            proof {
                let c = binomial(n as nat, k as nat) as int;
                let f = falling(m as nat, m as nat) as int;
                assert(den == c * f);
                vstd::arithmetic::div_mod::lemma_div_by_multiple(c, f);
                assert(den / num == c);
                assert(c <= den) by (nonlinear_arith)
                    requires
                        den == c * f,
                        f >= 1,
                        c >= 0,
                ;
            }
            den.checked_div(num)
        },
        (_, _) => None,
    }
}

/// Where [`combination_n`] has a result, it is the binomial coefficient
/// itself: no more than 64 bits are needed for it.
pub proof fn lemma_combination_value(n: u64, k: u64)
    ensures
        spec_combination(n, k) matches Some(c) ==> c == binomial(n as nat, k as nat) && k <= n,
{
    if spec_combination(n, k) is Some {
        let m = shorter_side(n as nat, k as nat);
        lemma_falling_is_binomial_times_factorial(n as nat, m);
        lemma_falling_positive(m, m);
        lemma_binomial_symmetric(n as nat, k as nat);
        let c = binomial(n as nat, k as nat);
        let f = falling(m, m);
        assert(c <= c * f) by (nonlinear_arith)
            requires
                f >= 1,
        ;
    }
}

/// Symmetry of [`combination_n`]: choosing `k` out of `n` and choosing
/// `n - k` out of `n` give the same result, the failures included.
pub proof fn lemma_combination_symmetric(n: u64, k: u64)
    requires
        k <= n,
    ensures
        spec_combination(n, k) == spec_combination(n, (n - k) as u64),
{
    lemma_binomial_symmetric(n as nat, k as nat);
    assert(shorter_side(n as nat, k as nat) == shorter_side(n as nat, (n - k) as nat));
}

/// [`combination_n`] has no result where more items are asked for than there are.
pub proof fn lemma_combination_beyond(n: u64, k: u64)
    requires
        k > n,
    ensures
        spec_combination(n, k).is_none(),
{
}

} // verus!
