//! Binomial coefficients.
use vstd::prelude::*;

verus! {

/// The binomial coefficient, by Pascal's rule.
pub open spec fn binomial(n: nat, k: nat) -> nat
    decreases n,
{
    if k == 0 {
        1
    } else if n == 0 {
        0
    } else {
        binomial((n - 1) as nat, (k - 1) as nat) + binomial((n - 1) as nat, k)
    }
}

/// `(k + 1) * C(m + 1, k + 1) == (m + 1) * C(m, k)`.
pub proof fn lemma_binomial_absorption(m: nat, k: nat)
    ensures
        (k + 1) * binomial(m + 1, k + 1) == (m + 1) * binomial(m, k),
    decreases m, k,
{
    let lhs = binomial(m + 1, k + 1);
    let rhs = binomial(m, k);
    assert(lhs == binomial(m, k) + binomial(m, k + 1));
    if m == 0 {
        assert(binomial(0, k + 1) == 0);
        if k == 0 {
            assert(binomial(0, 0) == 1);
            assert(lhs == 1 && rhs == 1);
        } else {
            assert(binomial(0, k) == 0);
            assert(lhs == 0 && rhs == 0);
        }
        assert((k + 1) * lhs == (m + 1) * rhs) by (nonlinear_arith)
            requires
                m == 0,
                lhs == rhs,
                k == 0 || lhs == 0,
        ;
    } else if k == 0 {
        lemma_binomial_one(m + 1);
        assert(binomial(m, 0) == 1);
        assert(lhs == m + 1);
        assert((k + 1) * lhs == (m + 1) * rhs) by (nonlinear_arith)
            requires
                k == 0,
                lhs == m + 1,
                rhs == 1,
        ;
    } else {
        let m1 = (m - 1) as nat;
        let k1 = (k - 1) as nat;
        lemma_binomial_absorption(m1, k);
        lemma_binomial_absorption(m1, k1);
        assert(m1 + 1 == m && k1 + 1 == k);
        let a = binomial(m, k) as int;
        let b = binomial(m, k + 1) as int;
        let c = binomial(m1, k1) as int;
        let d = binomial(m1, k) as int;
        assert(a == c + d);
        assert((k + 1) * b == m * d);
        assert(k * a == m * c);
        assert((k + 1) * (a + b) == (m + 1) * a) by (nonlinear_arith)
            requires
                (k + 1) * b == m * d,
                k * a == m * c,
                a == c + d,
        ;
    }
}

/// `C(n, 1) == n`.
pub proof fn lemma_binomial_one(n: nat)
    ensures
        binomial(n, 1) == n,
    decreases n,
{
    if n > 0 {
        lemma_binomial_one((n - 1) as nat);
        assert(binomial((n - 1) as nat, 0) == 1);
        assert(binomial(n, 1) == binomial((n - 1) as nat, 0) + binomial((n - 1) as nat, 1));
    } else {
        assert(binomial(0, 1) == 0);
    }
}

/// `C(m, k) <= C(m + 1, k + 1)`.
pub proof fn lemma_binomial_grows(m: nat, k: nat)
    ensures
        binomial(m, k) <= binomial(m + 1, k + 1),
{
    assert(binomial(m + 1, k + 1) == binomial(m, k) + binomial(m, k + 1));
}

/// Along the diagonal towards `C(n, k)` the coefficients grow.
pub proof fn lemma_binomial_diagonal(n: nat, k: nat, j: nat)
    requires
        j <= k <= n,
    ensures
        binomial((n - k + j) as nat, j) <= binomial(n, k),
    decreases k - j,
{
    if j < k {
        lemma_binomial_grows((n - k + j) as nat, j);
        lemma_binomial_diagonal(n, k, j + 1);
    }
}

/// `C(36, 14) == 3796297200`: the number of initial hands, which fits in 32
/// bits.
pub proof fn lemma_initial_hands()
    ensures
        binomial(36, 14) == 3796297200,
{
    assert(binomial(22, 0) == 1);
    lemma_binomial_absorption(22, 0);
    assert(1 * binomial(23, 1) == 23 * binomial(22, 0));
    assert(binomial(23, 1) == 23);
    lemma_binomial_absorption(23, 1);
    assert(2 * binomial(24, 2) == 24 * binomial(23, 1));
    assert(binomial(24, 2) == 276);
    lemma_binomial_absorption(24, 2);
    assert(3 * binomial(25, 3) == 25 * binomial(24, 2));
    assert(binomial(25, 3) == 2300);
    lemma_binomial_absorption(25, 3);
    assert(4 * binomial(26, 4) == 26 * binomial(25, 3));
    assert(binomial(26, 4) == 14950);
    lemma_binomial_absorption(26, 4);
    assert(5 * binomial(27, 5) == 27 * binomial(26, 4));
    assert(binomial(27, 5) == 80730);
    lemma_binomial_absorption(27, 5);
    assert(6 * binomial(28, 6) == 28 * binomial(27, 5));
    assert(binomial(28, 6) == 376740);
    lemma_binomial_absorption(28, 6);
    assert(7 * binomial(29, 7) == 29 * binomial(28, 6));
    assert(binomial(29, 7) == 1560780);
    lemma_binomial_absorption(29, 7);
    assert(8 * binomial(30, 8) == 30 * binomial(29, 7));
    assert(binomial(30, 8) == 5852925);
    lemma_binomial_absorption(30, 8);
    assert(9 * binomial(31, 9) == 31 * binomial(30, 8));
    assert(binomial(31, 9) == 20160075);
    lemma_binomial_absorption(31, 9);
    assert(10 * binomial(32, 10) == 32 * binomial(31, 9));
    assert(binomial(32, 10) == 64512240);
    lemma_binomial_absorption(32, 10);
    assert(11 * binomial(33, 11) == 33 * binomial(32, 10));
    assert(binomial(33, 11) == 193536720);
    lemma_binomial_absorption(33, 11);
    assert(12 * binomial(34, 12) == 34 * binomial(33, 11));
    assert(binomial(34, 12) == 548354040);
    lemma_binomial_absorption(34, 12);
    assert(13 * binomial(35, 13) == 35 * binomial(34, 12));
    assert(binomial(35, 13) == 1476337800);
    lemma_binomial_absorption(35, 13);
    assert(14 * binomial(36, 14) == 36 * binomial(35, 13));
    assert(binomial(36, 14) == 3796297200);
}

} // verus!
