use vstd::prelude::*;

verus! {

/// The sum 0 + 1 + ... + n.
pub open spec fn sum_first(n: nat) -> nat
    decreases n,
{
    if n == 0 {
        0
    } else {
        n + sum_first((n - 1) as nat)
    }
}

/// The sum 0^2 + 1^2 + ... + n^2.
pub open spec fn sum_first_squares(n: nat) -> nat
    decreases n,
{
    if n == 0 {
        0
    } else {
        n * n + sum_first_squares((n - 1) as nat)
    }
}

/// Gauss: twice the sum of the first n numbers is n(n+1).
pub proof fn lemma_sum_first(n: nat)
    ensures
        2 * sum_first(n) == n * (n + 1),
    decreases n,
{
    if n > 0 {
        lemma_sum_first((n - 1) as nat);
        assert(sum_first(n) == n + sum_first((n - 1) as nat));
        assert(((n - 1) as nat) * (((n - 1) as nat) + 1) + 2 * n == n * (n + 1))
            by (nonlinear_arith)
            requires
                n >= 1,
        ;
    } else {
        assert(sum_first(n) == 0);
    }
}

/// Square pyramidal numbers: six times the sum of the first n squares is n(n+1)(2n+1).
pub proof fn lemma_sum_first_squares(n: nat)
    ensures
        6 * sum_first_squares(n) == n * (n + 1) * (2 * n + 1),
    decreases n,
{
    if n > 0 {
        lemma_sum_first_squares((n - 1) as nat);
        assert(sum_first_squares(n) == n * n + sum_first_squares((n - 1) as nat));
        assert(((n - 1) as nat) * (((n - 1) as nat) + 1) * (2 * ((n - 1) as nat) + 1) + 6 * (n
            * n) == n * (n + 1) * (2 * n + 1))
            by (nonlinear_arith)
            requires n >= 1;
        assert(6 * sum_first_squares(n) == 6 * (n * n) + 6 * sum_first_squares((n - 1) as nat));
    } else {
        assert(sum_first_squares(n) == 0);
    }
}

/// Sum of the numbers 1 through n by the closed formula n(n+1)/2.
pub fn sum_numbers(n: usize) -> (r: usize)
    requires
        n * (n + 1) <= usize::MAX,
    ensures
        r == sum_first(n as nat),
        r == n * (n + 1) / 2,
{
    proof {
        lemma_sum_first(n as nat);
    }
    n * (n + 1) / 2
}

/// Sum of the squares 1 through n^2 by the closed formula n(n+1)(2n+1)/6.
pub fn sum_squares(n: usize) -> (r: usize)
    requires
        n * (n + 1) * (2 * n + 1) <= usize::MAX,
    ensures
        r == sum_first_squares(n as nat),
        r == n * (n + 1) * (2 * n + 1) / 6,
{
    proof {
        lemma_sum_first_squares(n as nat);
        if n >= 1 {
            assert(n + 1 <= n * (n + 1) * (2 * n + 1)) by (nonlinear_arith)
                requires n >= 1;
            assert(n * (n + 1) <= n * (n + 1) * (2 * n + 1)) by (nonlinear_arith)
                requires n >= 1;
            assert(2 * n + 1 <= n * (n + 1) * (2 * n + 1)) by (nonlinear_arith)
                requires n >= 1;
        }
    }
    n * (n + 1) * ((2 * n) + 1) / 6
}

} // verus!
