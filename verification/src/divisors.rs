use vstd::prelude::*;

use vstd::arithmetic::div_mod::lemma_fundamental_div_mod;
use vstd::arithmetic::div_mod::lemma_mod_division_less_than_divisor;

verus! {

/// Euclid's greatest common divisor.
pub open spec fn gcd_rec(a: nat, b: nat) -> nat
    decreases b,
{
    if b == 0 {
        a
    } else {
        gcd_rec(b, a % b)
    }
}

/// The greatest common divisor of two numbers that are not both zero is
/// positive.
pub proof fn lemma_gcd_pos(a: nat, b: nat)
    requires
        a > 0 || b > 0,
    ensures
        gcd_rec(a, b) > 0,
    decreases b,
{
    if b > 0 {
        lemma_gcd_pos(b, a % b);
    }
}

/// Euclid's algorithm for the greatest common divisor.
pub fn gcd(a: u64, b: u64) -> (r: u64)
    ensures
        r == gcd_rec(a as nat, b as nat),
    decreases b,
{
    if b == 0 {
        a
    } else {
        gcd(b, a % b)
    }
}

/// The extended Euclidean algorithm: the greatest common divisor together
/// with Bezout coefficients x and y such that a*x + b*y equals it. The
/// coefficients stay small — when a is zero they are exactly (0, 1), and
/// otherwise x lies in [-b, b] unless it is the constant 1, and y lies in
/// [-a, a] — so no intermediate product overflows.
pub fn gcd_extended(a: i64, b: i64) -> (r: (i64, i64, i64))
    requires
        0 <= a,
        0 <= b,
    ensures
        r.0 == gcd_rec(b as nat, a as nat),
        a * r.1 + b * r.2 == r.0,
        a == 0 ==> r.1 == 0 && r.2 == 1,
        a > 0 ==> ((-b <= r.1 <= b) || r.1 == 1) && -a <= r.2 <= a,
    decreases a,
{
    if a == 0 {
        return (b, 0, 1);
    }
    proof {
        lemma_fundamental_div_mod(b as int, a as int);
        lemma_mod_division_less_than_divisor(b as int, a as int);
    }
    let (g, x1, y1) = gcd_extended(b % a, a);
    let q = b / a;
    let ghost rem = (b % a) as int;
    proof {
        assert(q == (b as int) / (a as int));
        assert(rem == (b as int) % (a as int));
        assert((b as int) == (a as int) * ((b as int) / (a as int)) + (b as int) % (a as int));
        assert(q * (a as int) == (a as int) * q) by (nonlinear_arith);
        // x1 is within [-a, a] either way: the sub-call bounds it by its
        // second argument a, or pins it to 0 or 1.
        assert(-(a as int) <= x1 <= a as int);
        if rem == 0 {
            assert(x1 == 0);
            assert(q * x1 == 0) by (nonlinear_arith)
                requires
                    x1 == 0,
            ;
            assert(y1 == 1);
        } else {
            assert(q * x1 <= q * (a as int)) by (nonlinear_arith)
                requires
                    x1 <= a,
                    q >= 0,
            ;
            assert(-(q * (a as int)) <= q * x1) by (nonlinear_arith)
                requires
                    -(a as int) <= x1,
                    q >= 0,
            ;
            assert(q * (a as int) == b - rem);
            // y1 is within [-rem, rem]: the sub-call ran on (rem, a) with
            // rem >= 1.
            assert(-rem <= y1 <= rem);
        }
    }
    let x = y1 - q * x1;
    let y = x1;
    proof {
        // The Bezout identity carries through the recursive step.
        assert((a as int) * x + (b as int) * y == rem * x1 + (a as int) * y1)
            by (nonlinear_arith)
            requires
                x == y1 - q * x1,
                y == x1,
                (b as int) == q * (a as int) + rem,
        ;
    }
    (g, x, y)
}

/// The least common multiple by the classic formula a/gcd(a, b) * b.
pub fn lcm(a: u64, b: u64) -> (r: u64)
    requires
        a > 0 || b > 0,
        (a as nat / gcd_rec(a as nat, b as nat)) * b <= u64::MAX,
    ensures
        r == (a as nat / gcd_rec(a as nat, b as nat)) * b,
{
    proof {
        lemma_gcd_pos(a as nat, b as nat);
    }
    let g = gcd(a, b);
    (a / g) * b
}

} // verus!
