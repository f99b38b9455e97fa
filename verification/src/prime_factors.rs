use vstd::prelude::*;

use vstd::arithmetic::div_mod::lemma_fundamental_div_mod;
use vstd::arithmetic::div_mod::lemma_mod_division_less_than_divisor;
use vstd::arithmetic::div_mod::lemma_mod_multiples_basic;
use vstd::arithmetic::div_mod::lemma_mod_self_0;

verus! {

/// A number with no divisor strictly between 1 and itself.
pub open spec fn is_prime_spec(p: nat) -> bool {
    p >= 2 && forall|d: nat| 2 <= d < p ==> #[trigger] (p % d) != 0
}

/// The product of a sequence of numbers.
pub open spec fn product_of(s: Seq<nat>) -> nat
    decreases s.len(),
{
    if s.len() == 0 {
        1
    } else {
        s[0] * product_of(s.drop_first())
    }
}

/// `n` has no divisor in `[2, x)`.
pub open spec fn no_factor_below(n: nat, x: nat) -> bool {
    forall|d: nat| 2 <= d < x ==> #[trigger] (n % d) != 0
}

/// Trial division from candidate `x` upward: the non-decreasing sequence of
/// prime factors of `n`, provided `n` has no factor below `x`.
pub open spec fn trial_factors(n: nat, x: nat) -> Seq<nat>
    decreases n, (if x <= n + 2 { (n + 2 - x) as nat } else { 0nat }),
    via trial_factors_dec
{
    if x < 2 || n <= 1 {
        Seq::empty()
    } else if x * x > n {
        seq![n]
    } else if n % x == 0 {
        seq![x] + trial_factors(n / x, x)
    } else {
        trial_factors(n, x + 1)
    }
}

#[via_fn]
proof fn trial_factors_dec(n: nat, x: nat) {
    if !(x < 2 || n <= 1) && !(x * x > n) {
        assert(x <= n) by (nonlinear_arith)
            requires
                x >= 2,
                x * x <= n,
        ;
        if n % x == 0 {
            lemma_div_facts(n, x);
        }
    }
}

/// The prime factorization of `n`, smallest factor first.
pub open spec fn spec_factors(n: nat) -> Seq<nat> {
    trial_factors(n, 2)
}

/// Basic facts about an exact division: the quotient multiplies back, is
/// positive, and is smaller than the dividend.
proof fn lemma_div_facts(n: nat, x: nat)
    requires
        n >= 1,
        x >= 2,
        n % x == 0,
    ensures
        n == x * (n / x),
        1 <= n / x < n,
{
    lemma_fundamental_div_mod(n as int, x as int);
    let q = n / x;
    if q == 0 {
        assert((x as nat) * q == 0) by (nonlinear_arith)
            requires
                q == 0,
        ;
        assert(false);
    }
    assert(q < n) by (nonlinear_arith)
        requires
            n == x * q,
            x >= 2,
            q >= 1,
    ;
}

/// Divisibility carries through a factor: if `c` divides `b` and `b` divides
/// `a`, then `c` divides `a`.
proof fn lemma_divides_trans(a: nat, b: nat, c: nat)
    requires
        b >= 1,
        c >= 1,
        a % b == 0,
        b % c == 0,
    ensures
        a % c == 0,
{
    let k = a / b;
    let m = b / c;
    lemma_fundamental_div_mod(a as int, b as int);
    lemma_fundamental_div_mod(b as int, c as int);
    assert(a == (m * k) * c) by (nonlinear_arith)
        requires
            a == b * k,
            b == c * m,
    ;
    lemma_mod_multiples_basic((m * k) as int, c as int);
}

/// The square-root loop guard: continuing while `x <= n / x` is the same as
/// continuing while `x * x <= n`.
proof fn lemma_sqrt_guard(n: nat, x: nat)
    requires
        x >= 1,
    ensures
        (x <= n / x) <==> (x * x <= n),
{
    lemma_fundamental_div_mod(n as int, x as int);
    lemma_mod_division_less_than_divisor(n as int, x as int);
    let q = n / x;
    if x <= q {
        assert(x * x <= x * q) by (nonlinear_arith)
            requires
                x >= 1,
                x <= q,
        ;
    }
    if x * x <= n {
        if q < x {
            assert(x * q + x <= x * x) by (nonlinear_arith)
                requires
                    x >= 1,
                    q < x,
            ;
            assert(false);
        }
    }
}

/// The trial factors of `n` multiply back to `n`.
proof fn lemma_trial_product(n: nat, x: nat)
    requires
        n >= 1,
        x >= 2,
    ensures
        product_of(trial_factors(n, x)) == n,
    decreases n, (if x <= n + 2 { (n + 2 - x) as nat } else { 0nat }),
{
    if n <= 1 {
        assert(product_of(Seq::<nat>::empty()) == 1);
    } else if x * x > n {
        let s = seq![n];
        assert(s.drop_first() =~= Seq::<nat>::empty());
        assert(product_of(s) == s[0] * product_of(s.drop_first()));
        assert(product_of(s) == n) by (nonlinear_arith)
            requires
                product_of(s) == s[0] * product_of(s.drop_first()),
                product_of(s.drop_first()) == 1,
                s[0] == n,
        ;
    } else if n % x == 0 {
        let q = n / x;
        lemma_div_facts(n, x);
        lemma_trial_product(q, x);
        let s = seq![x] + trial_factors(q, x);
        assert(s[0] == x);
        assert(s.drop_first() =~= trial_factors(q, x));
        assert(product_of(s) == s[0] * product_of(s.drop_first()));
        assert(product_of(s) == n) by (nonlinear_arith)
            requires
                product_of(s) == s[0] * product_of(s.drop_first()),
                product_of(s.drop_first()) == n / x,
                s[0] == x,
                n == x * (n / x),
        ;
    } else {
        assert(x <= n) by (nonlinear_arith)
            requires
                x >= 2,
                x * x <= n,
        ;
        lemma_trial_product(n, x + 1);
    }
}

/// Every trial factor is at least the starting candidate, and the sequence
/// is non-decreasing.
proof fn lemma_trial_sorted(n: nat, x: nat)
    requires
        x >= 2,
        no_factor_below(n, x),
    ensures
        forall|i: int|
            0 <= i < trial_factors(n, x).len() ==> x <= #[trigger] trial_factors(n, x)[i],
        forall|i: int, j: int|
            0 <= i <= j < trial_factors(n, x).len() ==> trial_factors(n, x)[i]
                <= trial_factors(n, x)[j],
    decreases n, (if x <= n + 2 { (n + 2 - x) as nat } else { 0nat }),
{
    if n <= 1 {
    } else if x * x > n {
        // n itself is emitted; were n below x it would divide itself within
        // [2, x), against the precondition.
        if n < x {
            lemma_mod_self_0(n as int);
            assert(2 <= n < x && n % (n as nat) == 0);
            assert(false);
        }
    } else if n % x == 0 {
        let q = n / x;
        lemma_div_facts(n, x);
        assert forall|d: nat| 2 <= d < x implies #[trigger] (q % d) != 0 by {
            if q % d == 0 {
                lemma_mod_multiples_basic(x as int, q as int);
                lemma_divides_trans(n, q, d);
            }
        }
        lemma_trial_sorted(q, x);
        let s = seq![x] + trial_factors(q, x);
        assert forall|i: int| 0 <= i < s.len() implies x <= #[trigger] s[i] by {
            if i > 0 {
                assert(s[i] == trial_factors(q, x)[i - 1]);
            }
        }
        assert forall|i: int, j: int| 0 <= i <= j < s.len() implies s[i] <= s[j] by {
            if i > 0 {
                assert(s[i] == trial_factors(q, x)[i - 1]);
                assert(s[j] == trial_factors(q, x)[j - 1]);
            } else if j > 0 {
                assert(s[j] == trial_factors(q, x)[j - 1]);
            }
        }
        assert(trial_factors(n, x) =~= s);
        assert forall|i: int, j: int|
            0 <= i <= j < trial_factors(n, x).len() implies trial_factors(n, x)[i]
            <= trial_factors(n, x)[j] by {
            assert(trial_factors(n, x)[i] == s[i]);
            assert(trial_factors(n, x)[j] == s[j]);
        }
    } else {
        assert(x <= n) by (nonlinear_arith)
            requires
                x >= 2,
                x * x <= n,
        ;
        lemma_trial_sorted(n, x + 1);
        assert(trial_factors(n, x) =~= trial_factors(n, x + 1));
        assert forall|i: int|
            0 <= i < trial_factors(n, x).len() implies x <= #[trigger] trial_factors(n, x)[i] by {
            assert(x + 1 <= trial_factors(n, x + 1)[i]);
        }
        assert forall|i: int, j: int|
            0 <= i <= j < trial_factors(n, x).len() implies trial_factors(n, x)[i]
            <= trial_factors(n, x)[j] by {
            assert(trial_factors(n, x)[i] == trial_factors(n, x + 1)[i]);
            assert(trial_factors(n, x)[j] == trial_factors(n, x + 1)[j]);
        }
    }
}

/// Every trial factor is prime.
proof fn lemma_trial_prime(n: nat, x: nat)
    requires
        x >= 2,
        no_factor_below(n, x),
    ensures
        forall|i: int|
            0 <= i < trial_factors(n, x).len() ==> is_prime_spec(
                #[trigger] trial_factors(n, x)[i],
            ),
    decreases n, (if x <= n + 2 { (n + 2 - x) as nat } else { 0nat }),
{
    if n <= 1 {
    } else if x * x > n {
        // n has no divisor below x; a divisor d of n with d >= x would pair
        // with a cofactor below x, which the precondition rules out.
        assert forall|d: nat| 2 <= d < n implies #[trigger] (n % d) != 0 by {
            if n % d == 0 && d >= x {
                let k = n / d;
                lemma_div_facts(n, d);
                lemma_fundamental_div_mod(n as int, x as int);
                lemma_mod_division_less_than_divisor(n as int, x as int);
                if k >= x {
                    assert(d * k >= x * x) by (nonlinear_arith)
                        requires
                            d >= x,
                            k >= x,
                            x >= 0,
                    ;
                    assert(false);
                }
                if k == 1 {
                    assert(n == d) by (nonlinear_arith)
                        requires
                            n == d * k,
                            k == 1,
                    ;
                    assert(false);
                }
                assert(n % k == 0) by {
                    lemma_mod_multiples_basic(d as int, k as int);
                    assert(n == d * k);
                }
                assert(2 <= k < x && n % k == 0);
                assert(false);
            }
        }
        assert(is_prime_spec(n));
    } else if n % x == 0 {
        let q = n / x;
        lemma_div_facts(n, x);
        // x is prime: any proper divisor of x would divide n below x.
        assert forall|d: nat| 2 <= d < x implies #[trigger] ((x as nat) % d) != 0 by {
            if (x as nat) % d == 0 {
                lemma_mod_multiples_basic(q as int, x as int);
                assert(n == q * x) by (nonlinear_arith)
                    requires
                        n == x * q,
                ;
                lemma_divides_trans(n, x, d);
            }
        }
        assert(is_prime_spec(x));
        assert forall|d: nat| 2 <= d < x implies #[trigger] (q % d) != 0 by {
            if q % d == 0 {
                lemma_mod_multiples_basic(x as int, q as int);
                lemma_divides_trans(n, q, d);
            }
        }
        lemma_trial_prime(q, x);
        let s = seq![x] + trial_factors(q, x);
        assert(trial_factors(n, x) =~= s);
        assert forall|i: int| 0 <= i < s.len() implies is_prime_spec(#[trigger] s[i]) by {
            if i > 0 {
                assert(s[i] == trial_factors(q, x)[i - 1]);
            }
        }
        assert forall|i: int|
            0 <= i < trial_factors(n, x).len() implies is_prime_spec(
            #[trigger] trial_factors(n, x)[i],
        ) by {
            assert(trial_factors(n, x)[i] == s[i]);
        }
    } else {
        assert(x <= n) by (nonlinear_arith)
            requires
                x >= 2,
                x * x <= n,
        ;
        lemma_trial_prime(n, x + 1);
        assert(trial_factors(n, x) =~= trial_factors(n, x + 1));
        assert forall|i: int|
            0 <= i < trial_factors(n, x).len() implies is_prime_spec(
            #[trigger] trial_factors(n, x)[i],
        ) by {
            assert(trial_factors(n, x)[i] == trial_factors(n, x + 1)[i]);
        }
    }
}

/// A product of positive numbers is positive.
proof fn lemma_product_pos(s: Seq<nat>)
    requires
        forall|i: int| 0 <= i < s.len() ==> #[trigger] s[i] >= 1,
    ensures
        product_of(s) >= 1,
    decreases s.len(),
{
    if s.len() > 0 {
        assert(forall|i: int|
            0 <= i < s.drop_first().len() ==> #[trigger] s.drop_first()[i] >= 1);
        lemma_product_pos(s.drop_first());
        assert(s[0] * product_of(s.drop_first()) >= 1) by (nonlinear_arith)
            requires
                s[0] >= 1,
                product_of(s.drop_first()) >= 1,
        ;
    }
}

/// Compute the prime factorization of a number by trial division, smallest
/// factor first. For 0 and 1 the factorization is empty.
pub fn prime_factors(of: usize) -> (r: Vec<usize>)
    ensures
        r@.map_values(|u: usize| u as nat) == spec_factors(of as nat),
        of >= 1 ==> product_of(r@.map_values(|u: usize| u as nat)) == of,
        forall|i: int| 0 <= i < r@.len() ==> is_prime_spec(#[trigger] r@[i] as nat),
        forall|i: int, j: int| 0 <= i <= j < r@.len() ==> r@[i] <= r@[j],
{
    let mut res: Vec<usize> = Vec::new();
    let mut x: usize = 2;
    let mut n: usize = of;
    // The candidate only needs to run to the square root of what remains;
    // comparing against n / x avoids overflowing x * x.
    while x <= n / x
        invariant
            x >= 2,
            n <= of,
            of >= 1 ==> n >= 1,
            of == 0 ==> n == 0,
            no_factor_below(n as nat, x as nat),
            spec_factors(of as nat) =~= res@.map_values(|u: usize| u as nat) + trial_factors(
                n as nat,
                x as nat,
            ),
        decreases n, (if x <= n + 2 { (n + 2 - x) as nat } else { 0nat }),
    {
        let ghost n_b = n;
        proof {
            lemma_sqrt_guard(n as nat, x as nat);
            assert((x as nat) * (x as nat) <= n as nat);
        }
        while n % x == 0
            invariant
                x >= 2,
                n <= n_b,
                n_b <= of,
                n >= 1,
                of >= 1,
                no_factor_below(n as nat, x as nat),
                spec_factors(of as nat) =~= res@.map_values(|u: usize| u as nat) + trial_factors(
                    n as nat,
                    x as nat,
                ),
            decreases n,
        {
            let ghost res0 = res@;
            let ghost n0 = n as nat;
            res.push(x);
            n = n / x;
            proof {
                lemma_div_facts(n0, x as nat);
                assert(res@ =~= res0.push(x));
                assert(res@.map_values(|u: usize| u as nat) =~= res0.map_values(
                    |u: usize| u as nat,
                ).push(x as nat));
                if (x as nat) * (x as nat) <= n0 {
                    assert(trial_factors(n0, x as nat) =~= seq![x as nat] + trial_factors(
                        n as nat,
                        x as nat,
                    ));
                } else {
                    // Only one copy of x can remain here: the cofactor has
                    // no factor below x yet is smaller than x, so it is 1.
                    if n as nat >= 2 {
                        assert((n as nat) < x as nat) by (nonlinear_arith)
                            requires
                                n0 == (x as nat) * (n as nat),
                                (x as nat) * (x as nat) > n0,
                                n as nat >= 1,
                                x >= 2,
                        ;
                        lemma_mod_self_0(n as int);
                        assert(n0 % (n as nat) == 0) by {
                            lemma_mod_multiples_basic(x as int, n as int);
                            assert(n0 == (x as nat) * (n as nat));
                        }
                        assert(2 <= (n as nat) < (x as nat) && n0 % (n as nat) == 0);
                        assert(false);
                    }
                    assert(n as nat == 1);
                    assert(n0 == x as nat) by (nonlinear_arith)
                        requires
                            n0 == (x as nat) * (n as nat),
                            n as nat == 1,
                    ;
                    assert(trial_factors(n0, x as nat) =~= seq![x as nat]);
                    assert(trial_factors(n as nat, x as nat) =~= Seq::<nat>::empty());
                }
                assert forall|d: nat| 2 <= d < x as nat implies #[trigger] ((n as nat) % d)
                    != 0 by {
                    if (n as nat) % d == 0 {
                        lemma_mod_multiples_basic(x as int, n as int);
                        lemma_divides_trans(n0, n as nat, d);
                    }
                }
            }
        }
        proof {
            assert(x < usize::MAX) by (nonlinear_arith)
                requires
                    x >= 2,
                    (x as nat) * (x as nat) <= n_b as nat,
                    n_b <= usize::MAX,
            ;
            if (x as nat) * (x as nat) <= n as nat {
                assert(trial_factors(n as nat, x as nat) =~= trial_factors(
                    n as nat,
                    (x + 1) as nat,
                ));
            } else {
                assert(((x + 1) as nat) * ((x + 1) as nat) > n as nat) by (nonlinear_arith)
                    requires
                        (x as nat) * (x as nat) > n as nat,
                        x >= 2,
                ;
                assert(trial_factors(n as nat, x as nat) =~= trial_factors(
                    n as nat,
                    (x + 1) as nat,
                ));
            }
        }
        x = x + 1;
    }
    proof {
        lemma_sqrt_guard(n as nat, x as nat);
    }
    if n > 1 {
        let ghost res0 = res@;
        res.push(n);
        proof {
            assert(res@ =~= res0.push(n));
            assert(res@.map_values(|u: usize| u as nat) =~= res0.map_values(|u: usize| u as nat)
                + seq![n as nat]);
            assert(trial_factors(n as nat, x as nat) =~= seq![n as nat]);
        }
    } else {
        proof {
            assert(trial_factors(n as nat, x as nat) =~= Seq::<nat>::empty());
            assert(res@.map_values(|u: usize| u as nat) + Seq::<nat>::empty() =~= res@.map_values(
                |u: usize| u as nat,
            ));
        }
    }
    proof {
        assert(no_factor_below(of as nat, 2));
        if of >= 1 {
            lemma_trial_product(of as nat, 2);
        }
        lemma_trial_prime(of as nat, 2);
        lemma_trial_sorted(of as nat, 2);
        assert forall|i: int| 0 <= i < res@.len() implies is_prime_spec(
            #[trigger] res@[i] as nat,
        ) by {
            assert(res@.map_values(|u: usize| u as nat)[i] == res@[i] as nat);
            assert(is_prime_spec(spec_factors(of as nat)[i]));
        }
        assert forall|i: int, j: int| 0 <= i <= j < res@.len() implies res@[i] <= res@[j] by {
            assert(res@.map_values(|u: usize| u as nat)[i] == res@[i] as nat);
            assert(res@.map_values(|u: usize| u as nat)[j] == res@[j] as nat);
            assert(spec_factors(of as nat)[i] <= spec_factors(of as nat)[j]);
        }
    }
    res
}

/// A number is prime exactly when its factorization is the number alone.
pub fn is_prime(n: usize) -> (r: bool)
    ensures
        r == is_prime_spec(n as nat),
{
    let factors = prime_factors(n);
    let r = factors.len() == 1;
    proof {
        let fs = factors@.map_values(|u: usize| u as nat);
        if r {
            // The single factor multiplies back to n and is prime.
            assert(fs.drop_first() =~= Seq::<nat>::empty());
            assert(product_of(fs) == fs[0] * product_of(fs.drop_first()));
            assert(n >= 1) by {
                if n == 0 {
                    assert(spec_factors(0) =~= Seq::<nat>::empty());
                }
            }
            assert(fs[0] == n as nat) by (nonlinear_arith)
                requires
                    product_of(fs) == fs[0] * product_of(fs.drop_first()),
                    product_of(fs.drop_first()) == 1,
                    product_of(fs) == n as nat,
            ;
            assert(fs[0] == factors@[0] as nat);
            assert(is_prime_spec(factors@[0] as nat));
        } else {
            if is_prime_spec(n as nat) {
                if fs.len() == 0 {
                    assert(product_of(fs) == 1);
                    assert(n as nat == 1);
                    assert(false);
                } else {
                    // At least two factors: the first is then a proper
                    // divisor of n, so n is not prime after all.
                    let rest = fs.drop_first();
                    assert(product_of(fs) == fs[0] * product_of(rest));
                    assert(rest.len() >= 1);
                    assert(product_of(rest) == rest[0] * product_of(rest.drop_first()));
                    assert(fs[0] == factors@[0] as nat);
                    assert(is_prime_spec(fs[0]));
                    assert(rest[0] == fs[1]);
                    assert(fs[1] == factors@[1] as nat);
                    assert(is_prime_spec(rest[0]));
                    assert forall|i: int|
                        0 <= i < rest.drop_first().len() implies #[trigger] rest.drop_first()[i]
                        >= 1 by {
                        assert(rest.drop_first()[i] == fs[i + 2]);
                        assert(fs[i + 2] == factors@[i + 2] as nat);
                        assert(is_prime_spec(factors@[i + 2] as nat));
                    }
                    lemma_product_pos(rest.drop_first());
                    assert(product_of(rest) >= 2) by (nonlinear_arith)
                        requires
                            rest[0] >= 2,
                            product_of(rest.drop_first()) >= 1,
                            product_of(rest) == rest[0] * product_of(rest.drop_first()),
                    ;
                    assert(n as nat == fs[0] * product_of(rest));
                    assert(2 <= fs[0] && fs[0] < n as nat) by (nonlinear_arith)
                        requires
                            fs[0] >= 2,
                            product_of(rest) >= 2,
                            n as nat == fs[0] * product_of(rest),
                    ;
                    assert((n as nat) % fs[0] == 0) by {
                        lemma_mod_multiples_basic(product_of(rest) as int, fs[0] as int);
                        assert(n as nat == product_of(rest) * fs[0]) by (nonlinear_arith)
                            requires
                                n as nat == fs[0] * product_of(rest),
                        ;
                    }
                    assert(false);
                }
            }
        }
    }
    r
}

} // verus!
