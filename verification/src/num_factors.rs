use vstd::prelude::*;

use itertools::Itertools;

use crate::prime_factors::prime_factors;
use crate::prime_factors::spec_factors;

verus! {

/// Length of the leading run of equal elements.
pub open spec fn run_len<A>(s: Seq<A>) -> nat
    decreases s.len(),
{
    if s.len() == 0 {
        0
    } else if s.len() >= 2 && s[1] == s[0] {
        1 + run_len(s.drop_first())
    } else {
        1
    }
}

/// A non-empty sequence has a leading run of at least one element.
proof fn lemma_run_len_bounds<A>(s: Seq<A>)
    requires
        s.len() > 0,
    ensures
        1 <= run_len(s) <= s.len(),
    decreases s.len(),
{
    if s.len() >= 2 && s[1] == s[0] {
        lemma_run_len_bounds(s.drop_first());
    }
}

/// The divisor-count formula applied to a factorization: one more than each
/// run length, multiplied. On the prime factorization of n (non-decreasing,
/// so each prime forms one run) this is the classic count d(n) =
/// (v1+1)(v2+1)... over the multiplicities v of the distinct primes.
pub open spec fn tau_of_factors<A>(s: Seq<A>) -> nat
    decreases s.len(),
    via tau_of_factors_dec::<A>
{
    if s.len() == 0 {
        1
    } else {
        (run_len(s) + 1) * tau_of_factors(s.skip(run_len(s) as int))
    }
}

#[via_fn]
proof fn tau_of_factors_dec<A>(s: Seq<A>) {
    if s.len() > 0 {
        lemma_run_len_bounds::<A>(s);
    }
}

/// The number of divisors of n, as the divisor-count formula over its prime
/// factorization.
pub open spec fn tau_spec(n: nat) -> nat {
    tau_of_factors(spec_factors(n))
}

/// The concatenation of a sequence of groups.
pub open spec fn concat_all<A>(gs: Seq<Seq<A>>) -> Seq<A>
    decreases gs.len(),
{
    if gs.len() == 0 {
        Seq::empty()
    } else {
        gs[0] + concat_all(gs.drop_first())
    }
}

/// `gs` splits `s` into its maximal runs: the groups concatenate back to
/// `s`, each group is non-empty and constant, and neighboring groups hold
/// different values.
pub open spec fn is_grouping<A>(s: Seq<A>, gs: Seq<Seq<A>>) -> bool {
    &&& concat_all(gs) == s
    &&& (forall|i: int| 0 <= i < gs.len() ==> (#[trigger] gs[i]).len() >= 1)
    &&& (forall|i: int, k: int|
        0 <= i < gs.len() && 0 <= k < gs[i].len() ==> (#[trigger] gs[i][k]) == gs[i][0])
    &&& (forall|i: int| 0 <= i < gs.len() - 1 ==> (#[trigger] gs[i])[0] != gs[i + 1][0])
}

/// One more than each group's length, multiplied.
pub open spec fn tau_groups<A>(gs: Seq<Seq<A>>) -> nat
    decreases gs.len(),
{
    if gs.len() == 0 {
        1
    } else {
        (gs[0].len() + 1) * tau_groups(gs.drop_first())
    }
}

/// The leading run is exactly `k` when the first `k` elements agree and the
/// next one, if any, differs.
proof fn lemma_run_len_char<A>(s: Seq<A>, k: int)
    requires
        1 <= k <= s.len(),
        forall|m: int| 0 <= m < k ==> #[trigger] s[m] == s[0],
        k == s.len() || s[k] != s[0],
    ensures
        run_len(s) == k,
    decreases k,
{
    if k == 1 {
        if s.len() >= 2 && s[1] == s[0] {
            assert(false);
        }
    } else {
        assert(s[1] == s[0]);
        let t = s.drop_first();
        assert forall|m: int| 0 <= m < k - 1 implies #[trigger] t[m] == t[0] by {
            assert(t[m] == s[m + 1]);
            assert(t[0] == s[1]);
        }
        if k < s.len() {
            assert(t[k - 1] == s[k]);
            assert(t[k - 1] != t[0]);
        }
        lemma_run_len_char(t, k - 1);
    }
}

/// The group-length product of a grouping equals the run-length formula on
/// the grouped sequence.
proof fn lemma_grouping_tau<A>(s: Seq<A>, gs: Seq<Seq<A>>)
    requires
        is_grouping(s, gs),
    ensures
        tau_groups(gs) == tau_of_factors(s),
    decreases gs.len(),
{
    if gs.len() == 0 {
        assert(s =~= Seq::<A>::empty());
    } else {
        let g0 = gs[0];
        let rest = gs.drop_first();
        let srest = concat_all(rest);
        assert(s == g0 + srest);
        assert(s.len() == g0.len() + srest.len());
        assert forall|m: int| 0 <= m < g0.len() implies #[trigger] s[m] == s[0] by {
            assert(s[m] == g0[m]);
            assert(g0[m] == g0[0]);
            assert(s[0] == g0[0]);
        }
        if rest.len() > 0 {
            assert(rest[0] == gs[1]);
            assert(rest[0].len() >= 1);
            assert(srest == rest[0] + concat_all(rest.drop_first()));
            assert(s[g0.len() as int] == srest[0]);
            assert(srest[0] == rest[0][0]);
            assert(gs[0][0] != gs[1][0]);
            lemma_run_len_char(s, g0.len() as int);
        } else {
            assert(srest =~= Seq::<A>::empty());
            lemma_run_len_char(s, g0.len() as int);
        }
        assert(is_grouping(srest, rest)) by {
            assert forall|i: int| 0 <= i < rest.len() implies (#[trigger] rest[i]).len() >= 1 by {
                assert(rest[i] == gs[i + 1]);
            }
            assert forall|i: int, k: int|
                0 <= i < rest.len() && 0 <= k < rest[i].len() implies (#[trigger] rest[i][k])
                == rest[i][0] by {
                assert(rest[i] == gs[i + 1]);
            }
            assert forall|i: int| 0 <= i < rest.len() - 1 implies (#[trigger] rest[i])[0]
                != rest[i + 1][0] by {
                assert(rest[i] == gs[i + 1]);
                assert(rest[i + 1] == gs[i + 2]);
            }
        }
        lemma_grouping_tau(srest, rest);
        assert(s.skip(g0.len() as int) =~= srest);
    }
}

/// Casting the factors from machine words to naturals changes no equality,
/// so the run-length formula is unchanged.
proof fn lemma_tau_map(s: Seq<usize>)
    ensures
        tau_of_factors(s.map_values(|u: usize| u as nat)) == tau_of_factors(s),
    decreases s.len(),
{
    let t = s.map_values(|u: usize| u as nat);
    assert(t.len() == s.len());
    if s.len() > 0 {
        lemma_run_map(s);
        lemma_run_len_bounds(s);
        assert(t.skip(run_len(t) as int) =~= s.skip(run_len(s) as int).map_values(
            |u: usize| u as nat,
        ));
        lemma_tau_map(s.skip(run_len(s) as int));
    }
}

/// Casting to naturals keeps the leading run length.
proof fn lemma_run_map(s: Seq<usize>)
    requires
        s.len() > 0,
    ensures
        run_len(s.map_values(|u: usize| u as nat)) == run_len(s),
    decreases s.len(),
{
    let t = s.map_values(|u: usize| u as nat);
    assert(t.len() == s.len());
    if s.len() >= 2 {
        assert(t[0] == s[0] as nat);
        assert(t[1] == s[1] as nat);
        if s[1] == s[0] {
            assert(t.drop_first() =~= s.drop_first().map_values(|u: usize| u as nat));
            lemma_run_map(s.drop_first());
        }
    }
}

/// The formula's value is always positive.
proof fn lemma_tau_pos<A>(s: Seq<A>)
    ensures
        tau_of_factors(s) >= 1,
    decreases s.len(),
{
    if s.len() > 0 {
        lemma_run_len_bounds(s);
        lemma_tau_pos(s.skip(run_len(s) as int));
        assert((run_len(s) + 1) * tau_of_factors(s.skip(run_len(s) as int)) >= 1)
            by (nonlinear_arith)
            requires
                run_len(s) >= 1,
                tau_of_factors(s.skip(run_len(s) as int)) >= 1,
        ;
    }
}

/// Positivity for the group-length product.
proof fn lemma_tau_groups_pos<A>(gs: Seq<Seq<A>>)
    ensures
        tau_groups(gs) >= 1,
    decreases gs.len(),
{
    if gs.len() > 0 {
        lemma_tau_groups_pos(gs.drop_first());
        assert((gs[0].len() + 1) * tau_groups(gs.drop_first()) >= 1) by (nonlinear_arith)
            requires
                tau_groups(gs.drop_first()) >= 1,
        ;
    }
}

/// Relies on itertools' `Itertools::chunk_by`: consecutive elements whose
/// keys are equal (here the elements themselves) come out as one group, in
/// input order.
#[verifier::external_body]
fn group_runs(v: &Vec<usize>) -> (r: Vec<Vec<usize>>)
    ensures
        is_grouping(v@, r@.map_values(|g: Vec<usize>| g@)),
{
    v.iter()
        .chunk_by(|&&a| a)
        .into_iter()
        .map(|(_, g)| g.copied().collect())
        .collect()
}

/// The number of divisors of a natural number, computed from its prime
/// factorization: group the equal factors and multiply one more than each
/// group's size.
pub fn num_factors(of: usize) -> (r: usize)
    requires
        tau_spec(of as nat) <= usize::MAX,
    ensures
        r as nat == tau_spec(of as nat),
{
    let factors = prime_factors(of);
    let groups = group_runs(&factors);
    let ghost gsv = groups@.map_values(|g: Vec<usize>| g@);
    proof {
        lemma_grouping_tau(factors@, gsv);
        lemma_tau_map(factors@);
        assert(tau_groups(gsv) == tau_spec(of as nat));
        assert(gsv.skip(0) =~= gsv);
    }
    let mut r: usize = 1;
    let mut i: usize = 0;
    while i < groups.len()
        invariant
            i <= groups@.len(),
            gsv == groups@.map_values(|g: Vec<usize>| g@),
            (r as nat) * tau_groups(gsv.skip(i as int)) == tau_spec(of as nat),
            tau_spec(of as nat) <= usize::MAX,
            r >= 1,
        decreases groups@.len() - i,
    {
        let k = groups[i].len();
        proof {
            let rem = gsv.skip(i as int);
            assert(rem[0] == gsv[i as int]);
            assert(gsv[i as int] == groups@[i as int]@);
            assert(rem.drop_first() =~= gsv.skip(i + 1));
            assert(tau_groups(rem) == (k + 1) * tau_groups(gsv.skip(i + 1)));
            lemma_tau_groups_pos(gsv.skip(i + 1));
            assert((r as nat) * (k + 1) <= tau_spec(of as nat)) by (nonlinear_arith)
                requires
                    (r as nat) * ((k + 1) * tau_groups(gsv.skip(i + 1))) == tau_spec(of as nat),
                    tau_groups(gsv.skip(i + 1)) >= 1,
                    r >= 1,
                    k >= 0,
            ;
            assert((r as nat) * ((k + 1) * tau_groups(gsv.skip(i + 1))) == ((r as nat) * (k + 1))
                * tau_groups(gsv.skip(i + 1))) by (nonlinear_arith);
            assert(k + 1 <= usize::MAX) by (nonlinear_arith)
                requires
                    (r as nat) * (k + 1) <= usize::MAX,
                    r >= 1,
                    k >= 0,
            ;
        }
        let ghost old_r = r as nat;
        r = r * (k + 1);
        i += 1;
        proof {
            assert((r as nat) * tau_groups(gsv.skip(i as int)) == tau_spec(of as nat))
                by (nonlinear_arith)
                requires
                    r as nat == old_r * (k + 1),
                    old_r * ((k + 1) * tau_groups(gsv.skip(i as int))) == tau_spec(of as nat),
            ;
            assert(r >= 1) by (nonlinear_arith)
                requires
                    r as nat == old_r * (k + 1),
                    old_r >= 1,
                    k >= 0,
            ;
        }
    }
    proof {
        assert(gsv.skip(groups@.len() as int) =~= Seq::<Seq<usize>>::empty());
        assert((r as nat) * 1 == r as nat);
    }
    r
}

/// The number of divisors again, by a direct scan over the sorted factor
/// list: count each run of equal factors and multiply one more than each
/// run's length.
pub fn num_factors_alt(of: usize) -> (r: usize)
    requires
        tau_spec(of as nat) <= usize::MAX,
    ensures
        r as nat == tau_spec(of as nat),
{
    let factors = prime_factors(of);
    proof {
        lemma_tau_map(factors@);
        assert(factors@.skip(0) =~= factors@);
    }
    let mut r: usize = 1;
    let mut i: usize = 0;
    while i < factors.len()
        invariant
            i <= factors@.len(),
            (r as nat) * tau_of_factors(factors@.skip(i as int)) == tau_spec(of as nat),
            tau_spec(of as nat) <= usize::MAX,
            r >= 1,
        decreases factors@.len() - i,
    {
        let v = factors[i];
        let mut j = i + 1;
        while j < factors.len() && factors[j] == v
            invariant
                i < j <= factors@.len(),
                v == factors@[i as int],
                forall|m: int| i <= m < j ==> #[trigger] factors@[m] == factors@[i as int],
            decreases factors@.len() - j,
        {
            j += 1;
        }
        let k = j - i;
        proof {
            let rem = factors@.skip(i as int);
            assert forall|m: int| 0 <= m < k implies #[trigger] rem[m] == rem[0] by {
                assert(rem[m] == factors@[i + m]);
                assert(rem[0] == factors@[i as int]);
            }
            if j < factors@.len() {
                assert(rem[k as int] == factors@[j as int]);
                assert(factors@[j as int] != factors@[i as int]);
            }
            lemma_run_len_char(rem, k as int);
            assert(rem.skip(k as int) =~= factors@.skip(j as int));
            assert(tau_of_factors(rem) == (k + 1) * tau_of_factors(factors@.skip(j as int)));
            lemma_tau_pos(factors@.skip(j as int));
            assert((r as nat) * ((k + 1) * tau_of_factors(factors@.skip(j as int))) == ((
            r as nat) * (k + 1)) * tau_of_factors(factors@.skip(j as int))) by (nonlinear_arith);
            assert((r as nat) * (k + 1) <= tau_spec(of as nat)) by (nonlinear_arith)
                requires
                    ((r as nat) * (k + 1)) * tau_of_factors(factors@.skip(j as int)) == tau_spec(
                        of as nat,
                    ),
                    tau_of_factors(factors@.skip(j as int)) >= 1,
                    r >= 1,
                    k >= 0,
            ;
            assert(k + 1 <= usize::MAX) by (nonlinear_arith)
                requires
                    (r as nat) * (k + 1) <= usize::MAX,
                    r >= 1,
                    k >= 0,
            ;
        }
        let ghost old_r = r as nat;
        r = r * (k + 1);
        i = j;
        proof {
            assert((r as nat) * tau_of_factors(factors@.skip(i as int)) == tau_spec(of as nat))
                by (nonlinear_arith)
                requires
                    r as nat == old_r * (k + 1),
                    old_r * ((k + 1) * tau_of_factors(factors@.skip(i as int))) == tau_spec(
                        of as nat,
                    ),
            ;
            assert(r >= 1) by (nonlinear_arith)
                requires
                    r as nat == old_r * (k + 1),
                    old_r >= 1,
                    k >= 0,
            ;
        }
    }
    proof {
        assert(factors@.skip(factors@.len() as int) =~= Seq::<usize>::empty());
        assert((r as nat) * 1 == r as nat);
    }
    r
}

} // verus!
