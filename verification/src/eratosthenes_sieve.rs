use vstd::prelude::*;

use vstd::arithmetic::div_mod::lemma_mod_multiples_basic;

verus! {

/// A bit set of marked numbers, carried by `bit_set::BitSet`. The crate's
/// generic type cannot be declared to the verifier directly, so the value
/// lives behind this opaque holder and is reached only through the wrappers
/// below.
#[verifier::external_body]
pub struct MarkSet {
    bits: bit_set::BitSet,
}

/// The set of integers the underlying `bit_set::BitSet` holds.
pub uninterp spec fn bitset_elems(s: &MarkSet) -> Set<nat>;

/// Relies on `bit_set::BitSet::with_capacity`: a freshly allocated set
/// holds no elements.
#[verifier::external_body]
fn bitset_new(nbits: usize) -> (r: MarkSet)
    ensures
        bitset_elems(&r) == Set::<nat>::empty(),
{
    MarkSet { bits: bit_set::BitSet::with_capacity(nbits) }
}

/// Relies on `bit_set::BitSet::contains`: whether the value is in the set;
/// out-of-range values are simply absent.
#[verifier::external_body]
fn bitset_contains(s: &MarkSet, value: usize) -> (r: bool)
    ensures
        r == bitset_elems(s).contains(value as nat),
{
    s.bits.contains(value)
}

/// Relies on `bit_set::BitSet::insert`: adds the value, growing the backing
/// storage as needed, and reports whether it was new.
#[verifier::external_body]
fn bitset_insert(s: &mut MarkSet, value: usize) -> (r: bool)
    ensures
        bitset_elems(final(s)) == bitset_elems(old(s)).insert(value as nat),
        r == !bitset_elems(old(s)).contains(value as nat),
{
    s.bits.insert(value)
}

/// The multiples of `p` (from twice `p` up) that lie below `upper`.
pub open spec fn multiples_below(p: nat, upper: nat) -> Set<nat> {
    Set::new(|m: nat| exists|k: nat| k >= 2 && m == #[trigger] (k * p) && m < upper)
}

/// A number with a proper divisor: the product of two factors of at least
/// two.
pub open spec fn is_composite(m: nat) -> bool {
    exists|d: nat| 2 <= d && d < m && #[trigger] (m % d) == 0
}

/// An incremental sieve of Eratosthenes below a fixed bound: each step finds
/// the next unmarked candidate and marks its multiples, so only composite
/// numbers are ever marked.
pub struct Sieve {
    bitset: MarkSet,
    prime: usize,
    upper: usize,
}

impl Sieve {
    /// The numbers marked composite so far.
    pub closed spec fn marked(&self) -> Set<nat> {
        bitset_elems(&self.bitset)
    }

    /// The candidate the sieve last stopped at.
    pub closed spec fn candidate(&self) -> nat {
        self.prime as nat
    }

    /// The exclusive upper bound of the sieve.
    pub closed spec fn upper_spec(&self) -> nat {
        self.upper as nat
    }

    /// Everything marked is a composite number below the bound, and the
    /// candidate never rests below its starting point.
    pub open spec fn wf(&self) -> bool {
        &&& self.candidate() >= 1
        &&& forall|m: nat|
            #[trigger] self.marked().contains(m) ==> is_composite(m) && m < self.upper_spec()
    }

    /// A sieve for the numbers below `upper`, with nothing marked yet and
    /// the candidate resting before the first prime.
    pub fn new(upper: usize) -> (r: Sieve)
        ensures
            r.wf(),
            r.marked() == Set::<nat>::empty(),
            r.candidate() == 1,
            r.upper_spec() == upper,
    {
        Sieve { bitset: bitset_new(upper), prime: 1, upper }
    }

    /// Advance to the next unmarked candidate, mark all its multiples below
    /// the bound, and yield it if it lies below the bound; afterwards the
    /// sieve is exhausted and keeps yielding `None`.
    pub fn next(&mut self) -> (r: Option<usize>)
        requires
            old(self).wf(),
        ensures
            final(self).wf(),
            final(self).upper_spec() == old(self).upper_spec(),
            old(self).candidate() >= old(self).upper_spec() ==> r is None && *final(self) == *old(
                self,
            ),
            old(self).candidate() < old(self).upper_spec() ==> {
                let p = final(self).candidate();
                &&& p > old(self).candidate()
                &&& !old(self).marked().contains(p)
                &&& (forall|w: nat|
                    old(self).candidate() < w < p ==> old(self).marked().contains(w))
                &&& final(self).marked() == old(self).marked().union(
                    multiples_below(p, old(self).upper_spec()),
                )
                &&& r == (if p < old(self).upper_spec() {
                    Some(p as usize)
                } else {
                    None
                })
            },
            r matches Some(v) ==> !old(self).marked().contains(v as nat) && (v as nat) < old(
                self,
            ).upper_spec(),
    {
        if self.prime >= self.upper {
            return None;
        }
        let ghost start = self.prime as nat;
        self.prime = self.prime + 1;
        proof {
            assert(self.marked() == old(self).marked());
        }
        while bitset_contains(&self.bitset, self.prime)
            invariant
                self.wf(),
                self.upper == old(self).upper,
                self.bitset == old(self).bitset,
                start < self.prime as nat <= self.upper_spec(),
                forall|w: nat| start < w < self.prime as nat ==> self.marked().contains(w),
            decreases self.upper_spec() - self.candidate(),
        {
            proof {
                assert(self.marked().contains(self.prime as nat));
                assert((self.prime as nat) < self.upper_spec());
            }
            self.prime = self.prime + 1;
        }
        let p = self.prime;
        let ghost marked0 = self.marked();
        let ghost target = marked0.union(multiples_below(p as nat, self.upper_spec()));
        // Mark every multiple of p from 2p up, staying below the bound and
        // below machine range.
        if p <= usize::MAX - p {
            let mut i = p + p;
            let ghost mut kk: nat = 2;
            loop
                invariant_except_break
                    target == marked0.union(multiples_below(p as nat, self.upper_spec())),
                    self.upper == old(self).upper,
                    self.prime == p,
                    2 <= p,
                    kk >= 2,
                    i as nat == kk * (p as nat),
                    self.wf(),
                    forall|k: nat|
                        2 <= k < kk ==> (#[trigger] (k * (p as nat))) < self.upper_spec()
                            && self.marked().contains(k * (p as nat)),
                    forall|m: nat|
                        #[trigger] self.marked().contains(m) ==> marked0.contains(m) || (
                        exists|k: nat|
                            2 <= k < kk && m == #[trigger] (k * (p as nat)) && m
                                < self.upper_spec()),
                    forall|m: nat| marked0.contains(m) ==> #[trigger] self.marked().contains(m),
                ensures
                    self.upper == old(self).upper,
                    self.prime == p,
                    self.wf(),
                    self.marked() =~= target,
                decreases self.upper_spec() - (i as nat),
            {
                if !(i < self.upper) {
                    proof {
                        lemma_sieve_rest(p as nat, kk, self.upper_spec());
                        lemma_mark_done(self.marked(), marked0, p as nat, kk, self.upper_spec());
                        assert(self.marked() =~= target);
                    }
                    break ;
                }
                proof {
                    assert((i as int) == (kk as int) * (p as int));
                    lemma_mod_multiples_basic(kk as int, p as int);
                    assert((i as nat) % (p as nat) == 0);
                    assert((p as nat) < i as nat) by (nonlinear_arith)
                        requires
                            i as nat == kk * (p as nat),
                            kk >= 2,
                            p >= 2,
                    ;
                    assert(is_composite(i as nat));
                }
                let ghost mprev = self.marked();
                bitset_insert(&mut self.bitset, i);
                proof {
                    assert(self.marked() == mprev.insert(i as nat));
                    let kadd = kk;
                    kk = kk + 1;
                    assert(kadd * (p as nat) == i as nat);
                    assert forall|k: nat|
                        2 <= k < kk implies (#[trigger] (k * (p as nat))) < self.upper_spec()
                            && self.marked().contains(k * (p as nat)) by {
                        if k < kadd {
                            assert(mprev.contains(k * (p as nat)));
                        } else {
                            assert(k * (p as nat) == i as nat);
                        }
                    }
                    assert forall|m: nat|
                        #[trigger] self.marked().contains(m) implies marked0.contains(m) || (
                        exists|k: nat|
                            2 <= k < kk && m == #[trigger] (k * (p as nat)) && m
                                < self.upper_spec()) by {
                        if m == i as nat {
                            assert(2 <= kadd < kk && m == kadd * (p as nat) && m
                                < self.upper_spec());
                        } else {
                            assert(mprev.contains(m));
                        }
                    }
                }
                if p > self.upper - i {
                    // The next multiple would already reach the bound.
                    proof {
                        assert(kk * (p as nat) == (i as nat) + (p as nat)) by (nonlinear_arith)
                            requires
                                i as nat == (kk - 1) * (p as nat),
                                kk >= 1,
                        ;
                        lemma_sieve_rest(p as nat, kk, self.upper_spec());
                        lemma_mark_done(self.marked(), marked0, p as nat, kk, self.upper_spec());
                        assert(self.marked() =~= target);
                    }
                    break ;
                }
                proof {
                    assert(kk * (p as nat) == (i as nat) + (p as nat)) by (nonlinear_arith)
                        requires
                            i as nat == (kk - 1) * (p as nat),
                            kk >= 1,
                    ;
                }
                i = i + p;
            }
        } else {
            proof {
                // 2p alone exceeds the machine range, hence the bound: there
                // is nothing to mark.
                assert forall|m: nat|
                    #[trigger] multiples_below(p as nat, self.upper_spec()).contains(
                    m,
                ) implies false by {
                    let k = choose|k: nat|
                        k >= 2 && m == #[trigger] (k * (p as nat)) && m < self.upper_spec();
                    assert(m >= 2 * (p as nat)) by (nonlinear_arith)
                        requires
                            m == k * (p as nat),
                            k >= 2,
                            p >= 0,
                    ;
                }
                assert(self.marked() =~= target);
            }
        }
        if p < self.upper {
            Some(p)
        } else {
            None
        }
    }
}

/// When every multiple from `kk` on lies beyond the bound, the marked set
/// is exactly the prior set plus all in-bound multiples.
proof fn lemma_mark_done(marked: Set<nat>, marked0: Set<nat>, p: nat, kk: nat, upper: nat)
    requires
        kk >= 2,
        forall|k: nat| 2 <= k < kk ==> (#[trigger] (k * p)) < upper && marked.contains(k * p),
        forall|m: nat|
            #[trigger] marked.contains(m) ==> marked0.contains(m) || (exists|k: nat|
                2 <= k < kk && m == #[trigger] (k * p) && m < upper),
        forall|m: nat| marked0.contains(m) ==> #[trigger] marked.contains(m),
        forall|k: nat| k >= kk ==> #[trigger] (k * p) >= upper,
    ensures
        marked =~= marked0.union(multiples_below(p, upper)),
{
    let target = marked0.union(multiples_below(p, upper));
    assert forall|m: nat| #[trigger] target.contains(m) implies marked.contains(m) by {
        if !marked0.contains(m) {
            let k = choose|k: nat| k >= 2 && m == #[trigger] (k * p) && m < upper;
            if k >= kk {
                assert(k * p >= upper);
                assert(false);
            }
            assert(marked.contains(k * p));
        }
    }
    assert forall|m: nat| #[trigger] marked.contains(m) implies target.contains(m) by {
        if !marked0.contains(m) {
            let k = choose|k: nat| 2 <= k < kk && m == #[trigger] (k * p) && m < upper;
            assert(k >= 2 && m == k * p && m < upper);
            assert(multiples_below(p, upper).contains(m));
        }
    }
}

/// Once `kk * p` reaches the bound, every further multiple does too.
proof fn lemma_sieve_rest(p: nat, kk: nat, upper: nat)
    requires
        p >= 1,
        kk * p >= upper || kk * p > usize::MAX,
        usize::MAX >= upper,
    ensures
        forall|k: nat| k >= kk ==> #[trigger] (k * p) >= upper,
{
    assert forall|k: nat| k >= kk implies #[trigger] (k * p) >= upper by {
        assert(k * p >= kk * p) by (nonlinear_arith)
            requires
                k >= kk,
                p >= 1,
        ;
    }
}

} // verus!
