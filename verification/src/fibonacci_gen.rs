use vstd::prelude::*;

verus! {

/// The Fibonacci numbers as this generator yields them: 1, 1, 2, 3, 5, ...
pub open spec fn fib(n: nat) -> nat
    decreases n,
{
    if n == 0 {
        1
    } else if n == 1 {
        1
    } else {
        fib((n - 2) as nat) + fib((n - 1) as nat)
    }
}

/// A Fibonacci generator: two consecutive terms of the sequence, stepped
/// forward on demand, stopping cleanly before machine overflow.
pub struct Fibseq {
    first_term: usize,
    second_term: usize,
    /// How many terms have been yielded so far.
    index: Ghost<nat>,
}

impl Fibseq {
    /// The two stored terms.
    pub closed spec fn terms(&self) -> (nat, nat) {
        (self.first_term as nat, self.second_term as nat)
    }

    /// The position of the next term to yield.
    pub closed spec fn index_spec(&self) -> nat {
        self.index@
    }

    /// The generator holds the two Fibonacci numbers at its position.
    pub open spec fn wf(&self) -> bool {
        self.terms().0 == fib(self.index_spec()) && self.terms().1 == fib(self.index_spec() + 1)
    }

    /// A fresh generator, positioned at the first term.
    pub fn new() -> (r: Fibseq)
        ensures
            r.wf(),
            r.index_spec() == 0,
    {
        Fibseq { first_term: 1, second_term: 1, index: Ghost(0) }
    }

    /// The next number, or `None` once the following term would no longer
    /// fit in a machine word. On `None` the first term still advances, as a
    /// further call finds the same overflow again.
    pub fn next(&mut self) -> (r: Option<usize>)
        ensures
            final(self).terms().0 == old(self).terms().1,
            old(self).terms().0 + old(self).terms().1 <= usize::MAX ==> (r matches Some(v)
                && (v as nat) == old(self).terms().0
                && final(self).terms().1 == old(self).terms().0 + old(self).terms().1
                && final(self).index_spec() == old(self).index_spec() + 1),
            old(self).terms().0 + old(self).terms().1 > usize::MAX ==> (r is None
                && final(self).terms().1 == old(self).terms().1
                && final(self).index_spec() == old(self).index_spec()),
            old(self).wf() && old(self).terms().0 + old(self).terms().1 <= usize::MAX ==> (
            final(self).wf() && (r matches Some(v) ==> v == fib(old(self).index_spec()))),
    {
        let ret = self.first_term;
        self.first_term = self.second_term;
        // Stop rather than overflow the next term.
        if ret <= usize::MAX - self.second_term {
            self.second_term = self.second_term + ret;
            proof {
                self.index@ = self.index@ + 1;
            }
            Some(ret)
        } else {
            None
        }
    }
}

impl Default for Fibseq {
    /// The same fresh generator that `new` builds.
    fn default() -> (r: Self)
        ensures
            r.wf(),
            r.index_spec() == 0,
    {
        Fibseq::new()
    }
}

} // verus!
