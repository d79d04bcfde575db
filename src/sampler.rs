use vstd::arithmetic::div_mod::{lemma_div_is_ordered, lemma_div_multiples_vanish};
use vstd::prelude::*;

use crate::error::Error;

verus! {

/// The sum of the samples.
pub open spec fn sum(s: Seq<u32>) -> int
    decreases s.len(),
{
    if s.len() == 0 {
        0
    } else {
        sum(s.drop_last()) + s.last()
    }
}

/// The integer mean of the samples, rounded down.
pub open spec fn mean(s: Seq<u32>) -> int {
    sum(s) / (s.len() as int)
}

/// A sliding window over the latest sensor readings, of a size fixed at creation.
pub struct SampleWindow {
    samples: Vec<u32>,
}

impl View for SampleWindow {
    type V = Seq<u32>;

    closed spec fn view(&self) -> Seq<u32> {
        self.samples@
    }
}

/// The average of `s`, which holds at least one and at most `u32::MAX` samples.
fn mean_of(s: &Vec<u32>) -> (r: u32)
    requires
        1 <= s@.len() <= u32::MAX,
    ensures
        r == mean(s@),
{
    let n = s.len();
    let mut total: u64 = 0;
    let mut i: usize = 0;
    while i < n
        invariant
            n == s@.len(),
            n <= u32::MAX,
            i <= n,
            total == sum(s@.subrange(0, i as int)),
            total <= i * 0xffff_ffff,
        decreases n - i,
    {
        assert(s@.subrange(0, i + 1).drop_last() =~= s@.subrange(0, i as int));
        assert(i * 0xffff_ffff + 0xffff_ffff <= 0xffff_ffff * 0xffff_ffff) by (nonlinear_arith)
            requires
                i < 0xffff_ffff,
        ;
        total = total + s[i] as u64;
        i = i + 1;
    }
    assert(s@.subrange(0, n as int) =~= s@);
    proof {
        lemma_div_is_ordered(total as int, n * 0xffff_ffff, n as int);
        lemma_div_multiples_vanish(0xffff_ffff, n as int);
    }
    (total / n as u64) as u32
}

impl SampleWindow {
    #[verifier::type_invariant]
    spec fn well_formed(self) -> bool {
        1 <= self.samples@.len() <= u32::MAX
    }

    /// A window pre-filled with `initial`, whose length fixes the window size;
    /// an empty window, or one of more than `u32::MAX` samples, is refused.
    pub fn new(initial: Vec<u32>) -> (r: Result<SampleWindow, Error>)
        ensures
            (1 <= initial@.len() <= u32::MAX) <==> r is Ok,
            r matches Ok(w) ==> w@ == initial@,
            r is Err ==> r == Err::<SampleWindow, Error>(Error::Config),
    {
        if initial.len() == 0 || initial.len() > u32::MAX as usize {
            return Err(Error::Config);
        }
        Ok(SampleWindow { samples: initial })
    }

    /// The samples, oldest first.
    pub fn samples(&self) -> (r: &Vec<u32>)
        ensures
            r@ == self@,
            1 <= self@.len() <= u32::MAX,
    {
        proof {
            use_type_invariant(self);
        }
        &self.samples
    }

    /// The mean of the window.
    pub fn average(&self) -> (r: u32)
        ensures
            r == mean(self@),
    {
        proof {
            use_type_invariant(self);
        }
        mean_of(&self.samples)
    }

    /// Drops the oldest sample, appends `reading`, and returns the new mean.
    pub fn push(&mut self, reading: u32) -> (r: u32)
        ensures
            final(self)@ == old(self)@.drop_first().push(reading),
            r == mean(final(self)@),
    {
        proof {
            use_type_invariant(&*self);
        }
        let n = self.samples.len();
        let mut next: Vec<u32> = Vec::new();
        let mut i: usize = 1;
        while i < n
            invariant
                n == self@.len(),
                1 <= i <= n,
                next@ == self@.subrange(1, i as int),
            decreases n - i,
        {
            next.push(self.samples[i]);
            i = i + 1;
        }
        next.push(reading);
        assert(next@ =~= self@.drop_first().push(reading));
        let r = mean_of(&next);
        self.samples = next;
        r
    }
}

} // verus!
