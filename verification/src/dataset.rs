//! The dataset: an ordered sequence of integer sample pairs.

use vstd::prelude::*;

verus! {

/// One paired observation. Both coordinates are integers: the loader brings
/// every value of a column to a common power-of-ten scale, which leaves the
/// correlation coefficient unchanged (see `laws::lemma_correlation_scale`).
#[derive(Clone, Copy, Debug, PartialEq, Eq, Structural)]
pub struct Sample {
    pub x: i64,
    pub y: i64,
}

impl Sample {
    pub fn new(x: i64, y: i64) -> (s: Sample)
        ensures
            s.x == x,
            s.y == y,
    {
        Sample { x, y }
    }
}

/// An ordered sequence of samples, insertion order preserved.
#[derive(Clone, Debug)]
pub struct Dataset {
    pub samples: Vec<Sample>,
}

impl View for Dataset {
    type V = Seq<Sample>;

    open spec fn view(&self) -> Seq<Sample> {
        self.samples@
    }
}

impl Dataset {
    pub fn new() -> (d: Dataset)
        ensures
            d@ == Seq::<Sample>::empty(),
    {
        Dataset { samples: Vec::new() }
    }

    pub fn from_samples(samples: Vec<Sample>) -> (d: Dataset)
        ensures
            d@ == samples@,
    {
        Dataset { samples }
    }

    pub fn push(&mut self, s: Sample)
        ensures
            final(self)@ == old(self)@.push(s),
    {
        self.samples.push(s);
    }

    pub fn len(&self) -> (n: usize)
        ensures
            n == self@.len(),
    {
        self.samples.len()
    }

    /// The dataset with the two columns exchanged.
    pub fn swapped(&self) -> (d: Dataset)
        ensures
            d@ == swap_columns(self@),
    {
        let mut out: Vec<Sample> = Vec::new();
        let n = self.samples.len();
        let mut i: usize = 0;
        while i < n
            invariant
                i <= n,
                n == self@.len(),
                out@.len() == i as int,
                forall|j: int| 0 <= j < i as int ==> out@[j] == swap_columns(self@)[j],
            decreases n - i,
        {
            let s = self.samples[i];
            out.push(Sample { x: s.y, y: s.x });
            i = i + 1;
        }
        let d = Dataset { samples: out };
        proof {
            assert(d@ =~= swap_columns(self@));
        }
        d
    }
}

/// Every sample with its coordinates exchanged.
pub open spec fn swap_columns(d: Seq<Sample>) -> Seq<Sample> {
    d.map_values(|s: Sample| Sample { x: s.y, y: s.x })
}

} // verus!
