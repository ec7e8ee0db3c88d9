use vstd::prelude::*;
use crate::ratio::Frac;
use crate::vector::Vec3;

verus! {

/// The running estimate of one vertex: how many of the samples drawn so far
/// found the ray blocked.
#[derive(Clone, Copy, Debug, PartialEq, Eq, Structural)]
pub struct Occlusion {
    pub hits: u32,
    pub samples: u32,
}

/// What one sample adds to the sum behind the average.
pub open spec fn outcome(hit: bool) -> int {
    if hit {
        1
    } else {
        0
    }
}

impl Occlusion {
    pub open spec fn wf(self) -> bool {
        self.hits <= self.samples
    }

    /// The occlusion scalar: 1 before the first sample, then the fraction of
    /// the samples that were blocked.
    pub open spec fn value(self) -> Frac {
        if self.samples == 0 {
            Frac { num: 1, den: 1 }
        } else {
            Frac { num: self.hits as int, den: self.samples as int }
        }
    }

    /// The estimate with one more outcome folded in.
    pub open spec fn after(self, hit: bool) -> Occlusion {
        Occlusion { hits: (self.hits + outcome(hit)) as u32, samples: (self.samples + 1) as u32 }
    }

    /// The estimate of a vertex that no sample has reached yet.
    pub fn new() -> (o: Occlusion)
        ensures
            o.hits == 0,
            o.samples == 0,
            o.wf(),
    {
        Occlusion { hits: 0, samples: 0 }
    }

    /// Folds the outcome of sample number `self.samples` into the average:
    /// the new value is `(value * s + 1) / (s + 1)` after a hit and
    /// `value * s / (s + 1)` after a miss, where `s` counts the samples before.
    pub fn fold(self, hit: bool) -> (r: Occlusion)
        requires
            self.wf(),
            self.samples < u32::MAX,
        ensures
            r == self.after(hit),
            r.wf(),
            r.samples == self.samples + 1,
            r.hits == self.hits + outcome(hit),
            r.value().den == self.samples + 1,
            r.value().num * self.value().den == self.value().num * self.samples + outcome(hit)
                * self.value().den,
            0 <= r.value().num <= r.value().den,
    {
        let r = Occlusion {
            hits: if hit { self.hits + 1 } else { self.hits },
            samples: self.samples + 1,
        };
        proof {
            let s = self.samples as int;
            let h = self.hits as int;
            let b = outcome(hit);
            if s == 0 {
                assert(1 * 0 == 0);
                assert(b * 1 == b);
                assert((h + b) * 1 == h + b);
            } else {
                assert((h + b) * s == h * s + b * s) by (nonlinear_arith);
            }
        }
        r
    }

    /// The numerator of the occlusion scalar.
    pub fn numerator(&self) -> (n: u32)
        ensures
            n == self.value().num,
    {
        if self.samples == 0 {
            1
        } else {
            self.hits
        }
    }

    /// The denominator of the occlusion scalar, never zero.
    pub fn denominator(&self) -> (d: u32)
        ensures
            d == self.value().den,
            d > 0,
    {
        if self.samples == 0 {
            1
        } else {
            self.samples
        }
    }
}

/// The estimate after the outcomes of `outcomes`, folded in from the first.
pub open spec fn folded(outcomes: Seq<bool>) -> Occlusion
    decreases outcomes.len(),
{
    if outcomes.len() == 0 {
        Occlusion { hits: 0, samples: 0 }
    } else {
        folded(outcomes.drop_last()).after(outcomes.last())
    }
}

/// How many of the outcomes are hits.
pub open spec fn hit_count(outcomes: Seq<bool>) -> int
    decreases outcomes.len(),
{
    if outcomes.len() == 0 {
        0
    } else {
        hit_count(outcomes.drop_last()) + outcome(outcomes.last())
    }
}

/// The running average is the plain average: after `n >= 1` samples of which
/// `h` were hits the occlusion scalar is exactly `h / n`, and it lies in
/// `[0, 1]` after any number of samples.
pub proof fn lemma_running_average(outcomes: Seq<bool>)
    requires
        outcomes.len() <= u32::MAX,
    ensures
        folded(outcomes).wf(),
        folded(outcomes).samples == outcomes.len(),
        folded(outcomes).hits == hit_count(outcomes),
        0 <= hit_count(outcomes) <= outcomes.len(),
        outcomes.len() > 0 ==> folded(outcomes).value() == (Frac {
            num: hit_count(outcomes),
            den: outcomes.len() as int,
        }),
        0 <= folded(outcomes).value().num <= folded(outcomes).value().den,
    decreases outcomes.len(),
{
    if outcomes.len() > 0 {
        lemma_running_average(outcomes.drop_last());
    }
}

/// One shading vertex of the mesh.
#[derive(Clone, Copy, Debug)]
pub struct Vertex {
    pub pos: Vec3,
    pub normal: Vec3,
    pub occlusion: Occlusion,
}

} // verus!
