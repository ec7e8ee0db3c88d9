use vstd::prelude::*;

verus! {

/// A rational `num / den` of mathematical integers. With a positive
/// denominator it is a ray parameter; with the denominator zero it stands for
/// "never", later than every parameter.
pub struct Frac {
    pub num: int,
    pub den: int,
}

impl Frac {
    /// `self <= o`, for two finite fractions.
    pub open spec fn le(self, o: Frac) -> bool {
        self.num * o.den <= o.num * self.den
    }

    /// `self < o`, where either may be "never".
    pub open spec fn before(self, o: Frac) -> bool {
        self.den > 0 && (o.den == 0 || self.num * o.den < o.num * self.den)
    }

}

/// An exact ray parameter held in machine integers.
#[derive(Clone, Copy, Debug)]
pub struct Ratio {
    pub num: i128,
    pub den: i128,
}

impl View for Ratio {
    type V = Frac;

    open spec fn view(&self) -> Frac {
        Frac { num: self.num as int, den: self.den as int }
    }
}

impl Ratio {
    /// A ratio is well formed when its denominator is positive.
    pub open spec fn wf(self) -> bool {
        self.den > 0
    }
}

/// The order of fractions is transitive.
pub(crate) proof fn lemma_le_trans(a: Frac, b: Frac, c: Frac)
    by (nonlinear_arith)
    requires
        a.den > 0,
        b.den > 0,
        c.den > 0,
        a.num * b.den <= b.num * a.den,
        b.num * c.den <= c.num * b.den,
    ensures
        a.num * c.den <= c.num * a.den,
{
}

/// The order of fractions is transitive: strictly before, then no later.
pub(crate) proof fn lemma_lt_le_trans(a: Frac, b: Frac, c: Frac)
    by (nonlinear_arith)
    requires
        a.den > 0,
        b.den > 0,
        c.den > 0,
        a.num * b.den < b.num * a.den,
        b.num * c.den <= c.num * b.den,
    ensures
        a.num * c.den < c.num * a.den,
{
}

} // verus!
