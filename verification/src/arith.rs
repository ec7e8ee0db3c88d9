use vstd::prelude::*;
use vstd::arithmetic::div_mod::{lemma_fundamental_div_mod, lemma_mod_bound};

verus! {

/// The quotient by a positive divisor is the floor: `q b <= a < (q + 1) b`.
pub(crate) proof fn lemma_floor(a: int, b: int)
    requires
        b > 0,
    ensures
        (a / b) * b <= a < (a / b + 1) * b,
{
    lemma_fundamental_div_mod(a, b);
    lemma_mod_bound(a, b);
    let q = a / b;
    assert(b * q == q * b) by (nonlinear_arith);
    assert((q + 1) * b == q * b + b) by (nonlinear_arith);
}

/// The product of two bounded factors is bounded by the product of the
/// bounds.
pub(crate) proof fn lemma_mul_within(a: int, b: int, ba: int, bb: int)
    by (nonlinear_arith)
    requires
        -ba <= a <= ba,
        -bb <= b <= bb,
    ensures
        -(ba * bb) <= a * b <= ba * bb,
{
}

/// A factor that is not negative keeps the order.
pub(crate) proof fn lemma_mul_le(a: int, b: int, c: int)
    by (nonlinear_arith)
    requires
        a <= b,
        c >= 0,
    ensures
        a * c <= b * c,
        c * a <= c * b,
{
}

/// A positive factor keeps the strict order.
pub(crate) proof fn lemma_mul_lt(a: int, b: int, c: int)
    by (nonlinear_arith)
    requires
        a < b,
        c > 0,
    ensures
        a * c < b * c,
        c * a < c * b,
{
}

/// The product of two factors that are not negative is not negative.
pub(crate) proof fn lemma_mul_nonneg(a: int, b: int)
    by (nonlinear_arith)
    requires
        a >= 0,
        b >= 0,
    ensures
        a * b >= 0,
{
}

/// A positive factor keeps the sign.
pub(crate) proof fn lemma_scale_sign(d: int, n: int)
    by (nonlinear_arith)
    requires
        n > 0,
    ensures
        d > 0 ==> d * n > 0,
        d < 0 ==> (-d) * n > 0,
        d == 0 ==> d * n == 0,
{
}

} // verus!
