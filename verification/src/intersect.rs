use vstd::prelude::*;
use crate::ratio::{Frac, Ratio};
use crate::vector::{cross_wide, diff, dot_wide, span_limit, widen, Vec3, V3};

verus! {

/// A determinant of smaller magnitude than this counts as zero: the ray is then
/// parallel to the triangle's plane, or the triangle has no area. On the
/// lattice nothing lies strictly between zero and one.
pub const DET_EPSILON: i128 = 1;

/// The determinant of the system `orig + t dir = a + u (b - a) + v (c - a)`.
pub open spec fn det(dir: V3, a: V3, b: V3, c: V3) -> int {
    b.minus(a).dot(dir.cross(c.minus(a)))
}

/// The numerator of the barycentric parameter `u` over the determinant.
pub open spec fn u_num(orig: V3, dir: V3, a: V3, b: V3, c: V3) -> int {
    orig.minus(a).dot(dir.cross(c.minus(a)))
}

/// The numerator of the barycentric parameter `v` over the determinant.
pub open spec fn v_num(orig: V3, dir: V3, a: V3, b: V3, c: V3) -> int {
    dir.dot(orig.minus(a).cross(b.minus(a)))
}

/// The numerator of the ray parameter `t` over the determinant.
pub open spec fn t_num(orig: V3, dir: V3, a: V3, b: V3, c: V3) -> int {
    c.minus(a).dot(orig.minus(a).cross(b.minus(a)))
}

/// `n` with the sign of `d` taken out: `n / d == toward(n, d) / |d|`.
pub open spec fn toward(n: int, d: int) -> int {
    if d < 0 {
        -n
    } else {
        n
    }
}

/// The magnitude of `d`.
pub open spec fn magnitude(d: int) -> int {
    if d < 0 {
        -d
    } else {
        d
    }
}

/// The ray from `orig` along `dir` meets the triangle: the determinant is not
/// negligible, `u` and `v` lie in `[0, 1]` with `u + v <= 1`, and `t >= 0`.
/// Each quotient is compared after multiplying through by `|det|`.
pub open spec fn ray_hits(orig: V3, dir: V3, a: V3, b: V3, c: V3) -> bool {
    let d = det(dir, a, b, c);
    let m = magnitude(d);
    let u = toward(u_num(orig, dir, a, b, c), d);
    let v = toward(v_num(orig, dir, a, b, c), d);
    let t = toward(t_num(orig, dir, a, b, c), d);
    &&& m >= DET_EPSILON
    &&& 0 <= u <= m
    &&& 0 <= v <= m
    &&& u + v <= m
    &&& t >= 0
}

/// The parameter at which the ray meets the plane of the triangle: `t` over
/// the determinant, with a positive denominator where the determinant is not
/// zero.
pub open spec fn meeting(orig: V3, dir: V3, a: V3, b: V3, c: V3) -> Frac {
    Frac {
        num: toward(t_num(orig, dir, a, b, c), det(dir, a, b, c)),
        den: magnitude(det(dir, a, b, c)),
    }
}

/// The Möller–Trumbore test, decided exactly. A hit comes with the ray
/// parameter `t` of the meeting point `orig + t dir`; no face is culled.
pub fn ray_triangle_intersect(orig: Vec3, dir: Vec3, vertices: [Vec3; 3]) -> (hit: Option<Ratio>)
    ensures
        hit.is_some() == ray_hits(orig@, dir@, vertices[0]@, vertices[1]@, vertices[2]@),
        magnitude(det(dir@, vertices[0]@, vertices[1]@, vertices[2]@)) < DET_EPSILON ==> hit.is_none(),
        hit matches Some(t) ==> {
            &&& t@ == meeting(orig@, dir@, vertices[0]@, vertices[1]@, vertices[2]@)
            &&& t.wf()
            &&& t.num >= 0
        },
{
    let v0v1 = diff(vertices[1], vertices[0]);
    let v0v2 = diff(vertices[2], vertices[0]);
    let d = widen(dir);
    let ghost lim = span_limit();
    let pvec = cross_wide(&d, &v0v2, Ghost(0x8000_0000), Ghost(lim));
    let ghost plim = 2 * (0x8000_0000 * lim);
    let det = dot_wide(&v0v1, &pvec, Ghost(lim), Ghost(plim));
    let neg = det < 0;
    let m: i128 = if neg { -det } else { det };
    if m < DET_EPSILON {
        return None;
    }

    let tvec = diff(orig, vertices[0]);
    let u = dot_wide(&tvec, &pvec, Ghost(lim), Ghost(plim));
    let u: i128 = if neg { -u } else { u };
    if u < 0 || u > m {
        return None;
    }
    let qvec = cross_wide(&tvec, &v0v1, Ghost(lim), Ghost(lim));
    let ghost qlim = 2 * (lim * lim);
    let v = dot_wide(&d, &qvec, Ghost(0x8000_0000), Ghost(qlim));
    let v: i128 = if neg { -v } else { v };
    if v < 0 || u + v > m {
        return None;
    }
    let t = dot_wide(&v0v2, &qvec, Ghost(lim), Ghost(qlim));
    let t: i128 = if neg { -t } else { t };
    if t >= 0 {
        Some(Ratio { num: t, den: m })
    } else {
        None
    }
}

/// One product with a difference, multiplied out by `t`, in each order of
/// the factors.
proof fn lemma_expand_term(a: int, u: int, v: int, t: int)
    by (nonlinear_arith)
    ensures
        (a * (u - v)) * t == u * (t * a) - v * (t * a),
        (a * (u - v)) * t == u * (a * t) - v * (a * t),
        (a * (u - v)) * t == (t * a) * u - (t * a) * v,
        (a * (u - v)) * t == (a * t) * u - (a * t) * v,
{
}

proof fn lemma_distribute3(x: int, y: int, z: int, t: int)
    by (nonlinear_arith)
    ensures
        (x + y + z) * t == x * t + y * t + z * t,
{
}

/// A sum of three products, each with a difference, multiplied out by `t`.
/// The four conclusions differ only in the order of the factors.
proof fn lemma_expand(
    a1: int, a2: int, a3: int,
    u1: int, v1: int, u2: int, v2: int, u3: int, v3: int,
    t: int,
)
    ensures
        (a1 * (u1 - v1) + a2 * (u2 - v2) + a3 * (u3 - v3)) * t == u1 * (t * a1) - v1 * (t * a1)
            + u2 * (t * a2) - v2 * (t * a2) + u3 * (t * a3) - v3 * (t * a3),
        (a1 * (u1 - v1) + a2 * (u2 - v2) + a3 * (u3 - v3)) * t == u1 * (a1 * t) - v1 * (a1 * t)
            + u2 * (a2 * t) - v2 * (a2 * t) + u3 * (a3 * t) - v3 * (a3 * t),
        (a1 * (u1 - v1) + a2 * (u2 - v2) + a3 * (u3 - v3)) * t == (t * a1) * u1 - (t * a1) * v1
            + (t * a2) * u2 - (t * a2) * v2 + (t * a3) * u3 - (t * a3) * v3,
        (a1 * (u1 - v1) + a2 * (u2 - v2) + a3 * (u3 - v3)) * t == (a1 * t) * u1 - (a1 * t) * v1
            + (a2 * t) * u2 - (a2 * t) * v2 + (a3 * t) * u3 - (a3 * t) * v3,
{
    lemma_distribute3(a1 * (u1 - v1), a2 * (u2 - v2), a3 * (u3 - v3), t);
    lemma_expand_term(a1, u1, v1, t);
    lemma_expand_term(a2, u2, v2, t);
    lemma_expand_term(a3, u3, v3, t);
}

/// Cramer's rule behind the test, on one axis and in plain integers: with
/// `e1 = (ax, ay, az)`, `e2 = (bx, by, bz)`, `tv = (tx, ty, tz)` and the
/// direction `(dx, dy, dz)`, the numerators solve `det tv + t d = u e1 + v e2`.
pub(crate) proof fn lemma_cramer_ints(
    dx: int, dy: int, dz: int,
    ax: int, ay: int, az: int,
    bx: int, by: int, bz: int,
    tx: int, ty: int, tz: int,
)
    ensures
        (ax * (dy * bz - dz * by) + ay * (dz * bx - dx * bz) + az * (dx * by - dy * bx)) * tx
            + (bx * (ty * az - tz * ay) + by * (tz * ax - tx * az) + bz * (tx * ay - ty * ax)) * dx
            == (tx * (dy * bz - dz * by) + ty * (dz * bx - dx * bz) + tz * (dx * by - dy * bx)) * ax
            + (dx * (ty * az - tz * ay) + dy * (tz * ax - tx * az) + dz * (tx * ay - ty * ax)) * bx,
{
    lemma_expand(ax, ay, az, dy * bz, dz * by, dz * bx, dx * bz, dx * by, dy * bx, tx);
    lemma_expand(bx, by, bz, ty * az, tz * ay, tz * ax, tx * az, tx * ay, ty * ax, dx);
    lemma_expand(tx, ty, tz, dy * bz, dz * by, dz * bx, dx * bz, dx * by, dy * bx, ax);
    lemma_expand(dx, dy, dz, ty * az, tz * ay, tz * ax, tx * az, tx * ay, ty * ax, bx);
}

} // verus!
