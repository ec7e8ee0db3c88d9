use vstd::prelude::*;
use crate::intersect::ray_hits;
use crate::vector::Vec3;

verus! {

/// Whether the ray from `orig` along `dir` meets the triangle: the
/// Möller–Trumbore test without the parameter of the meeting point.
pub fn ray_triangle_intersect(orig: Vec3, dir: Vec3, vertices: [Vec3; 3]) -> (hit: bool)
    ensures
        hit == ray_hits(orig@, dir@, vertices[0]@, vertices[1]@, vertices[2]@),
{
    crate::intersect::ray_triangle_intersect(orig, dir, vertices).is_some()
}

} // verus!
