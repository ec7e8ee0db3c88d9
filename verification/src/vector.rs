use vstd::prelude::*;
use crate::arith::lemma_mul_within;

verus! {

/// A vector of mathematical integers: the model of every lattice vector.
pub struct V3 {
    pub x: int,
    pub y: int,
    pub z: int,
}

impl V3 {
    /// The component along axis `i`: 0 is x, 1 is y, anything else is z.
    pub open spec fn at(self, i: int) -> int {
        if i == 0 {
            self.x
        } else if i == 1 {
            self.y
        } else {
            self.z
        }
    }

    pub open spec fn minus(self, o: V3) -> V3 {
        V3 { x: self.x - o.x, y: self.y - o.y, z: self.z - o.z }
    }

    /// The inner product.
    pub open spec fn dot(self, o: V3) -> int {
        self.x * o.x + self.y * o.y + self.z * o.z
    }

    /// The vector product.
    pub open spec fn cross(self, o: V3) -> V3 {
        V3 {
            x: self.y * o.z - self.z * o.y,
            y: self.z * o.x - self.x * o.z,
            z: self.x * o.y - self.y * o.x,
        }
    }

    pub open spec fn is_zero(self) -> bool {
        self.x == 0 && self.y == 0 && self.z == 0
    }

    /// Every component lies in `[-b, b]`.
    pub open spec fn within(self, b: int) -> bool {
        &&& -b <= self.x <= b
        &&& -b <= self.y <= b
        &&& -b <= self.z <= b
    }
}

/// A point or a direction on the integer lattice. Positions, normals and ray
/// directions are all held in this fixed-point form, so that every geometric
/// predicate of the library is decided exactly.
#[derive(Clone, Copy, Debug, PartialEq, Eq, Structural)]
pub struct Vec3 {
    pub x: i32,
    pub y: i32,
    pub z: i32,
}

impl View for Vec3 {
    type V = V3;

    open spec fn view(&self) -> V3 {
        V3 { x: self.x as int, y: self.y as int, z: self.z as int }
    }
}

impl Vec3 {
    pub fn new(x: i32, y: i32, z: i32) -> (v: Vec3)
        ensures
            v.x == x,
            v.y == y,
            v.z == z,
    {
        Vec3 { x, y, z }
    }

    /// The component along axis `i`: 0 is x, 1 is y, anything else is z.
    pub fn get(&self, i: usize) -> (c: i32)
        ensures
            c == self@.at(i as int),
    {
        if i == 0 {
            self.x
        } else if i == 1 {
            self.y
        } else {
            self.z
        }
    }

    pub fn is_zero(&self) -> (b: bool)
        ensures
            b == self@.is_zero(),
    {
        self.x == 0 && self.y == 0 && self.z == 0
    }
}

/// A lattice vector with room for the products that the exact predicates form.
#[derive(Clone, Copy, Debug)]
pub struct Wide3 {
    pub x: i128,
    pub y: i128,
    pub z: i128,
}

impl View for Wide3 {
    type V = V3;

    open spec fn view(&self) -> V3 {
        V3 { x: self.x as int, y: self.y as int, z: self.z as int }
    }
}

/// The largest magnitude of a difference of two `i32` values.
pub open spec fn span_limit() -> int {
    0xffff_ffff
}

/// `a - b`, which always fits.
pub(crate) fn diff(a: Vec3, b: Vec3) -> (r: Wide3)
    ensures
        r@ == a@.minus(b@),
        r@.within(span_limit()),
{
    let ax: i128 = a.x as i128;
    let ay: i128 = a.y as i128;
    let az: i128 = a.z as i128;
    let bx: i128 = b.x as i128;
    let by: i128 = b.y as i128;
    let bz: i128 = b.z as i128;
    Wide3 { x: ax - bx, y: ay - by, z: az - bz }
}

/// A lattice vector widened as it is.
pub(crate) fn widen(a: Vec3) -> (r: Wide3)
    ensures
        r@ == a@,
        r@.within(0x8000_0000),
{
    Wide3 { x: a.x as i128, y: a.y as i128, z: a.z as i128 }
}

/// The vector product of two widened vectors whose products fit.
pub(crate) fn cross_wide(a: &Wide3, b: &Wide3, Ghost(ba): Ghost<int>, Ghost(bb): Ghost<int>) -> (r: Wide3)
    requires
        a@.within(ba),
        b@.within(bb),
        2 * (ba * bb) <= i128::MAX,
    ensures
        r@ == a@.cross(b@),
        r@.within(2 * (ba * bb)),
{
    proof {
        lemma_mul_within(a.y as int, b.z as int, ba, bb);
        lemma_mul_within(a.z as int, b.y as int, ba, bb);
        lemma_mul_within(a.z as int, b.x as int, ba, bb);
        lemma_mul_within(a.x as int, b.z as int, ba, bb);
        lemma_mul_within(a.x as int, b.y as int, ba, bb);
        lemma_mul_within(a.y as int, b.x as int, ba, bb);
    }
    Wide3 {
        x: a.y * b.z - a.z * b.y,
        y: a.z * b.x - a.x * b.z,
        z: a.x * b.y - a.y * b.x,
    }
}

/// The inner product of two widened vectors whose products fit.
pub(crate) fn dot_wide(a: &Wide3, b: &Wide3, Ghost(ba): Ghost<int>, Ghost(bb): Ghost<int>) -> (r: i128)
    requires
        a@.within(ba),
        b@.within(bb),
        3 * (ba * bb) <= i128::MAX,
    ensures
        r == a@.dot(b@),
        -(3 * (ba * bb)) <= r <= 3 * (ba * bb),
{
    proof {
        lemma_mul_within(a.x as int, b.x as int, ba, bb);
        lemma_mul_within(a.y as int, b.y as int, ba, bb);
        lemma_mul_within(a.z as int, b.z as int, ba, bb);
    }
    a.x * b.x + a.y * b.y + a.z * b.z
}

} // verus!
