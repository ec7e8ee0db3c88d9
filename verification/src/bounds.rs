use vstd::prelude::*;
use crate::ratio::{lemma_le_trans, Frac, Ratio};
use crate::arith::lemma_mul_within;
use crate::vector::{Vec3, V3};
use crate::vertex::Vertex;

verus! {

/// An axis-aligned box, given by its least and its greatest corner. A box whose
/// least corner exceeds the greatest on some axis holds no point.
#[derive(Clone, Copy, Debug)]
pub struct BoundBox {
    pub min: Vec3,
    pub max: Vec3,
}

impl BoundBox {
    pub open spec fn lo(self, i: int) -> int {
        self.min@.at(i)
    }

    pub open spec fn hi(self, i: int) -> int {
        self.max@.at(i)
    }

    pub open spec fn contains(self, p: V3) -> bool {
        &&& self.min.x <= p.x <= self.max.x
        &&& self.min.y <= p.y <= self.max.y
        &&& self.min.z <= p.z <= self.max.z
    }

    /// The box of no points that the extrema of an empty list give.
    pub open spec fn is_void(self) -> bool {
        &&& self.min.x == i32::MAX && self.min.y == i32::MAX && self.min.z == i32::MAX
        &&& self.max.x == i32::MIN && self.max.y == i32::MIN && self.max.z == i32::MIN
    }
}

/// Some vertex has the coordinate `c` on axis `i`.
pub open spec fn attained(verts: Seq<Vertex>, i: int, c: int) -> bool {
    exists|k: int| 0 <= k < verts.len() && #[trigger] verts[k].pos@.at(i) == c
}

/// `b` is the tightest box around the positions of `verts`.
pub open spec fn is_extrema_of(b: BoundBox, verts: Seq<Vertex>) -> bool {
    &&& forall|k: int| 0 <= k < verts.len() ==> b.contains(#[trigger] verts[k].pos@)
    &&& verts.len() == 0 ==> b.is_void()
    &&& verts.len() > 0 ==> {
        &&& attained(verts, 0, b.lo(0)) && attained(verts, 0, b.hi(0))
        &&& attained(verts, 1, b.lo(1)) && attained(verts, 1, b.hi(1))
        &&& attained(verts, 2, b.lo(2)) && attained(verts, 2, b.hi(2))
    }
}

/// The tightest box around the positions of the vertices.
pub fn find_extrema(verts: &[Vertex]) -> (b: BoundBox)
    ensures
        is_extrema_of(b, verts@),
{
    let mut min = Vec3 { x: i32::MAX, y: i32::MAX, z: i32::MAX };
    let mut max = Vec3 { x: i32::MIN, y: i32::MIN, z: i32::MIN };
    let mut n: usize = 0;
    while n < verts.len()
        invariant
            n <= verts.len(),
            is_extrema_of(BoundBox { min, max }, verts@.take(n as int)),
        decreases verts.len() - n,
    {
        let ghost before = BoundBox { min, max };
        let ghost seen = verts@.take(n as int);
        let p = verts[n].pos;
        if p.x < min.x {
            min.x = p.x;
        }
        if p.y < min.y {
            min.y = p.y;
        }
        if p.z < min.z {
            min.z = p.z;
        }
        if p.x > max.x {
            max.x = p.x;
        }
        if p.y > max.y {
            max.y = p.y;
        }
        if p.z > max.z {
            max.z = p.z;
        }
        proof {
            let after = BoundBox { min, max };
            let now = verts@.take(n as int + 1);
            assert(now[n as int] == verts[n as int]);
            assert forall|k: int| 0 <= k < now.len() implies after.contains(
                #[trigger] now[k].pos@,
            ) by {
                if k < n {
                    assert(now[k] == seen[k]);
                    assert(before.contains(seen[k].pos@));
                }
            }
            assert forall|i: int| 0 <= i < 3 implies attained(now, i, after.lo(i)) && attained(
                now,
                i,
                after.hi(i),
            ) by {
                if after.lo(i) == p@.at(i) {
                    assert(now[n as int].pos@.at(i) == after.lo(i));
                } else {
                    assert(after.lo(i) == before.lo(i));
                    assert(attained(seen, i, before.lo(i)));
                    let k = choose|k: int|
                        0 <= k < seen.len() && #[trigger] seen[k].pos@.at(i) == before.lo(i);
                    assert(now[k] == seen[k]);
                    assert(now[k].pos@.at(i) == after.lo(i));
                }
                if after.hi(i) == p@.at(i) {
                    assert(now[n as int].pos@.at(i) == after.hi(i));
                } else {
                    assert(after.hi(i) == before.hi(i));
                    assert(attained(seen, i, before.hi(i)));
                    let k = choose|k: int|
                        0 <= k < seen.len() && #[trigger] seen[k].pos@.at(i) == before.hi(i);
                    assert(now[k] == seen[k]);
                    assert(now[k].pos@.at(i) == after.hi(i));
                }
            }
            assert(attained(now, 0, after.lo(0)) && attained(now, 0, after.hi(0)));
            assert(attained(now, 1, after.lo(1)) && attained(now, 1, after.hi(1)));
            assert(attained(now, 2, after.lo(2)) && attained(now, 2, after.hi(2)));
        }
        n += 1;
    }
    proof {
        assert(verts@.take(n as int) == verts@);
    }
    BoundBox { min, max }
}

pub open spec fn min3(a: int, b: int, c: int) -> int {
    if a <= b && a <= c {
        a
    } else if b <= c {
        b
    } else {
        c
    }
}

pub open spec fn max3(a: int, b: int, c: int) -> int {
    if a >= b && a >= c {
        a
    } else if b >= c {
        b
    } else {
        c
    }
}

/// `t` is the tightest box around the three corners.
pub open spec fn is_triangle_box(t: BoundBox, a: V3, b: V3, c: V3) -> bool {
    &&& t.min.x == min3(a.x, b.x, c.x) && t.max.x == max3(a.x, b.x, c.x)
    &&& t.min.y == min3(a.y, b.y, c.y) && t.max.y == max3(a.y, b.y, c.y)
    &&& t.min.z == min3(a.z, b.z, c.z) && t.max.z == max3(a.z, b.z, c.z)
}

fn least(a: i32, b: i32, c: i32) -> (m: i32)
    ensures
        m == min3(a as int, b as int, c as int),
{
    let mut m = a;
    if b < m {
        m = b;
    }
    if c < m {
        m = c;
    }
    m
}

fn greatest(a: i32, b: i32, c: i32) -> (m: i32)
    ensures
        m == max3(a as int, b as int, c as int),
{
    let mut m = a;
    if b > m {
        m = b;
    }
    if c > m {
        m = c;
    }
    m
}

/// The tightest box around the three corners of a triangle.
pub fn find_extrema_triangle(a: &Vec3, b: &Vec3, c: &Vec3) -> (t: BoundBox)
    ensures
        is_triangle_box(t, a@, b@, c@),
{
    BoundBox {
        min: Vec3 { x: least(a.x, b.x, c.x), y: least(a.y, b.y, c.y), z: least(a.z, b.z, c.z) },
        max: Vec3 {
            x: greatest(a.x, b.x, c.x),
            y: greatest(a.y, b.y, c.y),
            z: greatest(a.z, b.z, c.z),
        },
    }
}

/// Where the ray `o + t d` enters the slab `[lo, hi]` of one axis; "never"
/// stands for an axis along which the ray does not move.
pub open spec fn axis_enter(lo: int, hi: int, o: int, d: int) -> Frac {
    if d > 0 {
        Frac { num: lo - o, den: d }
    } else if d < 0 {
        Frac { num: o - hi, den: -d }
    } else {
        Frac { num: 0, den: 0 }
    }
}

/// Where the ray `o + t d` leaves the slab `[lo, hi]` of one axis.
pub open spec fn axis_exit(lo: int, hi: int, o: int, d: int) -> Frac {
    if d > 0 {
        Frac { num: hi - o, den: d }
    } else if d < 0 {
        Frac { num: o - lo, den: -d }
    } else {
        Frac { num: 0, den: 0 }
    }
}

/// The later of two parameters, where "never" counts as absent.
pub open spec fn later(a: Frac, b: Frac) -> Frac {
    if a.den == 0 {
        b
    } else if b.den == 0 {
        a
    } else if a.num * b.den < b.num * a.den {
        b
    } else {
        a
    }
}

/// The earlier of two parameters, where "never" counts as absent.
pub open spec fn earlier(a: Frac, b: Frac) -> Frac {
    if a.den == 0 {
        b
    } else if b.den == 0 {
        a
    } else if b.num * a.den < a.num * b.den {
        b
    } else {
        a
    }
}

/// On one axis, the point of the ray at parameter `t` lies in `[lo, hi]`.
pub open spec fn axis_holds(lo: int, hi: int, o: int, d: int, t: Frac) -> bool {
    (lo - o) * t.den <= t.num * d <= (hi - o) * t.den
}

impl BoundBox {
    pub open spec fn enter(self, o: V3, d: V3, i: int) -> Frac {
        axis_enter(self.lo(i), self.hi(i), o.at(i), d.at(i))
    }

    pub open spec fn exit(self, o: V3, d: V3, i: int) -> Frac {
        axis_exit(self.lo(i), self.hi(i), o.at(i), d.at(i))
    }

    /// An axis along which the ray does not move rules the box out unless the
    /// origin lies in its slab.
    pub open spec fn admits(self, o: V3, d: V3, i: int) -> bool {
        d.at(i) != 0 || self.lo(i) <= o.at(i) <= self.hi(i)
    }

    pub open spec fn first_enter(self, o: V3, d: V3) -> Frac {
        later(later(self.enter(o, d, 0), self.enter(o, d, 1)), self.enter(o, d, 2))
    }

    pub open spec fn last_exit(self, o: V3, d: V3) -> Frac {
        earlier(earlier(self.exit(o, d, 0), self.exit(o, d, 1)), self.exit(o, d, 2))
    }

    /// The parameter at which the ray from `o` along `d` enters the box, if
    /// it meets the box at all: a box that the ray leaves behind its origin
    /// is not met. The parameter is negative only where the origin lies in
    /// the box: the ray is then taken from where its line comes into the box.
    /// A zero direction meets nothing.
    pub open spec fn entry(self, o: V3, d: V3) -> Option<Frac> {
        let e = self.first_enter(o, d);
        let x = self.last_exit(o, d);
        if d.is_zero() || !self.admits(o, d, 0) || !self.admits(o, d, 1) || !self.admits(o, d, 2)
            || x.num * e.den < e.num * x.den || x.num < 0 {
            None
        } else {
            Some(e)
        }
    }

    /// The point of the line at parameter `t` lies in the box.
    pub open spec fn holds_at(self, o: V3, d: V3, t: Frac) -> bool {
        &&& t.den > 0
        &&& axis_holds(self.lo(0), self.hi(0), o.at(0), d.at(0), t)
        &&& axis_holds(self.lo(1), self.hi(1), o.at(1), d.at(1), t)
        &&& axis_holds(self.lo(2), self.hi(2), o.at(2), d.at(2), t)
    }

    /// The slab test: the parameter at which the ray from `orig` along `dir`
    /// enters the box, or nothing where no point of the ray lies in the box.
    /// For an origin in the box the parameter is that of the point at which
    /// the line of the ray comes into the box, zero or negative.
    pub fn intersect(&self, orig: &Vec3, dir: &Vec3) -> (hit: Option<Ratio>)
        ensures
            hit.is_some() == self.entry(orig@, dir@).is_some(),
            hit matches Some(t) ==> t@ == self.entry(orig@, dir@).unwrap() && t.wf()
                && span_bounded(t),
            hit matches Some(t) ==> self.holds_at(orig@, dir@, t@) && forall|p: Frac| #[trigger]
                self.holds_at(orig@, dir@, p) ==> t@.le(p),
            hit matches Some(t) ==> t.num < 0 ==> self.contains(orig@),
            hit.is_none() ==> dir@.is_zero() || forall|p: Frac| #[trigger]
                self.holds_at(orig@, dir@, p) ==> p.num < 0,
    {
        proof {
            if self.entry(orig@, dir@).is_some() {
                self.lemma_entry_holds(orig@, dir@);
                self.lemma_entry_behind(orig@, dir@);
            }
            if !dir@.is_zero() {
                assert forall|p: Frac| #[trigger] self.holds_at(orig@, dir@, p) implies self.first_enter(
                    orig@,
                    dir@,
                ).le(p) && (p.num >= 0 ==> self.entry(orig@, dir@).is_some()) by {
                    self.lemma_box_span(orig@, dir@, p);
                    if p.num >= 0 {
                        self.lemma_entry_least(orig@, dir@, p);
                    }
                }
            }
        }
        if dir.is_zero() {
            return None;
        }
        if dir.x == 0 && (orig.x < self.min.x || orig.x > self.max.x) {
            return None;
        }
        if dir.y == 0 && (orig.y < self.min.y || orig.y > self.max.y) {
            return None;
        }
        if dir.z == 0 && (orig.z < self.min.z || orig.z > self.max.z) {
            return None;
        }
        let e = later_of(
            later_of(
                enter_of(self.min.x, self.max.x, orig.x, dir.x),
                enter_of(self.min.y, self.max.y, orig.y, dir.y),
            ),
            enter_of(self.min.z, self.max.z, orig.z, dir.z),
        );
        let x = earlier_of(
            earlier_of(
                exit_of(self.min.x, self.max.x, orig.x, dir.x),
                exit_of(self.min.y, self.max.y, orig.y, dir.y),
            ),
            exit_of(self.min.z, self.max.z, orig.z, dir.z),
        );
        proof {
            lemma_mul_within(x.num as int, e.den as int, 0xffff_ffff, 0x8000_0000);
            lemma_mul_within(e.num as int, x.den as int, 0xffff_ffff, 0x8000_0000);
        }
        if x.num * e.den < e.num * x.den || x.num < 0 {
            None
        } else {
            Some(e)
        }
    }
}

/// The numerator is a difference of coordinates and the denominator the
/// magnitude of a direction's component.
pub open spec fn span_bounded(t: Ratio) -> bool {
    -0xffff_ffff <= t.num <= 0xffff_ffff && 0 <= t.den <= 0x8000_0000
}

fn enter_of(lo: i32, hi: i32, o: i32, d: i32) -> (t: Ratio)
    ensures
        t@ == axis_enter(lo as int, hi as int, o as int, d as int),
        span_bounded(t),
{
    if d > 0 {
        Ratio { num: lo as i128 - o as i128, den: d as i128 }
    } else if d < 0 {
        Ratio { num: o as i128 - hi as i128, den: -(d as i128) }
    } else {
        Ratio { num: 0, den: 0 }
    }
}

fn exit_of(lo: i32, hi: i32, o: i32, d: i32) -> (t: Ratio)
    ensures
        t@ == axis_exit(lo as int, hi as int, o as int, d as int),
        span_bounded(t),
{
    if d > 0 {
        Ratio { num: hi as i128 - o as i128, den: d as i128 }
    } else if d < 0 {
        Ratio { num: o as i128 - lo as i128, den: -(d as i128) }
    } else {
        Ratio { num: 0, den: 0 }
    }
}

fn later_of(a: Ratio, b: Ratio) -> (t: Ratio)
    requires
        span_bounded(a),
        span_bounded(b),
    ensures
        t@ == later(a@, b@),
        span_bounded(t),
{
    proof {
        lemma_mul_within(a.num as int, b.den as int, 0xffff_ffff, 0x8000_0000);
        lemma_mul_within(b.num as int, a.den as int, 0xffff_ffff, 0x8000_0000);
    }
    if a.den == 0 {
        b
    } else if b.den == 0 {
        a
    } else if a.num * b.den < b.num * a.den {
        b
    } else {
        a
    }
}

fn earlier_of(a: Ratio, b: Ratio) -> (t: Ratio)
    requires
        span_bounded(a),
        span_bounded(b),
    ensures
        t@ == earlier(a@, b@),
        span_bounded(t),
{
    proof {
        lemma_mul_within(a.num as int, b.den as int, 0xffff_ffff, 0x8000_0000);
        lemma_mul_within(b.num as int, a.den as int, 0xffff_ffff, 0x8000_0000);
    }
    if a.den == 0 {
        b
    } else if b.den == 0 {
        a
    } else if b.num * a.den < a.num * b.den {
        b
    } else {
        a
    }
}

/// The later of two parameters is one of them and no earlier than either.
pub(crate) proof fn lemma_later(a: Frac, b: Frac)
    requires
        a.den >= 0,
        b.den >= 0,
    ensures
        later(a, b) == a || later(a, b) == b,
        later(a, b).den > 0 <==> a.den > 0 || b.den > 0,
        a.den > 0 ==> a.le(later(a, b)),
        b.den > 0 ==> b.le(later(a, b)),
{
}

/// The earlier of two parameters is one of them and no later than either.
pub(crate) proof fn lemma_earlier(a: Frac, b: Frac)
    requires
        a.den >= 0,
        b.den >= 0,
    ensures
        earlier(a, b) == a || earlier(a, b) == b,
        earlier(a, b).den > 0 <==> a.den > 0 || b.den > 0,
        a.den > 0 ==> earlier(a, b).le(a),
        b.den > 0 ==> earlier(a, b).le(b),
{
}

/// On one axis: a parameter between the entry and the exit of the slab gives
/// a point in the slab, and the other way round.
pub(crate) proof fn lemma_axis_holds(lo: int, hi: int, o: int, d: int, t: Frac)
    by (nonlinear_arith)
    requires
        t.den > 0,
    ensures
        d > 0 ==> (axis_holds(lo, hi, o, d, t) <==> (lo - o) * t.den <= t.num * d && t.num * d <= (hi
            - o) * t.den),
        d < 0 ==> (axis_holds(lo, hi, o, d, t) <==> (o - hi) * t.den <= t.num * (-d) && t.num * (-d)
            <= (o - lo) * t.den),
        d == 0 ==> (axis_holds(lo, hi, o, d, t) <==> lo <= o <= hi),
{
}

impl BoundBox {
    /// On each axis along which the ray moves, the entry into the box is no
    /// earlier than the entry into the slab and the exit no later than the exit
    /// from the slab; each is the parameter of one of the slabs.
    pub(crate) proof fn lemma_entry_exit(self, o: V3, d: V3)
        requires
            !d.is_zero(),
        ensures
            self.first_enter(o, d).den > 0,
            self.last_exit(o, d).den > 0,
            forall|i: int|
                0 <= i < 3 && d.at(i) != 0 ==> (#[trigger] self.enter(o, d, i)).le(
                    self.first_enter(o, d),
                ),
            forall|i: int|
                0 <= i < 3 && d.at(i) != 0 ==> self.last_exit(o, d).le(#[trigger] self.exit(o, d, i)),
            exists|i: int|
                0 <= i < 3 && d.at(i) != 0 && self.first_enter(o, d) == #[trigger] self.enter(o, d, i),
            exists|i: int|
                0 <= i < 3 && d.at(i) != 0 && self.last_exit(o, d) == #[trigger] self.exit(o, d, i),
    {
        let e0 = self.enter(o, d, 0);
        let e1 = self.enter(o, d, 1);
        let e2 = self.enter(o, d, 2);
        let m = later(e0, e1);
        let e = later(m, e2);
        lemma_later(e0, e1);
        lemma_later(m, e2);
        if m.den > 0 && e2.den > 0 {
            if e0.den > 0 {
                lemma_le_trans(e0, m, e);
            }
            if e1.den > 0 {
                lemma_le_trans(e1, m, e);
            }
        }
        assert(e == self.enter(o, d, 0) || e == self.enter(o, d, 1) || e == self.enter(o, d, 2));
        let x0 = self.exit(o, d, 0);
        let x1 = self.exit(o, d, 1);
        let x2 = self.exit(o, d, 2);
        let n = earlier(x0, x1);
        let x = earlier(n, x2);
        lemma_earlier(x0, x1);
        lemma_earlier(n, x2);
        if n.den > 0 && x2.den > 0 {
            if x0.den > 0 {
                lemma_le_trans(x, n, x0);
            }
            if x1.den > 0 {
                lemma_le_trans(x, n, x1);
            }
        }
        assert(x == self.exit(o, d, 0) || x == self.exit(o, d, 1) || x == self.exit(o, d, 2));
    }

    /// A parameter at which the line is in the box lies between the entry and
    /// the exit of every slab.
    pub(crate) proof fn lemma_holds_between(self, o: V3, d: V3, p: Frac, i: int)
        requires
            self.holds_at(o, d, p),
            0 <= i < 3,
        ensures
            self.admits(o, d, i),
            d.at(i) != 0 ==> self.enter(o, d, i).le(p) && p.le(self.exit(o, d, i)),
    {
        lemma_axis_holds(self.lo(i), self.hi(i), o.at(i), d.at(i), p);
    }

    /// The slab test gives the first point of the line in the box: that point
    /// lies in the box.
    pub proof fn lemma_entry_holds(self, o: V3, d: V3)
        requires
            self.entry(o, d).is_some(),
        ensures
            self.holds_at(o, d, self.entry(o, d).unwrap()),
    {
        let t = self.entry(o, d).unwrap();
        let x = self.last_exit(o, d);
        self.lemma_entry_exit(o, d);
        assert forall|i: int| 0 <= i < 3 implies axis_holds(
            self.lo(i),
            self.hi(i),
            o.at(i),
            d.at(i),
            t,
        ) by {
            lemma_axis_holds(self.lo(i), self.hi(i), o.at(i), d.at(i), t);
            if d.at(i) != 0 {
                assert(self.enter(o, d, i).le(t));
                assert(x.le(self.exit(o, d, i)));
                lemma_le_trans(t, x, self.exit(o, d, i));
            }
        }
        assert(axis_holds(self.lo(0), self.hi(0), o.at(0), d.at(0), t));
        assert(axis_holds(self.lo(1), self.hi(1), o.at(1), d.at(1), t));
        assert(axis_holds(self.lo(2), self.hi(2), o.at(2), d.at(2), t));
    }

    /// Wherever the line is in the box, it is there between its entry into
    /// the box and its exit from it.
    pub(crate) proof fn lemma_box_span(self, o: V3, d: V3, p: Frac)
        requires
            !d.is_zero(),
            self.holds_at(o, d, p),
        ensures
            self.admits(o, d, 0) && self.admits(o, d, 1) && self.admits(o, d, 2),
            self.first_enter(o, d).den > 0,
            self.last_exit(o, d).den > 0,
            self.first_enter(o, d).le(p),
            p.le(self.last_exit(o, d)),
            self.first_enter(o, d).le(self.last_exit(o, d)),
    {
        let e = self.first_enter(o, d);
        let x = self.last_exit(o, d);
        self.lemma_entry_exit(o, d);
        self.lemma_holds_between(o, d, p, 0);
        self.lemma_holds_between(o, d, p, 1);
        self.lemma_holds_between(o, d, p, 2);
        assert(e.le(p));
        assert(p.le(x));
        lemma_le_trans(e, p, x);
    }

    /// The slab test misses no point of the ray: wherever the ray is in the
    /// box, the test finds an entry, and the entry is no later than that
    /// point.
    pub proof fn lemma_entry_least(self, o: V3, d: V3, p: Frac)
        requires
            !d.is_zero(),
            self.holds_at(o, d, p),
            p.num >= 0,
        ensures
            self.entry(o, d).is_some(),
            self.entry(o, d).unwrap().le(p),
            p.le(self.last_exit(o, d)),
    {
        self.lemma_box_span(o, d, p);
        let x = self.last_exit(o, d);
        assert(x.num >= 0) by (nonlinear_arith)
            requires
                p.num * x.den <= x.num * p.den,
                p.num >= 0,
                p.den > 0,
                x.den > 0,
        ;
    }

    /// The slab test finds no box behind the ray: where it finds an entry,
    /// the ray leaves the box at its origin or ahead of it, and an entry
    /// behind the origin means that the origin lies in the box.
    pub proof fn lemma_entry_behind(self, o: V3, d: V3)
        requires
            self.entry(o, d).is_some(),
        ensures
            self.last_exit(o, d).den > 0,
            self.last_exit(o, d).num >= 0,
            self.holds_at(o, d, self.last_exit(o, d)),
            self.entry(o, d).unwrap().num < 0 ==> self.contains(o),
    {
        let t = self.entry(o, d).unwrap();
        let x = self.last_exit(o, d);
        let zero = Frac { num: 0, den: 1 };
        self.lemma_entry_exit(o, d);
        assert forall|i: int| 0 <= i < 3 implies axis_holds(
            self.lo(i),
            self.hi(i),
            o.at(i),
            d.at(i),
            x,
        ) && (t.num < 0 ==> self.lo(i) <= o.at(i) <= self.hi(i)) by {
            lemma_axis_holds(self.lo(i), self.hi(i), o.at(i), d.at(i), x);
            lemma_axis_holds(self.lo(i), self.hi(i), o.at(i), d.at(i), zero);
            if d.at(i) != 0 {
                lemma_le_trans(self.enter(o, d, i), t, x);
                if t.num < 0 {
                    assert(t.le(zero)) by (nonlinear_arith)
                        requires
                            t.num < 0,
                            t.den > 0,
                            zero.num == 0,
                            zero.den == 1,
                    ;
                    assert(zero.le(x)) by (nonlinear_arith)
                        requires
                            x.num >= 0,
                            x.den > 0,
                            zero.num == 0,
                            zero.den == 1,
                    ;
                    lemma_le_trans(self.enter(o, d, i), t, zero);
                    lemma_le_trans(zero, x, self.exit(o, d, i));
                    assert(axis_holds(self.lo(i), self.hi(i), o.at(i), d.at(i), zero));
                    assert(self.lo(i) <= o.at(i) <= self.hi(i)) by (nonlinear_arith)
                        requires
                            (self.lo(i) - o.at(i)) * 1 <= 0 * d.at(i) <= (self.hi(i) - o.at(i)) * 1,
                    ;
                }
            }
        }
        assert(axis_holds(self.lo(0), self.hi(0), o.at(0), d.at(0), x));
        assert(axis_holds(self.lo(1), self.hi(1), o.at(1), d.at(1), x));
        assert(axis_holds(self.lo(2), self.hi(2), o.at(2), d.at(2), x));
        if t.num < 0 {
            assert(self.lo(0) <= o.at(0) <= self.hi(0));
            assert(self.lo(1) <= o.at(1) <= self.hi(1));
            assert(self.lo(2) <= o.at(2) <= self.hi(2));
        }
    }
}

} // verus!
