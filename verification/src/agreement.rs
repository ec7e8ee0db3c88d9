use vstd::prelude::*;
use crate::arith::{lemma_floor, lemma_mul_le};
use crate::bounds::{axis_holds, max3, min3};
use crate::grid::{grid_cell, AABBGrid};
use crate::intersect::{det, lemma_cramer_ints, meeting, ray_hits, t_num, toward, u_num, v_num};
use crate::mesh::Mesh;
use crate::ratio::Frac;
use crate::traverse::cell_at;
use crate::vector::V3;

verus! {

/// Cramer's rule on axis `i`: the point of the ray at the parameter of the
/// test is the point of the triangle with the barycentric parameters of the
/// test, all multiplied through by the determinant.
pub proof fn lemma_hit_point(orig: V3, dir: V3, a: V3, b: V3, c: V3, i: int)
    requires
        0 <= i < 3,
    ensures
        det(dir, a, b, c) * (orig.at(i) - a.at(i)) + t_num(orig, dir, a, b, c) * dir.at(i) == u_num(
            orig,
            dir,
            a,
            b,
            c,
        ) * (b.at(i) - a.at(i)) + v_num(orig, dir, a, b, c) * (c.at(i) - a.at(i)),
{
    let e1 = b.minus(a);
    let e2 = c.minus(a);
    let tv = orig.minus(a);
    if i == 0 {
        lemma_cramer_ints(
            dir.x, dir.y, dir.z,
            e1.x, e1.y, e1.z,
            e2.x, e2.y, e2.z,
            tv.x, tv.y, tv.z,
        );
    } else if i == 1 {
        lemma_cramer_ints(
            dir.y, dir.z, dir.x,
            e1.y, e1.z, e1.x,
            e2.y, e2.z, e2.x,
            tv.y, tv.z, tv.x,
        );
    } else {
        lemma_cramer_ints(
            dir.z, dir.x, dir.y,
            e1.z, e1.x, e1.y,
            e2.z, e2.x, e2.y,
            tv.z, tv.x, tv.y,
        );
    }
}

/// A point with barycentric weights `u`, `v` and `m - u - v` lies between the
/// least and the greatest of the three corners, on each axis.
proof fn lemma_convex(
    m: int, u: int, v: int, x: int,
    o: int, a: int, b: int, c: int,
    lo: int, hi: int,
)
    by (nonlinear_arith)
    requires
        m * (o - a) + x == u * (b - a) + v * (c - a),
        0 <= u,
        0 <= v,
        u + v <= m,
        lo <= a <= hi,
        lo <= b <= hi,
        lo <= c <= hi,
    ensures
        (lo - o) * m <= x <= (hi - o) * m,
{
}

proof fn lemma_flip(dt: int, t: int, u: int, v: int, tv: int, d: int, e1: int, e2: int)
    by (nonlinear_arith)
    requires
        dt * tv + t * d == u * e1 + v * e2,
    ensures
        (-dt) * tv + (-t) * d == (-u) * e1 + (-v) * e2,
{
}

/// Where the ray meets a triangle, the meeting point lies in the box of the
/// triangle.
pub proof fn lemma_hit_in_box(orig: V3, dir: V3, a: V3, b: V3, c: V3, i: int)
    requires
        0 <= i < 3,
        ray_hits(orig, dir, a, b, c),
    ensures
        meeting(orig, dir, a, b, c).den > 0,
        axis_holds(
            min3(a.at(i), b.at(i), c.at(i)),
            max3(a.at(i), b.at(i), c.at(i)),
            orig.at(i),
            dir.at(i),
            meeting(orig, dir, a, b, c),
        ),
{
    let dt = det(dir, a, b, c);
    let t = t_num(orig, dir, a, b, c);
    let u = u_num(orig, dir, a, b, c);
    let v = v_num(orig, dir, a, b, c);
    lemma_hit_point(orig, dir, a, b, c, i);
    lemma_flip(dt, t, u, v, orig.at(i) - a.at(i), dir.at(i), b.at(i) - a.at(i), c.at(i) - a.at(i));
    let p = meeting(orig, dir, a, b, c);
    lemma_convex(
        p.den,
        toward(u, dt),
        toward(v, dt),
        p.num * dir.at(i),
        orig.at(i),
        a.at(i),
        b.at(i),
        c.at(i),
        min3(a.at(i), b.at(i), c.at(i)),
        max3(a.at(i), b.at(i), c.at(i)),
    );
}

/// From a point between two planes and a face whose box holds the point: how
/// the ends of the box lie to the planes. `x` stands for the product of the
/// parameter's numerator and the direction, `m` for its denominator.
proof fn lemma_face_planes(
    lo: int, o: int, n: int, c: int, s: int, x: int, m: int,
    flo: int, fhi: int,
)
    by (nonlinear_arith)
    requires
        m > 0,
        n > 0,
        ((lo - o) * n + c * s) * m <= x * n,
        x * n <= ((lo - o) * n + (c + 1) * s) * m,
        (flo - o) * m <= x <= (fhi - o) * m,
    ensures
        c * s <= (fhi - lo) * n,
        (flo - lo) * n <= (c + 1) * s,
        (flo - lo) * n == (c + 1) * s ==> (flo - o) * m == x,
        (flo - lo) * n == (c + 1) * s ==> x * n == ((lo - o) * n + (c + 1) * s) * m,
{
}

/// The cell of a coordinate that lies at or above plane `c`, and the cell of
/// one that lies strictly below plane `c + 1`.
proof fn lemma_cell_sides(pos: int, n: int, lo: int, hi: int, c: int)
    requires
        n >= 1,
        0 <= c < n,
        lo <= hi,
        hi == lo ==> n == 1,
    ensures
        c * (hi - lo) <= (pos - lo) * n ==> c <= grid_cell(pos, n, lo, hi),
        (pos - lo) * n < (c + 1) * (hi - lo) ==> grid_cell(pos, n, lo, hi) <= c,
        grid_cell(pos, n, lo, hi) <= c + 1 || (pos - lo) * n > (c + 1) * (hi - lo),
        lo < pos < hi ==> grid_cell(pos, n, lo, hi) * (hi - lo) <= (pos - lo) * n,
        lo < pos < hi ==> 0 <= grid_cell(pos, n, lo, hi) < n,
{
    let s = hi - lo;
    let a = (pos - lo) * n;
    if pos >= hi {
        if a < (c + 1) * s {
            assert(false) by (nonlinear_arith)
                requires
                    a == (pos - lo) * n,
                    a < (c + 1) * s,
                    pos - lo >= s,
                    s >= 0,
                    0 <= c < n,
            ;
        }
        if n - 1 > c + 1 {
            assert(a > (c + 1) * s) by (nonlinear_arith)
                requires
                    a == (pos - lo) * n,
                    pos - lo >= s,
                    s > 0,
                    n - 1 > c + 1,
                    c >= 0,
            ;
        }
    } else if pos <= lo {
        if c * s <= a && c > 0 {
            assert(false) by (nonlinear_arith)
                requires
                    a == (pos - lo) * n,
                    c * s <= a,
                    pos - lo <= 0,
                    s > 0,
                    c > 0,
                    n >= 1,
            ;
        }
    } else {
        lemma_floor(a, s);
        let q = a / s;
        assert(c * s <= a ==> c <= q) by (nonlinear_arith)
            requires
                s > 0,
                a < (q + 1) * s,
        ;
        assert(a < (c + 1) * s ==> q <= c) by (nonlinear_arith)
            requires
                s > 0,
                q * s <= a,
        ;
        assert(q <= c + 1 || a > (c + 1) * s) by (nonlinear_arith)
            requires
                s > 0,
                q * s <= a,
        ;
        assert(0 <= q < n) by (nonlinear_arith)
            requires
                s > 0,
                q * s <= a < (q + 1) * s,
                a == (pos - lo) * n,
                0 < pos - lo < s,
                n >= 1,
        ;
    }
}

impl AABBGrid {
    /// Every corner of every face of the mesh lies in the box of the grid.
    pub open spec fn encloses(self, mesh: Mesh) -> bool {
        forall|f: int, i: int|
            0 <= f < mesh.faces.len() && 0 <= i < 3 ==> self.bounds.lo(i) <= #[trigger] Self::face_lo(
                mesh,
                f,
                i,
            ) && Self::face_hi(mesh, f, i) <= self.bounds.hi(i)
    }

    /// The coordinate `pos` of axis `i` lies on a plane between two cells.
    pub open spec fn on_inner_plane(self, i: int, pos: int) -> bool {
        &&& self.bounds.lo(i) < pos < self.bounds.hi(i)
        &&& ((pos - self.bounds.lo(i)) * self.divs(i)) % (self.bounds.hi(i) - self.bounds.lo(i)) == 0
    }

    /// The ray, moving upward along axis `i`, meets face `f` in a point that,
    /// on this axis, is the least of the face and lies on a plane between two
    /// cells: the ray reaches the face as it leaves the cell below, in which
    /// the face is not listed.
    pub open spec fn grazes(self, mesh: Mesh, o: V3, d: V3, f: int, i: int) -> bool {
        let p = meeting(o, d, mesh.corner_pos(f, 0), mesh.corner_pos(f, 1), mesh.corner_pos(f, 2));
        &&& d.at(i) > 0
        &&& mesh.face_hit(o, d, f)
        &&& self.on_inner_plane(i, Self::face_lo(mesh, f, i))
        &&& (Self::face_lo(mesh, f, i) - o.at(i)) * p.den == p.num * d.at(i)
    }

    /// The ray meets face `f`, but slips past it on axis `i`: the cell in
    /// which the march holds the meeting point lies below the cells in which
    /// the face is listed, and the march does not go on upward along this
    /// axis from there: it turns onto another axis, or leaves the grid.
    pub open spec fn slips(self, mesh: Mesh, o: V3, d: V3, f: int, i: int) -> bool {
        let p = meeting(o, d, mesh.corner_pos(f, 0), mesh.corner_pos(f, 1), mesh.corner_pos(f, 2));
        let c = self.holding(o, d, p);
        &&& mesh.face_hit(o, d, f)
        &&& cell_at(c, i) < self.cell_on(i, Self::face_lo(mesh, f, i))
        &&& self.next_axis(o, d, c) != i
    }

    /// On one axis, for a face whose box holds a point of the ray and a cell
    /// that holds the point: the cell lies no higher than the cell of the
    /// greatest corner of the face, and at most one cell below the cell of the
    /// least. It lies below only where the ray grazes the face: moving upward,
    /// it meets the face in its least coordinate, on the plane above the cell.
    pub(crate) proof fn lemma_face_reaches(self, mesh: Mesh, o: V3, d: V3, f: int, i: int, c: int, p: Frac)
        requires
            self.wf(),
            0 <= i < 3,
            0 <= c < self.divs(i),
            p.den > 0,
            self.bounds.lo(i) <= Self::face_lo(mesh, f, i),
            Self::face_hi(mesh, f, i) <= self.bounds.hi(i),
            self.in_cell_on(o, d, i, c, p),
            axis_holds(Self::face_lo(mesh, f, i), Self::face_hi(mesh, f, i), o.at(i), d.at(i), p),
            d.at(i) <= 0 ==> self.clear_above(o, d, i, c, p),
        ensures
            c <= self.cell_on(i, Self::face_hi(mesh, f, i)),
            self.cell_on(i, Self::face_lo(mesh, f, i)) <= c + 1,
            self.cell_on(i, Self::face_lo(mesh, f, i)) > c ==> {
                &&& d.at(i) > 0
                &&& self.on_inner_plane(i, Self::face_lo(mesh, f, i))
                &&& (Self::face_lo(mesh, f, i) - o.at(i)) * p.den == p.num * d.at(i)
                &&& c + 1 < self.divs(i)
                &&& c + 1 <= self.cell_on(i, Self::face_hi(mesh, f, i))
            },
    {
        let lo = self.bounds.lo(i);
        let hi = self.bounds.hi(i);
        let n = self.divs(i);
        let s = hi - lo;
        let flo = Self::face_lo(mesh, f, i);
        let fhi = Self::face_hi(mesh, f, i);
        let x = p.num * d.at(i);
        lemma_face_planes(lo, o.at(i), n, c, s, x, p.den, flo, fhi);
        lemma_cell_sides(fhi, n, lo, hi, c);
        lemma_cell_sides(flo, n, lo, hi, c);
        let q = grid_cell(flo, n, lo, hi);
        if q > c {
            assert(q == c + 1);
            if flo >= hi {
                assert(q == n - 1);
                assert((flo - lo) * n <= (c + 1) * s);
                assert(false) by (nonlinear_arith)
                    requires
                        (flo - lo) * n <= (c + 1) * s,
                        flo - lo >= s,
                        c + 1 == n - 1,
                        c >= 0,
                        s >= 0,
                        n >= 1,
                        s == 0 ==> n == 1,
                ;
            } else if flo <= lo {
                assert(false);
            } else {
                assert(q * s <= (flo - lo) * n);
                assert((flo - lo) * n == (c + 1) * s);
                assert(((flo - lo) * n) % s == 0) by (nonlinear_arith)
                    requires
                        (flo - lo) * n == (c + 1) * s,
                        s > 0,
                ;
                assert(flo <= fhi) by (nonlinear_arith)
                    requires
                        (flo - o.at(i)) * p.den <= x <= (fhi - o.at(i)) * p.den,
                        p.den > 0,
                ;
                lemma_mul_le(flo - lo, fhi - lo, n);
                lemma_cell_sides(fhi, n, lo, hi, c + 1);
            }
        }
    }
}

/// A ray without direction meets no triangle.
pub proof fn lemma_still_ray_misses(orig: V3, dir: V3, a: V3, b: V3, c: V3)
    requires
        dir.is_zero(),
    ensures
        !ray_hits(orig, dir, a, b, c),
{
    let e1 = b.minus(a);
    let e2 = c.minus(a);
    assert(e1.x * (0 * e2.z - 0 * e2.y) + e1.y * (0 * e2.x - 0 * e2.z) + e1.z * (0 * e2.y - 0 * e2.x)
        == 0) by (nonlinear_arith);
}

impl AABBGrid {
    /// On each axis, the point in which the ray meets a face lies in the box
    /// of the face, and so in the box of a grid that encloses the mesh.
    pub(crate) proof fn lemma_meeting_in_box(self, mesh: Mesh, o: V3, d: V3, f: int, i: int)
        requires
            0 <= i < 3,
            0 <= f < mesh.faces.len(),
            self.encloses(mesh),
            mesh.face_hit(o, d, f),
        ensures
            meeting(o, d, mesh.corner_pos(f, 0), mesh.corner_pos(f, 1), mesh.corner_pos(f, 2)).den
                > 0,
            axis_holds(
                Self::face_lo(mesh, f, i),
                Self::face_hi(mesh, f, i),
                o.at(i),
                d.at(i),
                meeting(o, d, mesh.corner_pos(f, 0), mesh.corner_pos(f, 1), mesh.corner_pos(f, 2)),
            ),
            axis_holds(
                self.bounds.lo(i),
                self.bounds.hi(i),
                o.at(i),
                d.at(i),
                meeting(o, d, mesh.corner_pos(f, 0), mesh.corner_pos(f, 1), mesh.corner_pos(f, 2)),
            ),
    {
        let a = mesh.corner_pos(f, 0);
        let b = mesh.corner_pos(f, 1);
        let c = mesh.corner_pos(f, 2);
        let p = meeting(o, d, a, b, c);
        lemma_hit_in_box(o, d, a, b, c, i);
        assert(self.bounds.lo(i) <= Self::face_lo(mesh, f, i));
        lemma_mul_le(self.bounds.lo(i) - o.at(i), Self::face_lo(mesh, f, i) - o.at(i), p.den);
        lemma_mul_le(Self::face_hi(mesh, f, i) - o.at(i), self.bounds.hi(i) - o.at(i), p.den);
    }

    /// What holds of the cell in which the march holds the point at which the
    /// ray meets a face: it is one of the cells that the ray passes, on each
    /// axis it lies no higher than the cells in which the face is listed and
    /// at most one cell below them, and it lies below only where the ray
    /// grazes the face. The lemma gives the place of the cell among the cells
    /// passed.
    pub proof fn lemma_meeting_cell(self, mesh: Mesh, o: V3, d: V3, f: int) -> (k: int)
        requires
            self.wf(),
            mesh.wf(),
            self.encloses(mesh),
            0 <= f < mesh.faces.len(),
            mesh.face_hit(o, d, f),
        ensures
            0 <= k < self.ray_cells(o, d).len(),
            self.ray_cells(o, d)[k] == self.holding(
                o,
                d,
                meeting(o, d, mesh.corner_pos(f, 0), mesh.corner_pos(f, 1), mesh.corner_pos(f, 2)),
            ),
            forall|i: int|
                0 <= i < 3 ==> {
                    let c = #[trigger] cell_at(self.ray_cells(o, d)[k], i);
                    &&& c <= self.cell_on(i, Self::face_hi(mesh, f, i))
                    &&& self.cell_on(i, Self::face_lo(mesh, f, i)) <= c + 1
                    &&& self.cell_on(i, Self::face_lo(mesh, f, i)) > c ==> self.grazes(mesh, o, d, f, i)
                        && c + 1 < self.divs(i) && c + 1 <= self.cell_on(
                        i,
                        Self::face_hi(mesh, f, i),
                    )
                },
            ({
                let on = self.onward(o, d, self.ray_cells(o, d)[k]);
                self.inside(on.0, on.1, on.2) ==> k + 1 < self.ray_cells(o, d).len()
                    && self.ray_cells(o, d)[k + 1] == on
            }),
    {
        let a = mesh.corner_pos(f, 0);
        let b = mesh.corner_pos(f, 1);
        let c = mesh.corner_pos(f, 2);
        let p = meeting(o, d, a, b, c);
        if d.is_zero() {
            lemma_still_ray_misses(o, d, a, b, c);
        }
        self.lemma_meeting_in_box(mesh, o, d, f, 0);
        self.lemma_meeting_in_box(mesh, o, d, f, 1);
        self.lemma_meeting_in_box(mesh, o, d, f, 2);
        assert(self.bounds.holds_at(o, d, p));
        let k = self.lemma_ray_cells_cover(o, d, p);
        let ck = self.ray_cells(o, d)[k];
        self.lemma_ray_cells_inside(o, d);
        assert(self.inside(ck.0, ck.1, ck.2));
        self.lemma_face_reaches(mesh, o, d, f, 0, ck.0, p);
        self.lemma_face_reaches(mesh, o, d, f, 1, ck.1, p);
        self.lemma_face_reaches(mesh, o, d, f, 2, ck.2, p);
        k
    }

    /// A ray slips past a face only where it grazes it.
    pub proof fn lemma_slips_grazes(self, mesh: Mesh, o: V3, d: V3, f: int, i: int)
        requires
            self.wf(),
            mesh.wf(),
            self.encloses(mesh),
            0 <= f < mesh.faces.len(),
            0 <= i < 3,
            self.slips(mesh, o, d, f, i),
        ensures
            self.grazes(mesh, o, d, f, i),
    {
        let k = self.lemma_meeting_cell(mesh, o, d, f);
        assert(cell_at(self.ray_cells(o, d)[k], i) < self.cell_on(i, Self::face_lo(mesh, f, i)));
    }

    /// No face is missed: a face that the ray meets is listed in one of the
    /// cells that the ray passes, unless the ray slips past it. It is listed
    /// in the cell that holds the meeting point, or in the cell into which the
    /// march steps from there.
    pub proof fn lemma_no_missed_face(self, mesh: Mesh, o: V3, d: V3, f: int)
        requires
            self.wf(),
            mesh.wf(),
            self.lists(mesh),
            self.encloses(mesh),
            0 <= f < mesh.faces.len(),
            mesh.face_hit(o, d, f),
            !self.slips(mesh, o, d, f, 0),
            !self.slips(mesh, o, d, f, 1),
            !self.slips(mesh, o, d, f, 2),
        ensures
            self.ray_blocked(mesh, o, d),
    {
        let k = self.lemma_meeting_cell(mesh, o, d, f);
        let path = self.ray_cells(o, d);
        let ck = path[k];
        self.lemma_ray_cells_inside(o, d);
        let below0 = cell_at(ck, 0) < self.cell_on(0, Self::face_lo(mesh, f, 0));
        let below1 = cell_at(ck, 1) < self.cell_on(1, Self::face_lo(mesh, f, 1));
        let below2 = cell_at(ck, 2) < self.cell_on(2, Self::face_lo(mesh, f, 2));
        let at = if below0 || below1 || below2 {
            k + 1
        } else {
            k
        };
        if below0 || below1 || below2 {
            let axis = self.next_axis(o, d, ck);
            let on = self.onward(o, d, ck);
            assert(below0 ==> axis == 0);
            assert(below1 ==> axis == 1);
            assert(below2 ==> axis == 2);
            assert(d.at(axis) > 0);
            assert(cell_at(on, axis) == cell_at(ck, axis) + 1);
            assert(self.inside(on.0, on.1, on.2));
            assert(path[k + 1] == on);
            assert(self.face_cells(mesh, f).has(on.0, on.1, on.2));
        } else {
            assert(self.face_cells(mesh, f).has(ck.0, ck.1, ck.2));
        }
        let cl = path[at];
        assert(self.inside(cl.0, cl.1, cl.2));
        self.lemma_listed_has(mesh, cl.0, cl.1, cl.2, mesh.faces.len() as int, f);
        let list = self.cell(cl.0, cl.1, cl.2);
        assert(list == self.listed(mesh, cl.0, cl.1, cl.2, mesh.faces.len() as int));
        let j = choose|j: int| 0 <= j < list.len() && list[j] == f as usize;
        assert(mesh.face_hit(o, d, self.cell(cl.0, cl.1, cl.2)[j] as int));
        assert(self.hit_in_cell(mesh, o, d, path[at]));
    }

    /// No hit is false: what the grid reports is a face of the mesh that the
    /// ray meets.
    pub proof fn lemma_no_false_hit(self, mesh: Mesh, o: V3, d: V3)
        requires
            self.wf(),
            self.lists(mesh),
            self.ray_blocked(mesh, o, d),
        ensures
            mesh.blocks(o, d),
    {
        let path = self.ray_cells(o, d);
        let k = choose|k: int|
            0 <= k < path.len() && self.hit_in_cell(mesh, o, d, #[trigger] path[k]);
        let c = path[k];
        self.lemma_ray_cells_inside(o, d);
        let list = self.cell(c.0, c.1, c.2);
        let j = choose|j: int| 0 <= j < list.len() && mesh.face_hit(o, d, #[trigger] list[j] as int);
        assert(list == self.listed(mesh, c.0, c.1, c.2, mesh.faces.len() as int));
        self.lemma_listed_below(mesh, c.0, c.1, c.2, mesh.faces.len() as int);
        assert(mesh.face_hit(o, d, list[j] as int));
    }

    /// Testing the faces listed along the ray gives what testing every face
    /// gives: a ray is blocked for the grid exactly if some face of the mesh
    /// blocks it. This holds for every grid that encloses the mesh and every
    /// ray that slips past no face: a ray that grazes a face and, at that very
    /// point, leaves the grid or turns onto another axis does not come to a
    /// cell that lists the face there.
    pub proof fn lemma_grid_agrees(self, mesh: Mesh, o: V3, d: V3)
        requires
            self.wf(),
            mesh.wf(),
            self.lists(mesh),
            self.encloses(mesh),
            forall|f: int, i: int|
                0 <= f < mesh.faces.len() && 0 <= i < 3 ==> !#[trigger] self.slips(mesh, o, d, f, i),
        ensures
            self.ray_blocked(mesh, o, d) == mesh.blocks(o, d),
    {
        if self.ray_blocked(mesh, o, d) {
            self.lemma_no_false_hit(mesh, o, d);
        }
        if mesh.blocks(o, d) {
            let f = choose|f: int| 0 <= f < mesh.faces.len() && mesh.face_hit(o, d, f);
            self.lemma_no_missed_face(mesh, o, d, f);
        }
    }
}

} // verus!
