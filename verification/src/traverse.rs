use vstd::prelude::*;
use crate::arith::{lemma_floor, lemma_mul_lt, lemma_mul_nonneg, lemma_scale_sign};
use crate::grid::AABBGrid;
use crate::ratio::{Frac, Ratio};
use crate::arith::lemma_mul_within;
use crate::vector::{Vec3, V3};

verus! {

/// A cell of a grid, by its index along each axis.
pub type Cell = (int, int, int);

/// The index of a cell along axis `i`.
pub open spec fn cell_at(c: Cell, i: int) -> int {
    if i == 0 {
        c.0
    } else if i == 1 {
        c.1
    } else {
        c.2
    }
}

/// The cells of a list, as the model has them.
pub open spec fn as_cells(v: Seq<(usize, usize, usize)>) -> Seq<Cell> {
    Seq::new(v.len(), |k: int| (v[k].0 as int, v[k].1 as int, v[k].2 as int))
}

/// The cell next to `c` along `axis`, in the direction in which the ray moves.
pub open spec fn step(d: V3, c: Cell, axis: int) -> Cell {
    let by = if d.at(axis) > 0 {
        1
    } else {
        -1
    };
    if axis == 0 {
        (c.0 + by, c.1, c.2)
    } else if axis == 1 {
        (c.0, c.1 + by, c.2)
    } else {
        (c.0, c.1, c.2 + by)
    }
}

/// The plane through which a ray along `d` leaves the cell `c` of axis `i`:
/// plane `k` of an axis lies between its cells `k - 1` and `k`.
pub open spec fn leave_plane(d: V3, i: int, c: int) -> int {
    if d.at(i) > 0 {
        c + 1
    } else {
        c
    }
}

impl AABBGrid {
    /// Plane `k` of axis `i` lies at `lo + k (hi - lo) / divs`; this is its
    /// distance from the origin `o` along the axis, times `divs`.
    pub open spec fn plane_num(self, o: V3, i: int, k: int) -> int {
        (self.bounds.lo(i) - o.at(i)) * self.divs(i) + k * (self.bounds.hi(i) - self.bounds.lo(i))
    }

    /// The parameter at which the ray crosses plane `k` of axis `i`; "never"
    /// where it does not move along the axis.
    pub open spec fn crossing(self, o: V3, d: V3, i: int, k: int) -> Frac {
        let di = d.at(i);
        if di > 0 {
            Frac { num: self.plane_num(o, i, k), den: di * self.divs(i) }
        } else if di < 0 {
            Frac { num: -self.plane_num(o, i, k), den: (-di) * self.divs(i) }
        } else {
            Frac { num: 0, den: 0 }
        }
    }

    /// The parameter at which the ray leaves the cell `c` of axis `i`.
    pub open spec fn leave(self, o: V3, d: V3, i: int, c: int) -> Frac {
        self.crossing(o, d, i, leave_plane(d, i, c))
    }

    /// The axis along which the ray leaves the cell `c` first. Where two axes
    /// are left at once, z goes before y and y before x.
    pub open spec fn next_axis(self, o: V3, d: V3, c: Cell) -> int {
        let tx = self.leave(o, d, 0, c.0);
        let ty = self.leave(o, d, 1, c.1);
        let tz = self.leave(o, d, 2, c.2);
        if tx.before(ty) && tx.before(tz) {
            0
        } else if ty.before(tz) {
            1
        } else {
            2
        }
    }

    /// How many cells the ray can still step through along axis `i`, the cell
    /// `c` counted.
    pub open spec fn ahead(self, d: V3, i: int, c: int) -> int {
        if d.at(i) > 0 {
            self.divs(i) - c
        } else if d.at(i) < 0 {
            c + 1
        } else {
            0
        }
    }

    pub open spec fn remaining(self, d: V3, c: Cell) -> int {
        self.ahead(d, 0, c.0) + self.ahead(d, 1, c.1) + self.ahead(d, 2, c.2)
    }

    /// The cells that the ray passes from the cell `c` on, `c` first, until it
    /// leaves the grid.
    pub open spec fn march(self, o: V3, d: V3, c: Cell) -> Seq<Cell>
        decreases self.remaining(d, c),
    {
        let axis = self.next_axis(o, d, c);
        if !self.inside(c.0, c.1, c.2) {
            Seq::empty()
        } else if d.at(axis) == 0 {
            seq![c]
        } else {
            seq![c] + self.march(o, d, step(d, c, axis))
        }
    }

    /// The cell of axis `i` in which the march starts: the cell of the point at
    /// parameter `t`, held to the cells of the grid.
    pub open spec fn start_on(self, o: V3, d: V3, t: Frac, i: int) -> int {
        let s = self.bounds.hi(i) - self.bounds.lo(i);
        let w = (o.at(i) - self.bounds.lo(i)) * t.den + t.num * d.at(i);
        let q = (w * self.divs(i)) / (s * t.den);
        if s <= 0 || w <= 0 {
            0
        } else if q >= self.divs(i) {
            self.divs(i) - 1
        } else {
            q
        }
    }

    pub open spec fn start(self, o: V3, d: V3, t: Frac) -> Cell {
        (self.start_on(o, d, t, 0), self.start_on(o, d, t, 1), self.start_on(o, d, t, 2))
    }

    /// The cells that the ray from `o` along `d` passes, in the order in
    /// which it passes them, from where it enters the box of the grid to where
    /// it leaves it; none where no point of the ray lies in the box. For an
    /// origin in the box the cells are those of the line of the ray, from
    /// where it comes into the box.
    pub open spec fn ray_cells(self, o: V3, d: V3) -> Seq<Cell> {
        match self.bounds.entry(o, d) {
            Some(t) => self.march(o, d, self.start(o, d, t)),
            None => Seq::empty(),
        }
    }

    fn divs_of(&self, i: usize) -> (n: usize)
        ensures
            n == self.divs(i as int),
    {
        if i == 0 {
            self.x_divs
        } else if i == 1 {
            self.y_divs
        } else {
            self.z_divs
        }
    }

    fn leave_of(&self, origin: &Vec3, dir: &Vec3, i: usize, c: usize) -> (t: Ratio)
        requires
            self.wf(),
            c < self.divs(i as int),
        ensures
            t@ == self.leave(origin@, dir@, i as int, c as int),
            plane_bounded(t),
            t.den > 0 <==> dir@.at(i as int) != 0,
    {
        let n: i128 = self.divs_of(i) as i128;
        let lo: i128 = self.bounds.min.get(i) as i128;
        let hi: i128 = self.bounds.max.get(i) as i128;
        let o: i128 = origin.get(i) as i128;
        let d: i128 = dir.get(i) as i128;
        let k: i128 = if d > 0 {
            c as i128 + 1
        } else {
            c as i128
        };
        proof {
            lemma_mul_within(lo - o, n as int, 0xffff_ffff, 128);
            lemma_mul_within(k as int, hi - lo, 128, 0xffff_ffff);
            lemma_mul_within(d as int, n as int, 0x8000_0000, 128);
            lemma_mul_within(-d as int, n as int, 0x8000_0000, 128);
            if d > 0 {
                lemma_mul_lt(0, d as int, n as int);
            }
            if d < 0 {
                lemma_mul_lt(0, -d as int, n as int);
            }
        }
        let num: i128 = (lo - o) * n + k * (hi - lo);
        if d > 0 {
            Ratio { num, den: d * n }
        } else if d < 0 {
            Ratio { num: -num, den: (-d) * n }
        } else {
            Ratio { num: 0, den: 0 }
        }
    }

    fn start_of(&self, origin: &Vec3, dir: &Vec3, t: Ratio, i: usize) -> (c: usize)
        requires
            self.wf(),
            t.den > 0,
            crate::bounds::span_bounded(t),
        ensures
            c == self.start_on(origin@, dir@, t@, i as int),
            c < self.divs(i as int),
    {
        let n: i128 = self.divs_of(i) as i128;
        let lo: i128 = self.bounds.min.get(i) as i128;
        let hi: i128 = self.bounds.max.get(i) as i128;
        let o: i128 = origin.get(i) as i128;
        let d: i128 = dir.get(i) as i128;
        let s: i128 = hi - lo;
        proof {
            lemma_mul_within(o - lo, t.den as int, 0xffff_ffff, 0x8000_0000);
            lemma_mul_within(t.num as int, d as int, 0xffff_ffff, 0x8000_0000);
        }
        let w: i128 = (o - lo) * t.den + t.num * d;
        if s <= 0 || w <= 0 {
            return 0;
        }
        proof {
            lemma_mul_within(w as int, n as int, 0x1_0000_0000_0000_0000, 128);
            lemma_mul_within(s as int, t.den as int, 0xffff_ffff, 0x8000_0000);
            lemma_mul_lt(0, s as int, t.den as int);
            lemma_mul_nonneg(w as int, n as int);
            lemma_floor(w as int * n as int, s as int * t.den as int);
            let q = (w as int * n as int) / (s as int * t.den as int);
            let b = s as int * t.den as int;
            let a = w as int * n as int;
            assert(q >= 0) by (nonlinear_arith)
                requires
                    a >= 0,
                    b > 0,
                    a < (q + 1) * b,
            ;
            assert(q <= a) by (nonlinear_arith)
                requires
                    a >= 0,
                    b > 0,
                    q >= 0,
                    q * b <= a,
            ;
        }
        let q: i128 = (w * n) / (s * t.den);
        if q >= n {
            (n - 1) as usize
        } else {
            q as usize
        }
    }

    /// The cells that the ray from `origin` along `dir` passes, in the order
    /// in which it passes them; none for a ray that points away from the
    /// grid.
    pub fn traverse(&self, origin: &Vec3, dir: &Vec3) -> (cells: Vec<(usize, usize, usize)>)
        requires
            self.wf(),
        ensures
            as_cells(cells@) == self.ray_cells(origin@, dir@),
            cells.len() <= self.x_divs + self.y_divs + self.z_divs,
            cells.len() > 0 <==> self.bounds.entry(origin@, dir@).is_some(),
            forall|k: int|
                0 <= k < cells.len() ==> (#[trigger] cells[k]).0 < self.x_divs && cells[k].1
                    < self.y_divs && cells[k].2 < self.z_divs,
            self.in_ray_order(origin@, dir@, as_cells(cells@)),
    {
        proof {
            self.lemma_ray_cells_inside(origin@, dir@);
            self.lemma_ray_cells_ordered(origin@, dir@);
        }
        let mut vec: Vec<(usize, usize, usize)> = Vec::new();
        let t_hit = match self.bounds.intersect(origin, dir) {
            Some(v) => v,
            None => {
                assert(as_cells(vec@) =~= Seq::<Cell>::empty());
                return vec;
            },
        };
        let mut cx = self.start_of(origin, dir, t_hit, 0);
        let mut cy = self.start_of(origin, dir, t_hit, 1);
        let mut cz = self.start_of(origin, dir, t_hit, 2);
        assert(as_cells(vec@) =~= Seq::<Cell>::empty());
        loop
            invariant_except_break
                self.wf(),
                !dir@.is_zero(),
                self.inside(cx as int, cy as int, cz as int),
                as_cells(vec@) + self.march(origin@, dir@, (cx as int, cy as int, cz as int))
                    == self.ray_cells(origin@, dir@),
            ensures
                as_cells(vec@) == self.ray_cells(origin@, dir@),
            decreases self.remaining(dir@, (cx as int, cy as int, cz as int)),
        {
            let ghost cur: Cell = (cx as int, cy as int, cz as int);
            let ghost done = as_cells(vec@);
            vec.push((cx, cy, cz));
            assert(as_cells(vec@) =~= done + seq![cur]);
            let tx = self.leave_of(origin, dir, 0, cx);
            let ty = self.leave_of(origin, dir, 1, cy);
            let tz = self.leave_of(origin, dir, 2, cz);
            let axis: usize = if before_exec(tx, ty) && before_exec(tx, tz) {
                0
            } else if before_exec(ty, tz) {
                1
            } else {
                2
            };
            assert(axis == self.next_axis(origin@, dir@, cur));
            proof {
                self.lemma_next_axis_moves(origin@, dir@, cur);
            }
            let forward = dir.get(axis) > 0;
            let c = if axis == 0 {
                cx
            } else if axis == 1 {
                cy
            } else {
                cz
            };
            let ghost nxt = step(dir@, cur, axis as int);
            let out = if forward {
                c + 1 == self.divs_of(axis)
            } else {
                c == 0
            };
            if out {
                assert(!self.inside(nxt.0, nxt.1, nxt.2));
                assert(self.march(origin@, dir@, nxt) =~= Seq::<Cell>::empty());
                assert(self.march(origin@, dir@, cur) =~= seq![cur]);
                break ;
            }
            let c2 = if forward {
                c + 1
            } else {
                c - 1
            };
            if axis == 0 {
                cx = c2;
            } else if axis == 1 {
                cy = c2;
            } else {
                cz = c2;
            }
            assert((cx as int, cy as int, cz as int) == nxt);
            assert(self.march(origin@, dir@, cur) =~= seq![cur] + self.march(origin@, dir@, nxt));
            assert(done + seq![cur] + self.march(origin@, dir@, nxt) =~= done + self.march(
                origin@,
                dir@,
                cur,
            ));
        }
        proof {
            assert forall|k: int| 0 <= k < vec.len() implies (#[trigger] vec[k]).0 < self.x_divs
                && vec[k].1 < self.y_divs && vec[k].2 < self.z_divs by {
                let c = as_cells(vec@)[k];
                assert(self.inside(c.0, c.1, c.2));
            }
        }
        vec
    }

    /// The cell in which the march starts is a cell of the grid.
    pub(crate) proof fn lemma_start_inside(self, o: V3, d: V3, t: Frac)
        requires
            self.wf(),
            t.den > 0,
        ensures
            self.inside(self.start(o, d, t).0, self.start(o, d, t).1, self.start(o, d, t).2),
    {
        self.lemma_start_on_inside(o, d, t, 0);
        self.lemma_start_on_inside(o, d, t, 1);
        self.lemma_start_on_inside(o, d, t, 2);
    }

    /// On each axis the march starts in a cell of the grid.
    pub(crate) proof fn lemma_start_on_inside(self, o: V3, d: V3, t: Frac, i: int)
        requires
            self.wf(),
            t.den > 0,
        ensures
            0 <= self.start_on(o, d, t, i) < self.divs(i),
    {
        let s = self.bounds.hi(i) - self.bounds.lo(i);
        let w = (o.at(i) - self.bounds.lo(i)) * t.den + t.num * d.at(i);
        if s > 0 && w > 0 {
            let a = w * self.divs(i);
            let b = s * t.den;
            let q = a / b;
            lemma_mul_lt(0, s, t.den);
            lemma_mul_nonneg(w, self.divs(i));
            lemma_floor(a, b);
            assert(q >= 0) by (nonlinear_arith)
                requires
                    a >= 0,
                    b > 0,
                    a < (q + 1) * b,
            ;
        }
    }

    /// A march from a cell of the grid starts with that cell, stays in the
    /// grid, moves by one cell along one axis at a time, and ends after no
    /// more cells than lie ahead of the first along the three axes.
    pub proof fn lemma_march(self, o: V3, d: V3, c: Cell)
        requires
            self.wf(),
            !d.is_zero(),
            self.inside(c.0, c.1, c.2),
        ensures
            self.march(o, d, c).len() >= 1,
            self.march(o, d, c)[0] == c,
            self.march(o, d, c).len() <= self.remaining(d, c),
            forall|k: int|
                0 <= k < self.march(o, d, c).len() ==> self.inside(
                    (#[trigger] self.march(o, d, c)[k]).0,
                    self.march(o, d, c)[k].1,
                    self.march(o, d, c)[k].2,
                ),
            forall|k: int|
                0 <= k && k + 1 < self.march(o, d, c).len() ==> #[trigger] self.march(o, d, c)[k + 1]
                    == step(d, self.march(o, d, c)[k], self.next_axis(o, d, self.march(o, d, c)[k])),
        decreases self.remaining(d, c),
    {
        let axis = self.next_axis(o, d, c);
        self.lemma_next_axis_moves(o, d, c);
        let n = step(d, c, axis);
        let m = self.march(o, d, c);
        let rest = self.march(o, d, n);
        assert(m =~= seq![c] + rest);
        if self.inside(n.0, n.1, n.2) {
            self.lemma_march(o, d, n);
            assert forall|k: int| 0 <= k && k + 1 < m.len() implies #[trigger] m[k + 1] == step(
                d,
                m[k],
                self.next_axis(o, d, m[k]),
            ) by {
                if k > 0 {
                    assert(m[k] == rest[k - 1]);
                    assert(m[k + 1] == rest[k - 1 + 1]);
                }
            }
        } else {
            assert(rest =~= Seq::<Cell>::empty());
        }
    }

    /// The cells that a ray passes are cells of the grid, each one step from
    /// the one before, and no more of them than the grid has cells along its
    /// three axes together; there is one at least exactly if the ray meets
    /// the box of the grid.
    pub proof fn lemma_ray_cells_inside(self, o: V3, d: V3)
        requires
            self.wf(),
        ensures
            self.ray_cells(o, d).len() <= self.x_divs + self.y_divs + self.z_divs,
            self.ray_cells(o, d).len() > 0 <==> self.bounds.entry(o, d).is_some(),
            forall|k: int|
                0 <= k < self.ray_cells(o, d).len() ==> self.inside(
                    (#[trigger] self.ray_cells(o, d)[k]).0,
                    self.ray_cells(o, d)[k].1,
                    self.ray_cells(o, d)[k].2,
                ),
            forall|k: int|
                0 <= k && k + 1 < self.ray_cells(o, d).len() ==> #[trigger] self.ray_cells(o, d)[k
                    + 1] == step(
                    d,
                    self.ray_cells(o, d)[k],
                    self.next_axis(o, d, self.ray_cells(o, d)[k]),
                ),
    {
        match self.bounds.entry(o, d) {
            Some(t) => {
                self.bounds.lemma_entry_exit(o, d);
                self.lemma_start_inside(o, d, t);
                self.lemma_march(o, d, self.start(o, d, t));
            },
            None => {},
        }
    }

    /// The ray moves along the axis on which it leaves a cell first.
    pub(crate) proof fn lemma_next_axis_moves(self, o: V3, d: V3, c: Cell)
        requires
            self.wf(),
            !d.is_zero(),
        ensures
            d.at(self.next_axis(o, d, c)) != 0,
            0 <= self.next_axis(o, d, c) < 3,
    {
        lemma_scale_sign(d.at(0), self.divs(0));
        lemma_scale_sign(d.at(1), self.divs(1));
        lemma_scale_sign(d.at(2), self.divs(2));
    }
}

/// The numerator and the denominator of the parameter of a plane are small
/// enough to be multiplied across.
pub open spec fn plane_bounded(t: Ratio) -> bool {
    -0x200_0000_0000 <= t.num <= 0x200_0000_0000 && 0 <= t.den <= 0x40_0000_0000
}

fn before_exec(a: Ratio, b: Ratio) -> (r: bool)
    requires
        plane_bounded(a),
        plane_bounded(b),
    ensures
        r == a@.before(b@),
{
    proof {
        lemma_mul_within(a.num as int, b.den as int, 0x200_0000_0000, 0x40_0000_0000);
        lemma_mul_within(b.num as int, a.den as int, 0x200_0000_0000, 0x40_0000_0000);
    }
    a.den > 0 && (b.den == 0 || a.num * b.den < b.num * a.den)
}

} // verus!
