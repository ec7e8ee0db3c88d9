use vstd::prelude::*;
use crate::arith::{lemma_floor, lemma_mul_le, lemma_mul_lt, lemma_scale_sign};
use crate::bounds::{axis_holds, lemma_axis_holds};
use crate::grid::AABBGrid;
use crate::ratio::{lemma_le_trans, lemma_lt_le_trans, Frac};
use crate::traverse::{cell_at, leave_plane, step, Cell};
use crate::vector::V3;

verus! {

/// The plane through which a ray along `d` comes into the cell `c` of axis `i`.
pub open spec fn enter_plane(d: V3, i: int, c: int) -> int {
    if d.at(i) > 0 {
        c
    } else {
        c + 1
    }
}

proof fn lemma_sides(pn: int, num: int, den: int, d: int, n: int)
    by (nonlinear_arith)
    requires
        den > 0,
        n > 0,
    ensures
        d > 0 ==> (pn * den <= (num * d) * n <==> pn * den <= num * (d * n)),
        d > 0 ==> ((num * d) * n <= pn * den <==> num * (d * n) <= pn * den),
        d < 0 ==> (pn * den <= (num * d) * n <==> num * ((-d) * n) <= (-pn) * den),
        d < 0 ==> ((num * d) * n <= pn * den <==> (-pn) * den <= num * ((-d) * n)),
        d < 0 ==> ((num * d) * n < pn * den <==> (-pn) * den < num * ((-d) * n)),
{
}

/// The two sides of a plane, with the plane's place written out: `x` stands
/// for the product of the parameter's numerator and the direction.
proof fn lemma_plane_algebra(lo: int, o: int, n: int, k: int, s: int, x: int, den: int)
    by (nonlinear_arith)
    ensures
        ((lo - o) * n + k * s) * den <= x * n <==> k * (s * den) <= ((o - lo) * den + x) * n,
        x * n <= ((lo - o) * n + k * s) * den <==> ((o - lo) * den + x) * n <= k * (s * den),
        x * n < ((lo - o) * n + k * s) * den <==> ((o - lo) * den + x) * n < k * (s * den),
{
}

/// The floor of `a / b`, held to `[0, n - 1]`, names a cell whose planes
/// have `a` between them, for `0 <= a <= n b`.
proof fn lemma_floor_cell(a: int, b: int, n: int, c: int)
    by (nonlinear_arith)
    requires
        b > 0,
        n >= 1,
        0 <= a <= n * b,
        (a / b) * b <= a < (a / b + 1) * b,
        c == (if a / b >= n {
            n - 1
        } else {
            a / b
        }),
    ensures
        0 <= c < n,
        c * b <= a <= (c + 1) * b,
        c + 1 == n || a < (c + 1) * b,
{
}

impl AABBGrid {
    /// On axis `i`, the point of the ray at parameter `p` lies at or above
    /// plane `k`.
    pub open spec fn above(self, o: V3, d: V3, i: int, k: int, p: Frac) -> bool {
        self.plane_num(o, i, k) * p.den <= (p.num * d.at(i)) * self.divs(i)
    }

    /// On axis `i`, the point of the ray at parameter `p` lies at or below
    /// plane `k`.
    pub open spec fn below(self, o: V3, d: V3, i: int, k: int, p: Frac) -> bool {
        (p.num * d.at(i)) * self.divs(i) <= self.plane_num(o, i, k) * p.den
    }

    /// On axis `i`, the point of the ray at parameter `p` lies in the closed
    /// cell `c`.
    pub open spec fn in_cell_on(self, o: V3, d: V3, i: int, c: int, p: Frac) -> bool {
        self.above(o, d, i, c, p) && self.below(o, d, i, c + 1, p)
    }

    /// On axis `i`, the point of the ray at parameter `p` lies strictly below
    /// the plane above the cell `c`, unless that plane is the last of the
    /// axis.
    pub open spec fn clear_above(self, o: V3, d: V3, i: int, c: int, p: Frac) -> bool {
        c + 1 == self.divs(i) || (p.num * d.at(i)) * self.divs(i) < self.plane_num(o, i, c + 1)
            * p.den
    }

    /// Where the ray moves along an axis, a point lies on one side of a plane
    /// exactly if its parameter lies on that side of the crossing.
    pub(crate) proof fn lemma_crossing_sides(self, o: V3, d: V3, i: int, k: int, p: Frac)
        requires
            self.wf(),
            0 <= i < 3,
            p.den > 0,
            d.at(i) != 0,
        ensures
            self.crossing(o, d, i, k).den > 0,
            d.at(i) > 0 ==> (self.above(o, d, i, k, p) <==> self.crossing(o, d, i, k).le(p)),
            d.at(i) > 0 ==> (self.below(o, d, i, k, p) <==> p.le(self.crossing(o, d, i, k))),
            d.at(i) < 0 ==> (self.above(o, d, i, k, p) <==> p.le(self.crossing(o, d, i, k))),
            d.at(i) < 0 ==> (self.below(o, d, i, k, p) <==> self.crossing(o, d, i, k).le(p)),
            d.at(i) < 0 ==> ((p.num * d.at(i)) * self.divs(i) < self.plane_num(o, i, k) * p.den
                <==> !p.le(self.crossing(o, d, i, k))),
    {
        lemma_scale_sign(d.at(i), self.divs(i));
        lemma_sides(self.plane_num(o, i, k), p.num, p.den, d.at(i), self.divs(i));
    }
}

impl AABBGrid {
    /// The march starts in a cell that holds the point at which it starts.
    pub(crate) proof fn lemma_start_in_cell(self, o: V3, d: V3, t: Frac, i: int)
        requires
            self.wf(),
            0 <= i < 3,
            t.den > 0,
            axis_holds(self.bounds.lo(i), self.bounds.hi(i), o.at(i), d.at(i), t),
        ensures
            self.in_cell_on(o, d, i, self.start_on(o, d, t, i), t),
            self.clear_above(o, d, i, self.start_on(o, d, t, i), t),
            0 <= self.start_on(o, d, t, i) < self.divs(i),
    {
        let lo = self.bounds.lo(i);
        let hi = self.bounds.hi(i);
        let n = self.divs(i);
        let s = hi - lo;
        let x = t.num * d.at(i);
        let w = (o.at(i) - lo) * t.den + x;
        let c = self.start_on(o, d, t, i);
        self.lemma_start_on_inside(o, d, t, i);
        lemma_plane_algebra(lo, o.at(i), n, c, s, x, t.den);
        lemma_plane_algebra(lo, o.at(i), n, c + 1, s, x, t.den);
        assert(0 <= w <= s * t.den) by (nonlinear_arith)
            requires
                (lo - o.at(i)) * t.den <= x <= (hi - o.at(i)) * t.den,
                w == (o.at(i) - lo) * t.den + x,
                s == hi - lo,
        ;
        assert(s >= 0) by (nonlinear_arith)
            requires
                0 <= s * t.den,
                t.den > 0,
        ;
        let a = w * n;
        let b = s * t.den;
        if s == 0 {
            assert(n == 1);
            assert(s * t.den == 0) by (nonlinear_arith)
                requires
                    s == 0,
            ;
            assert(w == 0);
            assert(c == 0);
            assert(c * b <= a <= (c + 1) * b) by (nonlinear_arith)
                requires
                    c == 0,
                    a == w * n,
                    w == 0,
                    b == s * t.den,
                    s == 0,
            ;
        } else if w <= 0 {
            assert(c == 0);
            assert(c * b <= a < (c + 1) * b) by (nonlinear_arith)
                requires
                    c == 0,
                    a == w * n,
                    w == 0,
                    b == s * t.den,
                    s > 0,
                    t.den > 0,
            ;
        } else {
            lemma_mul_lt(0, s, t.den);
            lemma_floor(a, b);
            assert(0 <= a <= n * b) by (nonlinear_arith)
                requires
                    a == w * n,
                    0 <= w <= b,
                    n >= 1,
            ;
            lemma_floor_cell(a, b, n, c);
        }
        assert(c * (s * t.den) <= w * n <= (c + 1) * (s * t.den));
        assert(c + 1 == n || w * n < (c + 1) * (s * t.den));
    }
}

/// The plane through which a ray along `d` leaves the grid on axis `i`.
pub open spec fn last_plane(d: V3, i: int, divs: int) -> int {
    if d.at(i) > 0 {
        divs
    } else {
        0
    }
}

impl AABBGrid {
    /// The parameter at which the ray leaves the cell `c`: the earliest at
    /// which it leaves it along any axis.
    pub open spec fn departure(self, o: V3, d: V3, c: Cell) -> Frac {
        let axis = self.next_axis(o, d, c);
        self.leave(o, d, axis, cell_at(c, axis))
    }

    /// The parameter at which the ray comes into the cell `c` of axis `i`.
    pub open spec fn arrival_on(self, o: V3, d: V3, i: int, c: int) -> Frac {
        self.crossing(o, d, i, enter_plane(d, i, c))
    }

    /// On axis `i`, the ray is in the cell `c` at parameter `p`: it has come
    /// in and has not left. An axis along which the ray does not move asks
    /// nothing.
    pub open spec fn passing_on(self, o: V3, d: V3, i: int, c: int, p: Frac) -> bool {
        d.at(i) != 0 ==> self.arrival_on(o, d, i, c).le(p) && p.le(self.leave(o, d, i, c))
    }

    /// The ray is in the cell `c` at parameter `p`.
    pub open spec fn passing(self, o: V3, d: V3, c: Cell, p: Frac) -> bool {
        &&& self.passing_on(o, d, 0, c.0, p)
        &&& self.passing_on(o, d, 1, c.1, p)
        &&& self.passing_on(o, d, 2, c.2, p)
    }

    /// On axis `i`, the ray has come into the cell `c` by parameter `p`, and
    /// `p` is no later than the parameter at which the ray leaves the grid.
    pub open spec fn arrived_on(self, o: V3, d: V3, i: int, c: int, p: Frac) -> bool {
        d.at(i) != 0 ==> self.arrival_on(o, d, i, c).le(p) && p.le(
            self.crossing(o, d, i, last_plane(d, i, self.divs(i))),
        )
    }

    pub open spec fn arrived(self, o: V3, d: V3, c: Cell, p: Frac) -> bool {
        &&& self.arrived_on(o, d, 0, c.0, p)
        &&& self.arrived_on(o, d, 1, c.1, p)
        &&& self.arrived_on(o, d, 2, c.2, p)
    }

    /// On every axis along which the ray moves downward, the point at
    /// parameter `p` lies strictly below the plane through which the ray came
    /// into the cell `c`, unless the ray came in from outside the grid.
    pub open spec fn descended(self, o: V3, d: V3, c: Cell, p: Frac) -> bool {
        &&& d.at(0) < 0 ==> self.clear_above(o, d, 0, c.0, p)
        &&& d.at(1) < 0 ==> self.clear_above(o, d, 1, c.1, p)
        &&& d.at(2) < 0 ==> self.clear_above(o, d, 2, c.2, p)
    }

    /// The cells `a` and `b` agree on every axis along which the ray does not
    /// move.
    pub open spec fn level(d: V3, a: Cell, b: Cell) -> bool {
        &&& d.at(0) == 0 ==> a.0 == b.0
        &&& d.at(1) == 0 ==> a.1 == b.1
        &&& d.at(2) == 0 ==> a.2 == b.2
    }

    /// The cell in which the march from the cell `c` holds the point of the
    /// parameter `p`: the first of its cells that the ray leaves no earlier
    /// than `p`.
    pub open spec fn holder(self, o: V3, d: V3, c: Cell, p: Frac) -> Cell
        decreases self.remaining(d, c),
    {
        let axis = self.next_axis(o, d, c);
        if !self.inside(c.0, c.1, c.2) || d.at(axis) == 0 || p.le(self.departure(o, d, c)) {
            c
        } else {
            self.holder(o, d, step(d, c, axis), p)
        }
    }

    /// The cell in which the march of the ray holds the point of the
    /// parameter `p`.
    pub open spec fn holding(self, o: V3, d: V3, p: Frac) -> Cell {
        match self.bounds.entry(o, d) {
            Some(t) => self.holder(o, d, self.start(o, d, t), p),
            None => (0, 0, 0),
        }
    }

    /// The cell that the march steps into from the cell `c`, which lies
    /// outside the grid where the march ends with `c`.
    pub open spec fn onward(self, o: V3, d: V3, c: Cell) -> Cell {
        step(d, c, self.next_axis(o, d, c))
    }

    /// The ray leaves a cell no later than it leaves it along any one axis.
    pub(crate) proof fn lemma_departure_least(self, o: V3, d: V3, c: Cell, i: int)
        requires
            self.wf(),
            !d.is_zero(),
            0 <= i < 3,
            d.at(i) != 0,
        ensures
            self.departure(o, d, c).den > 0,
            self.leave(o, d, i, cell_at(c, i)).den > 0,
            self.departure(o, d, c).le(self.leave(o, d, i, cell_at(c, i))),
    {
        let tx = self.leave(o, d, 0, c.0);
        let ty = self.leave(o, d, 1, c.1);
        let tz = self.leave(o, d, 2, c.2);
        lemma_scale_sign(d.at(0), self.divs(0));
        lemma_scale_sign(d.at(1), self.divs(1));
        lemma_scale_sign(d.at(2), self.divs(2));
        self.lemma_next_axis_moves(o, d, c);
        let a = self.next_axis(o, d, c);
        if a == 1 && i == 0 {
            if tx.before(ty) {
                lemma_lt_le_trans(ty, tz, tx);
            }
        }
        if a == 2 && i == 0 {
            if tx.before(tz) {
                lemma_le_trans(tz, ty, tx);
            }
        }
    }

    /// Stepping to the next cell does not bring the departure forward: the
    /// ray leaves each cell no earlier than the one before.
    pub(crate) proof fn lemma_departure_ordered(self, o: V3, d: V3, c: Cell)
        requires
            self.wf(),
            !d.is_zero(),
            self.bounds.lo(0) <= self.bounds.hi(0),
            self.bounds.lo(1) <= self.bounds.hi(1),
            self.bounds.lo(2) <= self.bounds.hi(2),
        ensures
            self.departure(o, d, c).den > 0,
            self.departure(o, d, step(d, c, self.next_axis(o, d, c))).den > 0,
            self.departure(o, d, c).le(
                self.departure(o, d, step(d, c, self.next_axis(o, d, c))),
            ),
    {
        let a = self.next_axis(o, d, c);
        let n = step(d, c, a);
        let b = self.next_axis(o, d, n);
        self.lemma_next_axis_moves(o, d, c);
        self.lemma_next_axis_moves(o, d, n);
        self.lemma_departure_least(o, d, c, a);
        self.lemma_departure_least(o, d, n, b);
        if a == b {
            let s = self.bounds.hi(a) - self.bounds.lo(a);
            let k = leave_plane(d, a, cell_at(c, a));
            let t0 = self.leave(o, d, a, cell_at(c, a));
            let t1 = self.leave(o, d, a, cell_at(n, a));
            assert(t1.den == t0.den);
            assert(t1.num == t0.num + s) by (nonlinear_arith)
                requires
                    s == self.bounds.hi(a) - self.bounds.lo(a),
                    d.at(a) > 0 ==> t0.num == self.plane_num(o, a, k) && t1.num == self.plane_num(
                        o,
                        a,
                        k + 1,
                    ),
                    d.at(a) < 0 ==> t0.num == -self.plane_num(o, a, k) && t1.num
                        == -self.plane_num(o, a, k - 1),
                    d.at(a) != 0,
                    self.plane_num(o, a, k) == (self.bounds.lo(a) - o.at(a)) * self.divs(a) + k * (
                    self.bounds.hi(a) - self.bounds.lo(a)),
                    self.plane_num(o, a, k + 1) == (self.bounds.lo(a) - o.at(a)) * self.divs(a) + (k
                        + 1) * (self.bounds.hi(a) - self.bounds.lo(a)),
                    self.plane_num(o, a, k - 1) == (self.bounds.lo(a) - o.at(a)) * self.divs(a) + (k
                        - 1) * (self.bounds.hi(a) - self.bounds.lo(a)),
            ;
            lemma_mul_le(t0.num, t1.num, t0.den);
        } else {
            assert(cell_at(n, b) == cell_at(c, b));
            self.lemma_departure_least(o, d, c, b);
        }
    }

    /// The march passes every point of the ray that lies ahead of its first
    /// cell and in the grid: some cell of the march has the ray in it at the
    /// parameter `p`. The lemma gives the place of that cell in the march.
    pub(crate) proof fn lemma_march_reaches(self, o: V3, d: V3, c: Cell, p: Frac) -> (k: int)
        requires
            self.wf(),
            !d.is_zero(),
            self.inside(c.0, c.1, c.2),
            p.den > 0,
            self.arrived(o, d, c, p),
            self.descended(o, d, c, p),
        ensures
            0 <= k < self.march(o, d, c).len(),
            self.passing(o, d, self.march(o, d, c)[k], p),
            self.descended(o, d, self.march(o, d, c)[k], p),
            Self::level(d, self.march(o, d, c)[k], c),
            self.march(o, d, c)[k] == self.holder(o, d, c, p),
            p.le(self.departure(o, d, self.march(o, d, c)[k])),
            ({
                let on = self.onward(o, d, self.march(o, d, c)[k]);
                self.inside(on.0, on.1, on.2) ==> k + 1 < self.march(o, d, c).len() && self.march(
                    o,
                    d,
                    c,
                )[k + 1] == on
            }),
        decreases self.remaining(d, c),
    {
        let a = self.next_axis(o, d, c);
        let n = step(d, c, a);
        self.lemma_next_axis_moves(o, d, c);
        self.lemma_march(o, d, c);
        let dep = self.departure(o, d, c);
        self.lemma_departure_least(o, d, c, a);
        assert(self.march(o, d, c) =~= seq![c] + self.march(o, d, n));
        if p.le(dep) {
            if self.inside(n.0, n.1, n.2) {
                self.lemma_march(o, d, n);
                assert(self.march(o, d, c)[1] == self.march(o, d, n)[0]);
            }
            assert forall|i: int| 0 <= i < 3 implies self.passing_on(o, d, i, cell_at(c, i), p) by {
                if d.at(i) != 0 {
                    self.lemma_departure_least(o, d, c, i);
                    lemma_le_trans(p, dep, self.leave(o, d, i, cell_at(c, i)));
                }
            }
            assert(self.passing_on(o, d, 0, cell_at(c, 0), p));
            assert(self.passing_on(o, d, 1, cell_at(c, 1), p));
            assert(self.passing_on(o, d, 2, cell_at(c, 2), p));
            0
        } else {
            assert(self.arrived_on(o, d, a, cell_at(c, a), p));
            if !self.inside(n.0, n.1, n.2) {
                assert(leave_plane(d, a, cell_at(c, a)) == last_plane(d, a, self.divs(a)));
                assert(false);
            }
            assert(enter_plane(d, a, cell_at(n, a)) == leave_plane(d, a, cell_at(c, a)));
            assert(self.arrival_on(o, d, a, cell_at(n, a)) == dep);
            assert(self.arrived_on(o, d, 0, n.0, p));
            assert(self.arrived_on(o, d, 1, n.1, p));
            assert(self.arrived_on(o, d, 2, n.2, p));
            if d.at(a) < 0 {
                self.lemma_crossing_sides(o, d, a, cell_at(c, a), p);
                assert(cell_at(n, a) + 1 == cell_at(c, a));
                assert(self.clear_above(o, d, a, cell_at(n, a), p));
            }
            assert(self.descended(o, d, n, p));
            let k = self.lemma_march_reaches(o, d, n, p);
            assert(self.march(o, d, c)[k + 1] == self.march(o, d, n)[k]);
            let on = self.onward(o, d, self.march(o, d, n)[k]);
            if self.inside(on.0, on.1, on.2) {
                assert(self.march(o, d, c)[k + 1 + 1] == self.march(o, d, n)[k + 1]);
            }
            k + 1
        }
    }
}

/// How far the cell `c` lies along the ray: the sum of its indices, each
/// counted in the direction in which the ray moves along its axis.
pub open spec fn advance(d: V3, c: Cell) -> int {
    let x = if d.at(0) > 0 {
        c.0
    } else if d.at(0) < 0 {
        -c.0
    } else {
        0
    };
    let y = if d.at(1) > 0 {
        c.1
    } else if d.at(1) < 0 {
        -c.1
    } else {
        0
    };
    let z = if d.at(2) > 0 {
        c.2
    } else if d.at(2) < 0 {
        -c.2
    } else {
        0
    };
    x + y + z
}

proof fn lemma_slab_not_void(lo: int, hi: int, o: int, x: int, den: int)
    by (nonlinear_arith)
    requires
        den > 0,
        (lo - o) * den <= x <= (hi - o) * den,
    ensures
        lo <= hi,
{
}

impl AABBGrid {
    /// The cells of `cells` come in the order of the ray: each lies one step
    /// further along the ray than the one before, across the plane through
    /// which the ray leaves that one first, and the ray leaves each no earlier
    /// than the one before.
    pub open spec fn in_ray_order(self, o: V3, d: V3, cells: Seq<Cell>) -> bool {
        forall|k: int|
            0 <= k && k + 1 < cells.len() ==> {
                &&& #[trigger] cells[k + 1] == step(d, cells[k], self.next_axis(o, d, cells[k]))
                &&& advance(d, cells[k + 1]) == advance(d, cells[k]) + 1
                &&& self.departure(o, d, cells[k]).den > 0
                &&& self.departure(o, d, cells[k + 1]).den > 0
                &&& self.departure(o, d, cells[k]).le(self.departure(o, d, cells[k + 1]))
            }
    }

    /// The cells that a ray passes come in the order of the ray, and the
    /// ray leaves the first of them no earlier than it enters the box.
    pub proof fn lemma_ray_cells_ordered(self, o: V3, d: V3)
        requires
            self.wf(),
        ensures
            self.in_ray_order(o, d, self.ray_cells(o, d)),
            self.bounds.entry(o, d) matches Some(t) ==> self.departure(o, d, self.ray_cells(o, d)[0]).den
                > 0 && t.le(self.departure(o, d, self.ray_cells(o, d)[0])),
    {
        let cells = self.ray_cells(o, d);
        self.lemma_ray_cells_inside(o, d);
        match self.bounds.entry(o, d) {
            Some(t) => {
                self.bounds.lemma_entry_exit(o, d);
                self.bounds.lemma_entry_holds(o, d);
                lemma_slab_not_void(self.bounds.lo(0), self.bounds.hi(0), o.at(0), t.num * d.at(0), t.den);
                lemma_slab_not_void(self.bounds.lo(1), self.bounds.hi(1), o.at(1), t.num * d.at(1), t.den);
                lemma_slab_not_void(self.bounds.lo(2), self.bounds.hi(2), o.at(2), t.num * d.at(2), t.den);
                assert forall|k: int| 0 <= k && k + 1 < cells.len() implies {
                    &&& #[trigger] cells[k + 1] == step(d, cells[k], self.next_axis(o, d, cells[k]))
                    &&& advance(d, cells[k + 1]) == advance(d, cells[k]) + 1
                    &&& self.departure(o, d, cells[k]).den > 0
                    &&& self.departure(o, d, cells[k + 1]).den > 0
                    &&& self.departure(o, d, cells[k]).le(self.departure(o, d, cells[k + 1]))
                } by {
                    self.lemma_next_axis_moves(o, d, cells[k]);
                    self.lemma_departure_ordered(o, d, cells[k]);
                }
                let c0 = cells[0];
                let a = self.next_axis(o, d, c0);
                self.lemma_next_axis_moves(o, d, c0);
                self.lemma_start_in_cell(o, d, t, a);
                self.lemma_crossing_sides(o, d, a, leave_plane(d, a, cell_at(c0, a)), t);
                self.lemma_departure_least(o, d, c0, a);
            },
            None => {},
        }
    }
}

/// The last plane of an axis is crossed where the slab of the box is left,
/// and no plane of the axis is crossed later.
proof fn lemma_last_crossing(lo: int, hi: int, o: int, d: int, n: int, k: int)
    by (nonlinear_arith)
    requires
        n >= 1,
        lo <= hi,
        0 <= k <= n,
        d != 0,
    ensures
        d > 0 ==> ((lo - o) * n + k * (hi - lo)) * d <= (hi - o) * (d * n),
        d < 0 ==> (-((lo - o) * n + k * (hi - lo))) * (-d) <= (o - lo) * ((-d) * n),
{
}

impl AABBGrid {
    /// The ray leaves no cell of the grid later than it leaves the box.
    pub(crate) proof fn lemma_departure_in_time(self, o: V3, d: V3, c: Cell)
        requires
            self.wf(),
            !d.is_zero(),
            self.inside(c.0, c.1, c.2),
            self.bounds.lo(0) <= self.bounds.hi(0),
            self.bounds.lo(1) <= self.bounds.hi(1),
            self.bounds.lo(2) <= self.bounds.hi(2),
        ensures
            self.departure(o, d, c).den > 0,
            self.departure(o, d, c).le(self.bounds.last_exit(o, d)),
    {
        self.bounds.lemma_entry_exit(o, d);
        let x = self.bounds.last_exit(o, d);
        let j = choose|j: int| 0 <= j < 3 && d.at(j) != 0 && x == #[trigger] self.bounds.exit(o, d, j);
        self.lemma_departure_least(o, d, c, j);
        let l = self.leave(o, d, j, cell_at(c, j));
        lemma_scale_sign(d.at(j), self.divs(j));
        lemma_last_crossing(
            self.bounds.lo(j),
            self.bounds.hi(j),
            o.at(j),
            d.at(j),
            self.divs(j),
            leave_plane(d, j, cell_at(c, j)),
        );
        assert(l.le(x));
        lemma_le_trans(self.departure(o, d, c), l, x);
    }

    /// The march never leaves the box: the point at which the ray leaves any
    /// of the cells that it passes lies in the box of the grid, no earlier
    /// than the ray enters it. No march is longer than the box is wide.
    pub proof fn lemma_march_in_box(self, o: V3, d: V3, k: int)
        requires
            self.wf(),
            0 <= k < self.ray_cells(o, d).len(),
        ensures
            self.bounds.entry(o, d).is_some(),
            self.departure(o, d, self.ray_cells(o, d)[k]).den > 0,
            self.bounds.entry(o, d).unwrap().le(self.departure(o, d, self.ray_cells(o, d)[k])),
            self.bounds.holds_at(o, d, self.departure(o, d, self.ray_cells(o, d)[k])),
        decreases k,
    {
        let cells = self.ray_cells(o, d);
        self.lemma_ray_cells_inside(o, d);
        self.lemma_ray_cells_ordered(o, d);
        let t = self.bounds.entry(o, d).unwrap();
        let p = self.departure(o, d, cells[k]);
        self.bounds.lemma_entry_exit(o, d);
        self.bounds.lemma_entry_holds(o, d);
        lemma_slab_not_void(self.bounds.lo(0), self.bounds.hi(0), o.at(0), t.num * d.at(0), t.den);
        lemma_slab_not_void(self.bounds.lo(1), self.bounds.hi(1), o.at(1), t.num * d.at(1), t.den);
        lemma_slab_not_void(self.bounds.lo(2), self.bounds.hi(2), o.at(2), t.num * d.at(2), t.den);
        if k > 0 {
            self.lemma_march_in_box(o, d, k - 1);
            assert(cells[k - 1 + 1] == cells[k]);
            lemma_le_trans(t, self.departure(o, d, cells[k - 1]), p);
        }
        self.lemma_departure_in_time(o, d, cells[k]);
        let x = self.bounds.last_exit(o, d);
        assert forall|i: int| 0 <= i < 3 implies axis_holds(
            self.bounds.lo(i),
            self.bounds.hi(i),
            o.at(i),
            d.at(i),
            p,
        ) by {
            lemma_axis_holds(self.bounds.lo(i), self.bounds.hi(i), o.at(i), d.at(i), p);
            if d.at(i) != 0 {
                lemma_le_trans(self.bounds.enter(o, d, i), t, p);
                lemma_le_trans(p, x, self.bounds.exit(o, d, i));
            }
        }
        assert(axis_holds(self.bounds.lo(0), self.bounds.hi(0), o.at(0), d.at(0), p));
        assert(axis_holds(self.bounds.lo(1), self.bounds.hi(1), o.at(1), d.at(1), p));
        assert(axis_holds(self.bounds.lo(2), self.bounds.hi(2), o.at(2), d.at(2), p));
    }
}

/// Of two points of a ray that does not move upward along an axis, the later
/// lies no higher: if the earlier lies strictly below a plane, so does the
/// later. `pn` stands for the place of the plane.
proof fn lemma_sinks(tn: int, td: int, pnum: int, pden: int, d: int, n: int, pn: int)
    by (nonlinear_arith)
    requires
        td > 0,
        pden > 0,
        n > 0,
        d <= 0,
        tn * pden <= pnum * td,
        (tn * d) * n < pn * td,
    ensures
        (pnum * d) * n < pn * pden,
{
}

impl AABBGrid {
    /// A point of the ray in the box lies between the first and the last plane
    /// of each axis.
    pub(crate) proof fn lemma_box_planes(self, o: V3, d: V3, i: int, p: Frac)
        requires
            self.wf(),
            0 <= i < 3,
            p.den > 0,
            axis_holds(self.bounds.lo(i), self.bounds.hi(i), o.at(i), d.at(i), p),
        ensures
            self.above(o, d, i, 0, p),
            self.below(o, d, i, self.divs(i), p),
    {
        let lo = self.bounds.lo(i);
        let hi = self.bounds.hi(i);
        let n = self.divs(i);
        let x = p.num * d.at(i);
        let ov = o.at(i);
        assert(((lo - ov) * n + 0 * (hi - lo)) * p.den <= x * n && x * n <= ((lo - ov) * n + n * (
        hi - lo)) * p.den) by (nonlinear_arith)
            requires
                n >= 1,
                p.den > 0,
                (lo - ov) * p.den <= x <= (hi - ov) * p.den,
        ;
    }

    /// Along an axis on which the ray does not move, a cell that holds one
    /// point of the ray holds them all.
    pub(crate) proof fn lemma_still_axis(self, o: V3, d: V3, i: int, c: int, t: Frac, p: Frac)
        requires
            0 <= i < 3,
            t.den > 0,
            p.den > 0,
            d.at(i) == 0,
            self.in_cell_on(o, d, i, c, t),
        ensures
            self.in_cell_on(o, d, i, c, p),
    {
        let a = self.plane_num(o, i, c);
        let b = self.plane_num(o, i, c + 1);
        let n = self.divs(i);
        assert(a * p.den <= (p.num * 0) * n && (p.num * 0) * n <= b * p.den) by (nonlinear_arith)
            requires
                t.den > 0,
                p.den > 0,
                a * t.den <= (t.num * 0) * n,
                (t.num * 0) * n <= b * t.den,
        ;
    }

    /// Along an axis on which the ray does not move upward, a point that lies
    /// strictly below the plane above a cell keeps every later point of the
    /// ray below that plane.
    pub(crate) proof fn lemma_clear_persists(self, o: V3, d: V3, i: int, c: int, t: Frac, p: Frac)
        requires
            self.wf(),
            0 <= i < 3,
            t.den > 0,
            p.den > 0,
            t.le(p),
            d.at(i) <= 0,
            self.clear_above(o, d, i, c, t),
        ensures
            self.clear_above(o, d, i, c, p),
    {
        if c + 1 != self.divs(i) {
            lemma_sinks(t.num, t.den, p.num, p.den, d.at(i), self.divs(i), self.plane_num(o, i, c + 1));
        }
    }

    /// On each axis along which the ray moves, the cell in which the march
    /// starts has been entered by the time of any later point in the box.
    pub(crate) proof fn lemma_start_arrived(self, o: V3, d: V3, i: int, t: Frac, p: Frac)
        requires
            self.wf(),
            0 <= i < 3,
            t.den > 0,
            p.den > 0,
            t.le(p),
            axis_holds(self.bounds.lo(i), self.bounds.hi(i), o.at(i), d.at(i), t),
            axis_holds(self.bounds.lo(i), self.bounds.hi(i), o.at(i), d.at(i), p),
        ensures
            self.arrived_on(o, d, i, self.start_on(o, d, t, i), p),
    {
        if d.at(i) != 0 {
            let c = self.start_on(o, d, t, i);
            self.lemma_start_in_cell(o, d, t, i);
            self.lemma_crossing_sides(o, d, i, enter_plane(d, i, c), t);
            lemma_le_trans(self.arrival_on(o, d, i, c), t, p);
            self.lemma_box_planes(o, d, i, p);
            self.lemma_crossing_sides(o, d, i, last_plane(d, i, self.divs(i)), p);
        }
    }

    /// On each axis along which the ray moves downward, every point of the
    /// ray in the box lies strictly below the plane above the cell in which
    /// the march starts, unless that plane is the last of the axis.
    pub(crate) proof fn lemma_start_descended(self, o: V3, d: V3, i: int, t: Frac, p: Frac)
        requires
            self.wf(),
            0 <= i < 3,
            t.den > 0,
            p.den > 0,
            t.le(p),
            axis_holds(self.bounds.lo(i), self.bounds.hi(i), o.at(i), d.at(i), t),
        ensures
            d.at(i) < 0 ==> self.clear_above(o, d, i, self.start_on(o, d, t, i), p),
    {
        if d.at(i) < 0 {
            self.lemma_start_in_cell(o, d, t, i);
            self.lemma_clear_persists(o, d, i, self.start_on(o, d, t, i), t, p);
        }
    }

    /// On an axis along which the ray moves: a cell through which the ray
    /// passes at a parameter holds the point of that parameter.
    pub(crate) proof fn lemma_passing_in_cell(self, o: V3, d: V3, i: int, c: int, p: Frac)
        requires
            self.wf(),
            0 <= i < 3,
            p.den > 0,
            d.at(i) != 0,
            self.passing_on(o, d, i, c, p),
        ensures
            self.in_cell_on(o, d, i, c, p),
    {
        self.lemma_crossing_sides(o, d, i, enter_plane(d, i, c), p);
        self.lemma_crossing_sides(o, d, i, leave_plane(d, i, c), p);
    }

    /// The cell `c` holds the point of the ray at parameter `p`: on each
    /// axis the point lies between the two planes of the cell, and where the
    /// ray does not move upward along the axis, strictly below the upper of
    /// the two, unless that is the last plane of the axis.
    pub open spec fn holds_point(self, o: V3, d: V3, c: Cell, p: Frac) -> bool {
        &&& self.in_cell_on(o, d, 0, c.0, p)
        &&& self.in_cell_on(o, d, 1, c.1, p)
        &&& self.in_cell_on(o, d, 2, c.2, p)
        &&& d.at(0) <= 0 ==> self.clear_above(o, d, 0, c.0, p)
        &&& d.at(1) <= 0 ==> self.clear_above(o, d, 1, c.1, p)
        &&& d.at(2) <= 0 ==> self.clear_above(o, d, 2, c.2, p)
    }

    /// On one axis: the cell through which the ray passes at the parameter
    /// `p`, after a start at the parameter `t`, holds the point of `p`.
    pub(crate) proof fn lemma_axis_holds_point(self, o: V3, d: V3, i: int, t: Frac, p: Frac, c: int)
        requires
            self.wf(),
            0 <= i < 3,
            t.den > 0,
            p.den > 0,
            t.le(p),
            axis_holds(self.bounds.lo(i), self.bounds.hi(i), o.at(i), d.at(i), t),
            d.at(i) != 0 ==> self.passing_on(o, d, i, c, p),
            d.at(i) == 0 ==> c == self.start_on(o, d, t, i),
            d.at(i) < 0 ==> self.clear_above(o, d, i, c, p),
        ensures
            self.in_cell_on(o, d, i, c, p),
            d.at(i) <= 0 ==> self.clear_above(o, d, i, c, p),
    {
        if d.at(i) != 0 {
            self.lemma_passing_in_cell(o, d, i, c, p);
        } else {
            self.lemma_start_in_cell(o, d, t, i);
            self.lemma_still_axis(o, d, i, c, t, p);
            self.lemma_clear_persists(o, d, i, c, t, p);
        }
    }

    /// The march skips nothing: wherever the ray is in the box of the grid,
    /// one of the cells that it passes holds that point of the ray. The lemma
    /// gives the place of that cell among the cells passed.
    pub proof fn lemma_ray_cells_cover(self, o: V3, d: V3, p: Frac) -> (k: int)
        requires
            self.wf(),
            !d.is_zero(),
            self.bounds.holds_at(o, d, p),
            p.num >= 0,
        ensures
            0 <= k < self.ray_cells(o, d).len(),
            self.holds_point(o, d, self.ray_cells(o, d)[k], p),
            self.ray_cells(o, d)[k] == self.holding(o, d, p),
            p.le(self.departure(o, d, self.ray_cells(o, d)[k])),
            ({
                let on = self.onward(o, d, self.ray_cells(o, d)[k]);
                self.inside(on.0, on.1, on.2) ==> k + 1 < self.ray_cells(o, d).len()
                    && self.ray_cells(o, d)[k + 1] == on
            }),
    {
        self.bounds.lemma_entry_least(o, d, p);
        self.bounds.lemma_entry_holds(o, d);
        let t = self.bounds.entry(o, d).unwrap();
        let c0 = self.start(o, d, t);
        self.lemma_start_inside(o, d, t);
        self.lemma_start_arrived(o, d, 0, t, p);
        self.lemma_start_arrived(o, d, 1, t, p);
        self.lemma_start_arrived(o, d, 2, t, p);
        self.lemma_start_descended(o, d, 0, t, p);
        self.lemma_start_descended(o, d, 1, t, p);
        self.lemma_start_descended(o, d, 2, t, p);
        let k = self.lemma_march_reaches(o, d, c0, p);
        let ck = self.march(o, d, c0)[k];
        assert(Self::level(d, ck, c0));
        self.lemma_axis_holds_point(o, d, 0, t, p, ck.0);
        self.lemma_axis_holds_point(o, d, 1, t, p, ck.1);
        self.lemma_axis_holds_point(o, d, 2, t, p, ck.2);
        k
    }
}

} // verus!
