use vstd::prelude::*;
use crate::arith::{lemma_floor, lemma_mul_lt, lemma_mul_nonneg};
use crate::bounds::{find_extrema, find_extrema_triangle, is_extrema_of, max3, min3, BoundBox};
use crate::mesh::Mesh;
use crate::arith::lemma_mul_within;
use crate::vertex::Vertex;

verus! {

/// No axis of a grid has more cells than this.
pub const MAX_DIVS: usize = 128;

/// The cell of an axis that a coordinate falls in, for `divs` cells laid
/// evenly over `[lo, hi)`: a coordinate at or above `hi` goes to the last cell,
/// one at or below `lo` to the first.
pub open spec fn grid_cell(pos: int, divs: int, lo: int, hi: int) -> int {
    if pos >= hi {
        divs - 1
    } else if pos <= lo {
        0
    } else {
        ((pos - lo) * divs) / (hi - lo)
    }
}

/// The cell of an axis that a coordinate falls in.
pub fn map_pos_to_grid(pos: i32, divs: usize, min: i32, max: i32) -> (cell: usize)
    requires
        divs >= 1,
    ensures
        cell == grid_cell(pos as int, divs as int, min as int, max as int),
        cell < divs,
{
    if pos >= max {
        divs - 1
    } else if pos <= min {
        0
    } else {
        let delta: u128 = (max as i128 - min as i128) as u128;
        let off: u128 = (pos as i128 - min as i128) as u128;
        proof {
            lemma_mul_within(off as int, divs as int, 0xffff_ffff, 0xffff_ffff_ffff_ffff);
            lemma_floor(off as int * divs as int, delta as int);
            lemma_mul_lt(off as int, delta as int, divs as int);
            lemma_mul_nonneg(off as int, divs as int);
            let q = (off as int * divs as int) / (delta as int);
            assert(0 <= q < divs) by (nonlinear_arith)
                requires
                    q * delta <= off * divs,
                    off * divs < (q + 1) * delta,
                    0 <= off * divs < delta * divs,
                    delta > 0,
            ;
        }
        let q: u128 = off * (divs as u128) / delta;
        q as usize
    }
}

/// `n` cells of the axis fit the density of the mesh: with extent `e` on the
/// axis, extents `f` and `g` on the other two and `count` triangles,
/// `n <= e * cbrt(4 count / (e f g))`, which is `n^3 f g <= 4 count e^2`.
pub open spec fn fits(n: int, e: int, f: int, g: int, count: int) -> bool {
    (n * n * n) * (f * g) <= (4 * count) * (e * e)
}

/// `n` is the number of cells for an axis of extent `e`: the greatest number
/// that fits, held to `[1, MAX_DIVS]`; an axis without extent has one cell,
/// and so has every axis of a mesh without triangles.
pub open spec fn is_division(n: int, e: int, f: int, g: int, count: int) -> bool {
    &&& 1 <= n <= MAX_DIVS
    &&& e <= 0 || count <= 0 ==> n == 1
    &&& e > 0 && count > 0 && n > 1 ==> fits(n, e, f, g, count)
    &&& e > 0 && count > 0 && n < MAX_DIVS ==> !fits(n + 1, e, f, g, count)
}

/// The extent of a slab, as far as it has one.
pub open spec fn extent(lo: int, hi: int) -> int {
    if hi > lo {
        hi - lo
    } else {
        0
    }
}

fn extent_of(lo: i32, hi: i32) -> (e: u64)
    ensures
        e == extent(lo as int, hi as int),
        e <= 0xffff_ffff,
{
    if hi > lo {
        (hi as i64 - lo as i64) as u64
    } else {
        0
    }
}

fn fits_exec(n: usize, e: u64, f: u64, g: u64, count: usize) -> (b: bool)
    requires
        1 <= n <= MAX_DIVS,
        e <= 0xffff_ffff,
        f <= 0xffff_ffff,
        g <= 0xffff_ffff,
    ensures
        b == fits(n as int, e as int, f as int, g as int, count as int),
{
    let n1: u128 = n as u128;
    proof {
        lemma_mul_within(n as int, n as int, 128, 128);
        lemma_mul_within(n as int * n as int, n as int, 16384, 128);
        lemma_mul_within(f as int, g as int, 0xffff_ffff, 0xffff_ffff);
        lemma_mul_within(e as int, e as int, 0xffff_ffff, 0xffff_ffff);
        lemma_mul_nonneg(n as int, n as int);
        lemma_mul_nonneg(n as int * n as int, n as int);
        lemma_mul_nonneg(f as int, g as int);
        lemma_mul_nonneg(e as int, e as int);
        lemma_mul_within(
            (n as int * n as int) * n as int,
            f as int * g as int,
            2097152,
            0xffff_fffe_0000_0001,
        );
        lemma_mul_nonneg((n as int * n as int) * n as int, f as int * g as int);
    }
    let cube: u128 = n1 * n1 * n1;
    let area: u128 = (f as u128) * (g as u128);
    let lhs: u128 = cube * area;
    let four: u128 = 4 * (count as u128);
    let sq: u128 = (e as u128) * (e as u128);
    match four.checked_mul(sq) {
        Some(rhs) => lhs <= rhs,
        None => true,
    }
}

/// The number of cells for an axis of extent `e`, beside axes of extents `f`
/// and `g`, in a mesh of `count` triangles.
pub fn divisions(e: u64, f: u64, g: u64, count: usize) -> (n: usize)
    requires
        e <= 0xffff_ffff,
        f <= 0xffff_ffff,
        g <= 0xffff_ffff,
    ensures
        is_division(n as int, e as int, f as int, g as int, count as int),
{
    if e == 0 || count == 0 {
        return 1;
    }
    let mut n: usize = MAX_DIVS;
    while n > 1
        invariant
            1 <= n <= MAX_DIVS,
            count > 0,
            0 < e <= 0xffff_ffff,
            f <= 0xffff_ffff,
            g <= 0xffff_ffff,
            n < MAX_DIVS ==> !fits(n as int + 1, e as int, f as int, g as int, count as int),
        decreases n,
    {
        if fits_exec(n, e, f, g, count) {
            return n;
        }
        n -= 1;
    }
    n
}

/// Where the cell `(x, y, z)` is kept in a grid of `nx` by `ny` columns.
pub open spec fn slot_of(x: int, y: int, z: int, nx: int, ny: int) -> int {
    x + y * nx + z * (nx * ny)
}

pub(crate) proof fn lemma_slot_bound(x: int, y: int, z: int, nx: int, ny: int, nz: int)
    by (nonlinear_arith)
    requires
        0 <= x < nx,
        0 <= y < ny,
        0 <= z < nz,
    ensures
        0 <= slot_of(x, y, z, nx, ny) < (nx * ny) * nz,
        0 <= y * nx <= (ny - 1) * nx,
        0 <= z * (nx * ny) <= (nz - 1) * (nx * ny),
        0 < nx * ny,
{
}

/// Two cells are kept in the same place only if they are the same cell.
pub(crate) proof fn lemma_slot_injective(
    x: int, y: int, z: int,
    u: int, v: int, w: int,
    nx: int, ny: int,
)
    by (nonlinear_arith)
    requires
        0 <= x < nx,
        0 <= y < ny,
        0 <= u < nx,
        0 <= v < ny,
        slot_of(x, y, z, nx, ny) == slot_of(u, v, w, nx, ny),
    ensures
        x == u && y == v && z == w,
{
}

/// The triangles listed in one place of the storage; an absent list is empty.
pub open spec fn items(grid: Seq<Option<Vec<usize>>>, s: int) -> Seq<usize> {
    match grid[s] {
        Some(v) => v@,
        None => Seq::empty(),
    }
}

/// No list of the storage is present and empty.
pub open spec fn tidy(grid: Seq<Option<Vec<usize>>>) -> bool {
    forall|s: int| 0 <= s < grid.len() ==> ((#[trigger] grid[s]) matches Some(v) ==> v.len() > 0)
}

/// A range of cells: from the first corner to the second, both included.
pub struct CellBox {
    pub x0: int,
    pub y0: int,
    pub z0: int,
    pub x1: int,
    pub y1: int,
    pub z1: int,
}

impl CellBox {
    pub open spec fn has(self, x: int, y: int, z: int) -> bool {
        &&& self.x0 <= x <= self.x1
        &&& self.y0 <= y <= self.y1
        &&& self.z0 <= z <= self.z1
    }
}

fn push_at(grid: &mut Vec<Option<Vec<usize>>>, idx: usize, item: usize)
    requires
        idx < old(grid).len(),
    ensures
        final(grid).len() == old(grid).len(),
        final(grid)[idx as int].is_some(),
        items(final(grid)@, idx as int) == items(old(grid)@, idx as int).push(item),
        forall|j: int| 0 <= j < old(grid).len() && j != idx ==> final(grid)[j] == old(grid)[j],
{
    let slot = &mut grid[idx];
    match slot {
        Some(v) => {
            v.push(item);
        },
        None => {
            let mut v = Vec::new();
            v.push(item);
            *slot = Some(v);
        },
    }
}

/// What the list of the cell `(x, y, z)` holds once `item` was added to the
/// cells of `b` that come before `(cx, cy, cz)` in the order of the walk.
pub open spec fn walked(b: CellBox, x: int, y: int, z: int, cx: int, cy: int, cz: int) -> bool {
    b.has(x, y, z) && (x < cx || (x == cx && (y < cy || (y == cy && z < cz))))
}

pub open spec fn with_item(base: Seq<usize>, item: usize, present: bool) -> Seq<usize> {
    if present {
        base.push(item)
    } else {
        base
    }
}

/// Adds `item` to the list of every cell between `(x0, y0, z0)` and
/// `(x1, y1, z1)`, both included.
fn register(
    grid: &mut Vec<Option<Vec<usize>>>,
    nx: usize,
    ny: usize,
    nz: usize,
    item: usize,
    x0: usize,
    y0: usize,
    z0: usize,
    x1: usize,
    y1: usize,
    z1: usize,
)
    requires
        1 <= nx <= MAX_DIVS,
        1 <= ny <= MAX_DIVS,
        1 <= nz <= MAX_DIVS,
        old(grid).len() == (nx * ny) * nz,
        x1 < nx,
        y1 < ny,
        z1 < nz,
        tidy(old(grid)@),
    ensures
        final(grid).len() == old(grid).len(),
        tidy(final(grid)@),
        forall|x: int, y: int, z: int|
            0 <= x < nx && 0 <= y < ny && 0 <= z < nz ==> items(
                final(grid)@,
                #[trigger] slot_of(x, y, z, nx as int, ny as int),
            ) == with_item(
                items(old(grid)@, slot_of(x, y, z, nx as int, ny as int)),
                item,
                (CellBox {
                    x0: x0 as int,
                    y0: y0 as int,
                    z0: z0 as int,
                    x1: x1 as int,
                    y1: y1 as int,
                    z1: z1 as int,
                }).has(x, y, z),
            ),
{
    let ghost b = CellBox {
        x0: x0 as int,
        y0: y0 as int,
        z0: z0 as int,
        x1: x1 as int,
        y1: y1 as int,
        z1: z1 as int,
    };
    let ghost start = grid@;
    let mut x: usize = x0;
    while x <= x1
        invariant
            1 <= nx <= MAX_DIVS,
            1 <= ny <= MAX_DIVS,
            1 <= nz <= MAX_DIVS,
            grid.len() == (nx * ny) * nz,
            start.len() == grid.len(),
            x1 < nx,
            y1 < ny,
            z1 < nz,
            x0 <= x,
            x <= x1 + 1 || x == x0,
            tidy(grid@),
            b == (CellBox {
                x0: x0 as int,
                y0: y0 as int,
                z0: z0 as int,
                x1: x1 as int,
                y1: y1 as int,
                z1: z1 as int,
            }),
            forall|u: int, v: int, w: int|
                0 <= u < nx && 0 <= v < ny && 0 <= w < nz ==> items(
                    grid@,
                    #[trigger] slot_of(u, v, w, nx as int, ny as int),
                ) == with_item(
                    items(start, slot_of(u, v, w, nx as int, ny as int)),
                    item,
                    walked(b, u, v, w, x as int, y0 as int, z0 as int),
                ),
        decreases x1 + 1 - x,
    {
        let mut y: usize = y0;
        while y <= y1
            invariant
                1 <= nx <= MAX_DIVS,
                1 <= ny <= MAX_DIVS,
                1 <= nz <= MAX_DIVS,
                grid.len() == (nx * ny) * nz,
                start.len() == grid.len(),
                x0 <= x <= x1,
                x1 < nx,
                y1 < ny,
                z1 < nz,
                y0 <= y,
                y <= y1 + 1 || y == y0,
                tidy(grid@),
                b == (CellBox {
                    x0: x0 as int,
                    y0: y0 as int,
                    z0: z0 as int,
                    x1: x1 as int,
                    y1: y1 as int,
                    z1: z1 as int,
                }),
                forall|u: int, v: int, w: int|
                    0 <= u < nx && 0 <= v < ny && 0 <= w < nz ==> items(
                        grid@,
                        #[trigger] slot_of(u, v, w, nx as int, ny as int),
                    ) == with_item(
                        items(start, slot_of(u, v, w, nx as int, ny as int)),
                        item,
                        walked(b, u, v, w, x as int, y as int, z0 as int),
                    ),
            decreases y1 + 1 - y,
        {
            let mut z: usize = z0;
            while z <= z1
                invariant
                    1 <= nx <= MAX_DIVS,
                    1 <= ny <= MAX_DIVS,
                    1 <= nz <= MAX_DIVS,
                    grid.len() == (nx * ny) * nz,
                    start.len() == grid.len(),
                    x0 <= x <= x1,
                    y0 <= y <= y1,
                    x1 < nx,
                    y1 < ny,
                    z1 < nz,
                    z0 <= z,
                    z <= z1 + 1 || z == z0,
                    tidy(grid@),
                    b == (CellBox {
                        x0: x0 as int,
                        y0: y0 as int,
                        z0: z0 as int,
                        x1: x1 as int,
                        y1: y1 as int,
                        z1: z1 as int,
                    }),
                    forall|u: int, v: int, w: int|
                        0 <= u < nx && 0 <= v < ny && 0 <= w < nz ==> items(
                            grid@,
                            #[trigger] slot_of(u, v, w, nx as int, ny as int),
                        ) == with_item(
                            items(start, slot_of(u, v, w, nx as int, ny as int)),
                            item,
                            walked(b, u, v, w, x as int, y as int, z as int),
                        ),
                decreases z1 + 1 - z,
            {
                proof {
                    lemma_slot_bound(x as int, y as int, z as int, nx as int, ny as int, nz as int);
                    lemma_mul_within(nx as int, ny as int, 128, 128);
                    lemma_mul_within(y as int, nx as int, 128, 128);
                    lemma_mul_within(z as int, nx as int * ny as int, 128, 16384);
                }
                let idx: usize = x + y * nx + z * (nx * ny);
                let ghost before = grid@;
                push_at(grid, idx, item);
                proof {
                    assert forall|u: int, v: int, w: int|
                        0 <= u < nx && 0 <= v < ny && 0 <= w < nz implies items(
                        grid@,
                        #[trigger] slot_of(u, v, w, nx as int, ny as int),
                    ) == with_item(
                        items(start, slot_of(u, v, w, nx as int, ny as int)),
                        item,
                        walked(b, u, v, w, x as int, y as int, z as int + 1),
                    ) by {
                        let s = slot_of(u, v, w, nx as int, ny as int);
                        lemma_slot_bound(u, v, w, nx as int, ny as int, nz as int);
                        if s == idx {
                            lemma_slot_injective(
                                u,
                                v,
                                w,
                                x as int,
                                y as int,
                                z as int,
                                nx as int,
                                ny as int,
                            );
                        } else {
                            assert(grid@[s] == before[s]);
                        }
                    }
                    assert forall|s: int| 0 <= s < grid@.len() implies ((#[trigger] grid@[s]) matches Some(
                        v,
                    ) ==> v.len() > 0) by {
                        if s != idx {
                            assert(grid@[s] == before[s]);
                        }
                    }
                }
                z += 1;
            }
            y += 1;
        }
        x += 1;
    }
}

/// A uniform grid over the box of a mesh. Each cell lists the triangles whose
/// own boxes reach into it; a cell that no triangle reaches has no list.
#[derive(Debug)]
pub struct AABBGrid {
    pub bounds: BoundBox,
    pub x_divs: usize,
    pub y_divs: usize,
    pub z_divs: usize,
    pub grid: Vec<Option<Vec<usize>>>,
}

impl AABBGrid {
    /// The number of cells along axis `i`.
    pub open spec fn divs(self, i: int) -> int {
        if i == 0 {
            self.x_divs as int
        } else if i == 1 {
            self.y_divs as int
        } else {
            self.z_divs as int
        }
    }

    pub open spec fn wf(self) -> bool {
        &&& 1 <= self.x_divs <= MAX_DIVS
        &&& 1 <= self.y_divs <= MAX_DIVS
        &&& 1 <= self.z_divs <= MAX_DIVS
        &&& self.grid.len() == (self.x_divs * self.y_divs) * self.z_divs
        &&& tidy(self.grid@)
        &&& self.bounds.hi(0) <= self.bounds.lo(0) ==> self.x_divs == 1
        &&& self.bounds.hi(1) <= self.bounds.lo(1) ==> self.y_divs == 1
        &&& self.bounds.hi(2) <= self.bounds.lo(2) ==> self.z_divs == 1
    }

    /// The cell `(x, y, z)` is one of the grid.
    pub open spec fn inside(self, x: int, y: int, z: int) -> bool {
        &&& 0 <= x < self.x_divs
        &&& 0 <= y < self.y_divs
        &&& 0 <= z < self.z_divs
    }

    /// The triangles listed in the cell `(x, y, z)`, in the order listed.
    pub open spec fn cell(self, x: int, y: int, z: int) -> Seq<usize> {
        items(self.grid@, slot_of(x, y, z, self.x_divs as int, self.y_divs as int))
    }

    /// The least coordinate of face `f` on axis `i`.
    pub open spec fn face_lo(mesh: Mesh, f: int, i: int) -> int {
        min3(mesh.corner_pos(f, 0).at(i), mesh.corner_pos(f, 1).at(i), mesh.corner_pos(f, 2).at(i))
    }

    /// The greatest coordinate of face `f` on axis `i`.
    pub open spec fn face_hi(mesh: Mesh, f: int, i: int) -> int {
        max3(mesh.corner_pos(f, 0).at(i), mesh.corner_pos(f, 1).at(i), mesh.corner_pos(f, 2).at(i))
    }

    /// The cell of axis `i` that the coordinate `pos` falls in.
    pub open spec fn cell_on(self, i: int, pos: int) -> int {
        grid_cell(pos, self.divs(i), self.bounds.lo(i), self.bounds.hi(i))
    }

    /// The cells that the box of face `f` reaches into: from the cell of its
    /// least corner to the cell of its greatest.
    pub open spec fn face_cells(self, mesh: Mesh, f: int) -> CellBox {
        CellBox {
            x0: self.cell_on(0, Self::face_lo(mesh, f, 0)),
            y0: self.cell_on(1, Self::face_lo(mesh, f, 1)),
            z0: self.cell_on(2, Self::face_lo(mesh, f, 2)),
            x1: self.cell_on(0, Self::face_hi(mesh, f, 0)),
            y1: self.cell_on(1, Self::face_hi(mesh, f, 1)),
            z1: self.cell_on(2, Self::face_hi(mesh, f, 2)),
        }
    }

    /// The faces below `upto` whose boxes reach into the cell `(x, y, z)`, in
    /// rising order.
    pub open spec fn listed(self, mesh: Mesh, x: int, y: int, z: int, upto: int) -> Seq<usize>
        decreases upto,
    {
        if upto <= 0 {
            Seq::empty()
        } else {
            with_item(
                self.listed(mesh, x, y, z, upto - 1),
                (upto - 1) as usize,
                self.face_cells(mesh, upto - 1).has(x, y, z),
            )
        }
    }

    /// The number of cells along each axis follows the density of the mesh.
    pub open spec fn divided_for(self, count: int) -> bool {
        let ex = extent(self.bounds.lo(0), self.bounds.hi(0));
        let ey = extent(self.bounds.lo(1), self.bounds.hi(1));
        let ez = extent(self.bounds.lo(2), self.bounds.hi(2));
        &&& is_division(self.x_divs as int, ex, ey, ez, count)
        &&& is_division(self.y_divs as int, ey, ex, ez, count)
        &&& is_division(self.z_divs as int, ez, ex, ey, count)
    }

    /// Every cell lists exactly the faces of the mesh whose boxes reach into it.
    pub open spec fn lists(self, mesh: Mesh) -> bool {
        forall|x: int, y: int, z: int|
            self.inside(x, y, z) ==> items(
                self.grid@,
                #[trigger] slot_of(x, y, z, self.x_divs as int, self.y_divs as int),
            ) == self.listed(mesh, x, y, z, mesh.faces.len() as int)
    }

    /// The grid of a mesh: its box is the tightest around the shading vertices,
    /// its cell counts follow the density of the mesh, and each face is listed
    /// in every cell between the cells of its least and its greatest corner.
    pub fn new(verts: &[Vertex], mesh: &Mesh) -> (g: AABBGrid)
        requires
            mesh.wf(),
        ensures
            g.wf(),
            is_extrema_of(g.bounds, verts@),
            g.divided_for(mesh.faces.len() as int),
            g.lists(*mesh),
    {
        let bounds = find_extrema(verts);
        let ex = extent_of(bounds.min.x, bounds.max.x);
        let ey = extent_of(bounds.min.y, bounds.max.y);
        let ez = extent_of(bounds.min.z, bounds.max.z);
        let count = mesh.faces.len();
        let nx = divisions(ex, ey, ez, count);
        let ny = divisions(ey, ex, ez, count);
        let nz = divisions(ez, ex, ey, count);
        proof {
            lemma_mul_within(nx as int, ny as int, 128, 128);
            lemma_mul_within(nx as int * ny as int, nz as int, 16384, 128);
            lemma_mul_nonneg(nx as int, ny as int);
            lemma_mul_nonneg(nx as int * ny as int, nz as int);
        }
        let total: usize = (nx * ny) * nz;
        let mut grid: Vec<Option<Vec<usize>>> = Vec::new();
        let mut k: usize = 0;
        while k < total
            invariant
                k <= total,
                grid.len() == k,
                forall|s: int| 0 <= s < k ==> (#[trigger] grid[s]).is_none(),
            decreases total - k,
        {
            grid.push(None);
            k += 1;
        }
        let mut g = AABBGrid { bounds, x_divs: nx, y_divs: ny, z_divs: nz, grid };
        proof {
            assert forall|x: int, y: int, z: int| g.inside(x, y, z) implies items(
                g.grid@,
                #[trigger] slot_of(x, y, z, nx as int, ny as int),
            ) == g.listed(*mesh, x, y, z, 0) by {
                lemma_slot_bound(x, y, z, nx as int, ny as int, nz as int);
            }
        }
        let mut f: usize = 0;
        while f < mesh.faces.len()
            invariant
                f <= mesh.faces.len(),
                mesh.wf(),
                g.wf(),
                g.bounds == bounds,
                g.x_divs == nx,
                g.y_divs == ny,
                g.z_divs == nz,
                forall|x: int, y: int, z: int|
                    g.inside(x, y, z) ==> items(
                        g.grid@,
                        #[trigger] slot_of(x, y, z, nx as int, ny as int),
                    ) == g.listed(*mesh, x, y, z, f as int),
            decreases mesh.faces.len() - f,
        {
            let t = mesh.corners(f);
            let tb = find_extrema_triangle(&t[0], &t[1], &t[2]);
            let x0 = map_pos_to_grid(tb.min.x, nx, bounds.min.x, bounds.max.x);
            let y0 = map_pos_to_grid(tb.min.y, ny, bounds.min.y, bounds.max.y);
            let z0 = map_pos_to_grid(tb.min.z, nz, bounds.min.z, bounds.max.z);
            let x1 = map_pos_to_grid(tb.max.x, nx, bounds.min.x, bounds.max.x);
            let y1 = map_pos_to_grid(tb.max.y, ny, bounds.min.y, bounds.max.y);
            let z1 = map_pos_to_grid(tb.max.z, nz, bounds.min.z, bounds.max.z);
            let ghost before = g;
            register(&mut g.grid, nx, ny, nz, f, x0, y0, z0, x1, y1, z1);
            proof {
                let b = CellBox {
                    x0: x0 as int,
                    y0: y0 as int,
                    z0: z0 as int,
                    x1: x1 as int,
                    y1: y1 as int,
                    z1: z1 as int,
                };
                assert(b == g.face_cells(*mesh, f as int));
                assert forall|x: int, y: int, z: int| g.inside(x, y, z) implies items(
                    g.grid@,
                    #[trigger] slot_of(x, y, z, nx as int, ny as int),
                ) == g.listed(*mesh, x, y, z, f as int + 1) by {
                    assert(before.inside(x, y, z));
                    assert(g.listed(*mesh, x, y, z, f as int) == before.listed(
                        *mesh,
                        x,
                        y,
                        z,
                        f as int,
                    )) by {
                        Self::lemma_listed_of_frame(g, before, *mesh, x, y, z, f as int);
                    }
                }
            }
            f += 1;
        }
        g
    }

    /// What is listed depends on the box and the cell counts alone.
    pub(crate) proof fn lemma_listed_of_frame(a: AABBGrid, b: AABBGrid, mesh: Mesh, x: int, y: int, z: int, upto: int)
        requires
            a.bounds == b.bounds,
            a.x_divs == b.x_divs,
            a.y_divs == b.y_divs,
            a.z_divs == b.z_divs,
        ensures
            a.listed(mesh, x, y, z, upto) == b.listed(mesh, x, y, z, upto),
        decreases upto,
    {
        if upto > 0 {
            Self::lemma_listed_of_frame(a, b, mesh, x, y, z, upto - 1);
            assert(a.face_cells(mesh, upto - 1) == b.face_cells(mesh, upto - 1));
        }
    }

    /// The list of the cell `(x, y, z)`, if it has one.
    pub fn index(&self, index: (usize, usize, usize)) -> (list: &Option<Vec<usize>>)
        requires
            self.wf(),
            self.inside(index.0 as int, index.1 as int, index.2 as int),
        ensures
            *list == self.grid[slot_of(
                index.0 as int,
                index.1 as int,
                index.2 as int,
                self.x_divs as int,
                self.y_divs as int,
            )],
            match *list {
                Some(v) => v@ == self.cell(index.0 as int, index.1 as int, index.2 as int) && v.len()
                    > 0,
                None => self.cell(index.0 as int, index.1 as int, index.2 as int).len() == 0,
            },
    {
        let (x, y, z) = index;
        proof {
            lemma_slot_bound(
                x as int,
                y as int,
                z as int,
                self.x_divs as int,
                self.y_divs as int,
                self.z_divs as int,
            );
            lemma_mul_within(self.x_divs as int, self.y_divs as int, 128, 128);
            lemma_mul_within(y as int, self.x_divs as int, 128, 128);
            lemma_mul_within(z as int, self.x_divs as int * self.y_divs as int, 128, 16384);
        }
        let index: usize = x + y * self.x_divs + z * (self.x_divs * self.y_divs);
        &self.grid[index]
    }
}

} // verus!
