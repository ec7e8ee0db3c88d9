use vstd::prelude::*;
use crate::grid::{with_item, AABBGrid};
use crate::intersect::{ray_hits, ray_triangle_intersect};
use crate::mesh::Mesh;
use crate::traverse::{as_cells, Cell};
use crate::vector::{Vec3, V3};

verus! {

impl Mesh {
    /// The ray from `o` along `d` meets face `f`.
    pub open spec fn face_hit(self, o: V3, d: V3, f: int) -> bool {
        ray_hits(o, d, self.corner_pos(f, 0), self.corner_pos(f, 1), self.corner_pos(f, 2))
    }

    /// The ray meets some face of the mesh.
    pub open spec fn blocks(self, o: V3, d: V3) -> bool {
        exists|f: int| 0 <= f < self.faces.len() && self.face_hit(o, d, f)
    }

    /// Whether the ray from `origin` along `dir` meets any face, found by
    /// testing every face.
    pub fn any_hit(&self, origin: Vec3, dir: Vec3) -> (hit: bool)
        requires
            self.wf(),
        ensures
            hit == self.blocks(origin@, dir@),
    {
        let mut f: usize = 0;
        while f < self.faces.len()
            invariant
                self.wf(),
                f <= self.faces.len(),
                forall|g: int| 0 <= g < f ==> !self.face_hit(origin@, dir@, g),
            decreases self.faces.len() - f,
        {
            let t = self.corners(f);
            if ray_triangle_intersect(origin, dir, t).is_some() {
                assert(self.face_hit(origin@, dir@, f as int));
                return true;
            }
            f += 1;
        }
        false
    }
}

impl AABBGrid {
    /// Every face listed below `upto` is a face below `upto`.
    pub proof fn lemma_listed_below(self, mesh: Mesh, x: int, y: int, z: int, upto: int)
        requires
            0 <= upto <= usize::MAX,
        ensures
            forall|j: int|
                0 <= j < self.listed(mesh, x, y, z, upto).len() ==> (#[trigger] self.listed(
                    mesh,
                    x,
                    y,
                    z,
                    upto,
                )[j]) < upto,
        decreases upto,
    {
        if upto > 0 {
            self.lemma_listed_below(mesh, x, y, z, upto - 1);
            let before = self.listed(mesh, x, y, z, upto - 1);
            let now = self.listed(mesh, x, y, z, upto);
            assert forall|j: int| 0 <= j < now.len() implies (#[trigger] now[j]) < upto by {
                if j < before.len() {
                    assert(now[j] == before[j]);
                }
            }
        }
    }

    /// A face below `upto` is listed in a cell exactly if its box reaches
    /// into the cell.
    pub proof fn lemma_listed_has(self, mesh: Mesh, x: int, y: int, z: int, upto: int, f: int)
        requires
            0 <= f < upto <= usize::MAX,
        ensures
            self.face_cells(mesh, f).has(x, y, z) <==> self.listed(mesh, x, y, z, upto).contains(
                f as usize,
            ),
        decreases upto,
    {
        let before = self.listed(mesh, x, y, z, upto - 1);
        let now = self.listed(mesh, x, y, z, upto);
        let last = (upto - 1) as usize;
        let present = self.face_cells(mesh, upto - 1).has(x, y, z);
        assert(now == with_item(before, last, present));
        self.lemma_listed_below(mesh, x, y, z, upto - 1);
        if f < upto - 1 {
            self.lemma_listed_has(mesh, x, y, z, upto - 1, f);
            if before.contains(f as usize) {
                let j = choose|j: int| 0 <= j < before.len() && before[j] == f as usize;
                assert(now[j] == f as usize);
            }
            if now.contains(f as usize) {
                let j = choose|j: int| 0 <= j < now.len() && now[j] == f as usize;
                if j < before.len() {
                    assert(before[j] == f as usize);
                }
            }
        } else {
            if present {
                assert(now[before.len() as int] == last);
            }
            if now.contains(f as usize) {
                let j = choose|j: int| 0 <= j < now.len() && now[j] == f as usize;
                if j < before.len() {
                    assert(before[j] < upto - 1);
                }
            }
        }
    }

    /// The ray meets one of the faces listed in the cell `c`.
    pub open spec fn hit_in_cell(self, mesh: Mesh, o: V3, d: V3, c: Cell) -> bool {
        exists|j: int|
            0 <= j < self.cell(c.0, c.1, c.2).len() && mesh.face_hit(
                o,
                d,
                #[trigger] self.cell(c.0, c.1, c.2)[j] as int,
            )
    }

    /// The ray meets one of the faces listed in the cells that it passes.
    pub open spec fn ray_blocked(self, mesh: Mesh, o: V3, d: V3) -> bool {
        exists|k: int|
            0 <= k < self.ray_cells(o, d).len() && self.hit_in_cell(
                mesh,
                o,
                d,
                #[trigger] self.ray_cells(o, d)[k],
            )
    }

    /// Whether the ray from `origin` along `dir` meets a face of the mesh, found
    /// by testing the faces listed in the cells that the ray passes, in the
    /// order of the cells, up to the first face met.
    pub fn occluded(&self, mesh: &Mesh, origin: Vec3, dir: Vec3) -> (hit: bool)
        requires
            self.wf(),
            mesh.wf(),
            self.lists(*mesh),
        ensures
            hit == self.ray_blocked(*mesh, origin@, dir@),
    {
        let cells = self.traverse(&origin, &dir);
        let ghost path = self.ray_cells(origin@, dir@);
        proof {
            self.lemma_ray_cells_inside(origin@, dir@);
        }
        let mut k: usize = 0;
        while k < cells.len()
            invariant
                self.wf(),
                mesh.wf(),
                self.lists(*mesh),
                k <= cells.len(),
                as_cells(cells@) == path,
                path == self.ray_cells(origin@, dir@),
                forall|n: int|
                    0 <= n < path.len() ==> self.inside(
                        (#[trigger] path[n]).0,
                        path[n].1,
                        path[n].2,
                    ),
                forall|n: int| 0 <= n < k ==> !self.hit_in_cell(*mesh, origin@, dir@, #[trigger] path[n]),
            decreases cells.len() - k,
        {
            let c = cells[k];
            let ghost cell: Cell = (c.0 as int, c.1 as int, c.2 as int);
            assert(cell == path[k as int]);
            assert(self.inside(cell.0, cell.1, cell.2));
            proof {
                self.lemma_listed_below(*mesh, cell.0, cell.1, cell.2, mesh.faces.len() as int);
                assert(self.cell(cell.0, cell.1, cell.2) == self.listed(
                    *mesh,
                    cell.0,
                    cell.1,
                    cell.2,
                    mesh.faces.len() as int,
                ));
            }
            match self.index(c) {
                Some(list) => {
                    let mut j: usize = 0;
                    while j < list.len()
                        invariant
                            mesh.wf(),
                            j <= list.len(),
                            k < path.len(),
                            path == self.ray_cells(origin@, dir@),
                            cell == path[k as int],
                            list@ == self.cell(cell.0, cell.1, cell.2),
                            forall|n: int| 0 <= n < list.len() ==> (#[trigger] list@[n]) < mesh.faces.len(),
                            forall|n: int|
                                0 <= n < j ==> !mesh.face_hit(origin@, dir@, #[trigger] list@[n] as int),
                        decreases list.len() - j,
                    {
                        let f = list[j];
                        let t = mesh.corners(f);
                        if ray_triangle_intersect(origin, dir, t).is_some() {
                            assert(mesh.face_hit(
                                origin@,
                                dir@,
                                self.cell(cell.0, cell.1, cell.2)[j as int] as int,
                            ));
                            assert(self.hit_in_cell(*mesh, origin@, dir@, path[k as int]));
                            return true;
                        }
                        j += 1;
                    }
                },
                None => {},
            }
            assert(!self.hit_in_cell(*mesh, origin@, dir@, cell));
            k += 1;
        }
        false
    }
}

} // verus!
