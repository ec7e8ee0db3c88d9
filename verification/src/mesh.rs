use vstd::prelude::*;
use crate::vector::{Vec3, V3};

verus! {

/// One corner of a face: which position it sits at and which normal it shades
/// with.
#[derive(Clone, Copy, Debug, PartialEq, Eq, Structural)]
pub struct Corner {
    pub position: usize,
    pub normal: usize,
}

/// A triangle, as three corners.
#[derive(Clone, Copy, Debug, PartialEq, Eq, Structural)]
pub struct Face {
    pub a: Corner,
    pub b: Corner,
    pub c: Corner,
}

impl Face {
    /// Corner `k` of the face: 0 is `a`, 1 is `b`, anything else is `c`.
    pub open spec fn corner(self, k: int) -> Corner {
        if k == 0 {
            self.a
        } else if k == 1 {
            self.b
        } else {
            self.c
        }
    }

    pub fn get(&self, k: usize) -> (c: Corner)
        ensures
            c == self.corner(k as int),
    {
        if k == 0 {
            self.a
        } else if k == 1 {
            self.b
        } else {
            self.c
        }
    }
}

/// A triangle mesh: raw positions, raw normals, and faces that index both.
#[derive(Debug)]
pub struct Mesh {
    pub positions: Vec<Vec3>,
    pub normals: Vec<Vec3>,
    pub faces: Vec<Face>,
}

pub open spec fn corner_valid(c: Corner, positions: int, normals: int) -> bool {
    c.position < positions && c.normal < normals
}

pub open spec fn face_valid(f: Face, positions: int, normals: int) -> bool {
    &&& corner_valid(f.a, positions, normals)
    &&& corner_valid(f.b, positions, normals)
    &&& corner_valid(f.c, positions, normals)
}

impl Mesh {
    /// Every corner of every face names a position and a normal of the mesh.
    pub open spec fn wf(self) -> bool {
        forall|f: int|
            0 <= f < self.faces.len() ==> face_valid(
                #[trigger] self.faces[f],
                self.positions.len() as int,
                self.normals.len() as int,
            )
    }

    /// Where corner `k` of face `f` sits.
    pub open spec fn corner_pos(self, f: int, k: int) -> V3 {
        self.positions[self.faces[f].corner(k).position as int]@
    }

    /// The mesh of the given parts, or nothing where a face names a position
    /// or a normal that is not there.
    pub fn new(positions: Vec<Vec3>, normals: Vec<Vec3>, faces: Vec<Face>) -> (m: Option<Mesh>)
        ensures
            m matches Some(mesh) ==> mesh.wf() && mesh.positions == positions && mesh.normals
                == normals && mesh.faces == faces,
            m.is_some() == (Mesh { positions, normals, faces }).wf(),
    {
        let np = positions.len();
        let nn = normals.len();
        let mut f: usize = 0;
        while f < faces.len()
            invariant
                f <= faces.len(),
                np == positions.len(),
                nn == normals.len(),
                forall|g: int| 0 <= g < f ==> face_valid(#[trigger] faces[g], np as int, nn as int),
            decreases faces.len() - f,
        {
            let face = &faces[f];
            let ok = face.a.position < np && face.a.normal < nn && face.b.position < np
                && face.b.normal < nn && face.c.position < np && face.c.normal < nn;
            if !ok {
                proof {
                    let whole = Mesh { positions, normals, faces };
                    assert(!face_valid(whole.faces[f as int], np as int, nn as int));
                }
                return None;
            }
            f += 1;
        }
        Some(Mesh { positions, normals, faces })
    }

    /// The positions of the three corners of face `f`.
    pub fn corners(&self, f: usize) -> (t: [Vec3; 3])
        requires
            self.wf(),
            f < self.faces.len(),
        ensures
            t[0]@ == self.corner_pos(f as int, 0),
            t[1]@ == self.corner_pos(f as int, 1),
            t[2]@ == self.corner_pos(f as int, 2),
    {
        let face = &self.faces[f];
        [
            self.positions[face.a.position],
            self.positions[face.b.position],
            self.positions[face.c.position],
        ]
    }
}

} // verus!
