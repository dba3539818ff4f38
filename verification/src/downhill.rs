//! Per-cell downhill direction sets: for every cell, which of its eight
//! neighbours lie strictly lower. Out-of-bounds neighbours read the mesh's
//! out-of-bounds elevation, so the boundary needs no special casing.

use vstd::prelude::*;
use crate::mesh::Mesh;

verus! {

/// x offset of the neighbour in direction `d`, in the fixed index order
/// 0:(-1,0) 1:(-1,-1) 2:(0,-1) 3:(1,-1) 4:(1,0) 5:(1,1) 6:(0,1) 7:(-1,1).
pub open spec fn dir_dx(d: int) -> int {
    if d == 0 {
        -1
    } else if d == 1 {
        -1
    } else if d == 2 {
        0
    } else if d == 3 {
        1
    } else if d == 4 {
        1
    } else if d == 5 {
        1
    } else if d == 6 {
        0
    } else {
        -1
    }
}

/// y offset of the neighbour in direction `d`.
pub open spec fn dir_dy(d: int) -> int {
    if d == 0 {
        0
    } else if d == 1 {
        -1
    } else if d == 2 {
        -1
    } else if d == 3 {
        -1
    } else if d == 4 {
        0
    } else if d == 5 {
        1
    } else if d == 6 {
        1
    } else {
        1
    }
}

/// The direction whose offset is the negation of `d`'s.
pub open spec fn opposite_dir(d: int) -> int {
    if d < 4 {
        d + 4
    } else {
        d - 4
    }
}

pub fn direction_offset(d: usize) -> (r: (i32, i32))
    requires
        d < 8,
    ensures
        r.0 as int == dir_dx(d as int),
        r.1 as int == dir_dy(d as int),
{
    match d {
        0 => (-1, 0),
        1 => (-1, -1),
        2 => (0, -1),
        3 => (1, -1),
        4 => (1, 0),
        5 => (1, 1),
        6 => (0, 1),
        _ => (-1, 1),
    }
}

/// The neighbour of `(x, y)` in direction `d` lies strictly below `(x, y)`.
pub open spec fn downhill_dir_spec(m: Mesh, x: int, y: int, d: int) -> bool {
    m.z_at(x + dir_dx(d), y + dir_dy(d)) < m.z_at(x, y)
}

/// Some neighbour of `(x, y)` lies strictly below it.
pub open spec fn cell_has_downhill_spec(m: Mesh, x: int, y: int) -> bool {
    exists|d: int| 0 <= d < 8 && downhill_dir_spec(m, x, y, d)
}

/// Every in-bounds cell has a strictly lower neighbour: the invariant that
/// erosion establishes and that flow tracing relies on.
pub open spec fn all_cells_have_downhill_spec(m: Mesh) -> bool {
    forall|x: int, y: int| m.in_bounds_spec(x, y) ==> cell_has_downhill_spec(m, x, y)
}

/// Downhill is antisymmetric: when the neighbour of `(x, y)` in direction `d`
/// lies strictly lower, then seen from that neighbour the cell `(x, y)` - its
/// neighbour in the opposite direction - does not lie strictly lower.
pub proof fn lemma_downhill_antisymmetric(m: Mesh, x: int, y: int, d: int)
    requires
        0 <= d < 8,
        downhill_dir_spec(m, x, y, d),
    ensures
        !downhill_dir_spec(m, x + dir_dx(d), y + dir_dy(d), opposite_dir(d)),
{
}

#[derive(Debug)]
pub struct Downhill {
    pub width: i32,
    pub directions: Vec<Vec<[bool; 8]>>,
}

impl Downhill {
    pub open spec fn wf(self) -> bool {
        &&& 1 <= self.width <= crate::mesh::MAX_WIDTH
        &&& self.directions@.len() == self.width as int
        &&& forall|x: int|
            0 <= x < self.width as int ==> (#[trigger] self.directions@[x])@.len()
                == self.width as int
    }

    pub open spec fn in_bounds_spec(self, x: int, y: int) -> bool {
        0 <= x < self.width as int && 0 <= y < self.width as int
    }

    /// The stored bit for direction `d` at cell `(x, y)`.
    pub open spec fn dir_at(self, x: int, y: int, d: int) -> bool {
        self.directions@[x]@[y]@[d]
    }

    /// Some direction bit of cell `(x, y)` is set.
    pub open spec fn cell_marked(self, x: int, y: int) -> bool {
        exists|d: int| 0 <= d < 8 && self.dir_at(x, y, d)
    }

    /// The whole table equals the downhill predicate of mesh `m`.
    pub open spec fn computed_from(self, m: Mesh) -> bool {
        &&& self.width == m.width
        &&& forall|x: int, y: int, d: int|
            self.in_bounds_spec(x, y) && 0 <= d < 8 ==> #[trigger] self.dir_at(x, y, d)
                == downhill_dir_spec(m, x, y, d)
    }

    pub fn new(mesh: &Mesh) -> (dh: Downhill)
        requires
            mesh.wf(),
        ensures
            dh.wf(),
            dh.computed_from(*mesh),
    {
        let w = mesh.get_width() as usize;
        let mut directions: Vec<Vec<[bool; 8]>> = Vec::new();
        let mut x: usize = 0;
        while x < w
            invariant
                x <= w,
                w == mesh.width as int,
                directions@.len() == x as int,
                forall|i: int|
                    0 <= i < x as int ==> (#[trigger] directions@[i])@.len() == w as int,
            decreases w - x,
        {
            let mut row: Vec<[bool; 8]> = Vec::new();
            let mut y: usize = 0;
            while y < w
                invariant
                    y <= w,
                    row@.len() == y as int,
                decreases w - y,
            {
                row.push([false, false, false, false, false, false, false, false]);
                y = y + 1;
            }
            directions.push(row);
            x = x + 1;
        }
        let mut out = Downhill { width: mesh.get_width(), directions };
        out.compute_all_directions(mesh);
        out
    }

    pub fn get_directions(&self, x: i32, y: i32) -> (r: [bool; 8])
        requires
            self.wf(),
            self.in_bounds_spec(x as int, y as int),
        ensures
            forall|d: int| 0 <= d < 8 ==> r@[d] == self.dir_at(x as int, y as int, d),
    {
        self.directions[x as usize][y as usize]
    }

    pub fn set_directions(&mut self, x: i32, y: i32, directions: [bool; 8])
        requires
            old(self).wf(),
            old(self).in_bounds_spec(x as int, y as int),
        ensures
            final(self).wf(),
            final(self).width == old(self).width,
            forall|d: int|
                0 <= d < 8 ==> final(self).dir_at(x as int, y as int, d) == directions@[d],
            forall|i: int, j: int, d: int|
                old(self).in_bounds_spec(i, j) && !(i == x as int && j == y as int)
                    ==> #[trigger] final(self).dir_at(i, j, d) == old(self).dir_at(i, j, d),
    {
        let row: &mut Vec<[bool; 8]> = &mut self.directions[x as usize];
        row.set(y as usize, directions);
    }

    /// Computes the eight downhill bits of one cell straight off the mesh.
    pub fn compute_directions(mesh: &Mesh, x: i32, y: i32) -> (r: [bool; 8])
        requires
            mesh.wf(),
            mesh.in_bounds_spec(x as int, y as int),
        ensures
            forall|d: int| 0 <= d < 8 ==> r@[d] == downhill_dir_spec(*mesh, x as int, y as int, d),
    {
        let z = mesh.get_z(x, y);
        let r: [bool; 8] = [
            mesh.get_z(x - 1, y) < z,
            mesh.get_z(x - 1, y - 1) < z,
            mesh.get_z(x, y - 1) < z,
            mesh.get_z(x + 1, y - 1) < z,
            mesh.get_z(x + 1, y) < z,
            mesh.get_z(x + 1, y + 1) < z,
            mesh.get_z(x, y + 1) < z,
            mesh.get_z(x - 1, y + 1) < z,
        ];
        r
    }

    pub fn compute_all_directions(&mut self, mesh: &Mesh)
        requires
            old(self).wf(),
            mesh.wf(),
            old(self).width == mesh.width,
        ensures
            final(self).wf(),
            final(self).computed_from(*mesh),
    {
        let w = mesh.get_width() as usize;
        let mut x: usize = 0;
        while x < w
            invariant
                x <= w,
                self.wf(),
                mesh.wf(),
                self.width == mesh.width,
                w == mesh.width as int,
                forall|i: int, j: int, d: int|
                    0 <= i < x as int && 0 <= j < w as int && 0 <= d < 8 ==> #[trigger] self.dir_at(
                        i,
                        j,
                        d,
                    ) == downhill_dir_spec(*mesh, i, j, d),
            decreases w - x,
        {
            let mut y: usize = 0;
            while y < w
                invariant
                    y <= w,
                    x < w,
                    self.wf(),
                    mesh.wf(),
                    self.width == mesh.width,
                    w == mesh.width as int,
                    forall|i: int, j: int, d: int|
                        0 <= i < x as int && 0 <= j < w as int && 0 <= d < 8 ==> #[trigger] self
                            .dir_at(i, j, d) == downhill_dir_spec(*mesh, i, j, d),
                    forall|j: int, d: int|
                        0 <= j < y as int && 0 <= d < 8 ==> #[trigger] self.dir_at(x as int, j, d)
                            == downhill_dir_spec(*mesh, x as int, j, d),
                decreases w - y,
            {
                let directions = Downhill::compute_directions(mesh, x as i32, y as i32);
                let ghost pre = *self;
                self.set_directions(x as i32, y as i32, directions);
                proof {
                    assert forall|j: int, d: int| 0 <= j <= y as int && 0 <= d < 8 implies #[trigger] self.dir_at(
                        x as int,
                        j,
                        d,
                    ) == downhill_dir_spec(*mesh, x as int, j, d) by {
                        if j == y as int {
                            assert(self.dir_at(x as int, j, d) == directions@[d]);
                        } else {
                            assert(pre.in_bounds_spec(x as int, j));
                            assert(self.dir_at(x as int, j, d) == pre.dir_at(x as int, j, d));
                        }
                    }
                }
                y = y + 1;
            }
            x = x + 1;
        }
    }

    pub fn cell_has_downhill(&self, x: i32, y: i32) -> (r: bool)
        requires
            self.wf(),
            self.in_bounds_spec(x as int, y as int),
        ensures
            r == self.cell_marked(x as int, y as int),
    {
        let dirs = self.get_directions(x, y);
        let mut d: usize = 0;
        while d < 8
            invariant
                d <= 8,
                forall|k: int| 0 <= k < 8 ==> dirs@[k] == self.dir_at(x as int, y as int, k),
                forall|k: int| 0 <= k < d as int ==> !self.dir_at(x as int, y as int, k),
            decreases 8 - d,
        {
            if dirs[d] {
                assert(self.cell_marked(x as int, y as int));
                return true;
            }
            d = d + 1;
        }
        false
    }

    /// True exactly when every cell of the table has at least one downhill
    /// neighbour marked.
    pub fn all_cells_have_downhill(&self) -> (r: bool)
        requires
            self.wf(),
        ensures
            r == forall|x: int, y: int|
                self.in_bounds_spec(x, y) ==> #[trigger] self.cell_marked(x, y),
    {
        let w = self.width as usize;
        let mut x: usize = 0;
        while x < w
            invariant
                x <= w,
                self.wf(),
                w == self.width as int,
                forall|i: int, j: int|
                    0 <= i < x as int && 0 <= j < w as int ==> #[trigger] self.cell_marked(i, j),
            decreases w - x,
        {
            let mut y: usize = 0;
            while y < w
                invariant
                    y <= w,
                    x < w,
                    self.wf(),
                    w == self.width as int,
                    forall|i: int, j: int|
                        0 <= i < x as int && 0 <= j < w as int ==> #[trigger] self.cell_marked(
                            i,
                            j,
                        ),
                    forall|j: int| 0 <= j < y as int ==> #[trigger] self.cell_marked(x as int, j),
                decreases w - y,
            {
                if !self.cell_has_downhill(x as i32, y as i32) {
                    return false;
                }
                y = y + 1;
            }
            x = x + 1;
        }
        true
    }
}

/// The table computed from a mesh reports downhill-completeness exactly as
/// the mesh-level predicate states it.
pub proof fn lemma_computed_table_matches_mesh(dh: Downhill, m: Mesh)
    requires
        dh.wf(),
        dh.computed_from(m),
    ensures
        (forall|x: int, y: int| dh.in_bounds_spec(x, y) ==> #[trigger] dh.cell_marked(x, y))
            == all_cells_have_downhill_spec(m),
{
    let table_ok = forall|x: int, y: int|
        dh.in_bounds_spec(x, y) ==> #[trigger] dh.cell_marked(x, y);
    if table_ok {
        assert forall|x: int, y: int| m.in_bounds_spec(x, y) implies cell_has_downhill_spec(
            m,
            x,
            y,
        ) by {
            assert(dh.in_bounds_spec(x, y));
            assert(dh.cell_marked(x, y));
            let d = choose|d: int| 0 <= d < 8 && dh.dir_at(x, y, d);
            assert(downhill_dir_spec(m, x, y, d));
        }
    } else {
        let (x, y) = choose|x: int, y: int| dh.in_bounds_spec(x, y) && !dh.cell_marked(x, y);
        assert(m.in_bounds_spec(x, y));
        if cell_has_downhill_spec(m, x, y) {
            let d = choose|d: int| 0 <= d < 8 && downhill_dir_spec(m, x, y, d);
            assert(dh.dir_at(x, y, d));
            assert(dh.cell_marked(x, y));
        }
    }
}

} // verus!
