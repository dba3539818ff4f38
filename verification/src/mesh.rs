//! Square grid of fixed-point elevations with an out-of-bounds sentinel.
//! Every neighbour query is total: coordinates outside the grid read the
//! constant `out_of_bounds_z`, so boundary kernels need no special casing.

use vstd::prelude::*;
use crate::scale::{Scale, Z_BOUND};

verus! {

/// Upper bound on the grid side, so that doubled widths and cell counts fit
/// comfortably in the machine integer types used for indexing and flow counts.
pub const MAX_WIDTH: i32 = 16_384;

#[derive(Clone, Debug)]
pub struct Mesh {
    pub width: i32,
    pub z: Vec<Vec<i64>>,
    pub out_of_bounds_z: i64,
}

impl Mesh {
    /// The grid is square and non-empty, and all elevations (the sentinel
    /// included) are bounded, which keeps downstream arithmetic in range.
    pub open spec fn wf(self) -> bool {
        &&& 1 <= self.width <= MAX_WIDTH
        &&& self.z@.len() == self.width as int
        &&& forall|x: int|
            0 <= x < self.width as int ==> (#[trigger] self.z@[x])@.len() == self.width as int
        &&& forall|x: int, y: int|
            0 <= x < self.width as int && 0 <= y < self.width as int ==> -Z_BOUND
                <= #[trigger] self.z@[x]@[y] <= Z_BOUND
        &&& -Z_BOUND <= self.out_of_bounds_z <= Z_BOUND
    }

    pub open spec fn in_bounds_spec(self, x: int, y: int) -> bool {
        0 <= x < self.width as int && 0 <= y < self.width as int
    }

    /// Elevation at `(x, y)` under the out-of-bounds convention.
    pub open spec fn z_at(self, x: int, y: int) -> int {
        if self.in_bounds_spec(x, y) {
            self.z@[x]@[y] as int
        } else {
            self.out_of_bounds_z as int
        }
    }

    pub fn new(width: i32, out_of_bounds_z: i64) -> (m: Mesh)
        requires
            1 <= width <= MAX_WIDTH,
            -Z_BOUND <= out_of_bounds_z <= Z_BOUND,
        ensures
            m.wf(),
            m.width == width,
            m.out_of_bounds_z == out_of_bounds_z,
            forall|x: int, y: int| m.in_bounds_spec(x, y) ==> m.z_at(x, y) == 0,
    {
        let w = width as usize;
        let mut z: Vec<Vec<i64>> = Vec::new();
        let mut x: usize = 0;
        while x < w
            invariant
                x <= w,
                w == width as int,
                z@.len() == x as int,
                forall|i: int| 0 <= i < x as int ==> (#[trigger] z@[i])@.len() == w as int,
                forall|i: int, j: int|
                    0 <= i < x as int && 0 <= j < w as int ==> #[trigger] z@[i]@[j] == 0i64,
            decreases w - x,
        {
            let mut row: Vec<i64> = Vec::new();
            let mut y: usize = 0;
            while y < w
                invariant
                    y <= w,
                    row@.len() == y as int,
                    forall|j: int| 0 <= j < y as int ==> #[trigger] row@[j] == 0i64,
                decreases w - y,
            {
                row.push(0i64);
                y = y + 1;
            }
            z.push(row);
            x = x + 1;
        }
        Mesh { width, z, out_of_bounds_z }
    }

    pub fn get_width(&self) -> (r: i32)
        ensures
            r == self.width,
    {
        self.width
    }

    pub fn in_bounds(&self, x: i32, y: i32) -> (r: bool)
        ensures
            r == self.in_bounds_spec(x as int, y as int),
    {
        x >= 0 && y >= 0 && x < self.width && y < self.width
    }

    pub fn get_z_in_bounds(&self, x: i32, y: i32) -> (r: i64)
        requires
            self.wf(),
            self.in_bounds_spec(x as int, y as int),
        ensures
            r as int == self.z_at(x as int, y as int),
    {
        self.z[x as usize][y as usize]
    }

    pub fn get_z_vector(&self) -> (r: &Vec<Vec<i64>>)
        ensures
            r == &self.z,
    {
        &self.z
    }

    pub fn get_z(&self, x: i32, y: i32) -> (r: i64)
        requires
            self.wf(),
        ensures
            r as int == self.z_at(x as int, y as int),
            -Z_BOUND <= r <= Z_BOUND,
    {
        if self.in_bounds(x, y) {
            self.get_z_in_bounds(x, y)
        } else {
            self.out_of_bounds_z
        }
    }

    /// Calling this out of bounds is a programmer error, so the bounds are a
    /// precondition rather than a run-time branch.
    pub fn set_z(&mut self, x: i32, y: i32, z: i64)
        requires
            old(self).wf(),
            old(self).in_bounds_spec(x as int, y as int),
            -Z_BOUND <= z <= Z_BOUND,
        ensures
            final(self).wf(),
            final(self).width == old(self).width,
            final(self).out_of_bounds_z == old(self).out_of_bounds_z,
            final(self).z_at(x as int, y as int) == z as int,
            forall|i: int, j: int|
                !(i == x as int && j == y as int) ==> final(self).z_at(i, j) == old(self).z_at(
                    i,
                    j,
                ),
    {
        let row: &mut Vec<i64> = &mut self.z[x as usize];
        row.set(y as usize, z);
    }

    /// Replaces the whole grid; the new grid must match the mesh's width.
    pub fn set_z_vector(&mut self, z: Vec<Vec<i64>>)
        requires
            old(self).wf(),
            z@.len() == old(self).width as int,
            forall|x: int|
                0 <= x < old(self).width as int ==> (#[trigger] z@[x])@.len() == old(
                    self,
                ).width as int,
            forall|x: int, y: int|
                0 <= x < old(self).width as int && 0 <= y < old(self).width as int ==> -Z_BOUND
                    <= #[trigger] z@[x]@[y] <= Z_BOUND,
        ensures
            final(self).wf(),
            final(self).width == old(self).width,
            final(self).out_of_bounds_z == old(self).out_of_bounds_z,
            final(self).z@ == z@,
    {
        self.z = z;
    }

    pub fn get_out_of_bounds_z(&self) -> (r: i64)
        ensures
            r == self.out_of_bounds_z,
    {
        self.out_of_bounds_z
    }

    /// The smallest stored elevation (out-of-bounds sentinel not included).
    pub fn get_min_z(&self) -> (r: i64)
        requires
            self.wf(),
        ensures
            exists|x: int, y: int| self.in_bounds_spec(x, y) && self.z_at(x, y) == r as int,
            forall|x: int, y: int| self.in_bounds_spec(x, y) ==> self.z_at(x, y) >= r as int,
    {
        let w = self.width as usize;
        let mut m: i64 = self.z[0][0];
        assert(self.in_bounds_spec(0, 0) && self.z_at(0, 0) == m as int);
        let mut x: usize = 0;
        while x < w
            invariant
                x <= w,
                self.wf(),
                w == self.width as int,
                exists|i: int, j: int| self.in_bounds_spec(i, j) && self.z_at(i, j) == m as int,
                forall|i: int, j: int|
                    0 <= i < x as int && 0 <= j < w as int ==> self.z_at(i, j) >= m as int,
            decreases w - x,
        {
            let mut y: usize = 0;
            while y < w
                invariant
                    y <= w,
                    x < w,
                    self.wf(),
                    w == self.width as int,
                    exists|i: int, j: int| self.in_bounds_spec(i, j) && self.z_at(i, j) == m as int,
                    forall|i: int, j: int|
                        0 <= i < x as int && 0 <= j < w as int ==> self.z_at(i, j) >= m as int,
                    forall|j: int| 0 <= j < y as int ==> self.z_at(x as int, j) >= m as int,
                decreases w - y,
            {
                let v = self.z[x][y];
                if v < m {
                    m = v;
                    assert(self.in_bounds_spec(x as int, y as int) && self.z_at(x as int, y as int)
                        == m as int);
                }
                y = y + 1;
            }
            x = x + 1;
        }
        m
    }

    /// The largest stored elevation (out-of-bounds sentinel not included).
    pub fn get_max_z(&self) -> (r: i64)
        requires
            self.wf(),
        ensures
            exists|x: int, y: int| self.in_bounds_spec(x, y) && self.z_at(x, y) == r as int,
            forall|x: int, y: int| self.in_bounds_spec(x, y) ==> self.z_at(x, y) <= r as int,
    {
        let w = self.width as usize;
        let mut m: i64 = self.z[0][0];
        assert(self.in_bounds_spec(0, 0) && self.z_at(0, 0) == m as int);
        let mut x: usize = 0;
        while x < w
            invariant
                x <= w,
                self.wf(),
                w == self.width as int,
                exists|i: int, j: int| self.in_bounds_spec(i, j) && self.z_at(i, j) == m as int,
                forall|i: int, j: int|
                    0 <= i < x as int && 0 <= j < w as int ==> self.z_at(i, j) <= m as int,
            decreases w - x,
        {
            let mut y: usize = 0;
            while y < w
                invariant
                    y <= w,
                    x < w,
                    self.wf(),
                    w == self.width as int,
                    exists|i: int, j: int| self.in_bounds_spec(i, j) && self.z_at(i, j) == m as int,
                    forall|i: int, j: int|
                        0 <= i < x as int && 0 <= j < w as int ==> self.z_at(i, j) <= m as int,
                    forall|j: int| 0 <= j < y as int ==> self.z_at(x as int, j) <= m as int,
                decreases w - y,
            {
                let v = self.z[x][y];
                if v > m {
                    m = v;
                    assert(self.in_bounds_spec(x as int, y as int) && self.z_at(x as int, y as int)
                        == m as int);
                }
                y = y + 1;
            }
            x = x + 1;
        }
        m
    }

    /// A fresh mesh of the same width with every stored cell remapped through
    /// `scale`. Cells outside the scale's source interval extrapolate, with
    /// no clamping; only the remapped elevations must stay in bounds. The
    /// out-of-bounds sentinel is kept as it is, not remapped, matching the
    /// behaviour callers rely on.
    pub fn rescale(&self, scale: &Scale) -> (out: Mesh)
        requires
            self.wf(),
            scale.wf(),
            forall|x: int, y: int|
                self.in_bounds_spec(x, y) ==> -Z_BOUND <= #[trigger] scale.map_spec(
                    self.z_at(x, y),
                ) <= Z_BOUND,
        ensures
            out.wf(),
            out.width == self.width,
            out.out_of_bounds_z == self.out_of_bounds_z,
            forall|x: int, y: int|
                self.in_bounds_spec(x, y) ==> #[trigger] out.z_at(x, y) == scale.map_spec(
                    self.z_at(x, y),
                ),
    {
        let w = self.width as usize;
        let mut out = Mesh::new(self.width, self.out_of_bounds_z);
        let mut x: usize = 0;
        while x < w
            invariant
                x <= w,
                self.wf(),
                scale.wf(),
                forall|i: int, j: int|
                    self.in_bounds_spec(i, j) ==> -Z_BOUND <= #[trigger] scale.map_spec(
                        self.z_at(i, j),
                    ) <= Z_BOUND,
                out.wf(),
                out.width == self.width,
                out.out_of_bounds_z == self.out_of_bounds_z,
                w == self.width as int,
                forall|i: int, j: int|
                    0 <= i < x as int && 0 <= j < w as int ==> #[trigger] out.z_at(i, j)
                        == scale.map_spec(self.z_at(i, j)),
            decreases w - x,
        {
            let mut y: usize = 0;
            while y < w
                invariant
                    y <= w,
                    x < w,
                    self.wf(),
                    scale.wf(),
                    forall|i: int, j: int|
                        self.in_bounds_spec(i, j) ==> -Z_BOUND <= #[trigger] scale.map_spec(
                            self.z_at(i, j),
                        ) <= Z_BOUND,
                    out.wf(),
                    out.width == self.width,
                    out.out_of_bounds_z == self.out_of_bounds_z,
                    w == self.width as int,
                    forall|i: int, j: int|
                        0 <= i < x as int && 0 <= j < w as int ==> #[trigger] out.z_at(i, j)
                            == scale.map_spec(self.z_at(i, j)),
                    forall|j: int|
                        0 <= j < y as int ==> #[trigger] out.z_at(x as int, j) == scale.map_spec(
                            self.z_at(x as int, j),
                        ),
                decreases w - y,
            {
                let v = self.get_z_in_bounds(x as i32, y as i32);
                proof {
                    assert(-Z_BOUND <= scale.map_spec(self.z_at(x as int, y as int)) <= Z_BOUND);
                }
                let zc = scale.scale(v);
                out.set_z(x as i32, y as i32, zc);
                y = y + 1;
            }
            x = x + 1;
        }
        out
    }
}

} // verus!
