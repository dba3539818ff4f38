//! Single-valued downhill choice: one direction index per cell. Flow
//! accumulation needs a functional descent, so where several neighbours lie
//! lower one is chosen at random; a prescribed table serves as a test double.

use vstd::prelude::*;
use crate::downhill::{Downhill, downhill_dir_spec, cell_has_downhill_spec,
    all_cells_have_downhill_spec};
use crate::mesh::{Mesh, MAX_WIDTH};
use crate::rand::Rng;

verus! {

/// The capability flow accumulation consumes: per cell, one direction index
/// in `0..8`. Consumers must not assume the choice is the steepest descent.
pub trait SingleDownhillMap {
    spec fn wf_spec(&self) -> bool;

    spec fn width_spec(&self) -> int;

    spec fn dir_spec(&self, x: int, y: int) -> int;

    fn get_width(&self) -> (r: i32)
        requires
            self.wf_spec(),
        ensures
            r as int == self.width_spec(),
    ;

    fn get_direction(&self, x: i32, y: i32) -> (d: usize)
        requires
            self.wf_spec(),
            0 <= x as int && (x as int) < self.width_spec(),
            0 <= y as int && (y as int) < self.width_spec(),
        ensures
            d < 8,
            d as int == self.dir_spec(x as int, y as int),
    ;
}

/// The map fits mesh `m` and every in-bounds cell's chosen direction leads
/// strictly downhill there (out-of-bounds neighbours count through the
/// mesh's sentinel elevation). This is what makes rain traces terminate.
pub open spec fn descends<D: SingleDownhillMap>(m: Mesh, dm: &D) -> bool {
    &&& dm.wf_spec()
    &&& dm.width_spec() == m.width as int
    &&& forall|x: int, y: int|
        m.in_bounds_spec(x, y) ==> 0 <= #[trigger] dm.dir_spec(x, y) < 8 && downhill_dir_spec(
            m,
            x,
            y,
            dm.dir_spec(x, y),
        )
}

/// The production implementation: one direction per cell, chosen uniformly at
/// random among the true entries of the cell's downhill set.
pub struct RandomDownhillMap {
    pub width: i32,
    pub directions: Vec<Vec<usize>>,
}

impl RandomDownhillMap {
    pub open spec fn wf(self) -> bool {
        &&& 1 <= self.width <= MAX_WIDTH
        &&& self.directions@.len() == self.width as int
        &&& forall|x: int|
            0 <= x < self.width as int ==> (#[trigger] self.directions@[x])@.len()
                == self.width as int
        &&& forall|x: int, y: int|
            0 <= x < self.width as int && 0 <= y < self.width as int
                ==> #[trigger] self.directions@[x]@[y] < 8
    }

    /// Wherever the downhill table has any entry set, the stored index picks
    /// a set entry.
    pub open spec fn chosen_from(self, dh: Downhill) -> bool {
        &&& self.width == dh.width
        &&& forall|x: int, y: int|
            0 <= x < self.width as int && 0 <= y < self.width as int && dh.cell_marked(x, y)
                ==> dh.dir_at(x, y, #[trigger] self.directions@[x]@[y] as int)
    }

    pub fn new<R: Rng>(dh: &Downhill, rng: &mut R) -> (r: RandomDownhillMap)
        requires
            dh.wf(),
        ensures
            r.wf(),
            r.width == dh.width,
            r.chosen_from(*dh),
    {
        let w = dh.width as usize;
        let mut directions: Vec<Vec<usize>> = Vec::new();
        let mut x: usize = 0;
        while x < w
            invariant
                x <= w,
                dh.wf(),
                w == dh.width as int,
                directions@.len() == x as int,
                forall|i: int|
                    0 <= i < x as int ==> (#[trigger] directions@[i])@.len() == w as int,
                forall|i: int, j: int|
                    0 <= i < x as int && 0 <= j < w as int ==> #[trigger] directions@[i]@[j] < 8,
                forall|i: int, j: int|
                    0 <= i < x as int && 0 <= j < w as int && dh.cell_marked(i, j) ==> dh.dir_at(
                        i,
                        j,
                        #[trigger] directions@[i]@[j] as int,
                    ),
            decreases w - x,
        {
            let mut row: Vec<usize> = Vec::new();
            let mut y: usize = 0;
            while y < w
                invariant
                    y <= w,
                    x < w,
                    dh.wf(),
                    w == dh.width as int,
                    row@.len() == y as int,
                    forall|j: int| 0 <= j < y as int ==> #[trigger] row@[j] < 8,
                    forall|j: int|
                        0 <= j < y as int && dh.cell_marked(x as int, j) ==> dh.dir_at(
                            x as int,
                            j,
                            #[trigger] row@[j] as int,
                        ),
                decreases w - y,
            {
                let chosen = Self::choose_direction(dh, rng, x as i32, y as i32);
                row.push(chosen);
                y = y + 1;
            }
            directions.push(row);
            x = x + 1;
        }
        RandomDownhillMap { width: dh.width, directions }
    }

    /// Picks uniformly among the set entries of one cell; cells with no set
    /// entry store index zero, which no consumer reads after erosion.
    fn choose_direction<R: Rng>(dh: &Downhill, rng: &mut R, x: i32, y: i32) -> (chosen: usize)
        requires
            dh.wf(),
            dh.in_bounds_spec(x as int, y as int),
        ensures
            chosen < 8,
            dh.cell_marked(x as int, y as int) ==> dh.dir_at(x as int, y as int, chosen as int),
    {
        let dirs = dh.get_directions(x, y);
        let mut choices: Vec<usize> = Vec::new();
        let mut d: usize = 0;
        while d < 8
            invariant
                d <= 8,
                dh.wf(),
                dh.in_bounds_spec(x as int, y as int),
                forall|k: int| 0 <= k < 8 ==> dirs@[k] == dh.dir_at(x as int, y as int, k),
                forall|k: int|
                    0 <= k < choices@.len() ==> #[trigger] choices@[k] < 8 && dh.dir_at(
                        x as int,
                        y as int,
                        choices@[k] as int,
                    ),
                forall|k: int| 0 <= k < d as int && dh.dir_at(x as int, y as int, k)
                    ==> choices@.len() > 0,
            decreases 8 - d,
        {
            if dirs[d] {
                choices.push(d);
            }
            d = d + 1;
        }
        if choices.len() > 0 {
            let k = rng.gen_index(choices.len());
            let chosen = choices[k];
            chosen
        } else {
            assert(!dh.cell_marked(x as int, y as int));
            0
        }
    }
}

impl SingleDownhillMap for RandomDownhillMap {
    open spec fn wf_spec(&self) -> bool {
        self.wf()
    }

    open spec fn width_spec(&self) -> int {
        self.width as int
    }

    open spec fn dir_spec(&self, x: int, y: int) -> int {
        self.directions@[x]@[y] as int
    }

    fn get_width(&self) -> (r: i32) {
        self.width
    }

    fn get_direction(&self, x: i32, y: i32) -> (d: usize) {
        self.directions[x as usize][y as usize]
    }
}

/// A random map over a table computed from a downhill-complete mesh descends
/// everywhere on that mesh.
pub proof fn lemma_random_map_descends(m: Mesh, dh: Downhill, rdm: RandomDownhillMap)
    requires
        dh.wf(),
        dh.computed_from(m),
        all_cells_have_downhill_spec(m),
        rdm.wf(),
        rdm.chosen_from(dh),
    ensures
        descends(m, &rdm),
{
    assert forall|x: int, y: int| m.in_bounds_spec(x, y) implies 0 <= #[trigger] rdm.dir_spec(x, y)
        < 8 && downhill_dir_spec(m, x, y, rdm.dir_spec(x, y)) by {
        assert(cell_has_downhill_spec(m, x, y));
        let d0 = choose|d0: int| 0 <= d0 < 8 && downhill_dir_spec(m, x, y, d0);
        assert(dh.dir_at(x, y, d0));
        assert(dh.cell_marked(x, y));
        assert(dh.dir_at(x, y, rdm.directions@[x]@[y] as int));
    }
}

/// A prescribed direction table: the test double admitted by the capability.
pub struct MockDownhillMap {
    pub width: i32,
    pub directions: Vec<Vec<usize>>,
}

impl MockDownhillMap {
    pub open spec fn wf(self) -> bool {
        &&& 1 <= self.width <= MAX_WIDTH
        &&& self.directions@.len() == self.width as int
        &&& forall|x: int|
            0 <= x < self.width as int ==> (#[trigger] self.directions@[x])@.len()
                == self.width as int
        &&& forall|x: int, y: int|
            0 <= x < self.width as int && 0 <= y < self.width as int
                ==> #[trigger] self.directions@[x]@[y] < 8
    }

    pub fn new(directions: Vec<Vec<usize>>) -> (r: MockDownhillMap)
        requires
            1 <= directions@.len() <= MAX_WIDTH as int,
            forall|x: int|
                0 <= x < directions@.len() ==> (#[trigger] directions@[x])@.len()
                    == directions@.len(),
            forall|x: int, y: int|
                0 <= x < directions@.len() && 0 <= y < directions@.len()
                    ==> #[trigger] directions@[x]@[y] < 8,
        ensures
            r.wf(),
            r.width as int == directions@.len(),
            r.directions@ == directions@,
    {
        let width = directions.len() as i32;
        MockDownhillMap { width, directions }
    }
}

impl SingleDownhillMap for MockDownhillMap {
    open spec fn wf_spec(&self) -> bool {
        self.wf()
    }

    open spec fn width_spec(&self) -> int {
        self.width as int
    }

    open spec fn dir_spec(&self, x: int, y: int) -> int {
        self.directions@[x]@[y] as int
    }

    fn get_width(&self) -> (r: i32) {
        self.width
    }

    fn get_direction(&self, x: i32, y: i32) -> (d: usize) {
        self.directions[x as usize][y as usize]
    }
}

} // verus!
