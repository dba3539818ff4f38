//! Repair pass: repeatedly lowers pit cells (cells with no strictly lower
//! neighbour) until every cell drains somewhere or the iteration budget runs
//! out. Each pass strictly lowers every pit found, so elevations only fall.

use vstd::prelude::*;
use crate::downhill::{Downhill, all_cells_have_downhill_spec, lemma_computed_table_matches_mesh};
use crate::mesh::Mesh;
use crate::rand::Rng;
use crate::scale::Z_BOUND;

verus! {

/// Largest amount a pit is lowered in one pass.
pub const MAX_EROSION_STEP: i64 = 65_536;

/// Number of pits - cells with no marked downhill neighbour - among the
/// first `k` cells of the table in row-major order.
pub open spec fn pit_count_upto(dh: Downhill, k: int) -> nat
    decreases k,
{
    if k <= 0 {
        0
    } else {
        pit_count_upto(dh, k - 1) + if !dh.cell_marked((k - 1) / (dh.width as int), (k - 1) % (
        dh.width as int)) {
            1nat
        } else {
            0nat
        }
    }
}

/// Number of pits in the whole table.
pub open spec fn pit_count(dh: Downhill) -> nat {
    pit_count_upto(dh, (dh.width as int) * (dh.width as int))
}

/// A positive pit count exhibits a pit.
proof fn lemma_pit_count_witness(dh: Downhill, k: int)
    requires
        dh.wf(),
        0 <= k <= (dh.width as int) * (dh.width as int),
        pit_count_upto(dh, k) > 0,
    ensures
        exists|x: int, y: int| dh.in_bounds_spec(x, y) && !(#[trigger] dh.cell_marked(x, y)),
    decreases k,
{
    let w = dh.width as int;
    if k > 0 {
        if !dh.cell_marked((k - 1) / w, (k - 1) % w) {
            vstd::arithmetic::div_mod::lemma_div_pos_is_pos(k - 1, w);
            vstd::arithmetic::div_mod::lemma_multiply_divide_lt(k - 1, w, w);
            assert(dh.in_bounds_spec((k - 1) / w, (k - 1) % w));
        } else {
            lemma_pit_count_witness(dh, k - 1);
        }
    }
}

/// Number of pits among the first `k` cells of mesh `m` in row-major order.
pub open spec fn mesh_pit_count_upto(m: Mesh, k: int) -> nat
    decreases k,
{
    if k <= 0 {
        0
    } else {
        mesh_pit_count_upto(m, k - 1) + if !crate::downhill::cell_has_downhill_spec(
            m,
            (k - 1) / (m.width as int),
            (k - 1) % (m.width as int),
        ) {
            1nat
        } else {
            0nat
        }
    }
}

/// Number of cells of `m` with no strictly lower neighbour.
pub open spec fn mesh_pit_count(m: Mesh) -> nat {
    mesh_pit_count_upto(m, (m.width as int) * (m.width as int))
}

/// A table computed from a mesh counts the same pits as the mesh.
proof fn lemma_pit_count_matches_mesh(dh: Downhill, m: Mesh, k: int)
    requires
        dh.wf(),
        dh.computed_from(m),
        m.wf(),
        0 <= k <= (m.width as int) * (m.width as int),
    ensures
        pit_count_upto(dh, k) == mesh_pit_count_upto(m, k),
    decreases k,
{
    let w = m.width as int;
    if k > 0 {
        lemma_pit_count_matches_mesh(dh, m, k - 1);
        vstd::arithmetic::div_mod::lemma_div_pos_is_pos(k - 1, w);
        vstd::arithmetic::div_mod::lemma_multiply_divide_lt(k - 1, w, w);
        let x = (k - 1) / w;
        let y = (k - 1) % w;
        assert(m.in_bounds_spec(x, y));
        if dh.cell_marked(x, y) {
            let d = choose|d: int| 0 <= d < 8 && dh.dir_at(x, y, d);
            assert(crate::downhill::downhill_dir_spec(m, x, y, d));
        }
        if crate::downhill::cell_has_downhill_spec(m, x, y) {
            let d = choose|d: int| 0 <= d < 8 && crate::downhill::downhill_dir_spec(m, x, y, d);
            assert(dh.dir_at(x, y, d));
        }
    }
}

/// Carrier of the erosion pass.
pub struct Erosion {}

impl Erosion {
    /// Erodes `mesh` for at most `max_iterations` passes. A pass lowers each
    /// pit strictly below its previous elevation by a random step. The pass
    /// loop stops early once the number of pits is within `threshold`, the
    /// tolerated leftover. The returned flag reports - exactly - whether the
    /// result satisfies the downhill property, so a `true` flag certifies
    /// success; elevations are never raised.
    pub fn erode<R: Rng>(mesh: Mesh, rng: &mut R, threshold: u32, max_iterations: u32) -> (r: (
        Mesh,
        bool,
    ))
        requires
            mesh.wf(),
            forall|x: int, y: int|
                mesh.in_bounds_spec(x, y) ==> #[trigger] mesh.z_at(x, y) - (
                max_iterations as int) * (MAX_EROSION_STEP as int) >= -Z_BOUND,
        ensures
            r.0.wf(),
            r.0.width == mesh.width,
            r.0.out_of_bounds_z == mesh.out_of_bounds_z,
            forall|x: int, y: int|
                mesh.in_bounds_spec(x, y) ==> #[trigger] r.0.z_at(x, y) <= mesh.z_at(x, y),
            forall|x: int, y: int|
                mesh.in_bounds_spec(x, y) ==> #[trigger] r.0.z_at(x, y) >= mesh.z_at(x, y) - (
                max_iterations as int) * (MAX_EROSION_STEP as int),
            r.1 == all_cells_have_downhill_spec(r.0),
            max_iterations > 0 && mesh_pit_count(mesh) > threshold ==> exists|x: int, y: int|
                mesh.in_bounds_spec(x, y) && #[trigger] r.0.z_at(x, y) < mesh.z_at(x, y),
    {
        let mut m = mesh;
        let mut it: u32 = 0;
        while it < max_iterations
            invariant
                it <= max_iterations,
                it == 0 ==> m == mesh,
                it > 0 && mesh_pit_count(mesh) > threshold ==> exists|x: int, y: int|
                    mesh.in_bounds_spec(x, y) && #[trigger] m.z_at(x, y) < mesh.z_at(x, y),
                m.wf(),
                m.width == mesh.width,
                m.out_of_bounds_z == mesh.out_of_bounds_z,
                forall|x: int, y: int|
                    mesh.in_bounds_spec(x, y) ==> #[trigger] m.z_at(x, y) <= mesh.z_at(x, y),
                forall|x: int, y: int|
                    mesh.in_bounds_spec(x, y) ==> #[trigger] m.z_at(x, y) >= mesh.z_at(x, y) - (
                    it as int) * (MAX_EROSION_STEP as int),
                forall|x: int, y: int|
                    mesh.in_bounds_spec(x, y) ==> #[trigger] m.z_at(x, y) - (max_iterations as int
                        - it as int) * (MAX_EROSION_STEP as int) >= -Z_BOUND,
            ensures
                mesh_pit_count(mesh) > threshold && max_iterations > 0 ==> exists|x: int, y: int|
                    mesh.in_bounds_spec(x, y) && #[trigger] m.z_at(x, y) < mesh.z_at(x, y),
            decreases max_iterations - it,
        {
            let dh = Downhill::new(&m);
            let pits = Self::count_pits(&dh);
            proof {
                lemma_pit_count_matches_mesh(dh, m, (m.width as int) * (m.width as int));
            }
            if pits == 0 || pits <= threshold {
                proof {
                    if it == 0 {
                        assert(mesh_pit_count(mesh) <= threshold);
                    }
                }
                break ;
            }
            let ghost pre_pass = m;
            proof {
                assert forall|x2: int, y2: int| m.in_bounds_spec(x2, y2) implies #[trigger] m.z_at(
                    x2,
                    y2,
                ) - MAX_EROSION_STEP >= -Z_BOUND by {
                    assert((max_iterations as int - it as int) * (MAX_EROSION_STEP as int)
                        >= MAX_EROSION_STEP as int) by (nonlinear_arith)
                        requires
                            max_iterations as int - it as int >= 1,
                    ;
                }
            }
            Self::lower_pits(&mut m, &dh, rng);
            proof {
                if it == 0 {
                    lemma_pit_count_witness(dh, (m.width as int) * (m.width as int));
                    let (px, py) = choose|x: int, y: int|
                        dh.in_bounds_spec(x, y) && !(#[trigger] dh.cell_marked(x, y));
                    assert(m.z_at(px, py) < pre_pass.z_at(px, py));
                    assert(mesh.in_bounds_spec(px, py) && m.z_at(px, py) < mesh.z_at(px, py));
                } else if mesh_pit_count(mesh) > threshold {
                    let (px, py) = choose|x: int, y: int|
                        mesh.in_bounds_spec(x, y) && #[trigger] pre_pass.z_at(x, y) < mesh.z_at(
                            x,
                            y,
                        );
                    assert(m.z_at(px, py) <= pre_pass.z_at(px, py));
                    assert(mesh.in_bounds_spec(px, py) && m.z_at(px, py) < mesh.z_at(px, py));
                }
                assert forall|x: int, y: int| mesh.in_bounds_spec(x, y) implies #[trigger] m.z_at(
                    x,
                    y,
                ) - (max_iterations as int - (it as int + 1)) * (MAX_EROSION_STEP as int)
                    >= -Z_BOUND by {
                    assert((max_iterations as int - it as int) * (MAX_EROSION_STEP as int) == (
                    max_iterations as int - it as int - 1) * (MAX_EROSION_STEP as int) + (
                    MAX_EROSION_STEP as int)) by (nonlinear_arith);
                }
                assert forall|x: int, y: int| mesh.in_bounds_spec(x, y) implies #[trigger] m.z_at(
                    x,
                    y,
                ) >= mesh.z_at(x, y) - (it as int + 1) * (MAX_EROSION_STEP as int) by {
                    assert((it as int + 1) * (MAX_EROSION_STEP as int) == (it as int) * (
                    MAX_EROSION_STEP as int) + MAX_EROSION_STEP as int) by (nonlinear_arith);
                }
            }
            it = it + 1;
        }
        let dh = Downhill::new(&m);
        let ok = dh.all_cells_have_downhill();
        proof {
            lemma_computed_table_matches_mesh(dh, m);
            assert forall|x: int, y: int| mesh.in_bounds_spec(x, y) implies #[trigger] m.z_at(x, y)
                >= mesh.z_at(x, y) - (max_iterations as int) * (MAX_EROSION_STEP as int) by {
                assert((it as int) * (MAX_EROSION_STEP as int) <= (max_iterations as int) * (
                MAX_EROSION_STEP as int)) by (nonlinear_arith)
                    requires
                        0 <= it as int <= max_iterations as int,
                ;
            }
        }
        (m, ok)
    }

    /// How many cells of the table have no downhill neighbour marked.
    fn count_pits(dh: &Downhill) -> (r: u32)
        requires
            dh.wf(),
        ensures
            r as int == pit_count(*dh),
            r == 0 ==> forall|x: int, y: int|
                dh.in_bounds_spec(x, y) ==> #[trigger] dh.cell_marked(x, y),
    {
        let w = dh.width;
        let mut count: u32 = 0;
        let mut x: i32 = 0;
        while x < w
            invariant
                0 <= x <= w,
                dh.wf(),
                w == dh.width,
                count as int <= (x as int) * (w as int),
                count as int == pit_count_upto(*dh, (x as int) * (w as int)),
                count == 0 ==> forall|i: int, j: int|
                    0 <= i < x as int && 0 <= j < w as int ==> #[trigger] dh.cell_marked(i, j),
            decreases w - x,
        {
            let mut y: i32 = 0;
            while y < w
                invariant
                    0 <= x < w,
                    0 <= y <= w,
                    dh.wf(),
                    w == dh.width,
                    count as int <= (x as int) * (w as int) + y as int,
                    count as int == pit_count_upto(*dh, (x as int) * (w as int) + y as int),
                    count == 0 ==> forall|i: int, j: int|
                        0 <= i < x as int && 0 <= j < w as int ==> #[trigger] dh.cell_marked(i, j),
                    count == 0 ==> forall|j: int|
                        0 <= j < y as int ==> #[trigger] dh.cell_marked(x as int, j),
                decreases w - y,
            {
                proof {
                    let k = (x as int) * (w as int) + y as int;
                    assert(0 <= k) by (nonlinear_arith)
                        requires
                            k == (x as int) * (w as int) + y as int,
                            0 <= x as int && 0 <= y as int && w as int >= 1,
                    ;
                    vstd::arithmetic::div_mod::lemma_fundamental_div_mod_converse(
                        k,
                        w as int,
                        x as int,
                        y as int,
                    );
                }
                if !dh.cell_has_downhill(x, y) {
                    proof {
                        assert((x as int) * (w as int) + y as int + 1 <= (w as int) * (w as int))
                            by (nonlinear_arith)
                            requires
                                0 <= x as int && (x as int) < w as int,
                                0 <= y as int && (y as int) < w as int,
                        ;
                        assert((w as int) * (w as int) < u32::MAX as int) by (nonlinear_arith)
                            requires
                                1 <= w as int <= crate::mesh::MAX_WIDTH as int,
                        ;
                    }
                    count = count + 1;
                }
                y = y + 1;
            }
            proof {
                assert((x as int + 1) * (w as int) == (x as int) * (w as int) + w as int)
                    by (nonlinear_arith);
            }
            x = x + 1;
        }
        proof {
            assert((w as int) * (w as int) == (dh.width as int) * (dh.width as int));
        }
        count
    }

    /// Lowers every pit of one pass strictly below its previous elevation.
    /// A pit sits at or below all its neighbours, so its new elevation is in
    /// particular strictly below the minimum of its in-bounds neighbours.
    fn lower_pits<R: Rng>(m: &mut Mesh, dh: &Downhill, rng: &mut R)
        requires
            old(m).wf(),
            dh.wf(),
            dh.width == old(m).width,
            dh.computed_from(*old(m)),
            forall|x: int, y: int|
                old(m).in_bounds_spec(x, y) ==> #[trigger] old(m).z_at(x, y) - MAX_EROSION_STEP
                    >= -Z_BOUND,
        ensures
            final(m).wf(),
            final(m).width == old(m).width,
            final(m).out_of_bounds_z == old(m).out_of_bounds_z,
            forall|x: int, y: int|
                old(m).in_bounds_spec(x, y) ==> #[trigger] final(m).z_at(x, y) <= old(m).z_at(x, y)
                    && final(m).z_at(x, y) >= old(m).z_at(x, y) - MAX_EROSION_STEP,
            forall|x: int, y: int|
                old(m).in_bounds_spec(x, y) && !dh.cell_marked(x, y) ==> #[trigger] final(m).z_at(
                    x,
                    y,
                ) < old(m).z_at(x, y),
            forall|x: int, y: int, d: int|
                old(m).in_bounds_spec(x, y) && !dh.cell_marked(x, y) && 0 <= d < 8
                    ==> #[trigger] final(m).z_at(x, y) < old(m).z_at(
                    x + #[trigger] crate::downhill::dir_dx(d),
                    y + crate::downhill::dir_dy(d),
                ),
    {
        let w = m.get_width();
        let mut x: i32 = 0;
        while x < w
            invariant
                0 <= x <= w,
                m.wf(),
                dh.wf(),
                dh.width == m.width,
                w == m.width,
                m.width == old(m).width,
                m.out_of_bounds_z == old(m).out_of_bounds_z,
                forall|i: int, j: int|
                    old(m).in_bounds_spec(i, j) ==> #[trigger] old(m).z_at(i, j) - MAX_EROSION_STEP
                        >= -Z_BOUND,
                forall|i: int, j: int|
                    old(m).in_bounds_spec(i, j) ==> #[trigger] m.z_at(i, j) <= old(m).z_at(i, j)
                        && m.z_at(i, j) >= old(m).z_at(i, j) - MAX_EROSION_STEP,
                forall|i: int, j: int|
                    old(m).in_bounds_spec(i, j) && i >= x as int ==> #[trigger] m.z_at(i, j) == old(
                        m,
                    ).z_at(i, j),
                forall|i: int, j: int|
                    old(m).in_bounds_spec(i, j) && !dh.cell_marked(i, j) && i < x as int
                        ==> #[trigger] m.z_at(i, j) < old(m).z_at(i, j),
            decreases w - x,
        {
            let mut y: i32 = 0;
            while y < w
                invariant
                    0 <= x < w,
                    0 <= y <= w,
                    m.wf(),
                    dh.wf(),
                    dh.width == m.width,
                    w == m.width,
                    m.width == old(m).width,
                    m.out_of_bounds_z == old(m).out_of_bounds_z,
                    forall|i: int, j: int|
                        old(m).in_bounds_spec(i, j) ==> #[trigger] old(m).z_at(i, j)
                            - MAX_EROSION_STEP >= -Z_BOUND,
                    forall|i: int, j: int|
                        old(m).in_bounds_spec(i, j) ==> #[trigger] m.z_at(i, j) <= old(m).z_at(
                            i,
                            j,
                        ) && m.z_at(i, j) >= old(m).z_at(i, j) - MAX_EROSION_STEP,
                    forall|i: int, j: int|
                        old(m).in_bounds_spec(i, j) && (i > x as int || (i == x as int && j
                            >= y as int)) ==> #[trigger] m.z_at(i, j) == old(m).z_at(i, j),
                    forall|i: int, j: int|
                        old(m).in_bounds_spec(i, j) && !dh.cell_marked(i, j) && (i < x as int || (i
                            == x as int && j < y as int)) ==> #[trigger] m.z_at(i, j) < old(m).z_at(
                            i,
                            j,
                        ),
                decreases w - y,
            {
                if !dh.cell_has_downhill(x, y) {
                    let z = m.get_z_in_bounds(x, y);
                    proof {
                        assert(m.z_at(x as int, y as int) == old(m).z_at(x as int, y as int));
                        assert(old(m).z_at(x as int, y as int) - MAX_EROSION_STEP >= -Z_BOUND);
                    }
                    let d = rng.gen_range(1, MAX_EROSION_STEP);
                    m.set_z(x, y, z - d);
                }
                y = y + 1;
            }
            x = x + 1;
        }
        proof {
            assert forall|x: int, y: int, d: int|
                old(m).in_bounds_spec(x, y) && !dh.cell_marked(x, y) && 0 <= d < 8
                    implies #[trigger] m.z_at(x, y) < old(m).z_at(
                x + #[trigger] crate::downhill::dir_dx(d),
                y + crate::downhill::dir_dy(d),
            ) by {
                assert(!dh.dir_at(x, y, d));
                assert(!crate::downhill::downhill_dir_spec(*old(m), x, y, d));
            }
        }
    }
}

} // verus!
