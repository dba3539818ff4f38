//! The pipeline driver: seed in, terrain artifacts out. Repeatedly refines
//! and erodes a one-cell mesh, extracts the river network, and rescales the
//! elevations onto the requested output range. The refinement floor and the
//! erosion step bound keep every stage's precondition provable, so no stage
//! is ever skipped.

use vstd::prelude::*;
use crate::downhill::{Downhill, all_cells_have_downhill_spec};
use crate::erosion::{Erosion, MAX_EROSION_STEP};
use crate::flow_map::{FlowMap, flow_spec};
use crate::mesh::{Mesh, MAX_WIDTH};
use crate::mesh_splitter::{MeshSplitter, above_neighbourhood_floor, near_offset};
use crate::rand::Rng;
use crate::river_runner::{get_junctions_and_rivers, junctions_and_rivers_ok, Junction, River,
    MAX_WIDTH_SPAN};
use crate::scale::{Scale, UNIT, Z_BOUND};
use crate::single_downhill::{descends, RandomDownhillMap};
use vstd::arithmetic::power2::{pow2, lemma2_to64, lemma_pow2_unfold, lemma_pow2_strictly_increases};

verus! {

/// Everything the generator needs: refinement and erosion schedule, sea
/// level, river threshold and width range, and the output elevation range.
pub struct PipelineParams {
    pub iterations: u32,
    pub random_range: (i64, i64),
    pub erosion_passes: u32,
    pub sea_level: i64,
    pub river_threshold: u32,
    pub flow_to_width: (i64, i64),
    pub output_range: (i64, i64),
}

impl PipelineParams {
    /// Caps that keep the widths and the fixed-point arithmetic of every
    /// stage within their machine limits.
    pub open spec fn wf(self) -> bool {
        &&& self.iterations <= 12
        &&& self.erosion_passes <= 1024
        &&& 0 <= self.random_range.0 <= self.random_range.1 <= UNIT
        &&& -Z_BOUND <= self.flow_to_width.0 <= self.flow_to_width.1 <= Z_BOUND
        &&& self.flow_to_width.1 - self.flow_to_width.0 <= MAX_WIDTH_SPAN
        &&& -Z_BOUND <= self.output_range.0 <= self.output_range.1 <= Z_BOUND
    }
}

/// The generated terrain. `mesh` is the output elevation grid; `terrain` is
/// the pre-rescale mesh the rivers were traced on, kept as a ghost witness so
/// the contract can speak of it; `downhill_complete` reports - exactly -
/// whether that mesh satisfied the downhill property, and rivers are traced
/// only when it did.
pub struct TerrainArtifacts {
    pub mesh: Mesh,
    pub junctions: Vec<Junction>,
    pub rivers: Vec<River>,
    pub downhill_complete: bool,
    pub terrain: Ghost<Mesh>,
}

/// Runs the whole terrain pipeline from a starting peak elevation.
pub fn generate<R: Rng>(rng: &mut R, peak: i64, params: PipelineParams) -> (r: TerrainArtifacts)
    requires
        params.wf(),
        0 <= peak <= Z_BOUND,
    ensures
        r.mesh.wf(),
        r.terrain@.wf(),
        r.terrain@.width == r.mesh.width,
        r.mesh.width as int == pow2(params.iterations as nat),
        r.downhill_complete == all_cells_have_downhill_spec(r.terrain@),
        r.junctions@.len() == 2 * r.rivers@.len(),
        !r.downhill_complete ==> r.junctions@.len() == 0 && r.rivers@.len() == 0,
        r.downhill_complete ==> exists|dm: RandomDownhillMap, fm: FlowMap|
            {
                &&& #[trigger] descends(r.terrain@, &dm)
                &&& #[trigger] fm.wf()
                &&& fm.width == r.terrain@.width
                &&& forall|x: int, y: int|
                    fm.in_bounds_spec(x, y) ==> #[trigger] fm.flow_at_spec(x, y) as int
                        == flow_spec(r.terrain@, &dm, x, y)
                &&& junctions_and_rivers_ok(
                    r.terrain@,
                    &dm,
                    fm,
                    params.river_threshold,
                    params.sea_level,
                    params.flow_to_width,
                    r.junctions@,
                    r.rivers@,
                )
            },
        r.mesh == r.terrain@ || forall|x: int, y: int|
            r.mesh.in_bounds_spec(x, y) ==> params.output_range.0 <= #[trigger] r.mesh.z_at(x, y)
                <= params.output_range.1,
{
    let mut mesh = Mesh::new(1, 0);
    mesh.set_z(0, 0, peak);
    proof {
        lemma2_to64();
    }

    let ghost step_budget = (params.erosion_passes as int) * (MAX_EROSION_STEP as int);
    proof {
        assert(0 <= step_budget <= 1024 * (MAX_EROSION_STEP as int)) by (nonlinear_arith)
            requires
                step_budget == (params.erosion_passes as int) * (MAX_EROSION_STEP as int),
                0 <= params.erosion_passes as int <= 1024,
        ;
    }
    let mut i: u32 = 0;
    while i < params.iterations
        invariant
            i <= params.iterations,
            params.wf(),
            mesh.wf(),
            mesh.out_of_bounds_z == 0,
            mesh.width as int == pow2(i as nat),
            step_budget == (params.erosion_passes as int) * (MAX_EROSION_STEP as int),
            0 <= step_budget <= 1024 * (MAX_EROSION_STEP as int),
            forall|x: int, y: int|
                mesh.in_bounds_spec(x, y) ==> #[trigger] mesh.z_at(x, y) >= -(i as int)
                    * step_budget,
        decreases params.iterations - i,
    {
        proof {
            // widths stay in range: 2^i for i < 12 is at most 2^11
            lemma2_to64();
            if (i as nat) < 11 {
                lemma_pow2_strictly_increases(i as nat, 11);
            }
            assert(pow2(11) == 2048);
            assert(mesh.width <= MAX_WIDTH / 2);
        }
        let ghost pre_split = mesh;
        let (split, _strict) = MeshSplitter::split(&mesh, rng, params.random_range);
        mesh = split;
        proof {
            lemma_pow2_unfold((i + 1) as nat);
            // refinement never digs below the local floor, so the running
            // lower bound survives the split
            assert forall|x: int, y: int| mesh.in_bounds_spec(x, y) implies #[trigger] mesh.z_at(
                x,
                y,
            ) >= -(i as int) * step_budget by {
                assert(above_neighbourhood_floor(pre_split, x / 2, y / 2, mesh.z_at(x, y)));
                let (wdx, wdy) = choose|wdx: int, wdy: int|
                    #[trigger] near_offset(wdx, wdy) && pre_split.z_at(x / 2 + wdx, y / 2 + wdy)
                        <= mesh.z_at(x, y);
                assert((-(i as int)) * step_budget <= 0) by (nonlinear_arith)
                    requires
                        0 <= i as int,
                        0 <= step_budget,
                ;
                assert(pre_split.z_at(x / 2 + wdx, y / 2 + wdy) <= mesh.z_at(x, y));
                if pre_split.in_bounds_spec(x / 2 + wdx, y / 2 + wdy) {
                    assert(pre_split.z_at(x / 2 + wdx, y / 2 + wdy) >= -(i as int) * step_budget);
                } else {
                    assert(pre_split.z_at(x / 2 + wdx, y / 2 + wdy) == 0);
                }
                assert(mesh.z_at(x, y) >= -(i as int) * step_budget);
            }
        }
        // erosion headroom: the running floor leaves room for one more round
        // of lowering within the fixed-point bounds
        proof {
            assert((-(i as int)) * step_budget - step_budget >= -(13 * 1024 * (
            MAX_EROSION_STEP as int))) by (nonlinear_arith)
                requires
                    0 <= i as int <= 12,
                    0 <= step_budget <= 1024 * (MAX_EROSION_STEP as int),
            ;
            assert forall|x: int, y: int| mesh.in_bounds_spec(x, y) implies #[trigger] mesh.z_at(
                x,
                y,
            ) - (params.erosion_passes as int) * (MAX_EROSION_STEP as int) >= -Z_BOUND by {
                assert(mesh.z_at(x, y) >= -(i as int) * step_budget);
            }
        }
        let threshold = i * 2;
        let ghost pre_erode = mesh;
        let (eroded, _converged) = Erosion::erode(mesh, rng, threshold, params.erosion_passes);
        mesh = eroded;
        proof {
            assert forall|x: int, y: int| mesh.in_bounds_spec(x, y) implies #[trigger] mesh.z_at(
                x,
                y,
            ) >= -(i as int + 1) * step_budget by {
                assert(mesh.z_at(x, y) >= pre_erode.z_at(x, y) - step_budget);
                assert((-(i as int + 1)) * step_budget == (-(i as int)) * step_budget
                    - step_budget) by (nonlinear_arith);
            }
        }
        i = i + 1;
    }

    let ghost terrain = mesh;
    let downhill = Downhill::new(&mesh);
    let downhill_complete = downhill.all_cells_have_downhill();
    proof {
        crate::downhill::lemma_computed_table_matches_mesh(downhill, mesh);
    }
    let (junctions, rivers) = if downhill_complete {
        let lists = get_junctions_and_rivers(
            &mesh,
            params.river_threshold,
            params.sea_level,
            params.flow_to_width,
            rng,
        );
        proof {
            let (dm, fm) = choose|dm: RandomDownhillMap, fm: FlowMap|
                {
                    &&& #[trigger] descends(terrain, &dm)
                    &&& #[trigger] fm.wf()
                    &&& fm.width == terrain.width
                    &&& forall|x: int, y: int|
                        fm.in_bounds_spec(x, y) ==> #[trigger] fm.flow_at_spec(x, y) as int
                            == flow_spec(terrain, &dm, x, y)
                    &&& junctions_and_rivers_ok(
                        terrain,
                        &dm,
                        fm,
                        params.river_threshold,
                        params.sea_level,
                        params.flow_to_width,
                        lists.0@,
                        lists.1@,
                    )
                };
            assert(descends(terrain, &dm) && fm.wf());
        }
        lists
    } else {
        (Vec::new(), Vec::new())
    };

    let min_z = mesh.get_min_z();
    let max_z = mesh.get_max_z();
    let mesh = if min_z < max_z && params.output_range.0 < params.output_range.1 {
        proof {
            assert forall|x: int, y: int| mesh.in_bounds_spec(x, y) implies params.output_range.0
                <= #[trigger] crate::scale::affine_map(
                min_z as int,
                max_z as int,
                params.output_range.0 as int,
                params.output_range.1 as int,
                mesh.z_at(x, y),
            ) <= params.output_range.1 by {
                crate::scale::lemma_affine_endpoints(
                    min_z as int,
                    max_z as int,
                    params.output_range.0 as int,
                    params.output_range.1 as int,
                    mesh.z_at(x, y),
                );
            }
        }
        let scale = Scale::new((min_z, max_z), params.output_range);
        mesh.rescale(&scale)
    } else {
        mesh
    };

    TerrainArtifacts { mesh, junctions, rivers, downhill_complete, terrain: Ghost(terrain) }
}

} // verus!
