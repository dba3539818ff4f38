//! River extraction: cells whose drainage meets a threshold and whose
//! elevation is at or above sea level emit a directed river segment to their
//! single-downhill neighbour, with junction widths scaled from flow counts.

use vstd::prelude::*;
use crate::downhill::{Downhill, dir_dx, dir_dy, all_cells_have_downhill_spec};
use crate::flow_map::{FlowMap, flow_spec};
use crate::mesh::Mesh;
use crate::rand::Rng;
use crate::scale::{Scale, UNIT, Z_BOUND, affine_map, lemma_affine_output_bound};
use crate::single_downhill::{SingleDownhillMap, RandomDownhillMap, descends,
    lemma_random_map_descends};

verus! {

/// Upper bound on the width of the flow-to-width target interval; it keeps
/// the extrapolated junction widths within the machine word for any flow.
pub const MAX_WIDTH_SPAN: i64 = 1_000_000_000;

/// An RGBA colour in fixed-point components (UNIT stands for 1.0).
#[derive(Clone, Copy, Debug, PartialEq, Eq, Structural)]
pub struct Color {
    pub r: i64,
    pub g: i64,
    pub b: i64,
    pub a: i64,
}

/// The colour rivers are drawn in.
pub open spec fn blue_spec() -> Color {
    Color { r: 0, g: 0, b: UNIT, a: UNIT }
}

impl Color {
    pub fn blue() -> (c: Color)
        ensures
            c == blue_spec(),
    {
        Color { r: 0, g: 0, b: UNIT, a: UNIT }
    }
}

/// A cell position in the mesh.
#[derive(Clone, Copy, Debug, PartialEq, Eq, Structural)]
pub struct Position {
    pub x: i32,
    pub y: i32,
}

/// A river endpoint with incoming and outgoing widths.
#[derive(Clone, Copy, Debug, PartialEq, Eq, Structural)]
pub struct Junction {
    pub position: Position,
    pub width_in: i64,
    pub width_out: i64,
    pub color: Color,
}

impl Junction {
    pub fn new(position: Position, width_in: i64, width_out: i64, color: Color) -> (j: Junction)
        ensures
            j == (Junction { position, width_in, width_out, color }),
    {
        Junction { position, width_in, width_out, color }
    }
}

/// A directed river segment from a cell to its downhill neighbour.
#[derive(Clone, Copy, Debug, PartialEq, Eq, Structural)]
pub struct River {
    pub from: Position,
    pub to: Position,
    pub color: Color,
}

impl River {
    pub fn new(from: Position, to: Position, color: Color) -> (r: River)
        ensures
            r == (River { from, to, color }),
    {
        River { from, to, color }
    }
}

/// The downhill neighbour of `position`, when it is in bounds.
pub fn get_neighbour<D: SingleDownhillMap>(
    position: Position,
    mesh: &Mesh,
    downhill_map: &D,
) -> (r: Option<Position>)
    requires
        mesh.wf(),
        downhill_map.wf_spec(),
        downhill_map.width_spec() == mesh.width as int,
        mesh.in_bounds_spec(position.x as int, position.y as int),
    ensures
        r.is_some() == mesh.in_bounds_spec(
            position.x + dir_dx(downhill_map.dir_spec(position.x as int, position.y as int)),
            position.y + dir_dy(downhill_map.dir_spec(position.x as int, position.y as int)),
        ),
        r.is_some() ==> r.unwrap().x == position.x + dir_dx(
            downhill_map.dir_spec(position.x as int, position.y as int),
        ) && r.unwrap().y == position.y + dir_dy(
            downhill_map.dir_spec(position.x as int, position.y as int),
        ),
{
    let d = downhill_map.get_direction(position.x, position.y);
    let (dx, dy) = crate::downhill::direction_offset(d);
    let nx = position.x + dx;
    let ny = position.y + dy;
    if mesh.in_bounds(nx, ny) {
        Some(Position { x: nx, y: ny })
    } else {
        None
    }
}

/// Running maximum of the flow over cells at or above sea level, taken over
/// the first `k` cells in row-major order; zero when none qualifies.
pub open spec fn max_flow_upto(m: Mesh, fm: FlowMap, sea_level: i64, k: int) -> int
    decreases k,
{
    if k <= 0 {
        0
    } else {
        let x = (k - 1) / (m.width as int);
        let y = (k - 1) % (m.width as int);
        let prev = max_flow_upto(m, fm, sea_level, k - 1);
        if m.z_at(x, y) >= sea_level as int && fm.flow_at_spec(x, y) > prev {
            fm.flow_at_spec(x, y) as int
        } else {
            prev
        }
    }
}

/// The largest flow among cells at or above sea level; zero when none is.
pub open spec fn max_flow_over_sea(m: Mesh, fm: FlowMap, sea_level: i64) -> int {
    max_flow_upto(m, fm, sea_level, (m.width as int) * (m.width as int))
}

pub fn get_max_flow_over_sea_level(mesh: &Mesh, sea_level: i64, flow_map: &FlowMap) -> (r: u32)
    requires
        mesh.wf(),
        flow_map.wf(),
        flow_map.width == mesh.width,
    ensures
        r as int == max_flow_over_sea(*mesh, *flow_map, sea_level),
{
    let w = mesh.get_width();
    let ghost wi = w as int;
    let mut out: u32 = 0;
    let mut x: i32 = 0;
    while x < w
        invariant
            0 <= x <= w,
            mesh.wf(),
            flow_map.wf(),
            flow_map.width == mesh.width,
            w == mesh.width,
            wi == w as int,
            out as int == max_flow_upto(*mesh, *flow_map, sea_level, (x as int) * wi),
        decreases w - x,
    {
        let mut y: i32 = 0;
        while y < w
            invariant
                0 <= x < w,
                0 <= y <= w,
                mesh.wf(),
                flow_map.wf(),
                flow_map.width == mesh.width,
                w == mesh.width,
                wi == w as int,
                out as int == max_flow_upto(*mesh, *flow_map, sea_level, (x as int) * wi + y as int),
            decreases w - y,
        {
            let ghost k = (x as int) * wi + (y as int);
            proof {
                assert(0 <= k) by (nonlinear_arith)
                    requires
                        k == (x as int) * wi + (y as int),
                        0 <= x as int,
                        0 <= y as int,
                        wi >= 1,
                ;
                vstd::arithmetic::div_mod::lemma_fundamental_div_mod_converse(
                    k,
                    wi,
                    x as int,
                    y as int,
                );
            }
            if mesh.get_z_in_bounds(x, y) >= sea_level {
                let f = flow_map.get_flow(x, y);
                if f > out {
                    out = f;
                }
            }
            y = y + 1;
        }
        proof {
            assert((x as int + 1) * wi == (x as int) * wi + wi) by (nonlinear_arith);
        }
        x = x + 1;
    }
    proof {
        assert(wi * wi == (w as int) * (w as int));
        assert((w as int) * wi == wi * wi);
    }
    out
}

/// The effective top of the flow scale: the maximum flow over sea level, or
/// one above the threshold when that maximum does not exceed the threshold,
/// so that the scale's source interval is never degenerate.
pub open spec fn eff_max_spec(m: Mesh, fm: FlowMap, threshold: u32, sea_level: i64) -> int {
    let mf = max_flow_over_sea(m, fm, sea_level);
    if mf > threshold as int {
        mf
    } else {
        threshold as int + 1
    }
}

/// The junction width assigned to cell `(x, y)`: its flow remapped from
/// `[threshold, eff_max]` onto the flow-to-width interval.
pub open spec fn river_width_spec(
    m: Mesh,
    fm: FlowMap,
    threshold: u32,
    sea_level: i64,
    flow_to_width: (i64, i64),
    x: int,
    y: int,
) -> int {
    affine_map(
        threshold as int,
        eff_max_spec(m, fm, threshold, sea_level),
        flow_to_width.0 as int,
        flow_to_width.1 as int,
        fm.flow_at_spec(x, y) as int,
    )
}

/// Cell `(x, y)` emits a river: its flow meets the threshold, it sits at or
/// above sea level, and its downhill neighbour is in bounds.
pub open spec fn emits_river<D: SingleDownhillMap>(
    m: Mesh,
    dm: &D,
    fm: FlowMap,
    threshold: u32,
    sea_level: i64,
    x: int,
    y: int,
) -> bool {
    &&& m.in_bounds_spec(x, y)
    &&& fm.flow_at_spec(x, y) >= threshold
    &&& m.z_at(x, y) >= sea_level as int
    &&& m.in_bounds_spec(x + dir_dx(dm.dir_spec(x, y)), y + dir_dy(dm.dir_spec(x, y)))
}

/// The full shape of the river extraction's output: one river per emitting
/// cell in row-major order, each with its two junctions at the scaled widths.
pub open spec fn junctions_and_rivers_ok<D: SingleDownhillMap>(
    m: Mesh,
    dm: &D,
    fm: FlowMap,
    threshold: u32,
    sea_level: i64,
    flow_to_width: (i64, i64),
    junctions: Seq<Junction>,
    rivers: Seq<River>,
) -> bool {
    &&& junctions.len() == 2 * rivers.len()
    &&& forall|i: int|
        0 <= i < rivers.len() ==> #[trigger] river_entry_ok(
            m,
            dm,
            fm,
            threshold,
            sea_level,
            flow_to_width,
            junctions,
            rivers,
            i,
        )
    &&& forall|x: int, y: int|
        #[trigger] emits_river(m, dm, fm, threshold, sea_level, x, y) ==> exists|i: int|
            0 <= i < rivers.len() && (#[trigger] rivers[i]).from.x as int == x
                && rivers[i].from.y as int == y
    &&& forall|i: int, j: int|
        0 <= i < j < rivers.len() ==> ((#[trigger] rivers[i]).from.x < (
        #[trigger] rivers[j]).from.x || (rivers[i].from.x == rivers[j].from.x && rivers[i].from.y
            < rivers[j].from.y))
}

/// Emits the junction and river lists off an already-computed flow map.
pub fn get_junctions_and_rivers_from_flow_map<D: SingleDownhillMap>(
    mesh: &Mesh,
    threshold: u32,
    sea_level: i64,
    flow_to_width: (i64, i64),
    downhill_map: &D,
    flow_map: &FlowMap,
) -> (r: (Vec<Junction>, Vec<River>))
    requires
        mesh.wf(),
        downhill_map.wf_spec(),
        downhill_map.width_spec() == mesh.width as int,
        flow_map.wf(),
        flow_map.width == mesh.width,
        -Z_BOUND <= flow_to_width.0 <= flow_to_width.1 <= Z_BOUND,
        flow_to_width.1 - flow_to_width.0 <= MAX_WIDTH_SPAN,
    ensures
        junctions_and_rivers_ok(
            *mesh,
            downhill_map,
            *flow_map,
            threshold,
            sea_level,
            flow_to_width,
            r.0@,
            r.1@,
        ),
{
    let blue = Color::blue();
    let mut junctions: Vec<Junction> = Vec::new();
    let mut rivers: Vec<River> = Vec::new();
    let max_flow = get_max_flow_over_sea_level(mesh, sea_level, flow_map);
    let eff_max: i64 = if max_flow as i64 > threshold as i64 {
        max_flow as i64
    } else {
        threshold as i64 + 1
    };
    proof {
        assert(eff_max as int == eff_max_spec(*mesh, *flow_map, threshold, sea_level));
    }
    let flow_scale = Scale::new((threshold as i64, eff_max), flow_to_width);
    let w = mesh.get_width();
    let mut x: i32 = 0;
    while x < w
        invariant
            0 <= x <= w,
            mesh.wf(),
            downhill_map.wf_spec(),
            downhill_map.width_spec() == mesh.width as int,
            flow_map.wf(),
            flow_map.width == mesh.width,
            w == mesh.width,
            -Z_BOUND <= flow_to_width.0 <= flow_to_width.1 <= Z_BOUND,
            flow_to_width.1 - flow_to_width.0 <= MAX_WIDTH_SPAN,
            blue == blue_spec(),
            0 <= threshold as int && (threshold as int) < eff_max as int && eff_max as int <= Z_BOUND,
            eff_max as int == eff_max_spec(*mesh, *flow_map, threshold, sea_level),
            flow_scale.wf(),
            flow_scale.from_spec() == (threshold as i64, eff_max),
            flow_scale.to_spec() == flow_to_width,
            junctions@.len() == 2 * rivers@.len(),
            forall|i: int|
                0 <= i < rivers@.len() ==> river_entry_ok(
                    *mesh,
                    downhill_map,
                    *flow_map,
                    threshold,
                    sea_level,
                    flow_to_width,
                    junctions@,
                    rivers@,
                    i,
                ),
            forall|i: int, j: int|
                0 <= i < j < rivers@.len() ==> ((#[trigger] rivers@[i]).from.x < (
                #[trigger] rivers@[j]).from.x || (rivers@[i].from.x == rivers@[j].from.x
                    && rivers@[i].from.y < rivers@[j].from.y)),
            forall|i: int|
                0 <= i < rivers@.len() ==> (#[trigger] rivers@[i]).from.x < x,
            forall|cx: int, cy: int|
                0 <= cx < x as int && 0 <= cy < w as int && #[trigger] emits_river(
                    *mesh,
                    downhill_map,
                    *flow_map,
                    threshold,
                    sea_level,
                    cx,
                    cy,
                ) ==> exists|i: int|
                    0 <= i < rivers@.len() && (#[trigger] rivers@[i]).from.x as int == cx
                        && rivers@[i].from.y as int == cy,
        decreases w - x,
    {
        let mut y: i32 = 0;
        while y < w
            invariant
                0 <= x < w,
                0 <= y <= w,
                mesh.wf(),
                downhill_map.wf_spec(),
                downhill_map.width_spec() == mesh.width as int,
                flow_map.wf(),
                flow_map.width == mesh.width,
                w == mesh.width,
                -Z_BOUND <= flow_to_width.0 <= flow_to_width.1 <= Z_BOUND,
                flow_to_width.1 - flow_to_width.0 <= MAX_WIDTH_SPAN,
                blue == blue_spec(),
                0 <= threshold as int && (threshold as int) < eff_max as int && eff_max as int <= Z_BOUND,
                eff_max as int == eff_max_spec(*mesh, *flow_map, threshold, sea_level),
                flow_scale.wf(),
                flow_scale.from_spec() == (threshold as i64, eff_max),
                flow_scale.to_spec() == flow_to_width,
                junctions@.len() == 2 * rivers@.len(),
                forall|i: int|
                    0 <= i < rivers@.len() ==> river_entry_ok(
                        *mesh,
                        downhill_map,
                        *flow_map,
                        threshold,
                        sea_level,
                        flow_to_width,
                        junctions@,
                        rivers@,
                        i,
                    ),
                forall|i: int, j: int|
                    0 <= i < j < rivers@.len() ==> ((#[trigger] rivers@[i]).from.x < (
                    #[trigger] rivers@[j]).from.x || (rivers@[i].from.x == rivers@[j].from.x
                        && rivers@[i].from.y < rivers@[j].from.y)),
                forall|i: int|
                    0 <= i < rivers@.len() ==> ((#[trigger] rivers@[i]).from.x < x || (
                    rivers@[i].from.x == x && rivers@[i].from.y < y)),
                forall|cx: int, cy: int|
                    0 <= cx < w as int && 0 <= cy < w as int && (cx < x as int || (cx == x as int
                        && cy < y as int)) && #[trigger] emits_river(
                        *mesh,
                        downhill_map,
                        *flow_map,
                        threshold,
                        sea_level,
                        cx,
                        cy,
                    ) ==> exists|i: int|
                        0 <= i < rivers@.len() && (#[trigger] rivers@[i]).from.x as int == cx
                            && rivers@[i].from.y as int == cy,
            decreases w - y,
        {
            let flow = flow_map.get_flow(x, y);
            let z = mesh.get_z_in_bounds(x, y);
            let maybe_n = get_neighbour(Position { x, y }, mesh, downhill_map);
            let ghost body_pre_rivers = rivers@;
            if flow >= threshold && z >= sea_level {
                if let Some(n) = maybe_n {
                    let neighbour_flow = flow_map.get_flow(n.x, n.y);
                    proof {
                        lemma_width_fits(
                            threshold as int,
                            eff_max as int,
                            flow_to_width.0 as int,
                            flow_to_width.1 as int,
                            flow as int,
                        );
                        lemma_width_fits(
                            threshold as int,
                            eff_max as int,
                            flow_to_width.0 as int,
                            flow_to_width.1 as int,
                            neighbour_flow as int,
                        );
                    }
                    let from_width = flow_scale.scale(flow as i64);
                    let to_width = flow_scale.scale(neighbour_flow as i64);
                    let ghost pre_rivers = rivers@;
                    let ghost pre_junctions = junctions@;
                    junctions.push(Junction::new(Position { x, y }, from_width, from_width, blue));
                    junctions.push(Junction::new(n, to_width, to_width, blue));
                    rivers.push(River::new(Position { x, y }, n, blue));
                    proof {
                        assert forall|i: int| 0 <= i < rivers@.len() implies river_entry_ok(
                            *mesh,
                            downhill_map,
                            *flow_map,
                            threshold,
                            sea_level,
                            flow_to_width,
                            junctions@,
                            rivers@,
                            i,
                        ) by {
                            if i < pre_rivers.len() {
                                assert(river_entry_ok(
                                    *mesh,
                                    downhill_map,
                                    *flow_map,
                                    threshold,
                                    sea_level,
                                    flow_to_width,
                                    pre_junctions,
                                    pre_rivers,
                                    i,
                                ));
                            } else {
                                assert(emits_river(
                                    *mesh,
                                    downhill_map,
                                    *flow_map,
                                    threshold,
                                    sea_level,
                                    x as int,
                                    y as int,
                                ));
                            }
                        }
                    }
                }
            }
            proof {
                assert forall|cx: int, cy: int|
                    0 <= cx < w as int && 0 <= cy < w as int && (cx < x as int || (cx == x as int
                        && cy < y as int + 1)) && #[trigger] emits_river(
                        *mesh,
                        downhill_map,
                        *flow_map,
                        threshold,
                        sea_level,
                        cx,
                        cy,
                    ) implies exists|i: int|
                    0 <= i < rivers@.len() && (#[trigger] rivers@[i]).from.x as int == cx
                        && rivers@[i].from.y as int == cy by {
                    if cx == x as int && cy == y as int {
                        assert(flow >= threshold && z as int >= sea_level as int
                            && maybe_n.is_some());
                        assert(rivers@.len() == body_pre_rivers.len() + 1);
                        assert(rivers@[rivers@.len() - 1].from.x as int == cx
                            && rivers@[rivers@.len() - 1].from.y as int == cy);
                    } else {
                        assert(exists|i: int|
                            0 <= i < body_pre_rivers.len() && (#[trigger] body_pre_rivers[i]).from.x
                                as int == cx && body_pre_rivers[i].from.y as int == cy);
                        let i = choose|i: int|
                            0 <= i < body_pre_rivers.len() && (#[trigger] body_pre_rivers[i]).from.x
                                as int == cx && body_pre_rivers[i].from.y as int == cy;
                        assert(rivers@[i] == body_pre_rivers[i]);
                    }
                }
            }
            y = y + 1;
        }
        x = x + 1;
    }
    (junctions, rivers)
}

/// One river entry and its two junctions have the stated shape.
pub open spec fn river_entry_ok<D: SingleDownhillMap>(
    m: Mesh,
    dm: &D,
    fm: FlowMap,
    threshold: u32,
    sea_level: i64,
    flow_to_width: (i64, i64),
    junctions: Seq<Junction>,
    rivers: Seq<River>,
    i: int,
) -> bool {
    let riv = rivers[i];
    let fx = riv.from.x as int;
    let fy = riv.from.y as int;
    &&& emits_river(m, dm, fm, threshold, sea_level, fx, fy)
    &&& riv.to.x as int == fx + dir_dx(dm.dir_spec(fx, fy))
    &&& riv.to.y as int == fy + dir_dy(dm.dir_spec(fx, fy))
    &&& riv.color == blue_spec()
    &&& 0 <= 2 * i && 2 * i + 1 < junctions.len()
    &&& junctions[2 * i].position == riv.from
    &&& junctions[2 * i].width_in as int == river_width_spec(
        m,
        fm,
        threshold,
        sea_level,
        flow_to_width,
        fx,
        fy,
    )
    &&& junctions[2 * i].width_out == junctions[2 * i].width_in
    &&& junctions[2 * i].color == blue_spec()
    &&& junctions[2 * i + 1].position == riv.to
    &&& junctions[2 * i + 1].width_in as int == river_width_spec(
        m,
        fm,
        threshold,
        sea_level,
        flow_to_width,
        riv.to.x as int,
        riv.to.y as int,
    )
    &&& junctions[2 * i + 1].width_out == junctions[2 * i + 1].width_in
    &&& junctions[2 * i + 1].color == blue_spec()
}

/// Any unsigned flow value maps to a width that fits the machine word.
proof fn lemma_width_fits(a: int, b: int, c: int, d: int, v: int)
    requires
        0 <= a < b <= Z_BOUND,
        -Z_BOUND <= c <= d <= Z_BOUND,
        d - c <= MAX_WIDTH_SPAN,
        0 <= v <= u32::MAX,
        a <= u32::MAX,
    ensures
        i64::MIN as int <= affine_map(a, b, c, d, v) <= i64::MAX as int,
{
    lemma_affine_output_bound(a, b, c, d, v);
    if v >= a {
        assert((v - a) * (d - c) <= 0x1_0000_0000 * (MAX_WIDTH_SPAN as int)) by (nonlinear_arith)
            requires
                0 <= v - a <= 0x1_0000_0000,
                0 <= d - c <= MAX_WIDTH_SPAN as int,
        ;
    } else {
        assert((a - v) * (d - c) <= 0x1_0000_0000 * (MAX_WIDTH_SPAN as int)) by (nonlinear_arith)
            requires
                0 <= a - v <= 0x1_0000_0000,
                0 <= d - c <= MAX_WIDTH_SPAN as int,
        ;
    }
}

/// Builds the flow map for `downhill_map` and emits junctions and rivers
/// from it. The built flow map carries the exact per-cell trace counts.
pub fn get_junctions_and_rivers_from_downhill_map<D: SingleDownhillMap>(
    mesh: &Mesh,
    threshold: u32,
    sea_level: i64,
    flow_to_width: (i64, i64),
    downhill_map: &D,
) -> (r: (Vec<Junction>, Vec<River>))
    requires
        mesh.wf(),
        descends(*mesh, downhill_map),
        -Z_BOUND <= flow_to_width.0 <= flow_to_width.1 <= Z_BOUND,
        flow_to_width.1 - flow_to_width.0 <= MAX_WIDTH_SPAN,
    ensures
        exists|fm: FlowMap|
            {
                &&& #[trigger] fm.wf()
                &&& fm.width == mesh.width
                &&& forall|x: int, y: int|
                    fm.in_bounds_spec(x, y) ==> #[trigger] fm.flow_at_spec(x, y) as int
                        == flow_spec(*mesh, downhill_map, x, y)
                &&& junctions_and_rivers_ok(
                    *mesh,
                    downhill_map,
                    fm,
                    threshold,
                    sea_level,
                    flow_to_width,
                    r.0@,
                    r.1@,
                )
            },
{
    let flow_map = FlowMap::from(mesh, downhill_map);
    let r = get_junctions_and_rivers_from_flow_map(
        mesh,
        threshold,
        sea_level,
        flow_to_width,
        downhill_map,
        &flow_map,
    );
    proof {
        assert(flow_map.wf());
    }
    r
}

/// The river stage of the pipeline: derives the downhill table of the mesh,
/// draws a single-downhill choice at random, accumulates flow, and emits the
/// junction and river lists. The mesh must be downhill-complete, which
/// erosion establishes, so that every rain trace terminates.
pub fn get_junctions_and_rivers<R: Rng>(
    mesh: &Mesh,
    threshold: u32,
    sea_level: i64,
    flow_to_width: (i64, i64),
    rng: &mut R,
) -> (r: (Vec<Junction>, Vec<River>))
    requires
        mesh.wf(),
        all_cells_have_downhill_spec(*mesh),
        -Z_BOUND <= flow_to_width.0 <= flow_to_width.1 <= Z_BOUND,
        flow_to_width.1 - flow_to_width.0 <= MAX_WIDTH_SPAN,
    ensures
        exists|dm: RandomDownhillMap, fm: FlowMap|
            {
                &&& #[trigger] descends(*mesh, &dm)
                &&& #[trigger] fm.wf()
                &&& fm.width == mesh.width
                &&& forall|x: int, y: int|
                    fm.in_bounds_spec(x, y) ==> #[trigger] fm.flow_at_spec(x, y) as int
                        == flow_spec(*mesh, &dm, x, y)
                &&& junctions_and_rivers_ok(
                    *mesh,
                    &dm,
                    fm,
                    threshold,
                    sea_level,
                    flow_to_width,
                    r.0@,
                    r.1@,
                )
            },
{
    let downhill = Downhill::new(mesh);
    let random_downhill_map = RandomDownhillMap::new(&downhill, rng);
    proof {
        lemma_random_map_descends(*mesh, downhill, random_downhill_map);
    }
    let flow_map = FlowMap::from(mesh, &random_downhill_map);
    let r = get_junctions_and_rivers_from_flow_map(
        mesh,
        threshold,
        sea_level,
        flow_to_width,
        &random_downhill_map,
        &flow_map,
    );
    r
}

} // verus!
