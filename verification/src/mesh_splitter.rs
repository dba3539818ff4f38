//! One pass of 2x refinement: every parent cell becomes four children whose
//! elevations are sampled from intervals built so that a downhill path exists
//! wherever the samples land strictly inside their intervals. Each child's
//! interval starts at the minimum of the parent and its three corner-adjacent
//! neighbours and is narrowed from above by the parent elevation; processing
//! in ascending order of interval bottoms widens the remaining intervals
//! downwards with every emitted sample.

use vstd::prelude::*;
use crate::downhill::{dir_dx, dir_dy, all_cells_have_downhill_spec, downhill_dir_spec,
    cell_has_downhill_spec};
use crate::mesh::{Mesh, MAX_WIDTH};
use crate::rand::Rng;
use crate::scale::{Scale, UNIT, Z_BOUND};

verus! {

/// One sampled child cell: absolute coordinate and elevation.
pub struct Split {
    pub x: i32,
    pub y: i32,
    pub z: i64,
}

/// A one-step offset towards one of the eight neighbours.
pub open spec fn unit_offset(wdx: int, wdy: int) -> bool {
    -1 <= wdx <= 1 && -1 <= wdy <= 1 && !(wdx == 0 && wdy == 0)
}

/// A one-step-or-zero offset: the 3x3 neighbourhood around a parent cell.
pub open spec fn near_offset(wdx: int, wdy: int) -> bool {
    -1 <= wdx <= 1 && -1 <= wdy <= 1
}

/// `v` does not lie below the whole 3x3 neighbourhood of parent `(px, py)`:
/// some member of that neighbourhood (the parent itself, a neighbour, or the
/// sentinel where a neighbour is out of bounds) sits at or below `v`.
pub open spec fn above_neighbourhood_floor(m: Mesh, px: int, py: int, v: int) -> bool {
    exists|wdx: int, wdy: int| #[trigger] near_offset(wdx, wdy) && m.z_at(px + wdx, py + wdy) <= v
}

/// Raising the bound keeps the floor witness.
proof fn lemma_floor_mono(m: Mesh, px: int, py: int, v1: int, v2: int)
    requires
        above_neighbourhood_floor(m, px, py, v1),
        v1 <= v2,
    ensures
        above_neighbourhood_floor(m, px, py, v2),
{
    let (wdx, wdy) = choose|wdx: int, wdy: int|
        #[trigger] near_offset(wdx, wdy) && m.z_at(px + wdx, py + wdy) <= v1;
    assert(near_offset(wdx, wdy) && m.z_at(px + wdx, py + wdy) <= v2);
}

/// A child offset `wd` points at a corner-adjacent parent neighbour of the
/// child at coordinate `c`: zero stays inside the parent, and a step of one
/// must leave the parent cell, which depends on the child's parity.
pub open spec fn corner_ok(c: int, wd: int) -> bool {
    wd == 0 || (wd == 1 && c % 2 == 1) || (wd == -1 && c % 2 == 0)
}

/// Next to child cell `(cx, cy)` of parent `(px, py)`, some already-emitted
/// sibling sample or some corner-adjacent parent elevation sits at or below
/// the bound `b`.
pub open spec fn rule_backed(
    m: Mesh,
    px: int,
    py: int,
    cx: int,
    cy: int,
    splits: Seq<Split>,
    b: int,
) -> bool {
    exists|wdx: int, wdy: int|
        #[trigger] unit_offset(wdx, wdy) && ((exists|j: int|
            0 <= j < splits.len() && (#[trigger] splits[j]).x == cx + wdx && splits[j].y == cy + wdy
                && splits[j].z <= b) || (corner_ok(cx, wdx) && corner_ok(cy, wdy) && m.z_at(
            px + wdx,
            py + wdy,
        ) <= b))
}

/// The emitted child `k` has a strictly lower witness: a sibling sample or a
/// corner-adjacent parent elevation strictly below its own sample.
pub open spec fn split_supported(m: Mesh, px: int, py: int, splits: Seq<Split>, k: int) -> bool {
    rule_backed(m, px, py, splits[k].x as int, splits[k].y as int, splits, splits[k].z - 1)
}

/// Every refined cell sits at or below its parent cell.
pub open spec fn children_bounded(m: Mesh, out: Mesh) -> bool {
    forall|cx: int, cy: int|
        out.in_bounds_spec(cx, cy) ==> #[trigger] out.z_at(cx, cy) <= m.z_at(cx / 2, cy / 2)
}

/// Every refined cell sits at or above the lowest elevation in its parent's
/// 3x3 neighbourhood, the sentinel included: refinement never digs below the
/// local floor.
pub open spec fn children_floored(m: Mesh, out: Mesh) -> bool {
    forall|cx: int, cy: int|
        out.in_bounds_spec(cx, cy) ==> #[trigger] above_neighbourhood_floor(
            m,
            cx / 2,
            cy / 2,
            out.z_at(cx, cy),
        )
}

/// The refined cell `(cx, cy)` has, next to it, either a refined cell that
/// already sits strictly lower, or a corner-adjacent parent neighbour whose
/// elevation is strictly lower.
pub open spec fn child_supported(m: Mesh, out: Mesh, cx: int, cy: int) -> bool {
    exists|wdx: int, wdy: int|
        #[trigger] unit_offset(wdx, wdy) && (out.z_at(cx + wdx, cy + wdy) < out.z_at(cx, cy) || (
        corner_ok(cx, wdx) && corner_ok(cy, wdy) && m.z_at(cx / 2 + wdx, cy / 2 + wdy) < out.z_at(
            cx,
            cy,
        )))
}

/// Some emitted sample sits at child offset `(ox, oy)` of parent `(x, y)`.
pub open spec fn has_corner(splits: Seq<Split>, x: int, y: int, ox: int, oy: int) -> bool {
    exists|k: int|
        0 <= k < splits.len() && (#[trigger] splits[k]).x == 2 * x + ox && splits[k].y == 2 * y
            + oy
}

/// Every unit offset is the offset of one of the eight directions.
proof fn lemma_offset_to_dir(wdx: int, wdy: int)
    requires
        -1 <= wdx <= 1,
        -1 <= wdy <= 1,
        !(wdx == 0 && wdy == 0),
    ensures
        exists|d: int| 0 <= d < 8 && dir_dx(d) == wdx && #[trigger] dir_dy(d) == wdy,
{
    if wdx == -1 && wdy == 0 {
        assert(dir_dx(0) == wdx && dir_dy(0) == wdy);
    } else if wdx == -1 && wdy == -1 {
        assert(dir_dx(1) == wdx && dir_dy(1) == wdy);
    } else if wdx == 0 && wdy == -1 {
        assert(dir_dx(2) == wdx && dir_dy(2) == wdy);
    } else if wdx == 1 && wdy == -1 {
        assert(dir_dx(3) == wdx && dir_dy(3) == wdy);
    } else if wdx == 1 && wdy == 0 {
        assert(dir_dx(4) == wdx && dir_dy(4) == wdy);
    } else if wdx == 1 && wdy == 1 {
        assert(dir_dx(5) == wdx && dir_dy(5) == wdy);
    } else if wdx == 0 && wdy == 1 {
        assert(dir_dx(6) == wdx && dir_dy(6) == wdy);
    } else {
        assert(dir_dx(7) == wdx && dir_dy(7) == wdy);
    }
}

/// A child coordinate stepped by a corner-compatible offset lands in the
/// block of the parent stepped by the same offset.
proof fn lemma_corner_step_parent(c: int, wd: int)
    requires
        0 <= c,
        corner_ok(c, wd),
    ensures
        wd == 0 ==> (c + wd) / 2 == c / 2,
        wd != 0 && 0 <= c + wd ==> (c + wd) / 2 == c / 2 + wd,
{
    let p = c / 2;
    vstd::arithmetic::div_mod::lemma_fundamental_div_mod(c, 2);
    if wd == 1 {
        // c == 2p + 1, so c + 1 == 2(p + 1)
        vstd::arithmetic::div_mod::lemma_fundamental_div_mod_converse(c + 1, 2, p + 1, 0);
    } else if wd == -1 && 0 <= c - 1 {
        // c == 2p, so c - 1 == 2(p - 1) + 1
        vstd::arithmetic::div_mod::lemma_fundamental_div_mod_converse(c - 1, 2, p - 1, 1);
    }
}

/// The downhill-preservation argument: if every refined cell is bounded by
/// its parent and has a strictly lower witness, the refined mesh is
/// downhill-complete.
proof fn lemma_supported_mesh_downhill(m: Mesh, out: Mesh)
    requires
        m.wf(),
        out.wf(),
        out.width == 2 * m.width,
        out.out_of_bounds_z == m.out_of_bounds_z,
        children_bounded(m, out),
        forall|cx: int, cy: int|
            out.in_bounds_spec(cx, cy) ==> #[trigger] child_supported(m, out, cx, cy),
    ensures
        all_cells_have_downhill_spec(out),
{
    assert forall|cx: int, cy: int| out.in_bounds_spec(cx, cy) implies cell_has_downhill_spec(
        out,
        cx,
        cy,
    ) by {
        assert(child_supported(m, out, cx, cy));
        let (wdx, wdy) = choose|wdx: int, wdy: int|
            #[trigger] unit_offset(wdx, wdy) && (out.z_at(cx + wdx, cy + wdy) < out.z_at(cx, cy)
                || (corner_ok(cx, wdx) && corner_ok(cy, wdy) && m.z_at(cx / 2 + wdx, cy / 2 + wdy)
                < out.z_at(cx, cy)));
        lemma_offset_to_dir(wdx, wdy);
        let d = choose|d: int| 0 <= d < 8 && dir_dx(d) == wdx && #[trigger] dir_dy(d) == wdy;
        if out.z_at(cx + wdx, cy + wdy) < out.z_at(cx, cy) {
            assert(downhill_dir_spec(out, cx, cy, d));
        } else {
            let px = cx / 2;
            let py = cy / 2;
            vstd::arithmetic::div_mod::lemma_fundamental_div_mod(cx, 2);
            vstd::arithmetic::div_mod::lemma_fundamental_div_mod(cy, 2);
            assert(0 <= px < m.width as int && 0 <= py < m.width as int);
            lemma_corner_step_parent(cx, wdx);
            lemma_corner_step_parent(cy, wdy);
            if m.in_bounds_spec(px + wdx, py + wdy) {
                // the facing child of the lower parent neighbour is in bounds
                // and bounded by that neighbour
                assert(0 <= cx + wdx && cx + wdx < out.width as int);
                assert(0 <= cy + wdy && cy + wdy < out.width as int);
                assert((cx + wdx) / 2 == px + wdx && (cy + wdy) / 2 == py + wdy);
                assert(out.z_at(cx + wdx, cy + wdy) <= m.z_at(px + wdx, py + wdy));
                assert(downhill_dir_spec(out, cx, cy, d));
            } else {
                // the parent neighbour is out of bounds, and so is the child
                // neighbour, which therefore reads the shared sentinel
                assert(!out.in_bounds_spec(cx + wdx, cy + wdy));
                assert(out.z_at(cx + wdx, cy + wdy) == m.z_at(px + wdx, py + wdy));
                assert(downhill_dir_spec(out, cx, cy, d));
            }
        }
    }
}

/// The interval bottom of the not-yet-processed rule for corner `c` is
/// either the parent elevation itself or is backed by a witness at or below
/// it.
pub open spec fn rule_inv(
    m: Mesh,
    px: int,
    py: int,
    c: int,
    lo: int,
    zp: int,
    splits: Seq<Split>,
) -> bool {
    lo == zp || rule_backed(m, px, py, 2 * px + c / 2, 2 * py + c % 2, splits, lo)
}

/// Backing is monotone: it survives raising the bound and appending samples.
proof fn lemma_rule_backed_mono(
    m: Mesh,
    px: int,
    py: int,
    cx: int,
    cy: int,
    s1: Seq<Split>,
    s2: Seq<Split>,
    b1: int,
    b2: int,
)
    requires
        b1 <= b2,
        s1.len() <= s2.len(),
        forall|j: int| 0 <= j < s1.len() ==> s2[j] == s1[j],
        rule_backed(m, px, py, cx, cy, s1, b1),
    ensures
        rule_backed(m, px, py, cx, cy, s2, b2),
{
    let (wdx, wdy) = choose|wdx: int, wdy: int|
        #[trigger] unit_offset(wdx, wdy) && ((exists|j: int|
            0 <= j < s1.len() && (#[trigger] s1[j]).x == cx + wdx && s1[j].y == cy + wdy && s1[j].z
                <= b1) || (corner_ok(cx, wdx) && corner_ok(cy, wdy) && m.z_at(px + wdx, py + wdy)
            <= b1));
    assert(unit_offset(wdx, wdy));
    if exists|j: int|
        0 <= j < s1.len() && (#[trigger] s1[j]).x == cx + wdx && s1[j].y == cy + wdy && s1[j].z
            <= b1 {
        let j = choose|j: int|
            0 <= j < s1.len() && (#[trigger] s1[j]).x == cx + wdx && s1[j].y == cy + wdy && s1[j].z
                <= b1;
        assert(0 <= j < s2.len() && s2[j].x == cx + wdx && s2[j].y == cy + wdy && s2[j].z <= b2);
    }
}

fn min2(a: i64, b: i64) -> (r: i64)
    ensures
        r == (if a < b {
            a
        } else {
            b
        }),
{
    if a < b {
        a
    } else {
        b
    }
}

/// Builds, orders and samples the four child rules of one parent cell.
/// Returns the four samples and whether every sample fell strictly inside
/// its interval at processing time.
fn split_cell<R: Rng>(mesh: &Mesh, rng: &mut R, random_range: (i64, i64), x: i32, y: i32) -> (r: (
    Vec<Split>,
    bool,
))
    requires
        mesh.wf(),
        mesh.in_bounds_spec(x as int, y as int),
        mesh.width <= MAX_WIDTH / 2,
        0 <= random_range.0 <= random_range.1 <= UNIT,
    ensures
        r.0@.len() == 4,
        forall|k: int|
            0 <= k < 4 ==> ((#[trigger] r.0@[k]).x == 2 * x || r.0@[k].x == 2 * x + 1) && (
            r.0@[k].y == 2 * y || r.0@[k].y == 2 * y + 1),
        forall|k: int, l: int|
            0 <= k < 4 && 0 <= l < 4 && k != l ==> !((#[trigger] r.0@[k]).x == (
            #[trigger] r.0@[l]).x && r.0@[k].y == r.0@[l].y),
        forall|ox: int, oy: int|
            0 <= ox < 2 && 0 <= oy < 2 ==> #[trigger] has_corner(r.0@, x as int, y as int, ox, oy),
        forall|k: int|
            0 <= k < 4 ==> (#[trigger] r.0@[k]).z <= mesh.z_at(x as int, y as int) && -Z_BOUND
                <= r.0@[k].z <= Z_BOUND,
        forall|k: int|
            0 <= k < 4 ==> above_neighbourhood_floor(
                *mesh,
                x as int,
                y as int,
                (#[trigger] r.0@[k]).z as int,
            ),
        r.1 ==> forall|k: int|
            0 <= k < 4 ==> #[trigger] split_supported(*mesh, x as int, y as int, r.0@, k),
{
    let ghost px = x as int;
    let ghost py = y as int;
    let zp = mesh.get_z(x, y);

    // interval bottoms, one per corner in encounter order
    let mut lo: Vec<i64> = Vec::new();
    let mut c: usize = 0;
    while c < 4
        invariant
            c <= 4,
            mesh.wf(),
            mesh.in_bounds_spec(px, py),
            mesh.width <= MAX_WIDTH / 2,
            px == x as int && py == y as int,
            zp as int == mesh.z_at(px, py),
            lo@.len() == c as int,
            forall|i: int|
                0 <= i < c as int ==> #[trigger] lo@[i] <= zp && -Z_BOUND <= lo@[i] <= Z_BOUND,
            forall|i: int|
                0 <= i < c as int ==> rule_inv(
                    *mesh,
                    px,
                    py,
                    i,
                    #[trigger] lo@[i] as int,
                    zp as int,
                    Seq::<Split>::empty(),
                ),
            forall|i: int|
                0 <= i < c as int ==> above_neighbourhood_floor(
                    *mesh,
                    px,
                    py,
                    #[trigger] lo@[i] as int,
                ),
        decreases 4 - c,
    {
        let ox: i32 = if c >= 2 {
            1
        } else {
            0
        };
        let oy: i32 = if c % 2 == 1 {
            1
        } else {
            0
        };
        let dxi: i32 = 2 * ox - 1;
        let dyi: i32 = 2 * oy - 1;
        let n1 = mesh.get_z(x + dxi, y);
        let n2 = mesh.get_z(x, y + dyi);
        let n3 = mesh.get_z(x + dxi, y + dyi);
        let l = min2(min2(n1, n2), min2(n3, zp));
        proof {
            let ci = c as int;
            let cx = 2 * px + ci / 2;
            let cy = 2 * py + ci % 2;
            vstd::arithmetic::div_mod::lemma_fundamental_div_mod_converse(
                ci,
                2,
                ox as int,
                oy as int,
            );
            assert(cx % 2 == ox as int) by {
                vstd::arithmetic::div_mod::lemma_fundamental_div_mod_converse(
                    2 * px + ci / 2,
                    2,
                    px,
                    ox as int,
                );
            }
            assert(cy % 2 == oy as int) by {
                vstd::arithmetic::div_mod::lemma_fundamental_div_mod_converse(
                    2 * py + ci % 2,
                    2,
                    py,
                    oy as int,
                );
            }
            if l < zp {
                if l as int == mesh.z_at(px + dxi as int, py) {
                    assert(unit_offset(dxi as int, 0));
                    assert(corner_ok(cx, dxi as int) && corner_ok(cy, 0));
                    assert(rule_backed(*mesh, px, py, cx, cy, Seq::<Split>::empty(), l as int));
                } else if l as int == mesh.z_at(px, py + dyi as int) {
                    assert(unit_offset(0, dyi as int));
                    assert(corner_ok(cx, 0) && corner_ok(cy, dyi as int));
                    assert(rule_backed(*mesh, px, py, cx, cy, Seq::<Split>::empty(), l as int));
                } else {
                    assert(l as int == mesh.z_at(px + dxi as int, py + dyi as int));
                    assert(unit_offset(dxi as int, dyi as int));
                    assert(corner_ok(cx, dxi as int) && corner_ok(cy, dyi as int));
                    assert(rule_backed(*mesh, px, py, cx, cy, Seq::<Split>::empty(), l as int));
                }
            }
            assert(rule_inv(*mesh, px, py, ci, l as int, zp as int, Seq::<Split>::empty()));
            if l == zp {
                assert(near_offset(0, 0) && mesh.z_at(px + 0, py + 0) <= l as int);
            } else if l as int == mesh.z_at(px + dxi as int, py) {
                assert(near_offset(dxi as int, 0));
            } else if l as int == mesh.z_at(px, py + dyi as int) {
                assert(near_offset(0, dyi as int));
            } else {
                assert(near_offset(dxi as int, dyi as int));
            }
            assert(above_neighbourhood_floor(*mesh, px, py, l as int));
        }
        lo.push(l);
        c = c + 1;
    }

    // stable ascending order of the four rules by interval bottom
    let mut order: Vec<usize> = Vec::new();
    order.push(0);
    order.push(1);
    order.push(2);
    order.push(3);
    proof {
        assert(order@[0] == 0 && order@[1] == 1 && order@[2] == 2 && order@[3] == 3);
    }
    let mut i: usize = 0;
    while i < 4
        invariant
            i <= 4,
            lo@.len() == 4,
            order@.len() == 4,
            forall|k: int| 0 <= k < 4 ==> #[trigger] order@[k] < 4,
            exists|k: int| 0 <= k < 4 && #[trigger] order@[k] == 0,
            exists|k: int| 0 <= k < 4 && #[trigger] order@[k] == 1,
            exists|k: int| 0 <= k < 4 && #[trigger] order@[k] == 2,
            exists|k: int| 0 <= k < 4 && #[trigger] order@[k] == 3,
            forall|k: int, l2: int| 0 <= k < 4 && 0 <= l2 < 4 && k != l2 ==> order@[k] != order@[l2],
        decreases 4 - i,
    {
        let mut best: usize = i;
        let mut j: usize = i + 1;
        while j < 4
            invariant
                i < 4,
                i <= best < 4,
                i < j <= 4,
                lo@.len() == 4,
                order@.len() == 4,
                forall|k: int| 0 <= k < 4 ==> #[trigger] order@[k] < 4,
            decreases 4 - j,
        {
            let a = order[j];
            let b = order[best];
            if lo[a] < lo[b] || (lo[a] == lo[b] && a < b) {
                best = j;
            }
            j = j + 1;
        }
        let a = order[i];
        let b = order[best];
        let ghost pre_order = order@;
        order.set(i, b);
        order.set(best, a);
        proof {
            let i0 = i as int;
            let b0 = best as int;
            let k0 = choose|k: int| 0 <= k < 4 && pre_order[k] == 0;
            if k0 == i0 {
                assert(order@[b0] == 0);
            } else if k0 == b0 {
                assert(order@[i0] == 0);
            } else {
                assert(order@[k0] == 0);
            }
            let k1 = choose|k: int| 0 <= k < 4 && pre_order[k] == 1;
            if k1 == i0 {
                assert(order@[b0] == 1);
            } else if k1 == b0 {
                assert(order@[i0] == 1);
            } else {
                assert(order@[k1] == 1);
            }
            let k2 = choose|k: int| 0 <= k < 4 && pre_order[k] == 2;
            if k2 == i0 {
                assert(order@[b0] == 2);
            } else if k2 == b0 {
                assert(order@[i0] == 2);
            } else {
                assert(order@[k2] == 2);
            }
            let k3 = choose|k: int| 0 <= k < 4 && pre_order[k] == 3;
            if k3 == i0 {
                assert(order@[b0] == 3);
            } else if k3 == b0 {
                assert(order@[i0] == 3);
            } else {
                assert(order@[k3] == 3);
            }
        }
        i = i + 1;
    }

    // process the rules in order, widening the remaining bottoms downwards
    let mut splits: Vec<Split> = Vec::new();
    let mut strict = true;
    let mut step: usize = 0;
    while step < 4
        invariant
            step <= 4,
            mesh.wf(),
            mesh.in_bounds_spec(px, py),
            mesh.width <= MAX_WIDTH / 2,
            px == x as int && py == y as int,
            zp as int == mesh.z_at(px, py),
            -Z_BOUND <= zp <= Z_BOUND,
            0 <= random_range.0 <= random_range.1 <= UNIT,
            lo@.len() == 4,
            order@.len() == 4,
            forall|k: int| 0 <= k < 4 ==> #[trigger] order@[k] < 4,
            exists|k: int| 0 <= k < 4 && #[trigger] order@[k] == 0,
            exists|k: int| 0 <= k < 4 && #[trigger] order@[k] == 1,
            exists|k: int| 0 <= k < 4 && #[trigger] order@[k] == 2,
            exists|k: int| 0 <= k < 4 && #[trigger] order@[k] == 3,
            forall|k: int, l2: int| 0 <= k < 4 && 0 <= l2 < 4 && k != l2 ==> order@[k] != order@[l2],
            splits@.len() == step as int,
            forall|k: int|
                0 <= k < step as int ==> (#[trigger] splits@[k]).x == 2 * px + (
                order@[k] as int) / 2 && splits@[k].y == 2 * py + (order@[k] as int) % 2,
            forall|k: int|
                0 <= k < step as int ==> (#[trigger] splits@[k]).z <= zp && -Z_BOUND <= splits@[k].z
                    <= Z_BOUND,
            forall|k: int|
                0 <= k < step as int ==> above_neighbourhood_floor(
                    *mesh,
                    px,
                    py,
                    (#[trigger] splits@[k]).z as int,
                ),
            strict ==> forall|k: int|
                0 <= k < step as int ==> #[trigger] split_supported(*mesh, px, py, splits@, k),
            forall|l2: int|
                step as int <= l2 < 4 ==> #[trigger] lo@[order@[l2] as int] <= zp && -Z_BOUND
                    <= lo@[order@[l2] as int] <= Z_BOUND,
            forall|l2: int|
                step as int <= l2 < 4 ==> above_neighbourhood_floor(
                    *mesh,
                    px,
                    py,
                    #[trigger] lo@[order@[l2] as int] as int,
                ),
            forall|l2: int|
                step as int <= l2 < 4 ==> rule_inv(
                    *mesh,
                    px,
                    py,
                    order@[l2] as int,
                    #[trigger] lo@[order@[l2] as int] as int,
                    zp as int,
                    splits@,
                ),
        decreases 4 - step,
    {
        let k = order[step];
        let lk = lo[k];
        let v = rng.gen_range(random_range.0, random_range.1);
        let scale = Scale::new((0, UNIT), (lk, zp));
        proof {
            crate::scale::lemma_affine_endpoints(0, UNIT as int, lk as int, zp as int, v as int);
        }
        let zc = scale.scale(v);
        let s_ok = zc > lk && zc < zp;
        if !s_ok {
            strict = false;
        }
        let oxk: i32 = if k >= 2 {
            1
        } else {
            0
        };
        let oyk: i32 = if k % 2 == 1 {
            1
        } else {
            0
        };
        let ghost pre_splits = splits@;
        splits.push(Split { x: 2 * x + oxk, y: 2 * y + oyk, z: zc });
        proof {
            assert(above_neighbourhood_floor(*mesh, px, py, lk as int));
            lemma_floor_mono(*mesh, px, py, lk as int, zc as int);
            vstd::arithmetic::div_mod::lemma_fundamental_div_mod_converse(
                k as int,
                2,
                oxk as int,
                oyk as int,
            );
            // earlier samples and rule backings survive the push
            assert forall|kk: int|
                strict && 0 <= kk < step as int implies #[trigger] split_supported(
                *mesh,
                px,
                py,
                splits@,
                kk,
            ) by {
                assert(split_supported(*mesh, px, py, pre_splits, kk));
                lemma_rule_backed_mono(
                    *mesh,
                    px,
                    py,
                    pre_splits[kk].x as int,
                    pre_splits[kk].y as int,
                    pre_splits,
                    splits@,
                    pre_splits[kk].z - 1,
                    splits@[kk].z - 1,
                );
            }
            // the fresh sample is supported when it landed strictly inside
            if strict {
                assert(zc > lk && zc < zp);
                assert(lk < zp);
                assert(rule_inv(*mesh, px, py, k as int, lk as int, zp as int, pre_splits));
                lemma_rule_backed_mono(
                    *mesh,
                    px,
                    py,
                    2 * px + (k as int) / 2,
                    2 * py + (k as int) % 2,
                    pre_splits,
                    splits@,
                    lk as int,
                    zc - 1,
                );
                assert(split_supported(*mesh, px, py, splits@, step as int));
            }
        }
        proof {
            assert(splits@.drop_last() =~= pre_splits);
        }
        // widen the remaining rook-adjacent rules downwards
        let mut l2: usize = step + 1;
        while l2 < 4
            invariant
                step < 4,
                step < l2 <= 4,
                mesh.wf(),
                px == x as int && py == y as int,
                zp as int == mesh.z_at(px, py),
                -Z_BOUND <= zp <= Z_BOUND,
                -Z_BOUND <= zc <= Z_BOUND,
                zc <= zp,
                k == order@[step as int],
                k < 4,
                oxk as int == (k as int) / 2,
                oyk as int == (k as int) % 2,
                lo@.len() == 4,
                order@.len() == 4,
                forall|kk: int| 0 <= kk < 4 ==> #[trigger] order@[kk] < 4,
                forall|kk: int, ll: int|
                    0 <= kk < 4 && 0 <= ll < 4 && kk != ll ==> order@[kk] != order@[ll],
                splits@.len() == step as int + 1,
                splits@[step as int].x == 2 * px + (k as int) / 2,
                splits@[step as int].y == 2 * py + (k as int) % 2,
                splits@[step as int].z == zc,
                above_neighbourhood_floor(*mesh, px, py, zc as int),
                forall|ll: int|
                    step as int + 1 <= ll < 4 ==> above_neighbourhood_floor(
                        *mesh,
                        px,
                        py,
                        #[trigger] lo@[order@[ll] as int] as int,
                    ),
                forall|ll: int|
                    step as int + 1 <= ll < 4 ==> #[trigger] lo@[order@[ll] as int] <= zp
                        && -Z_BOUND <= lo@[order@[ll] as int] <= Z_BOUND,
                forall|ll: int|
                    step as int + 1 <= ll < l2 as int ==> rule_inv(
                        *mesh,
                        px,
                        py,
                        order@[ll] as int,
                        #[trigger] lo@[order@[ll] as int] as int,
                        zp as int,
                        splits@,
                    ),
                forall|ll: int|
                    l2 as int <= ll < 4 ==> rule_inv(
                        *mesh,
                        px,
                        py,
                        order@[ll] as int,
                        #[trigger] lo@[order@[ll] as int] as int,
                        zp as int,
                        splits@.drop_last(),
                    ),
            decreases 4 - l2,
        {
            let j = order[l2];
            let oxj: i32 = if j >= 2 {
                1
            } else {
                0
            };
            let oyj: i32 = if j % 2 == 1 {
                1
            } else {
                0
            };
            proof {
                vstd::arithmetic::div_mod::lemma_fundamental_div_mod_converse(
                    j as int,
                    2,
                    oxj as int,
                    oyj as int,
                );
            }
            if oxj == oxk || oyj == oyk {
                let cur = lo[j];
                if zc < cur {
                    lo.set(j, zc);
                    proof {
                        let cxj = 2 * px + (j as int) / 2;
                        let cyj = 2 * py + (j as int) % 2;
                        let wdx = oxk as int - oxj as int;
                        let wdy = oyk as int - oyj as int;
                        vstd::arithmetic::div_mod::lemma_fundamental_div_mod(k as int, 2);
                        vstd::arithmetic::div_mod::lemma_fundamental_div_mod(j as int, 2);
                        assert(order@[step as int] != order@[l2 as int]);
                        assert(k != j);
                        assert(!(oxk == oxj && oyk == oyj));
                        assert(splits@[step as int].x == cxj + wdx);
                        assert(splits@[step as int].y == cyj + wdy);
                        assert(!(wdx == 0 && wdy == 0));
                        assert(-1 <= wdx <= 1 && -1 <= wdy <= 1);
                        assert(unit_offset(wdx, wdy));
                        assert(exists|jj: int|
                            0 <= jj < splits@.len() && (#[trigger] splits@[jj]).x == cxj + wdx
                                && splits@[jj].y == cyj + wdy && splits@[jj].z <= zc as int);
                        assert(rule_backed(*mesh, px, py, cxj, cyj, splits@, zc as int));
                        assert(rule_inv(*mesh, px, py, j as int, zc as int, zp as int, splits@));
                    }
                } else {
                    proof {
                        lemma_rule_inv_push(*mesh, px, py, j as int, cur as int, zp as int, splits@);
                    }
                }
            } else {
                proof {
                    lemma_rule_inv_push(
                        *mesh,
                        px,
                        py,
                        j as int,
                        lo@[j as int] as int,
                        zp as int,
                        splits@,
                    );
                }
            }
            l2 = l2 + 1;
        }
        step = step + 1;
    }
    proof {
        assert forall|ox: int, oy: int| 0 <= ox < 2 && 0 <= oy < 2 implies #[trigger] has_corner(
            splits@,
            x as int,
            y as int,
            ox,
            oy,
        ) by {
            let cc = ox * 2 + oy;
            assert(0 <= cc < 4);
            let k = if cc == 0 {
                choose|k: int| 0 <= k < 4 && #[trigger] order@[k] == 0
            } else if cc == 1 {
                choose|k: int| 0 <= k < 4 && #[trigger] order@[k] == 1
            } else if cc == 2 {
                choose|k: int| 0 <= k < 4 && #[trigger] order@[k] == 2
            } else {
                choose|k: int| 0 <= k < 4 && #[trigger] order@[k] == 3
            };
            assert(0 <= k < 4 && order@[k] == cc);
            vstd::arithmetic::div_mod::lemma_fundamental_div_mod_converse(cc, 2, ox, oy);
            assert(splits@[k].x == 2 * px + cc / 2 && splits@[k].y == 2 * py + cc % 2);
            assert(splits@[k].x == 2 * (x as int) + ox && splits@[k].y == 2 * (y as int) + oy);
        }
        assert forall|k: int, l: int|
            0 <= k < 4 && 0 <= l < 4 && k != l implies !((#[trigger] splits@[k]).x == (
        #[trigger] splits@[l]).x && splits@[k].y == splits@[l].y) by {
            let ck = order@[k] as int;
            let cl = order@[l] as int;
            assert(ck != cl);
            vstd::arithmetic::div_mod::lemma_fundamental_div_mod(ck, 2);
            vstd::arithmetic::div_mod::lemma_fundamental_div_mod(cl, 2);
        }
        assert forall|k: int| 0 <= k < 4 implies ((#[trigger] splits@[k]).x == 2 * x
            || splits@[k].x == 2 * x + 1) && (splits@[k].y == 2 * y || splits@[k].y == 2 * y
            + 1) by {
            let ck = order@[k] as int;
            vstd::arithmetic::div_mod::lemma_fundamental_div_mod(ck, 2);
        }
    }
    (splits, strict)
}

/// A rule backed against a prefix is backed against the extended sequence.
proof fn lemma_rule_inv_push(m: Mesh, px: int, py: int, c: int, lo: int, zp: int, splits: Seq<Split>)
    requires
        splits.len() >= 1,
        rule_inv(m, px, py, c, lo, zp, splits.drop_last()),
    ensures
        rule_inv(m, px, py, c, lo, zp, splits),
{
    if lo != zp {
        lemma_rule_backed_mono(
            m,
            px,
            py,
            2 * px + c / 2,
            2 * py + c % 2,
            splits.drop_last(),
            splits,
            lo,
            lo,
        );
    }
}

/// The parent block `(px, py)` precedes position `(x, y)` in row-major
/// processing order.
pub open spec fn block_done(px: int, py: int, x: int, y: int) -> bool {
    px < x || (px == x && py < y)
}

/// Like `child_supported`, but a strictly lower refined witness must lie in
/// the cell's own 2x2 block, where it is already final while later blocks
/// are still being written.
pub open spec fn child_supported_here(m: Mesh, out: Mesh, cx: int, cy: int) -> bool {
    exists|wdx: int, wdy: int|
        #[trigger] unit_offset(wdx, wdy) && (((cx + wdx) / 2 == cx / 2 && (cy + wdy) / 2 == cy / 2
            && out.z_at(cx + wdx, cy + wdy) < out.z_at(cx, cy)) || (corner_ok(cx, wdx)
            && corner_ok(cy, wdy) && m.z_at(cx / 2 + wdx, cy / 2 + wdy) < out.z_at(cx, cy)))
}

/// All written cells sit at or below their parents.
pub open spec fn region_bounded(m: Mesh, out: Mesh, x: int, y: int) -> bool {
    forall|cx: int, cy: int|
        out.in_bounds_spec(cx, cy) && block_done(cx / 2, cy / 2, x, y) ==> #[trigger] out.z_at(
            cx,
            cy,
        ) <= m.z_at(cx / 2, cy / 2)
}

/// All written cells have their block-local or parent witness.
pub open spec fn region_supported(m: Mesh, out: Mesh, x: int, y: int) -> bool {
    forall|cx: int, cy: int|
        out.in_bounds_spec(cx, cy) && block_done(cx / 2, cy / 2, x, y)
            ==> #[trigger] child_supported_here(m, out, cx, cy)
}

/// All written cells sit at or above their parent's neighbourhood floor.
pub open spec fn region_floored(m: Mesh, out: Mesh, x: int, y: int) -> bool {
    forall|cx: int, cy: int|
        out.in_bounds_spec(cx, cy) && block_done(cx / 2, cy / 2, x, y)
            ==> #[trigger] above_neighbourhood_floor(m, cx / 2, cy / 2, out.z_at(cx, cy))
}

proof fn lemma_child_div(x: int, ox: int)
    requires
        0 <= ox < 2,
        0 <= x,
    ensures
        (2 * x + ox) / 2 == x,
        (2 * x + ox) % 2 == ox,
{
    vstd::arithmetic::div_mod::lemma_fundamental_div_mod_converse(2 * x + ox, 2, x, ox);
}

/// A block-local witness is in particular a witness.
proof fn lemma_here_implies_supported(m: Mesh, out: Mesh, cx: int, cy: int)
    requires
        child_supported_here(m, out, cx, cy),
    ensures
        child_supported(m, out, cx, cy),
{
    let (wdx, wdy) = choose|wdx: int, wdy: int|
        #[trigger] unit_offset(wdx, wdy) && (((cx + wdx) / 2 == cx / 2 && (cy + wdy) / 2 == cy / 2
            && out.z_at(cx + wdx, cy + wdy) < out.z_at(cx, cy)) || (corner_ok(cx, wdx)
            && corner_ok(cy, wdy) && m.z_at(cx / 2 + wdx, cy / 2 + wdy) < out.z_at(cx, cy)));
    assert(unit_offset(wdx, wdy));
}

/// Rewriting cells of other blocks never disturbs a block-local witness.
proof fn lemma_here_frame(m: Mesh, out1: Mesh, out2: Mesh, cx: int, cy: int)
    requires
        child_supported_here(m, out1, cx, cy),
        out1.width == out2.width,
        out1.out_of_bounds_z == out2.out_of_bounds_z,
        0 <= cx && 0 <= cy,
        forall|ax: int, ay: int|
            0 <= ax && 0 <= ay && ax / 2 == cx / 2 && ay / 2 == cy / 2 ==> #[trigger] out2.z_at(
                ax,
                ay,
            ) == out1.z_at(ax, ay),
    ensures
        child_supported_here(m, out2, cx, cy),
{
    let (wdx, wdy) = choose|wdx: int, wdy: int|
        #[trigger] unit_offset(wdx, wdy) && (((cx + wdx) / 2 == cx / 2 && (cy + wdy) / 2 == cy / 2
            && out1.z_at(cx + wdx, cy + wdy) < out1.z_at(cx, cy)) || (corner_ok(cx, wdx)
            && corner_ok(cy, wdy) && m.z_at(cx / 2 + wdx, cy / 2 + wdy) < out1.z_at(cx, cy)));
    assert(unit_offset(wdx, wdy));
    assert(out2.z_at(cx, cy) == out1.z_at(cx, cy));
    if (cx + wdx) / 2 == cx / 2 && (cy + wdy) / 2 == cy / 2 && out1.z_at(cx + wdx, cy + wdy)
        < out1.z_at(cx, cy) {
        assert(0 <= cx + wdx && 0 <= cy + wdy) by {
            vstd::arithmetic::div_mod::lemma_fundamental_div_mod(cx + wdx, 2);
            vstd::arithmetic::div_mod::lemma_fundamental_div_mod(cx, 2);
            vstd::arithmetic::div_mod::lemma_fundamental_div_mod(cy + wdy, 2);
            vstd::arithmetic::div_mod::lemma_fundamental_div_mod(cy, 2);
        }
        assert(out2.z_at(cx + wdx, cy + wdy) == out1.z_at(cx + wdx, cy + wdy));
    }
}

/// Carrier of the refinement pass.
pub struct MeshSplitter {}

impl MeshSplitter {
    /// Refines `mesh` into a mesh of twice the width. The second component
    /// reports whether every sample fell strictly inside its interval at
    /// processing time; when it did, the refined mesh is downhill-complete.
    /// (A sample pinned to an interval endpoint can tie with its witness, so
    /// only strict samples guarantee the property.)
    pub fn split<R: Rng>(mesh: &Mesh, rng: &mut R, random_range: (i64, i64)) -> (r: (Mesh, bool))
        requires
            mesh.wf(),
            mesh.width <= MAX_WIDTH / 2,
            0 <= random_range.0 <= random_range.1 <= UNIT,
        ensures
            r.0.wf(),
            r.0.width == 2 * mesh.width,
            r.0.out_of_bounds_z == mesh.out_of_bounds_z,
            children_bounded(*mesh, r.0),
            children_floored(*mesh, r.0),
            r.1 ==> all_cells_have_downhill_spec(r.0),
    {
        let w = mesh.get_width();
        let mut out = Mesh::new(2 * w, mesh.get_out_of_bounds_z());
        let mut strict = true;
        let mut x: i32 = 0;
        while x < w
            invariant
                0 <= x <= w,
                mesh.wf(),
                w == mesh.width,
                mesh.width <= MAX_WIDTH / 2,
                0 <= random_range.0 <= random_range.1 <= UNIT,
                out.wf(),
                out.width == 2 * mesh.width,
                out.out_of_bounds_z == mesh.out_of_bounds_z,
                region_bounded(*mesh, out, x as int, 0),
                region_floored(*mesh, out, x as int, 0),
                strict ==> region_supported(*mesh, out, x as int, 0),
            decreases w - x,
        {
            let mut y: i32 = 0;
            while y < w
                invariant
                    0 <= x < w,
                    0 <= y <= w,
                    mesh.wf(),
                    w == mesh.width,
                    mesh.width <= MAX_WIDTH / 2,
                    0 <= random_range.0 <= random_range.1 <= UNIT,
                    out.wf(),
                    out.width == 2 * mesh.width,
                    out.out_of_bounds_z == mesh.out_of_bounds_z,
                    region_bounded(*mesh, out, x as int, y as int),
                    region_floored(*mesh, out, x as int, y as int),
                    strict ==> region_supported(*mesh, out, x as int, y as int),
                decreases w - y,
            {
                let s_ok = Self::split_block(mesh, rng, random_range, x, y, &mut out);
                if !s_ok {
                    strict = false;
                }
                y = y + 1;
            }
            proof {
                assert forall|cx: int, cy: int|
                    out.in_bounds_spec(cx, cy) && block_done(cx / 2, cy / 2, x as int + 1, 0)
                        implies block_done(cx / 2, cy / 2, x as int, w as int) by {
                    vstd::arithmetic::div_mod::lemma_fundamental_div_mod(cy, 2);
                }
            }
            x = x + 1;
        }
        proof {
            assert forall|cx: int, cy: int| out.in_bounds_spec(cx, cy) implies block_done(
                cx / 2,
                cy / 2,
                w as int,
                0,
            ) by {
                vstd::arithmetic::div_mod::lemma_fundamental_div_mod(cx, 2);
            }
            if strict {
                assert forall|cx: int, cy: int|
                    out.in_bounds_spec(cx, cy) implies #[trigger] child_supported(
                    *mesh,
                    out,
                    cx,
                    cy,
                ) by {
                    assert(child_supported_here(*mesh, out, cx, cy));
                    lemma_here_implies_supported(*mesh, out, cx, cy);
                }
                lemma_supported_mesh_downhill(*mesh, out);
            }
        }
        (out, strict)
    }

    /// Samples one parent's four children and writes them into `out`.
    fn split_block<R: Rng>(
        mesh: &Mesh,
        rng: &mut R,
        random_range: (i64, i64),
        x: i32,
        y: i32,
        out: &mut Mesh,
    ) -> (s_ok: bool)
        requires
            mesh.wf(),
            mesh.in_bounds_spec(x as int, y as int),
            mesh.width <= MAX_WIDTH / 2,
            0 <= random_range.0 <= random_range.1 <= UNIT,
            old(out).wf(),
            old(out).width == 2 * mesh.width,
            old(out).out_of_bounds_z == mesh.out_of_bounds_z,
            region_bounded(*mesh, *old(out), x as int, y as int),
            region_floored(*mesh, *old(out), x as int, y as int),
        ensures
            final(out).wf(),
            final(out).width == old(out).width,
            final(out).out_of_bounds_z == old(out).out_of_bounds_z,
            region_bounded(*mesh, *final(out), x as int, y as int + 1),
            region_floored(*mesh, *final(out), x as int, y as int + 1),
            region_supported(*mesh, *old(out), x as int, y as int) && s_ok ==> region_supported(
                *mesh,
                *final(out),
                x as int,
                y as int + 1,
            ),
    {
        let ghost px = x as int;
        let ghost py = y as int;
        let (splits, s_ok) = split_cell(mesh, rng, random_range, x, y);
        let ghost pre_out = *out;
        let mut i: usize = 0;
        while i < 4
            invariant
                i <= 4,
                mesh.wf(),
                px == x as int && py == y as int,
                mesh.in_bounds_spec(px, py),
                mesh.width <= MAX_WIDTH / 2,
                out.wf(),
                out.width == 2 * mesh.width,
                out.out_of_bounds_z == mesh.out_of_bounds_z,
                pre_out.width == out.width,
                pre_out.out_of_bounds_z == out.out_of_bounds_z,
                splits@.len() == 4,
                forall|k: int|
                    0 <= k < 4 ==> ((#[trigger] splits@[k]).x == 2 * x || splits@[k].x == 2 * x + 1)
                        && (splits@[k].y == 2 * y || splits@[k].y == 2 * y + 1),
                forall|k: int, l: int|
                    0 <= k < 4 && 0 <= l < 4 && k != l ==> !((#[trigger] splits@[k]).x == (
                    #[trigger] splits@[l]).x && splits@[k].y == splits@[l].y),
                forall|k: int|
                    0 <= k < 4 ==> (#[trigger] splits@[k]).z <= mesh.z_at(px, py) && -Z_BOUND
                        <= splits@[k].z <= Z_BOUND,
                forall|k: int|
                    0 <= k < 4 ==> above_neighbourhood_floor(
                        *mesh,
                        px,
                        py,
                        (#[trigger] splits@[k]).z as int,
                    ),
                forall|k: int|
                    0 <= k < i as int ==> #[trigger] out.z_at(
                        splits@[k].x as int,
                        splits@[k].y as int,
                    ) == splits@[k].z,
                forall|ax: int, ay: int|
                    !(ax / 2 == px && ay / 2 == py) ==> #[trigger] out.z_at(ax, ay)
                        == pre_out.z_at(ax, ay),
            decreases 4 - i,
        {
            let sx = splits[i].x;
            let sy = splits[i].y;
            let sz = splits[i].z;
            proof {
                lemma_child_div(px, sx as int - 2 * px);
                lemma_child_div(py, sy as int - 2 * py);
                assert(0 <= sx as int && (sx as int) < out.width as int);
                assert(0 <= sy as int && (sy as int) < out.width as int);
            }
            let ghost mid_out = *out;
            out.set_z(sx, sy, sz);
            proof {
                assert forall|k: int|
                    0 <= k < i as int + 1 implies #[trigger] out.z_at(
                    splits@[k].x as int,
                    splits@[k].y as int,
                ) == splits@[k].z by {
                    if k < i as int {
                        assert(!(splits@[k].x == splits@[i as int].x && splits@[k].y
                            == splits@[i as int].y));
                    }
                }
                assert forall|ax: int, ay: int|
                    !(ax / 2 == px && ay / 2 == py) implies #[trigger] out.z_at(ax, ay)
                        == pre_out.z_at(ax, ay) by {
                    assert(!(ax == sx as int && ay == sy as int));
                    assert(out.z_at(ax, ay) == mid_out.z_at(ax, ay));
                }
            }
            i = i + 1;
        }
        proof {
            let zp = mesh.z_at(px, py);
            // every cell of this block now holds its sample
            assert forall|cx: int, cy: int|
                out.in_bounds_spec(cx, cy) && cx / 2 == px && cy / 2 == py implies #[trigger] out
                .z_at(cx, cy) <= zp by {
                vstd::arithmetic::div_mod::lemma_fundamental_div_mod(cx, 2);
                vstd::arithmetic::div_mod::lemma_fundamental_div_mod(cy, 2);
                let ox = cx % 2;
                let oy = cy % 2;
                assert(has_corner(splits@, px, py, ox, oy));
                let k = choose|k: int|
                    0 <= k < splits@.len() && (#[trigger] splits@[k]).x == 2 * px + ox
                        && splits@[k].y == 2 * py + oy;
                assert(out.z_at(cx, cy) == splits@[k].z);
            }
            // bound carries over: old region untouched, new block bounded
            assert forall|cx: int, cy: int|
                out.in_bounds_spec(cx, cy) && block_done(cx / 2, cy / 2, px, py + 1)
                    implies #[trigger] out.z_at(cx, cy) <= mesh.z_at(cx / 2, cy / 2) by {
                if cx / 2 == px && cy / 2 == py {
                } else {
                    assert(out.z_at(cx, cy) == pre_out.z_at(cx, cy));
                    assert(block_done(cx / 2, cy / 2, px, py));
                }
            }
            // the floor carries over likewise: new block cells hold floored
            // samples, old cells are untouched
            assert forall|cx: int, cy: int|
                out.in_bounds_spec(cx, cy) && block_done(cx / 2, cy / 2, px, py + 1)
                    implies #[trigger] above_neighbourhood_floor(
                *mesh,
                cx / 2,
                cy / 2,
                out.z_at(cx, cy),
            ) by {
                if cx / 2 == px && cy / 2 == py {
                    vstd::arithmetic::div_mod::lemma_fundamental_div_mod(cx, 2);
                    vstd::arithmetic::div_mod::lemma_fundamental_div_mod(cy, 2);
                    let ox = cx % 2;
                    let oy = cy % 2;
                    assert(has_corner(splits@, px, py, ox, oy));
                    let k = choose|k: int|
                        0 <= k < splits@.len() && (#[trigger] splits@[k]).x == 2 * px + ox
                            && splits@[k].y == 2 * py + oy;
                    assert(out.z_at(cx, cy) == splits@[k].z);
                    assert(above_neighbourhood_floor(*mesh, px, py, splits@[k].z as int));
                } else {
                    assert(block_done(cx / 2, cy / 2, px, py));
                    assert(out.z_at(cx, cy) == pre_out.z_at(cx, cy));
                    assert(above_neighbourhood_floor(*mesh, cx / 2, cy / 2, pre_out.z_at(cx, cy)));
                }
            }
            // support carries over likewise
            if region_supported(*mesh, pre_out, px, py) && s_ok {
                assert forall|cx: int, cy: int|
                    out.in_bounds_spec(cx, cy) && block_done(cx / 2, cy / 2, px, py + 1)
                        implies #[trigger] child_supported_here(*mesh, *out, cx, cy) by {
                    vstd::arithmetic::div_mod::lemma_fundamental_div_mod(cx, 2);
                    vstd::arithmetic::div_mod::lemma_fundamental_div_mod(cy, 2);
                    if cx / 2 == px && cy / 2 == py {
                        let ox = cx % 2;
                        let oy = cy % 2;
                        assert(has_corner(splits@, px, py, ox, oy));
                        let k = choose|k: int|
                            0 <= k < splits@.len() && (#[trigger] splits@[k]).x == 2 * px + ox
                                && splits@[k].y == 2 * py + oy;
                        assert(out.z_at(cx, cy) == splits@[k].z);
                        assert(split_supported(*mesh, px, py, splits@, k));
                        let (wdx, wdy) = choose|wdx: int, wdy: int|
                            #[trigger] unit_offset(wdx, wdy) && ((exists|j: int|
                                0 <= j < splits@.len() && (#[trigger] splits@[j]).x == cx + wdx
                                    && splits@[j].y == cy + wdy && splits@[j].z <= splits@[k].z - 1)
                                || (corner_ok(cx, wdx) && corner_ok(cy, wdy) && mesh.z_at(
                                px + wdx,
                                py + wdy,
                            ) <= splits@[k].z - 1));
                        assert(unit_offset(wdx, wdy));
                        if exists|j: int|
                            0 <= j < splits@.len() && (#[trigger] splits@[j]).x == cx + wdx
                                && splits@[j].y == cy + wdy && splits@[j].z <= splits@[k].z - 1 {
                            let j = choose|j: int|
                                0 <= j < splits@.len() && (#[trigger] splits@[j]).x == cx + wdx
                                    && splits@[j].y == cy + wdy && splits@[j].z <= splits@[k].z
                                    - 1;
                            assert(out.z_at(cx + wdx, cy + wdy) == splits@[j].z);
                            lemma_child_div(px, splits@[j].x as int - 2 * px);
                            lemma_child_div(py, splits@[j].y as int - 2 * py);
                            assert((cx + wdx) / 2 == cx / 2 && (cy + wdy) / 2 == cy / 2);
                            assert(child_supported_here(*mesh, *out, cx, cy));
                        } else {
                            assert(corner_ok(cx, wdx) && corner_ok(cy, wdy) && mesh.z_at(
                                px + wdx,
                                py + wdy,
                            ) < out.z_at(cx, cy));
                            assert(child_supported_here(*mesh, *out, cx, cy));
                        }
                    } else {
                        assert(block_done(cx / 2, cy / 2, px, py));
                        assert(child_supported_here(*mesh, pre_out, cx, cy));
                        assert forall|ax: int, ay: int|
                            0 <= ax && 0 <= ay && ax / 2 == cx / 2 && ay / 2 == cy / 2
                                implies #[trigger] out.z_at(ax, ay) == pre_out.z_at(ax, ay) by {
                            assert(!(ax / 2 == px && ay / 2 == py));
                        }
                        lemma_here_frame(*mesh, pre_out, *out, cx, cy);
                    }
                }
            }
        }
        s_ok
    }
}

} // verus!
