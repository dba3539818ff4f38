//! Per-cell drainage counts: one unit of rain falls on every cell and is
//! followed along the single-downhill directions until it leaves the grid;
//! every visited cell's count rises by one. Termination rests on the strict
//! descent of elevation along a trace, measured by how many cells lie below
//! the focus.

use vstd::prelude::*;
use crate::downhill::{dir_dx, dir_dy};
use crate::mesh::{Mesh, MAX_WIDTH};
use crate::single_downhill::{SingleDownhillMap, descends};

verus! {

// --- Counting cells strictly below an elevation: the termination measure ---

pub open spec fn count_lt_row(row: Seq<i64>, v: int) -> nat
    decreases row.len(),
{
    if row.len() == 0 {
        0
    } else {
        count_lt_row(row.drop_last(), v) + if row.last() < v {
            1nat
        } else {
            0nat
        }
    }
}

pub open spec fn count_lt_rows(rows: Seq<Seq<i64>>, v: int) -> nat
    decreases rows.len(),
{
    if rows.len() == 0 {
        0
    } else {
        count_lt_rows(rows.drop_last(), v) + count_lt_row(rows.last(), v)
    }
}

pub open spec fn mesh_rows(m: Mesh) -> Seq<Seq<i64>> {
    m.z@.map_values(|r: Vec<i64>| r@)
}

/// How many in-bounds cells of `m` lie strictly below elevation `v`.
pub open spec fn cells_below(m: Mesh, v: int) -> nat {
    count_lt_rows(mesh_rows(m), v)
}

proof fn lemma_count_lt_row_mono(row: Seq<i64>, v1: int, v2: int)
    requires
        v1 <= v2,
    ensures
        count_lt_row(row, v1) <= count_lt_row(row, v2),
    decreases row.len(),
{
    if row.len() > 0 {
        lemma_count_lt_row_mono(row.drop_last(), v1, v2);
    }
}

proof fn lemma_count_lt_row_strict(row: Seq<i64>, v1: int, v2: int, j: int)
    requires
        v1 <= v2,
        0 <= j < row.len(),
        v1 <= row[j] < v2,
    ensures
        count_lt_row(row, v1) < count_lt_row(row, v2),
    decreases row.len(),
{
    if j == row.len() - 1 {
        lemma_count_lt_row_mono(row.drop_last(), v1, v2);
    } else {
        lemma_count_lt_row_strict(row.drop_last(), v1, v2, j);
    }
}

proof fn lemma_count_lt_rows_mono(rows: Seq<Seq<i64>>, v1: int, v2: int)
    requires
        v1 <= v2,
    ensures
        count_lt_rows(rows, v1) <= count_lt_rows(rows, v2),
    decreases rows.len(),
{
    if rows.len() > 0 {
        lemma_count_lt_rows_mono(rows.drop_last(), v1, v2);
        lemma_count_lt_row_mono(rows.last(), v1, v2);
    }
}

proof fn lemma_count_lt_rows_strict(rows: Seq<Seq<i64>>, v1: int, v2: int, i: int, j: int)
    requires
        v1 <= v2,
        0 <= i < rows.len(),
        0 <= j < rows[i].len(),
        v1 <= rows[i][j] < v2,
    ensures
        count_lt_rows(rows, v1) < count_lt_rows(rows, v2),
    decreases rows.len(),
{
    if i == rows.len() - 1 {
        lemma_count_lt_rows_mono(rows.drop_last(), v1, v2);
        lemma_count_lt_row_strict(rows.last(), v1, v2, j);
    } else {
        lemma_count_lt_rows_strict(rows.drop_last(), v1, v2, i, j);
        lemma_count_lt_row_mono(rows.last(), v1, v2);
    }
}

/// Stepping to a strictly lower in-bounds cell strictly shrinks the measure.
pub proof fn lemma_cells_below_decreases(m: Mesh, x1: int, y1: int, x2: int, y2: int)
    requires
        m.wf(),
        m.in_bounds_spec(x2, y2),
        m.z_at(x2, y2) < m.z_at(x1, y1),
    ensures
        cells_below(m, m.z_at(x2, y2)) < cells_below(m, m.z_at(x1, y1)),
{
    assert(mesh_rows(m)[x2][y2] == m.z@[x2]@[y2]);
    lemma_count_lt_rows_strict(mesh_rows(m), m.z_at(x2, y2), m.z_at(x1, y1), x2, y2);
}

proof fn lemma_count_lt_row_le(row: Seq<i64>, v: int)
    ensures
        count_lt_row(row, v) <= row.len(),
    decreases row.len(),
{
    if row.len() > 0 {
        lemma_count_lt_row_le(row.drop_last(), v);
    }
}

proof fn lemma_count_lt_row_skips(row: Seq<i64>, v: int, j: int)
    requires
        0 <= j < row.len(),
        !(row[j] < v),
    ensures
        count_lt_row(row, v) <= row.len() - 1,
    decreases row.len(),
{
    if j == row.len() - 1 {
        lemma_count_lt_row_le(row.drop_last(), v);
    } else {
        lemma_count_lt_row_skips(row.drop_last(), v, j);
    }
}

proof fn lemma_count_lt_rows_le(rows: Seq<Seq<i64>>, v: int, w: int)
    requires
        forall|i: int| 0 <= i < rows.len() ==> (#[trigger] rows[i]).len() == w,
        w >= 0,
    ensures
        count_lt_rows(rows, v) <= rows.len() * w,
    decreases rows.len(),
{
    if rows.len() > 0 {
        lemma_count_lt_rows_le(rows.drop_last(), v, w);
        lemma_count_lt_row_le(rows.last(), v);
        assert((rows.len() - 1) * w + w == rows.len() * w) by (nonlinear_arith);
    }
}

proof fn lemma_count_lt_rows_skips(rows: Seq<Seq<i64>>, v: int, w: int, i: int, j: int)
    requires
        forall|k: int| 0 <= k < rows.len() ==> (#[trigger] rows[k]).len() == w,
        w >= 1,
        0 <= i < rows.len(),
        0 <= j < w,
        !(rows[i][j] < v),
    ensures
        count_lt_rows(rows, v) <= rows.len() * w - 1,
    decreases rows.len(),
{
    if i == rows.len() - 1 {
        lemma_count_lt_rows_le(rows.drop_last(), v, w);
        lemma_count_lt_row_skips(rows.last(), v, j);
        assert((rows.len() - 1) * w + w == rows.len() * w) by (nonlinear_arith);
    } else {
        lemma_count_lt_rows_skips(rows.drop_last(), v, w, i, j);
        lemma_count_lt_row_le(rows.last(), v);
        assert((rows.len() - 1) * w + w == rows.len() * w) by (nonlinear_arith);
    }
}

/// A cell is never below itself, so the measure at any in-bounds cell is at
/// most one less than the number of cells.
pub proof fn lemma_cells_below_bound(m: Mesh, x: int, y: int)
    requires
        m.wf(),
        m.in_bounds_spec(x, y),
    ensures
        cells_below(m, m.z_at(x, y)) <= (m.width as int) * (m.width as int) - 1,
{
    assert(mesh_rows(m)[x][y] == m.z@[x]@[y]);
    lemma_count_lt_rows_skips(mesh_rows(m), m.z_at(x, y), m.width as int, x, y);
}

// --- Trace specifications ---

/// Focus coordinates after one downhill step from `(x, y)`.
pub open spec fn step_x<D: SingleDownhillMap>(dm: &D, x: int, y: int) -> int {
    x + dir_dx(dm.dir_spec(x, y))
}

pub open spec fn step_y<D: SingleDownhillMap>(dm: &D, x: int, y: int) -> int {
    y + dir_dy(dm.dir_spec(x, y))
}

/// Number of in-bounds cells a rain trace from `(x, y)` passes through,
/// the start included; zero when the start is out of bounds.
pub open spec fn trace_len<D: SingleDownhillMap>(m: Mesh, dm: &D, x: int, y: int) -> nat
    decreases cells_below(m, m.z_at(x, y)),
        when m.wf() && descends(m, dm)
{
    if !m.in_bounds_spec(x, y) {
        0
    } else {
        let nx = step_x(dm, x, y);
        let ny = step_y(dm, x, y);
        if m.in_bounds_spec(nx, ny) {
            proof {
                lemma_cells_below_decreases(m, x, y, nx, ny);
            }
            1 + trace_len(m, dm, nx, ny)
        } else {
            1
        }
    }
}

/// How many times the rain trace from `(sx, sy)` passes through `(cx, cy)`.
pub open spec fn trace_visits<D: SingleDownhillMap>(
    m: Mesh,
    dm: &D,
    sx: int,
    sy: int,
    cx: int,
    cy: int,
) -> nat
    decreases cells_below(m, m.z_at(sx, sy)),
        when m.wf() && descends(m, dm)
{
    if !m.in_bounds_spec(sx, sy) {
        0
    } else {
        let here: nat = if sx == cx && sy == cy {
            1nat
        } else {
            0nat
        };
        let nx = step_x(dm, sx, sy);
        let ny = step_y(dm, sx, sy);
        if m.in_bounds_spec(nx, ny) {
            proof {
                lemma_cells_below_decreases(m, sx, sy, nx, ny);
            }
            here + trace_visits(m, dm, nx, ny, cx, cy)
        } else {
            here
        }
    }
}

/// A trace starting strictly below a cell never reaches it: elevations only
/// fall along a trace.
pub proof fn lemma_visits_zero<D: SingleDownhillMap>(
    m: Mesh,
    dm: &D,
    sx: int,
    sy: int,
    cx: int,
    cy: int,
)
    requires
        m.wf(),
        descends(m, dm),
        m.z_at(sx, sy) < m.z_at(cx, cy),
    ensures
        trace_visits(m, dm, sx, sy, cx, cy) == 0,
    decreases cells_below(m, m.z_at(sx, sy)),
{
    if m.in_bounds_spec(sx, sy) {
        let nx = step_x(dm, sx, sy);
        let ny = step_y(dm, sx, sy);
        if m.in_bounds_spec(nx, ny) {
            lemma_cells_below_decreases(m, sx, sy, nx, ny);
            lemma_visits_zero(m, dm, nx, ny, cx, cy);
        }
    }
}

/// A trace passes any given cell at most once.
pub proof fn lemma_visits_le_one<D: SingleDownhillMap>(
    m: Mesh,
    dm: &D,
    sx: int,
    sy: int,
    cx: int,
    cy: int,
)
    requires
        m.wf(),
        descends(m, dm),
    ensures
        trace_visits(m, dm, sx, sy, cx, cy) <= 1,
    decreases cells_below(m, m.z_at(sx, sy)),
{
    if m.in_bounds_spec(sx, sy) {
        let nx = step_x(dm, sx, sy);
        let ny = step_y(dm, sx, sy);
        if sx == cx && sy == cy {
            if m.in_bounds_spec(nx, ny) {
                lemma_cells_below_decreases(m, sx, sy, nx, ny);
                lemma_visits_zero(m, dm, nx, ny, cx, cy);
            }
        } else {
            if m.in_bounds_spec(nx, ny) {
                lemma_cells_below_decreases(m, sx, sy, nx, ny);
                lemma_visits_le_one(m, dm, nx, ny, cx, cy);
            }
        }
    }
}

/// Every in-bounds cell is visited exactly once by its own trace.
pub proof fn lemma_visits_self<D: SingleDownhillMap>(m: Mesh, dm: &D, x: int, y: int)
    requires
        m.wf(),
        descends(m, dm),
        m.in_bounds_spec(x, y),
    ensures
        trace_visits(m, dm, x, y, x, y) == 1,
{
    let nx = step_x(dm, x, y);
    let ny = step_y(dm, x, y);
    if m.in_bounds_spec(nx, ny) {
        lemma_cells_below_decreases(m, x, y, nx, ny);
        lemma_visits_zero(m, dm, nx, ny, x, y);
    }
}

proof fn lemma_trace_len_le_measure<D: SingleDownhillMap>(m: Mesh, dm: &D, x: int, y: int)
    requires
        m.wf(),
        descends(m, dm),
    ensures
        trace_len(m, dm, x, y) <= cells_below(m, m.z_at(x, y)) + 1,
    decreases cells_below(m, m.z_at(x, y)),
{
    if m.in_bounds_spec(x, y) {
        let nx = step_x(dm, x, y);
        let ny = step_y(dm, x, y);
        if m.in_bounds_spec(nx, ny) {
            lemma_cells_below_decreases(m, x, y, nx, ny);
            lemma_trace_len_le_measure(m, dm, nx, ny);
        }
    }
}

/// Rain traces terminate: a trace from any source passes through at most
/// `width * width` cells before leaving the grid.
pub proof fn lemma_trace_terminates<D: SingleDownhillMap>(m: Mesh, dm: &D, x: int, y: int)
    requires
        m.wf(),
        descends(m, dm),
    ensures
        trace_len(m, dm, x, y) <= (m.width as int) * (m.width as int),
{
    lemma_trace_len_le_measure(m, dm, x, y);
    if m.in_bounds_spec(x, y) {
        lemma_cells_below_bound(m, x, y);
    } else {
        assert((m.width as int) * (m.width as int) >= 0) by (nonlinear_arith)
            requires
                m.width as int >= 1,
        ;
    }
}

// --- Storage and the flow map itself ---

/// Storage for the flow counts: an nalgebra matrix, held opaquely because
/// its dimension and storage parameters cannot be declared to the verifier.
#[verifier::external_body]
pub struct FlowGrid {
    cells: nalgebra::DMatrix<u32>,
}

/// The cells of the flow matrix, row `x` by column `y`.
pub uninterp spec fn mat_cells(m: FlowGrid) -> Seq<Seq<u32>>;

/// Relies on nalgebra's DMatrix::zeros: a `width x width` matrix of zeros.
#[verifier::external_body]
fn mat_zeros(width: usize) -> (m: FlowGrid)
    ensures
        mat_cells(m) == Seq::new(width as nat, |x: int| Seq::new(width as nat, |y: int| 0u32)),
{
    FlowGrid { cells: nalgebra::DMatrix::zeros(width, width) }
}

/// Relies on nalgebra's matrix indexing: the component at row `x`, column `y`.
#[verifier::external_body]
fn mat_get(m: &FlowGrid, x: usize, y: usize) -> (r: u32)
    requires
        0 <= x < mat_cells(*m).len(),
        0 <= y < mat_cells(*m)[x as int].len(),
    ensures
        r == mat_cells(*m)[x as int][y as int],
{
    m.cells[(x, y)]
}

/// Relies on nalgebra's mutable matrix indexing: writes the component at row
/// `x`, column `y` and changes nothing else.
#[verifier::external_body]
fn mat_set(m: &mut FlowGrid, x: usize, y: usize, v: u32)
    requires
        0 <= x < mat_cells(*old(m)).len(),
        0 <= y < mat_cells(*old(m))[x as int].len(),
    ensures
        mat_cells(*final(m)) == mat_cells(*old(m)).update(
            x as int,
            mat_cells(*old(m))[x as int].update(y as int, v),
        ),
{
    m.cells[(x, y)] = v;
}

/// Drainage counts for one mesh: `flow[x, y]` is the number of rain traces
/// that have passed through `(x, y)`.
pub struct FlowMap {
    pub width: i32,
    pub flow: FlowGrid,
}

impl FlowMap {
    pub open spec fn grid(self) -> Seq<Seq<u32>> {
        mat_cells(self.flow)
    }

    pub open spec fn wf(self) -> bool {
        &&& 1 <= self.width <= MAX_WIDTH
        &&& self.grid().len() == self.width as int
        &&& forall|x: int|
            0 <= x < self.width as int ==> (#[trigger] self.grid()[x]).len() == self.width as int
    }

    pub open spec fn in_bounds_spec(self, x: int, y: int) -> bool {
        0 <= x < self.width as int && 0 <= y < self.width as int
    }

    pub open spec fn flow_at_spec(self, x: int, y: int) -> u32 {
        self.grid()[x][y]
    }

    pub fn new(width: i32) -> (r: FlowMap)
        requires
            1 <= width <= MAX_WIDTH,
        ensures
            r.wf(),
            r.width == width,
            forall|x: int, y: int| r.in_bounds_spec(x, y) ==> r.flow_at_spec(x, y) == 0,
    {
        let flow = mat_zeros(width as usize);
        FlowMap { width, flow }
    }

    pub fn get_flow(&self, x: i32, y: i32) -> (r: u32)
        requires
            self.wf(),
            self.in_bounds_spec(x as int, y as int),
        ensures
            r == self.flow_at_spec(x as int, y as int),
    {
        mat_get(&self.flow, x as usize, y as usize)
    }

    pub fn set_flow(&mut self, x: i32, y: i32, v: u32)
        requires
            old(self).wf(),
            old(self).in_bounds_spec(x as int, y as int),
        ensures
            final(self).wf(),
            final(self).width == old(self).width,
            final(self).flow_at_spec(x as int, y as int) == v,
            forall|i: int, j: int|
                old(self).in_bounds_spec(i, j) && !(i == x as int && j == y as int)
                    ==> #[trigger] final(self).flow_at_spec(i, j) == old(self).flow_at_spec(i, j),
    {
        let ghost pre = *self;
        mat_set(&mut self.flow, x as usize, y as usize, v);
        proof {
            assert(self.grid() == pre.grid().update(
                x as int,
                pre.grid()[x as int].update(y as int, v),
            ));
        }
    }

    /// Drops one unit of rain on `(x, y)` and follows the downhill chain out
    /// of the grid, raising every visited cell's count by one. The final
    /// counts are the old counts plus the visit counts of this trace.
    /// Termination rests on strict descent at every cell, which erosion
    /// establishes; for direction tables without that property, `rain_on_capped`
    /// bounds the trace by the grid's step budget instead.
    pub fn rain_on<D: SingleDownhillMap>(&mut self, mesh: &Mesh, downhill_map: &D, x: i32, y: i32)
        requires
            old(self).wf(),
            mesh.wf(),
            descends(*mesh, downhill_map),
            old(self).width == mesh.width,
            forall|i: int, j: int|
                old(self).in_bounds_spec(i, j) ==> #[trigger] old(self).flow_at_spec(i, j)
                    < u32::MAX,
        ensures
            final(self).wf(),
            final(self).width == old(self).width,
            forall|i: int, j: int|
                old(self).in_bounds_spec(i, j) ==> #[trigger] final(self).flow_at_spec(i, j) as int
                    == old(self).flow_at_spec(i, j) + trace_visits(
                    *mesh,
                    downhill_map,
                    x as int,
                    y as int,
                    i,
                    j,
                ),
    {
        let mut fx = x;
        let mut fy = y;
        loop
            invariant
                self.wf(),
                mesh.wf(),
                descends(*mesh, downhill_map),
                self.width == mesh.width,
                forall|i: int, j: int|
                    self.in_bounds_spec(i, j) ==> #[trigger] old(self).flow_at_spec(i, j)
                        + trace_visits(*mesh, downhill_map, x as int, y as int, i, j) == self
                        .flow_at_spec(i, j) + trace_visits(
                        *mesh,
                        downhill_map,
                        fx as int,
                        fy as int,
                        i,
                        j,
                    ),
                forall|i: int, j: int|
                    self.in_bounds_spec(i, j) ==> #[trigger] old(self).flow_at_spec(i, j)
                        < u32::MAX,
            ensures
                !mesh.in_bounds_spec(fx as int, fy as int),
            decreases cells_below(*mesh, mesh.z_at(fx as int, fy as int)),
        {
            if !mesh.in_bounds(fx, fy) {
                break;
            }
            let c = self.get_flow(fx, fy);
            proof {
                lemma_visits_le_one(*mesh, downhill_map, x as int, y as int, fx as int, fy as int);
                lemma_visits_self(*mesh, downhill_map, fx as int, fy as int);
                assert(old(self).flow_at_spec(fx as int, fy as int) + trace_visits(
                    *mesh,
                    downhill_map,
                    x as int,
                    y as int,
                    fx as int,
                    fy as int,
                ) == self.flow_at_spec(fx as int, fy as int) + trace_visits(
                    *mesh,
                    downhill_map,
                    fx as int,
                    fy as int,
                    fx as int,
                    fy as int,
                ));
                assert(c < u32::MAX);
            }
            self.set_flow(fx, fy, c + 1);
            let d = downhill_map.get_direction(fx, fy);
            let (dx, dy) = crate::downhill::direction_offset(d);
            let ghost ofx = fx as int;
            let ghost ofy = fy as int;
            fx = fx + dx;
            fy = fy + dy;
            proof {
                assert forall|i: int, j: int| self.in_bounds_spec(i, j) implies #[trigger] old(
                    self,
                ).flow_at_spec(i, j) + trace_visits(*mesh, downhill_map, x as int, y as int, i, j)
                    == self.flow_at_spec(i, j) + trace_visits(
                    *mesh,
                    downhill_map,
                    fx as int,
                    fy as int,
                    i,
                    j,
                ) by {
                    assert(trace_visits(*mesh, downhill_map, ofx, ofy, i, j) == (if ofx == i && ofy
                        == j {
                        1nat
                    } else {
                        0nat
                    }) + if mesh.in_bounds_spec(fx as int, fy as int) {
                        trace_visits(*mesh, downhill_map, fx as int, fy as int, i, j)
                    } else {
                        0nat
                    });
                }
            }
            if !mesh.in_bounds(fx, fy) {
                break;
            }
            proof {
                lemma_cells_below_decreases(*mesh, ofx, ofy, fx as int, fy as int);
            }
        }
    }
}

// --- Raining on every cell: the flow accumulation specification ---

/// Sum of the visit counts at `(cx, cy)` contributed by the first `k`
/// sources in row-major order (source `k` is `(k / width, k % width)`).
pub open spec fn flow_from_first_sources<D: SingleDownhillMap>(
    m: Mesh,
    dm: &D,
    k: int,
    cx: int,
    cy: int,
) -> nat
    decreases k,
{
    if k <= 0 {
        0
    } else {
        flow_from_first_sources(m, dm, k - 1, cx, cy) + trace_visits(
            m,
            dm,
            (k - 1) / (m.width as int),
            (k - 1) % (m.width as int),
            cx,
            cy,
        )
    }
}

/// The drainage count of a cell: how many of the grid's rain traces pass it.
pub open spec fn flow_spec<D: SingleDownhillMap>(m: Mesh, dm: &D, cx: int, cy: int) -> nat {
    flow_from_first_sources(m, dm, (m.width as int) * (m.width as int), cx, cy)
}

/// Each source contributes at most one visit, so `k` sources contribute at
/// most `k`.
proof fn lemma_ffs_le<D: SingleDownhillMap>(m: Mesh, dm: &D, k: int, cx: int, cy: int)
    requires
        m.wf(),
        descends(m, dm),
        k >= 0,
    ensures
        flow_from_first_sources(m, dm, k, cx, cy) <= k,
    decreases k,
{
    if k > 0 {
        lemma_ffs_le(m, dm, k - 1, cx, cy);
        lemma_visits_le_one(
            m,
            dm,
            (k - 1) / (m.width as int),
            (k - 1) % (m.width as int),
            cx,
            cy,
        );
    }
}

/// Once the enumeration of sources has passed a cell's own index, the sum at
/// that cell includes the cell's own rain: every cell rains on itself once.
proof fn lemma_ffs_self<D: SingleDownhillMap>(m: Mesh, dm: &D, k: int, x: int, y: int)
    requires
        m.wf(),
        descends(m, dm),
        m.in_bounds_spec(x, y),
        k > x * (m.width as int) + y,
    ensures
        flow_from_first_sources(m, dm, k, x, y) >= 1,
    decreases k,
{
    let w = m.width as int;
    if k - 1 == x * w + y {
        vstd::arithmetic::div_mod::lemma_fundamental_div_mod_converse(k - 1, w, x, y);
        lemma_visits_self(m, dm, x, y);
    } else {
        lemma_ffs_self(m, dm, k - 1, x, y);
    }
}

impl FlowMap {
    /// Rains one unit on every in-bounds cell, in row-major order.
    pub fn rain_on_all<D: SingleDownhillMap>(&mut self, mesh: &Mesh, downhill_map: &D)
        requires
            old(self).wf(),
            mesh.wf(),
            descends(*mesh, downhill_map),
            old(self).width == mesh.width,
            forall|i: int, j: int|
                old(self).in_bounds_spec(i, j) ==> #[trigger] old(self).flow_at_spec(i, j) as int
                    + (mesh.width as int) * (mesh.width as int) <= u32::MAX as int,
        ensures
            final(self).wf(),
            final(self).width == old(self).width,
            forall|i: int, j: int|
                old(self).in_bounds_spec(i, j) ==> #[trigger] final(self).flow_at_spec(i, j) as int
                    == old(self).flow_at_spec(i, j) + flow_spec(*mesh, downhill_map, i, j),
    {
        let w = mesh.get_width();
        let ghost wi = w as int;
        let mut x: i32 = 0;
        while x < w
            invariant
                0 <= x <= w,
                self.wf(),
                mesh.wf(),
                descends(*mesh, downhill_map),
                self.width == mesh.width,
                w == mesh.width,
                wi == w as int,
                forall|i: int, j: int|
                    self.in_bounds_spec(i, j) ==> #[trigger] old(self).flow_at_spec(i, j) as int
                        + wi * wi <= u32::MAX as int,
                forall|i: int, j: int|
                    self.in_bounds_spec(i, j) ==> #[trigger] self.flow_at_spec(i, j) as int == old(
                        self,
                    ).flow_at_spec(i, j) + flow_from_first_sources(
                        *mesh,
                        downhill_map,
                        (x as int) * wi,
                        i,
                        j,
                    ),
            decreases w - x,
        {
            let mut y: i32 = 0;
            while y < w
                invariant
                    0 <= x < w,
                    0 <= y <= w,
                    self.wf(),
                    mesh.wf(),
                    descends(*mesh, downhill_map),
                    self.width == mesh.width,
                    w == mesh.width,
                    wi == w as int,
                    forall|i: int, j: int|
                        self.in_bounds_spec(i, j) ==> #[trigger] old(self).flow_at_spec(i, j) as int
                            + wi * wi <= u32::MAX as int,
                    forall|i: int, j: int|
                        self.in_bounds_spec(i, j) ==> #[trigger] self.flow_at_spec(i, j) as int
                            == old(self).flow_at_spec(i, j) + flow_from_first_sources(
                            *mesh,
                            downhill_map,
                            (x as int) * wi + (y as int),
                            i,
                            j,
                        ),
                decreases w - y,
            {
                let ghost k = (x as int) * wi + (y as int);
                proof {
                    assert(0 <= k && k + 1 <= wi * wi) by (nonlinear_arith)
                        requires
                            0 <= x as int && (x as int) < wi,
                            0 <= y as int && (y as int) < wi,
                            k == (x as int) * wi + (y as int),
                    ;
                    assert forall|i: int, j: int| self.in_bounds_spec(i, j) implies #[trigger] self
                        .flow_at_spec(i, j) < u32::MAX by {
                        lemma_ffs_le(*mesh, downhill_map, k, i, j);
                    }
                }
                let ghost pre = *self;
                self.rain_on(mesh, downhill_map, x, y);
                proof {
                    vstd::arithmetic::div_mod::lemma_fundamental_div_mod_converse(
                        k,
                        wi,
                        x as int,
                        y as int,
                    );
                    assert forall|i: int, j: int| self.in_bounds_spec(i, j) implies #[trigger] self
                        .flow_at_spec(i, j) as int == old(self).flow_at_spec(i, j)
                        + flow_from_first_sources(*mesh, downhill_map, k + 1, i, j) by {
                        assert(pre.flow_at_spec(i, j) as int == old(self).flow_at_spec(i, j)
                            + flow_from_first_sources(*mesh, downhill_map, k, i, j));
                        assert(self.flow_at_spec(i, j) as int == pre.flow_at_spec(i, j)
                            + trace_visits(*mesh, downhill_map, x as int, y as int, i, j));
                    }
                }
                y = y + 1;
                proof {
                    assert((x as int) * wi + (y as int) == k + 1);
                }
            }
            x = x + 1;
            proof {
                assert((x as int) * wi == (x as int - 1) * wi + wi) by (nonlinear_arith);
            }
        }
        proof {
            assert(wi * wi == (w as int) * (w as int));
        }
    }

    /// Builds the flow map of a mesh under a single-downhill choice: the
    /// count at each cell is exactly the number of rain traces through it,
    /// and every cell rains on itself, so every count is at least one.
    /// Like `rain_on`, this asks for strict descent everywhere: that is what
    /// bounds every trace. For arbitrary tables, `from_capped` bounds each
    /// trace by the grid's step budget and surfaces over-budget traces as a
    /// stage failure.
    pub fn from<D: SingleDownhillMap>(mesh: &Mesh, downhill_map: &D) -> (fm: FlowMap)
        requires
            mesh.wf(),
            descends(*mesh, downhill_map),
        ensures
            fm.wf(),
            fm.width == mesh.width,
            forall|x: int, y: int|
                fm.in_bounds_spec(x, y) ==> #[trigger] fm.flow_at_spec(x, y) as int == flow_spec(
                    *mesh,
                    downhill_map,
                    x,
                    y,
                ),
            forall|x: int, y: int|
                fm.in_bounds_spec(x, y) ==> #[trigger] fm.flow_at_spec(x, y) >= 1,
    {
        let mut out = FlowMap::new(mesh.get_width());
        proof {
            assert((mesh.width as int) * (mesh.width as int) <= (MAX_WIDTH as int) * (
            MAX_WIDTH as int)) by (nonlinear_arith)
                requires
                    1 <= mesh.width as int <= MAX_WIDTH as int,
            ;
        }
        out.rain_on_all(mesh, downhill_map);
        proof {
            assert forall|x: int, y: int| out.in_bounds_spec(x, y) implies #[trigger] out
                .flow_at_spec(x, y) >= 1 by {
                assert(x * (mesh.width as int) + y + 1 <= (mesh.width as int) * (
                mesh.width as int)) by (nonlinear_arith)
                    requires
                        0 <= x < mesh.width as int,
                        0 <= y < mesh.width as int,
                ;
                lemma_ffs_self(
                    *mesh,
                    downhill_map,
                    (mesh.width as int) * (mesh.width as int),
                    x,
                    y,
                );
            }
        }
        out
    }
}

// --- Conservation: total flow equals total trace length ---

/// Sum of the drainage counts over the first `k` cells in row-major order.
pub open spec fn sum_flow<D: SingleDownhillMap>(m: Mesh, dm: &D, k: int) -> nat
    decreases k,
{
    if k <= 0 {
        0
    } else {
        sum_flow(m, dm, k - 1) + flow_spec(m, dm, (k - 1) / (m.width as int), (k - 1) % (
        m.width as int))
    }
}

/// Sum of the trace lengths of the first `k` sources in row-major order.
pub open spec fn sum_trace_len<D: SingleDownhillMap>(m: Mesh, dm: &D, k: int) -> nat
    decreases k,
{
    if k <= 0 {
        0
    } else {
        sum_trace_len(m, dm, k - 1) + trace_len(m, dm, (k - 1) / (m.width as int), (k - 1) % (
        m.width as int))
    }
}

/// Sum, over the first `k` cells, of the visits that the single trace from
/// `(sx, sy)` pays them.
pub open spec fn visits_sum<D: SingleDownhillMap>(m: Mesh, dm: &D, sx: int, sy: int, k: int) -> nat
    decreases k,
{
    if k <= 0 {
        0
    } else {
        visits_sum(m, dm, sx, sy, k - 1) + trace_visits(
            m,
            dm,
            sx,
            sy,
            (k - 1) / (m.width as int),
            (k - 1) % (m.width as int),
        )
    }
}

/// Sum, over the first `n` sources, of the visit sums from `k` cells.
pub open spec fn visits_sum_sources<D: SingleDownhillMap>(m: Mesh, dm: &D, n: int, k: int) -> nat
    decreases n,
{
    if n <= 0 {
        0
    } else {
        visits_sum_sources(m, dm, n - 1, k) + visits_sum(m, dm, (n - 1) / (m.width as int), (n - 1)
            % (m.width as int), k)
    }
}

/// Sum over the first `k` cells of the contributions of the first `n`
/// sources.
pub open spec fn partial_flow_sum<D: SingleDownhillMap>(m: Mesh, dm: &D, n: int, k: int) -> nat
    decreases k,
{
    if k <= 0 {
        0
    } else {
        partial_flow_sum(m, dm, n, k - 1) + flow_from_first_sources(m, dm, n, (k - 1) / (
        m.width as int), (k - 1) % (m.width as int))
    }
}

proof fn lemma_visits_sum_oob<D: SingleDownhillMap>(m: Mesh, dm: &D, sx: int, sy: int, k: int)
    requires
        m.wf(),
        descends(m, dm),
        !m.in_bounds_spec(sx, sy),
    ensures
        visits_sum(m, dm, sx, sy, k) == 0,
    decreases k,
{
    if k > 0 {
        lemma_visits_sum_oob(m, dm, sx, sy, k - 1);
    }
}

/// Splits the visit sum of an in-bounds source into the source's own cell
/// (when enumerated) and the visit sum of its downhill successor.
proof fn lemma_visits_sum_step<D: SingleDownhillMap>(m: Mesh, dm: &D, sx: int, sy: int, k: int)
    requires
        m.wf(),
        descends(m, dm),
        m.in_bounds_spec(sx, sy),
    ensures
        visits_sum(m, dm, sx, sy, k) == (if 0 <= sx * (m.width as int) + sy
            && sx * (m.width as int) + sy < k {
            1nat
        } else {
            0nat
        }) + (if m.in_bounds_spec(step_x(dm, sx, sy), step_y(dm, sx, sy)) {
            visits_sum(m, dm, step_x(dm, sx, sy), step_y(dm, sx, sy), k)
        } else {
            0nat
        }),
    decreases k,
{
    let w = m.width as int;
    let nx = step_x(dm, sx, sy);
    let ny = step_y(dm, sx, sy);
    let s_idx = sx * w + sy;
    assert(0 <= s_idx) by (nonlinear_arith)
        requires
            s_idx == sx * w + sy,
            0 <= sx && 0 <= sy && w >= 1,
    ;
    if k > 0 {
        lemma_visits_sum_step(m, dm, sx, sy, k - 1);
        let cx = (k - 1) / w;
        let cy = (k - 1) % w;
        if cx == sx && cy == sy {
            vstd::arithmetic::div_mod::lemma_fundamental_div_mod(k - 1, w);
            assert(k - 1 == s_idx) by (nonlinear_arith)
                requires
                    k - 1 == w * ((k - 1) / w) + (k - 1) % w,
                    cx == (k - 1) / w && cy == (k - 1) % w,
                    cx == sx && cy == sy,
                    s_idx == sx * w + sy,
            ;
        } else {
            if k - 1 == s_idx {
                vstd::arithmetic::div_mod::lemma_fundamental_div_mod_converse(k - 1, w, sx, sy);
                assert(false);
            }
        }
        if !m.in_bounds_spec(nx, ny) {
            assert(trace_visits(m, dm, sx, sy, cx, cy) == (if sx == cx && sy == cy {
                1nat
            } else {
                0nat
            }));
        }
    }
}

/// The visits of one trace, summed over all cells, are its trace length.
proof fn lemma_visits_sum_is_trace_len<D: SingleDownhillMap>(m: Mesh, dm: &D, sx: int, sy: int)
    requires
        m.wf(),
        descends(m, dm),
    ensures
        visits_sum(m, dm, sx, sy, (m.width as int) * (m.width as int)) == trace_len(m, dm, sx, sy),
    decreases cells_below(m, m.z_at(sx, sy)),
{
    let w = m.width as int;
    let total = w * w;
    if !m.in_bounds_spec(sx, sy) {
        lemma_visits_sum_oob(m, dm, sx, sy, total);
    } else {
        let nx = step_x(dm, sx, sy);
        let ny = step_y(dm, sx, sy);
        lemma_visits_sum_step(m, dm, sx, sy, total);
        assert(sx * w + sy < total) by (nonlinear_arith)
            requires
                total == w * w,
                0 <= sx && sx < w && 0 <= sy && sy < w,
        ;
        assert(0 <= sx * w + sy) by (nonlinear_arith)
            requires
                0 <= sx && 0 <= sy && w >= 1,
        ;
        if m.in_bounds_spec(nx, ny) {
            lemma_cells_below_decreases(m, sx, sy, nx, ny);
            lemma_visits_sum_is_trace_len(m, dm, nx, ny);
        }
    }
}

proof fn lemma_partial_flow_sum_zero<D: SingleDownhillMap>(m: Mesh, dm: &D, k: int)
    requires
        m.wf(),
        descends(m, dm),
    ensures
        partial_flow_sum(m, dm, 0, k) == 0,
    decreases k,
{
    if k > 0 {
        lemma_partial_flow_sum_zero(m, dm, k - 1);
    }
}

proof fn lemma_partial_flow_sum_step<D: SingleDownhillMap>(m: Mesh, dm: &D, n: int, k: int)
    requires
        m.wf(),
        descends(m, dm),
        n >= 1,
    ensures
        partial_flow_sum(m, dm, n, k) == partial_flow_sum(m, dm, n - 1, k) + visits_sum(
            m,
            dm,
            (n - 1) / (m.width as int),
            (n - 1) % (m.width as int),
            k,
        ),
    decreases k,
{
    if k > 0 {
        lemma_partial_flow_sum_step(m, dm, n, k - 1);
    }
}

/// Exchanging the two summations: summing each source's contribution over all
/// cells equals summing each cell's count over all sources.
proof fn lemma_sum_swap<D: SingleDownhillMap>(m: Mesh, dm: &D, n: int, k: int)
    requires
        m.wf(),
        descends(m, dm),
        n >= 0,
    ensures
        partial_flow_sum(m, dm, n, k) == visits_sum_sources(m, dm, n, k),
    decreases n,
{
    if n == 0 {
        lemma_partial_flow_sum_zero(m, dm, k);
    } else {
        lemma_sum_swap(m, dm, n - 1, k);
        lemma_partial_flow_sum_step(m, dm, n, k);
    }
}

proof fn lemma_sum_flow_is_partial<D: SingleDownhillMap>(m: Mesh, dm: &D, k: int)
    requires
        m.wf(),
        descends(m, dm),
    ensures
        sum_flow(m, dm, k) == partial_flow_sum(m, dm, (m.width as int) * (m.width as int), k),
    decreases k,
{
    if k > 0 {
        lemma_sum_flow_is_partial(m, dm, k - 1);
    }
}

proof fn lemma_sources_sum_is_trace_sum<D: SingleDownhillMap>(m: Mesh, dm: &D, n: int)
    requires
        m.wf(),
        descends(m, dm),
        n >= 0,
    ensures
        visits_sum_sources(m, dm, n, (m.width as int) * (m.width as int)) == sum_trace_len(
            m,
            dm,
            n,
        ),
    decreases n,
{
    if n > 0 {
        lemma_sources_sum_is_trace_sum(m, dm, n - 1);
        lemma_visits_sum_is_trace_len(
            m,
            dm,
            (n - 1) / (m.width as int),
            (n - 1) % (m.width as int),
        );
    }
}

/// Conservation of rain: the sum of all drainage counts equals the sum of all
/// trace lengths, i.e. the number of (cell, trace) incidence pairs.
pub proof fn lemma_flow_conservation<D: SingleDownhillMap>(m: Mesh, dm: &D)
    requires
        m.wf(),
        descends(m, dm),
    ensures
        sum_flow(m, dm, (m.width as int) * (m.width as int)) == sum_trace_len(
            m,
            dm,
            (m.width as int) * (m.width as int),
        ),
{
    let total = (m.width as int) * (m.width as int);
    assert(total >= 0) by (nonlinear_arith)
        requires
            total == (m.width as int) * (m.width as int),
            m.width as int >= 1,
    ;
    lemma_sum_flow_is_partial(m, dm, total);
    lemma_sum_swap(m, dm, total, total);
    lemma_sources_sum_is_trace_sum(m, dm, total);
}

// --- Capped tracing: any direction table, a step budget per trace ---

/// The per-trace step budget: a trace longer than `width * width` steps is an
/// invariant failure, surfaced to the caller as a stage-level failure.
pub open spec fn trace_budget(m: Mesh) -> nat {
    ((m.width as int) * (m.width as int)) as nat
}

/// Visits that the walk from `(sx, sy)` pays to `(cx, cy)` within its first
/// `budget` steps. Total for every direction table: no descent is assumed.
pub open spec fn capped_visits<D: SingleDownhillMap>(
    m: Mesh,
    dm: &D,
    sx: int,
    sy: int,
    cx: int,
    cy: int,
    budget: nat,
) -> nat
    decreases budget,
{
    if budget == 0 || !m.in_bounds_spec(sx, sy) {
        0
    } else {
        (if sx == cx && sy == cy {
            1nat
        } else {
            0nat
        }) + capped_visits(
            m,
            dm,
            step_x(dm, sx, sy),
            step_y(dm, sx, sy),
            cx,
            cy,
            (budget - 1) as nat,
        )
    }
}

/// The walk from `(x, y)` leaves the grid within `budget` steps.
pub open spec fn trace_exits<D: SingleDownhillMap>(
    m: Mesh,
    dm: &D,
    x: int,
    y: int,
    budget: nat,
) -> bool
    decreases budget,
{
    if !m.in_bounds_spec(x, y) {
        true
    } else if budget == 0 {
        false
    } else {
        trace_exits(m, dm, step_x(dm, x, y), step_y(dm, x, y), (budget - 1) as nat)
    }
}

/// Capped visit counts at `(cx, cy)` from the first `k` sources in row-major
/// order, each trace under the grid's step budget.
pub open spec fn capped_flow_from_first_sources<D: SingleDownhillMap>(
    m: Mesh,
    dm: &D,
    k: int,
    cx: int,
    cy: int,
) -> nat
    decreases k,
{
    if k <= 0 {
        0
    } else {
        capped_flow_from_first_sources(m, dm, k - 1, cx, cy) + capped_visits(
            m,
            dm,
            (k - 1) / (m.width as int),
            (k - 1) % (m.width as int),
            cx,
            cy,
            trace_budget(m),
        )
    }
}

/// The capped drainage count of a cell over all sources.
pub open spec fn capped_flow_spec<D: SingleDownhillMap>(m: Mesh, dm: &D, cx: int, cy: int) -> nat {
    capped_flow_from_first_sources(m, dm, (m.width as int) * (m.width as int), cx, cy)
}

/// Every one of the first `k` sources' walks leaves the grid within budget.
pub open spec fn all_traces_exit<D: SingleDownhillMap>(m: Mesh, dm: &D, k: int) -> bool
    decreases k,
{
    if k <= 0 {
        true
    } else {
        all_traces_exit(m, dm, k - 1) && trace_exits(
            m,
            dm,
            (k - 1) / (m.width as int),
            (k - 1) % (m.width as int),
            trace_budget(m),
        )
    }
}

/// A capped walk pays a cell at most `budget` visits.
proof fn lemma_capped_visits_le_budget<D: SingleDownhillMap>(
    m: Mesh,
    dm: &D,
    sx: int,
    sy: int,
    cx: int,
    cy: int,
    budget: nat,
)
    ensures
        capped_visits(m, dm, sx, sy, cx, cy, budget) <= budget,
    decreases budget,
{
    if budget > 0 && m.in_bounds_spec(sx, sy) {
        lemma_capped_visits_le_budget(
            m,
            dm,
            step_x(dm, sx, sy),
            step_y(dm, sx, sy),
            cx,
            cy,
            (budget - 1) as nat,
        );
    }
}

/// `k` capped traces pay a cell at most `k * budget` visits.
proof fn lemma_capped_ffs_bound<D: SingleDownhillMap>(m: Mesh, dm: &D, k: int, cx: int, cy: int)
    requires
        k >= 0,
    ensures
        capped_flow_from_first_sources(m, dm, k, cx, cy) <= k * trace_budget(m),
    decreases k,
{
    if k > 0 {
        lemma_capped_ffs_bound(m, dm, k - 1, cx, cy);
        lemma_capped_visits_le_budget(
            m,
            dm,
            (k - 1) / (m.width as int),
            (k - 1) % (m.width as int),
            cx,
            cy,
            trace_budget(m),
        );
        assert(k * trace_budget(m) == (k - 1) * trace_budget(m) + trace_budget(m))
            by (nonlinear_arith);
    }
}

/// Once the source enumeration has passed a cell's own index, the capped sum
/// at that cell includes the cell's own first step: every cell rains on
/// itself once, whatever the table.
proof fn lemma_capped_ffs_self<D: SingleDownhillMap>(m: Mesh, dm: &D, k: int, x: int, y: int)
    requires
        m.wf(),
        m.in_bounds_spec(x, y),
        k > x * (m.width as int) + y,
    ensures
        capped_flow_from_first_sources(m, dm, k, x, y) >= 1,
    decreases k,
{
    let w = m.width as int;
    if k - 1 == x * w + y {
        vstd::arithmetic::div_mod::lemma_fundamental_div_mod_converse(k - 1, w, x, y);
        assert((m.width as int) * (m.width as int) >= 1) by (nonlinear_arith)
            requires
                m.width as int >= 1,
        ;
        assert(capped_visits(m, dm, x, y, x, y, trace_budget(m)) >= 1);
    } else {
        lemma_capped_ffs_self(m, dm, k - 1, x, y);
    }
}

/// When the first `k` traces all exit, each of them does.
proof fn lemma_all_exit_at<D: SingleDownhillMap>(m: Mesh, dm: &D, k: int, j: int)
    requires
        all_traces_exit(m, dm, k),
        0 <= j < k,
    ensures
        trace_exits(m, dm, j / (m.width as int), j % (m.width as int), trace_budget(m)),
    decreases k,
{
    if j < k - 1 {
        lemma_all_exit_at(m, dm, k - 1, j);
    }
}

/// Under strict descent the capped walk is the descending trace: it exits
/// within any budget past the measure, paying the same visits. The grid's
/// budget of `width * width` always suffices.
pub proof fn lemma_capped_agrees_with_descent<D: SingleDownhillMap>(
    m: Mesh,
    dm: &D,
    sx: int,
    sy: int,
    cx: int,
    cy: int,
    budget: nat,
)
    requires
        m.wf(),
        descends(m, dm),
        budget > cells_below(m, m.z_at(sx, sy)),
    ensures
        capped_visits(m, dm, sx, sy, cx, cy, budget) == trace_visits(m, dm, sx, sy, cx, cy),
        trace_exits(m, dm, sx, sy, budget),
    decreases budget,
{
    assert(budget >= 1);
    if m.in_bounds_spec(sx, sy) {
        let nx = step_x(dm, sx, sy);
        let ny = step_y(dm, sx, sy);
        let here: nat = if sx == cx && sy == cy {
            1nat
        } else {
            0nat
        };
        assert(capped_visits(m, dm, sx, sy, cx, cy, budget) == here + capped_visits(
            m,
            dm,
            nx,
            ny,
            cx,
            cy,
            (budget - 1) as nat,
        ));
        if m.in_bounds_spec(nx, ny) {
            lemma_cells_below_decreases(m, sx, sy, nx, ny);
            lemma_capped_agrees_with_descent(m, dm, nx, ny, cx, cy, (budget - 1) as nat);
            assert(trace_visits(m, dm, sx, sy, cx, cy) == here + trace_visits(m, dm, nx, ny, cx, cy));
        } else {
            assert(capped_visits(m, dm, nx, ny, cx, cy, (budget - 1) as nat) == 0);
            assert(trace_visits(m, dm, sx, sy, cx, cy) == here);
            assert(trace_exits(m, dm, nx, ny, (budget - 1) as nat));
        }
    }
}

/// The grid budget covers every descending trace.
pub proof fn lemma_grid_budget_suffices<D: SingleDownhillMap>(
    m: Mesh,
    dm: &D,
    sx: int,
    sy: int,
    cx: int,
    cy: int,
)
    requires
        m.wf(),
        descends(m, dm),
    ensures
        capped_visits(m, dm, sx, sy, cx, cy, trace_budget(m)) == trace_visits(m, dm, sx, sy, cx, cy),
        trace_exits(m, dm, sx, sy, trace_budget(m)),
{
    if m.in_bounds_spec(sx, sy) {
        lemma_cells_below_bound(m, sx, sy);
        assert((m.width as int) * (m.width as int) >= 1) by (nonlinear_arith)
            requires
                m.width as int >= 1,
        ;
        lemma_capped_agrees_with_descent(m, dm, sx, sy, cx, cy, trace_budget(m));
    } else {
        assert((m.width as int) * (m.width as int) >= 1) by (nonlinear_arith)
            requires
                m.width as int >= 1,
        ;
    }
}

impl FlowMap {
    /// Drops one unit of rain on `(x, y)` and follows the direction table for
    /// at most `width * width` steps, raising every visited cell's count by
    /// one. Works for any table: the counts always rise by the capped visit
    /// counts, and the answer reports whether the trace left the grid within
    /// the budget - false is the stage-level trace failure.
    pub fn rain_on_capped<D: SingleDownhillMap>(
        &mut self,
        mesh: &Mesh,
        downhill_map: &D,
        x: i32,
        y: i32,
    ) -> (exited: bool)
        requires
            old(self).wf(),
            mesh.wf(),
            downhill_map.wf_spec(),
            downhill_map.width_spec() == mesh.width as int,
            old(self).width == mesh.width,
            forall|i: int, j: int|
                old(self).in_bounds_spec(i, j) ==> #[trigger] old(self).flow_at_spec(i, j) as int
                    + trace_budget(*mesh) <= u32::MAX as int,
        ensures
            final(self).wf(),
            final(self).width == old(self).width,
            exited == trace_exits(*mesh, downhill_map, x as int, y as int, trace_budget(*mesh)),
            forall|i: int, j: int|
                old(self).in_bounds_spec(i, j) ==> #[trigger] final(self).flow_at_spec(i, j) as int
                    == old(self).flow_at_spec(i, j) + capped_visits(
                    *mesh,
                    downhill_map,
                    x as int,
                    y as int,
                    i,
                    j,
                    trace_budget(*mesh),
                ),
    {
        let w = mesh.get_width();
        proof {
            assert((w as int) * (w as int) <= (crate::mesh::MAX_WIDTH as int) * (
            crate::mesh::MAX_WIDTH as int)) by (nonlinear_arith)
                requires
                    1 <= w as int <= crate::mesh::MAX_WIDTH as int,
            ;
        }
        let total: u32 = (w as u32) * (w as u32);
        let ghost budget = trace_budget(*mesh);
        let mut fx = x;
        let mut fy = y;
        let mut steps: u32 = 0;
        loop
            invariant
                self.wf(),
                mesh.wf(),
                downhill_map.wf_spec(),
                downhill_map.width_spec() == mesh.width as int,
                self.width == mesh.width,
                w == mesh.width,
                total as int == (w as int) * (w as int),
                budget == trace_budget(*mesh),
                budget == total as nat,
                steps <= total,
                forall|i: int, j: int|
                    self.in_bounds_spec(i, j) ==> #[trigger] old(self).flow_at_spec(i, j) as int
                        + trace_budget(*mesh) <= u32::MAX as int,
                forall|i: int, j: int|
                    self.in_bounds_spec(i, j) ==> #[trigger] self.flow_at_spec(i, j) as int
                        <= old(self).flow_at_spec(i, j) + steps,
                forall|i: int, j: int|
                    self.in_bounds_spec(i, j) ==> #[trigger] old(self).flow_at_spec(i, j)
                        + capped_visits(*mesh, downhill_map, x as int, y as int, i, j, budget)
                        == self.flow_at_spec(i, j) + capped_visits(
                        *mesh,
                        downhill_map,
                        fx as int,
                        fy as int,
                        i,
                        j,
                        (budget - steps as nat) as nat,
                    ),
                trace_exits(*mesh, downhill_map, x as int, y as int, budget) == trace_exits(
                    *mesh,
                    downhill_map,
                    fx as int,
                    fy as int,
                    (budget - steps as nat) as nat,
                ),
            ensures
                !mesh.in_bounds_spec(fx as int, fy as int) || steps == total,
            decreases total - steps,
        {
            if !mesh.in_bounds(fx, fy) {
                break ;
            }
            if steps == total {
                break ;
            }
            let c = self.get_flow(fx, fy);
            self.set_flow(fx, fy, c + 1);
            let d = downhill_map.get_direction(fx, fy);
            let (dx, dy) = crate::downhill::direction_offset(d);
            let ghost ofx = fx as int;
            let ghost ofy = fy as int;
            let ghost orem = (budget - steps as nat) as nat;
            fx = fx + dx;
            fy = fy + dy;
            steps = steps + 1;
            proof {
                assert forall|i: int, j: int| self.in_bounds_spec(i, j) implies #[trigger] old(
                    self,
                ).flow_at_spec(i, j) + capped_visits(
                    *mesh,
                    downhill_map,
                    x as int,
                    y as int,
                    i,
                    j,
                    budget,
                ) == self.flow_at_spec(i, j) + capped_visits(
                    *mesh,
                    downhill_map,
                    fx as int,
                    fy as int,
                    i,
                    j,
                    (budget - steps as nat) as nat,
                ) by {
                    assert(capped_visits(*mesh, downhill_map, ofx, ofy, i, j, orem) == (if ofx == i
                        && ofy == j {
                        1nat
                    } else {
                        0nat
                    }) + capped_visits(
                        *mesh,
                        downhill_map,
                        fx as int,
                        fy as int,
                        i,
                        j,
                        (orem - 1) as nat,
                    ));
                }
                assert(trace_exits(*mesh, downhill_map, ofx, ofy, orem) == trace_exits(
                    *mesh,
                    downhill_map,
                    fx as int,
                    fy as int,
                    (orem - 1) as nat,
                ));
            }
        }
        let exited = !mesh.in_bounds(fx, fy);
        proof {
            let rem = (budget - steps as nat) as nat;
            assert forall|i: int, j: int|
                #[trigger] capped_visits(*mesh, downhill_map, fx as int, fy as int, i, j, rem)
                    == 0 by {
            }
        }
        exited
    }
}

/// A square grid of zeroed u64 counters, wide enough to sum every capped
/// trace without overflow.
fn make_zero_grid(w: usize) -> (g: Vec<Vec<u64>>)
    requires
        1 <= w,
    ensures
        g@.len() == w as int,
        forall|i: int| 0 <= i < w as int ==> (#[trigger] g@[i])@.len() == w as int,
        forall|i: int, j: int| 0 <= i < w as int && 0 <= j < w as int ==> #[trigger] g@[i]@[j] == 0,
{
    let mut g: Vec<Vec<u64>> = Vec::new();
    let mut i: usize = 0;
    while i < w
        invariant
            i <= w,
            g@.len() == i as int,
            forall|a: int| 0 <= a < i as int ==> (#[trigger] g@[a])@.len() == w as int,
            forall|a: int, b: int|
                0 <= a < i as int && 0 <= b < w as int ==> #[trigger] g@[a]@[b] == 0,
        decreases w - i,
    {
        let mut row: Vec<u64> = Vec::new();
        let mut j: usize = 0;
        while j < w
            invariant
                j <= w,
                row@.len() == j as int,
                forall|b: int| 0 <= b < j as int ==> #[trigger] row@[b] == 0,
            decreases w - j,
        {
            row.push(0);
            j = j + 1;
        }
        g.push(row);
        i = i + 1;
    }
    g
}

/// One capped trace on the u64 counters; the counter headroom admits the
/// whole grid's worth of traces.
fn rain_on_scratch<D: SingleDownhillMap>(
    grid: &mut Vec<Vec<u64>>,
    mesh: &Mesh,
    downhill_map: &D,
    x: i32,
    y: i32,
) -> (exited: bool)
    requires
        mesh.wf(),
        downhill_map.wf_spec(),
        downhill_map.width_spec() == mesh.width as int,
        old(grid)@.len() == mesh.width as int,
        forall|i: int|
            0 <= i < mesh.width as int ==> (#[trigger] old(grid)@[i])@.len() == mesh.width as int,
        forall|i: int, j: int|
            0 <= i < mesh.width as int && 0 <= j < mesh.width as int
                ==> #[trigger] old(grid)@[i]@[j] <= 0x0100_0000_0000_0000u64,
    ensures
        final(grid)@.len() == mesh.width as int,
        forall|i: int|
            0 <= i < mesh.width as int ==> (#[trigger] final(grid)@[i])@.len() == mesh.width as int,
        exited == trace_exits(*mesh, downhill_map, x as int, y as int, trace_budget(*mesh)),
        forall|i: int, j: int|
            0 <= i < mesh.width as int && 0 <= j < mesh.width as int
                ==> #[trigger] final(grid)@[i]@[j] as int == old(grid)@[i]@[j] + capped_visits(
                *mesh,
                downhill_map,
                x as int,
                y as int,
                i,
                j,
                trace_budget(*mesh),
            ),
{
    let w = mesh.get_width();
    proof {
        assert((w as int) * (w as int) <= (crate::mesh::MAX_WIDTH as int) * (
        crate::mesh::MAX_WIDTH as int)) by (nonlinear_arith)
            requires
                1 <= w as int <= crate::mesh::MAX_WIDTH as int,
        ;
    }
    let total: u32 = (w as u32) * (w as u32);
    let ghost budget = trace_budget(*mesh);
    let mut fx = x;
    let mut fy = y;
    let mut steps: u32 = 0;
    loop
        invariant
            mesh.wf(),
            downhill_map.wf_spec(),
            downhill_map.width_spec() == mesh.width as int,
            w == mesh.width,
            total as int == (w as int) * (w as int),
            budget == trace_budget(*mesh),
            budget == total as nat,
            steps <= total,
            grid@.len() == mesh.width as int,
            forall|i: int|
                0 <= i < mesh.width as int ==> (#[trigger] grid@[i])@.len() == mesh.width as int,
            forall|i: int, j: int|
                0 <= i < mesh.width as int && 0 <= j < mesh.width as int
                    ==> #[trigger] old(grid)@[i]@[j] <= 0x0100_0000_0000_0000u64,
            forall|i: int, j: int|
                0 <= i < mesh.width as int && 0 <= j < mesh.width as int ==> #[trigger] grid@[i]@[j]
                    as int <= old(grid)@[i]@[j] + steps,
            forall|i: int, j: int|
                0 <= i < mesh.width as int && 0 <= j < mesh.width as int ==> old(grid)@[i]@[j]
                    + capped_visits(*mesh, downhill_map, x as int, y as int, i, j, budget)
                    == #[trigger] grid@[i]@[j] + capped_visits(
                    *mesh,
                    downhill_map,
                    fx as int,
                    fy as int,
                    i,
                    j,
                    (budget - steps as nat) as nat,
                ),
            trace_exits(*mesh, downhill_map, x as int, y as int, budget) == trace_exits(
                *mesh,
                downhill_map,
                fx as int,
                fy as int,
                (budget - steps as nat) as nat,
            ),
        ensures
            !mesh.in_bounds_spec(fx as int, fy as int) || steps == total,
        decreases total - steps,
    {
        if !mesh.in_bounds(fx, fy) {
            break ;
        }
        if steps == total {
            break ;
        }
        let row: &mut Vec<u64> = &mut grid[fx as usize];
        let c = row[fy as usize];
        row.set(fy as usize, c + 1);
        let d = downhill_map.get_direction(fx, fy);
        let (dx, dy) = crate::downhill::direction_offset(d);
        let ghost ofx = fx as int;
        let ghost ofy = fy as int;
        let ghost orem = (budget - steps as nat) as nat;
        fx = fx + dx;
        fy = fy + dy;
        steps = steps + 1;
        proof {
            assert forall|i: int, j: int|
                0 <= i < mesh.width as int && 0 <= j < mesh.width as int implies old(grid)@[i]@[j]
                + capped_visits(*mesh, downhill_map, x as int, y as int, i, j, budget)
                == #[trigger] grid@[i]@[j] + capped_visits(
                *mesh,
                downhill_map,
                fx as int,
                fy as int,
                i,
                j,
                (budget - steps as nat) as nat,
            ) by {
                assert(capped_visits(*mesh, downhill_map, ofx, ofy, i, j, orem) == (if ofx == i
                    && ofy == j {
                    1nat
                } else {
                    0nat
                }) + capped_visits(
                    *mesh,
                    downhill_map,
                    fx as int,
                    fy as int,
                    i,
                    j,
                    (orem - 1) as nat,
                ));
            }
            assert(trace_exits(*mesh, downhill_map, ofx, ofy, orem) == trace_exits(
                *mesh,
                downhill_map,
                fx as int,
                fy as int,
                (orem - 1) as nat,
            ));
        }
    }
    let exited = !mesh.in_bounds(fx, fy);
    proof {
        let rem = (budget - steps as nat) as nat;
        assert forall|i: int, j: int|
            #[trigger] capped_visits(*mesh, downhill_map, fx as int, fy as int, i, j, rem)
                == 0 by {
        }
    }
    exited
}

impl FlowMap {
    /// Builds the flow map of a mesh under any direction table, each trace
    /// capped at `width * width` steps. Succeeds exactly when every trace
    /// leaves the grid within its budget and every count fits the counter
    /// word; a trace over budget is the stage-level failure of an unrepaired
    /// mesh, surfaced to the caller as nothing.
    pub fn from_capped<D: SingleDownhillMap>(mesh: &Mesh, downhill_map: &D) -> (r: Option<FlowMap>)
        requires
            mesh.wf(),
            downhill_map.wf_spec(),
            downhill_map.width_spec() == mesh.width as int,
        ensures
            r.is_some() == (all_traces_exit(
                *mesh,
                downhill_map,
                (mesh.width as int) * (mesh.width as int),
            ) && forall|x: int, y: int|
                mesh.in_bounds_spec(x, y) ==> #[trigger] capped_flow_spec(
                    *mesh,
                    downhill_map,
                    x,
                    y,
                ) <= u32::MAX),
            r.is_some() ==> r.unwrap().wf() && r.unwrap().width == mesh.width && forall|
                x: int,
                y: int,
            |
                mesh.in_bounds_spec(x, y) ==> #[trigger] r.unwrap().flow_at_spec(x, y) as int
                    == capped_flow_spec(*mesh, downhill_map, x, y),
            r.is_some() ==> forall|x: int, y: int|
                mesh.in_bounds_spec(x, y) ==> #[trigger] r.unwrap().flow_at_spec(x, y) >= 1,
    {
        let w = mesh.get_width();
        let ghost wi = w as int;
        let mut grid = make_zero_grid(w as usize);
        let mut x: i32 = 0;
        while x < w
            invariant
                0 <= x <= w,
                mesh.wf(),
                downhill_map.wf_spec(),
                downhill_map.width_spec() == mesh.width as int,
                w == mesh.width,
                wi == w as int,
                grid@.len() == wi,
                forall|i: int| 0 <= i < wi ==> (#[trigger] grid@[i])@.len() == wi,
                all_traces_exit(*mesh, downhill_map, (x as int) * wi),
                forall|i: int, j: int|
                    0 <= i < wi && 0 <= j < wi ==> #[trigger] grid@[i]@[j] as int
                        == capped_flow_from_first_sources(
                        *mesh,
                        downhill_map,
                        (x as int) * wi,
                        i,
                        j,
                    ),
            decreases w - x,
        {
            let mut y: i32 = 0;
            while y < w
                invariant
                    0 <= x < w,
                    0 <= y <= w,
                    mesh.wf(),
                    downhill_map.wf_spec(),
                    downhill_map.width_spec() == mesh.width as int,
                    w == mesh.width,
                    wi == w as int,
                    grid@.len() == wi,
                    forall|i: int| 0 <= i < wi ==> (#[trigger] grid@[i])@.len() == wi,
                    all_traces_exit(*mesh, downhill_map, (x as int) * wi + y as int),
                    forall|i: int, j: int|
                        0 <= i < wi && 0 <= j < wi ==> #[trigger] grid@[i]@[j] as int
                            == capped_flow_from_first_sources(
                            *mesh,
                            downhill_map,
                            (x as int) * wi + y as int,
                            i,
                            j,
                        ),
                decreases w - y,
            {
                let ghost k = (x as int) * wi + (y as int);
                proof {
                    assert(0 <= k && k + 1 <= wi * wi) by (nonlinear_arith)
                        requires
                            0 <= x as int && (x as int) < wi,
                            0 <= y as int && (y as int) < wi,
                            k == (x as int) * wi + (y as int),
                    ;
                    vstd::arithmetic::div_mod::lemma_fundamental_div_mod_converse(
                        k,
                        wi,
                        x as int,
                        y as int,
                    );
                    assert forall|i: int, j: int|
                        0 <= i < wi && 0 <= j < wi implies #[trigger] grid@[i]@[j]
                        <= 0x0100_0000_0000_0000u64 by {
                        lemma_capped_ffs_bound(*mesh, downhill_map, k, i, j);
                        assert(k * trace_budget(*mesh) <= 0x0100_0000_0000_0000)
                            by (nonlinear_arith)
                            requires
                                0 <= k <= wi * wi,
                                trace_budget(*mesh) == (wi * wi) as nat,
                                1 <= wi <= crate::mesh::MAX_WIDTH as int,
                        ;
                    }
                }
                let exited = rain_on_scratch(&mut grid, mesh, downhill_map, x, y);
                if !exited {
                    proof {
                        if all_traces_exit(*mesh, downhill_map, wi * wi) {
                            lemma_all_exit_at(*mesh, downhill_map, wi * wi, k);
                        }
                    }
                    return None;
                }
                y = y + 1;
                proof {
                    assert((x as int) * wi + (y as int) == k + 1);
                }
            }
            x = x + 1;
            proof {
                assert((x as int) * wi == (x as int - 1) * wi + wi) by (nonlinear_arith);
            }
        }
        proof {
            assert((w as int) * wi == wi * wi);
        }
        let mut out = FlowMap::new(w);
        let mut cx: i32 = 0;
        while cx < w
            invariant
                0 <= cx <= w,
                mesh.wf(),
                downhill_map.wf_spec(),
                w == mesh.width,
                wi == w as int,
                grid@.len() == wi,
                forall|i: int| 0 <= i < wi ==> (#[trigger] grid@[i])@.len() == wi,
                forall|i: int, j: int|
                    0 <= i < wi && 0 <= j < wi ==> #[trigger] grid@[i]@[j] as int
                        == capped_flow_spec(*mesh, downhill_map, i, j),
                out.wf(),
                out.width == w,
                forall|i: int, j: int|
                    0 <= i < cx as int && 0 <= j < wi ==> #[trigger] out.flow_at_spec(i, j) as int
                        == capped_flow_spec(*mesh, downhill_map, i, j),
                forall|i: int, j: int|
                    0 <= i < cx as int && 0 <= j < wi ==> #[trigger] capped_flow_spec(
                        *mesh,
                        downhill_map,
                        i,
                        j,
                    ) <= u32::MAX,
            decreases w - cx,
        {
            let mut cy: i32 = 0;
            while cy < w
                invariant
                    0 <= cx < w,
                    0 <= cy <= w,
                    mesh.wf(),
                    downhill_map.wf_spec(),
                    w == mesh.width,
                    wi == w as int,
                    grid@.len() == wi,
                    forall|i: int| 0 <= i < wi ==> (#[trigger] grid@[i])@.len() == wi,
                    forall|i: int, j: int|
                        0 <= i < wi && 0 <= j < wi ==> #[trigger] grid@[i]@[j] as int
                            == capped_flow_spec(*mesh, downhill_map, i, j),
                    out.wf(),
                    out.width == w,
                    forall|i: int, j: int|
                        0 <= i < cx as int && 0 <= j < wi ==> #[trigger] out.flow_at_spec(
                            i,
                            j,
                        ) as int == capped_flow_spec(*mesh, downhill_map, i, j),
                    forall|i: int, j: int|
                        0 <= i < cx as int && 0 <= j < wi ==> #[trigger] capped_flow_spec(
                            *mesh,
                            downhill_map,
                            i,
                            j,
                        ) <= u32::MAX,
                    forall|j: int|
                        0 <= j < cy as int ==> #[trigger] out.flow_at_spec(cx as int, j) as int
                            == capped_flow_spec(*mesh, downhill_map, cx as int, j),
                    forall|j: int|
                        0 <= j < cy as int ==> #[trigger] capped_flow_spec(
                            *mesh,
                            downhill_map,
                            cx as int,
                            j,
                        ) <= u32::MAX,
                decreases w - cy,
            {
                let row: &Vec<u64> = &grid[cx as usize];
                let v = row[cy as usize];
                if v > u32::MAX as u64 {
                    return None;
                }
                out.set_flow(cx, cy, v as u32);
                cy = cy + 1;
            }
            cx = cx + 1;
        }
        proof {
            assert forall|i: int, j: int| mesh.in_bounds_spec(i, j) implies #[trigger] out
                .flow_at_spec(i, j) >= 1 by {
                assert(i * wi + j + 1 <= wi * wi) by (nonlinear_arith)
                    requires
                        0 <= i < wi,
                        0 <= j < wi,
                ;
                lemma_capped_ffs_self(*mesh, downhill_map, wi * wi, i, j);
            }
        }
        Some(out)
    }
}

} // verus!
