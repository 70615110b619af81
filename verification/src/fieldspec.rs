//! The mathematical model of cost and integration fields.
//!
//! A cost field assigns each cell an optional `u32` weight (`None` means
//! impassable). An integration field assigns each cell an optional exact
//! distance to the destination. The integration field the builder returns
//! is characterised by `converged`: the destination holds zero, impassable
//! cells hold nothing, every other occupied cell holds exactly what one of
//! its neighbours offers it (`supported_exact`), and no neighbour offers
//! any cell less than it holds (`closed_edge`). These four clauses pin the
//! field down uniquely.

use vstd::prelude::*;
use crate::distance::{Distance, dist_zero, dist_rank, rank, val_le, val_lt, lam};
use crate::direction::{Dir, dir_dx, dir_dy, is_diagonal, step_dist};
use crate::geometry::{Dimensions, idx_of, on_grid};

verus! {

/// The cell `(x, y)` lies on the grid and is passable.
pub open spec fn passable(dim: Dimensions, cost: Seq<Option<u32>>, x: int, y: int) -> bool {
    on_grid(dim, x, y) && cost[idx_of(dim, x, y)].is_some()
}

/// A step from `(x, y)` in direction `d` is admissible: the entered cell is
/// passable, and a diagonal step additionally requires both flanking
/// orthogonal cells to be passable, so the wavefront never cuts a corner.
pub open spec fn edge_ok(dim: Dimensions, cost: Seq<Option<u32>>, x: int, y: int, d: Dir) -> bool {
    &&& passable(dim, cost, x + dir_dx(d), y + dir_dy(d))
    &&& (is_diagonal(d) ==> passable(dim, cost, x + dir_dx(d), y)
        && passable(dim, cost, x, y + dir_dy(d)))
}

/// `units` component of the value a neighbour at distance `du` offers
/// through a step in direction `d` into a cell of weight `c`.
pub open spec fn cand_units(du: Distance, d: Dir, c: u32) -> int {
    du.units + c + step_dist(d).units
}

/// `diagonals` component of the offered value.
pub open spec fn cand_diags(du: Distance, d: Dir) -> int {
    du.diagonals + step_dist(d).diagonals
}

/// The cell `(x, y)` holds exactly what its neighbour against direction `d`
/// offers it: the neighbour `u = (x, y) - offset(d)` is occupied, the step
/// from `u` in direction `d` is admissible, and the stored distance equals
/// the neighbour's distance plus the step length plus the cell's weight.
pub open spec fn supported_exact(
    dim: Dimensions,
    cost: Seq<Option<u32>>,
    f: Seq<Option<Distance>>,
    x: int,
    y: int,
    d: Dir,
) -> bool {
    let ux = x - dir_dx(d);
    let uy = y - dir_dy(d);
    let u = idx_of(dim, ux, uy);
    let i = idx_of(dim, x, y);
    &&& on_grid(dim, ux, uy)
    &&& f[u].is_some()
    &&& edge_ok(dim, cost, ux, uy, d)
    &&& f[i].is_some()
    &&& cost[i].is_some()
    &&& f[i].unwrap().units == cand_units(f[u].unwrap(), d, cost[i].unwrap())
    &&& f[i].unwrap().diagonals == cand_diags(f[u].unwrap(), d)
}

/// Like `supported_exact`, but the neighbour may meanwhile offer less than
/// the cell holds: the stored distance is at least the neighbour's offer.
/// This is the form the builder maintains while it still has work queued.
pub open spec fn supported_ge(
    dim: Dimensions,
    cost: Seq<Option<u32>>,
    f: Seq<Option<Distance>>,
    x: int,
    y: int,
    d: Dir,
) -> bool {
    let ux = x - dir_dx(d);
    let uy = y - dir_dy(d);
    let u = idx_of(dim, ux, uy);
    let i = idx_of(dim, x, y);
    &&& on_grid(dim, ux, uy)
    &&& f[u].is_some()
    &&& edge_ok(dim, cost, ux, uy, d)
    &&& f[i].is_some()
    &&& cost[i].is_some()
    &&& val_le(
        cand_units(f[u].unwrap(), d, cost[i].unwrap()),
        cand_diags(f[u].unwrap(), d),
        f[i].unwrap().units as int,
        f[i].unwrap().diagonals as int,
    )
}

/// If `(x, y)` is occupied and the step in direction `d` is admissible,
/// the entered cell is occupied and holds no more than `(x, y)` offers it.
pub open spec fn closed_edge(
    dim: Dimensions,
    cost: Seq<Option<u32>>,
    f: Seq<Option<Distance>>,
    x: int,
    y: int,
    d: Dir,
) -> bool {
    (f[idx_of(dim, x, y)].is_some() && edge_ok(dim, cost, x, y, d)) ==> {
        let t = idx_of(dim, x + dir_dx(d), y + dir_dy(d));
        &&& f[t].is_some()
        &&& val_le(
            f[t].unwrap().units as int,
            f[t].unwrap().diagonals as int,
            cand_units(f[idx_of(dim, x, y)].unwrap(), d, cost[t].unwrap()),
            cand_diags(f[idx_of(dim, x, y)].unwrap(), d),
        )
    }
}

/// The integration field the builder returns for destination `(tx, ty)`:
/// a fixed point of the relaxation.
pub open spec fn converged(
    dim: Dimensions,
    cost: Seq<Option<u32>>,
    tx: int,
    ty: int,
    f: Seq<Option<Distance>>,
) -> bool {
    &&& dim.wf()
    &&& cost.len() == dim.max_idx
    &&& f.len() == dim.max_idx
    &&& on_grid(dim, tx, ty)
    &&& f[idx_of(dim, tx, ty)] == Some(dist_zero())
    &&& forall|i: int|
        0 <= i < f.len() && #[trigger] f[i].is_some() ==> cost[i].is_some()
    &&& forall|x: int, y: int|
        #![trigger f[idx_of(dim, x, y)]]
        on_grid(dim, x, y) && f[idx_of(dim, x, y)].is_some() && !(x == tx && y == ty)
            ==> exists|d: Dir| supported_exact(dim, cost, f, x, y, d)
    &&& forall|x: int, y: int, d: Dir|
        on_grid(dim, x, y) ==> #[trigger] closed_edge(dim, cost, f, x, y, d)
}

/// One step's worth of rank growth never exceeds this: a step adds at most
/// `u32::MAX + 1` units and one diagonal, and `mu() < 2 * lam()`.
pub open spec fn weight_bound() -> int {
    0x1_0000_0002
}

/// Rank larger than that of any storable distance.
pub open spec fn top_rank() -> int {
    rank(0x1_0000_0000_0000_0000, 0x1_0000_0000_0000_0000)
}

/// Termination measure of one cell: occupied cells count their rank,
/// unoccupied ones the ceiling `top_rank()`.
pub open spec fn m_of(o: Option<Distance>) -> int {
    match o {
        None => top_rank(),
        Some(d) => dist_rank(d),
    }
}

/// Termination measure of a field: the sum of its cells' measures.
pub open spec fn msum(f: Seq<Option<Distance>>) -> int
    decreases f.len(),
{
    if f.len() == 0 {
        0
    } else {
        msum(f.drop_last()) + m_of(f.last())
    }
}

/// Number of occupied cells.
pub open spec fn count_some(f: Seq<Option<Distance>>) -> int
    decreases f.len(),
{
    if f.len() == 0 {
        0
    } else {
        count_some(f.drop_last()) + if f.last().is_some() {
            1int
        } else {
            0int
        }
    }
}

/// Every occupied cell's distance is bounded by `count_some(f)` steps'
/// worth of value. This is what keeps the `u64` components from
/// overflowing: with at most `MAX_CELLS` cells the `units` component stays
/// below `2^62`.
pub open spec fn dist_bounded(f: Seq<Option<Distance>>) -> bool {
    forall|i: int|
        0 <= i < f.len() && #[trigger] f[i].is_some() ==> val_le(
            f[i].unwrap().units as int,
            f[i].unwrap().diagonals as int,
            count_some(f) * weight_bound(),
            0,
        )
}

/// Cell measures are nonnegative, so `msum` is.
pub proof fn lemma_msum_nonneg(f: Seq<Option<Distance>>)
    ensures
        msum(f) >= 0,
    decreases f.len(),
{
    if f.len() > 0 {
        lemma_msum_nonneg(f.drop_last());
    }
}

/// Updating one cell moves `msum` by the difference of the cell measures.
pub proof fn lemma_msum_update(f: Seq<Option<Distance>>, i: int, v: Option<Distance>)
    requires
        0 <= i < f.len(),
    ensures
        msum(f.update(i, v)) == msum(f) - m_of(f[i]) + m_of(v),
    decreases f.len(),
{
    let g = f.update(i, v);
    if i == f.len() - 1 {
        assert(g.drop_last() =~= f.drop_last());
    } else {
        assert(g.drop_last() =~= f.drop_last().update(i, v));
        lemma_msum_update(f.drop_last(), i, v);
    }
}

/// Updating one cell moves `count_some` by zero or one, accordingly.
pub proof fn lemma_count_update(f: Seq<Option<Distance>>, i: int, v: Option<Distance>)
    requires
        0 <= i < f.len(),
    ensures
        count_some(f.update(i, v)) == count_some(f) + (if v.is_some() {
            1int
        } else {
            0int
        }) - (if f[i].is_some() {
            1int
        } else {
            0int
        }),
    decreases f.len(),
{
    let g = f.update(i, v);
    if i == f.len() - 1 {
        assert(g.drop_last() =~= f.drop_last());
    } else {
        assert(g.drop_last() =~= f.drop_last().update(i, v));
        lemma_count_update(f.drop_last(), i, v);
    }
}

/// The occupied-cell count lies between 0 and the length.
pub proof fn lemma_count_bounds(f: Seq<Option<Distance>>)
    ensures
        0 <= count_some(f) <= f.len(),
    decreases f.len(),
{
    if f.len() > 0 {
        lemma_count_bounds(f.drop_last());
    }
}

/// A field of unoccupied cells has count zero.
pub proof fn lemma_count_none(f: Seq<Option<Distance>>)
    requires
        forall|i: int| 0 <= i < f.len() ==> f[i].is_none(),
    ensures
        count_some(f) == 0,
    decreases f.len(),
{
    if f.len() > 0 {
        lemma_count_none(f.drop_last());
    }
}

/// Components of a pair below a pure-units bound are below that bound.
pub proof fn lemma_le_bound_components(a: int, b: int, bound: int)
    requires
        0 <= a,
        0 <= b,
        0 <= bound,
        val_le(a, b, bound, 0),
    ensures
        a <= bound,
        b <= bound,
{
    let da = bound - a;
    let db = 0 - b;
    if a > bound {
        assert(val_lt(bound, 0, a, b));
        assert(false);
    }
    if b > bound {
        if da == 0 {
            assert(val_lt(bound, 0, a, b));
        } else {
            assert(da * da < 2 * db * db) by (nonlinear_arith)
                requires
                    0 < da <= bound,
                    db < -bound;
            assert(val_lt(bound, 0, a, b));
        }
        assert(false);
    }
}

} // verus!
