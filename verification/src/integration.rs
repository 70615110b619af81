//! The integration-field builder: multi-source shortest distance from one
//! destination cell outward, by FIFO relaxation over the 8-connected grid.
//!
//! The builder seeds the destination with distance zero and repeatedly pops
//! a cell from a FIFO work queue, offering each admissible neighbour the
//! popped cell's distance plus the step length plus the neighbour's weight.
//! An offer below the neighbour's current distance (or to a cell without
//! one) is stored, and the neighbour re-queued. Diagonal offers are gated:
//! they are made only when both flanking orthogonal cells are passable.
//!
//! On exit the field is a fixed point (`converged`): every occupied cell
//! other than the destination holds exactly the best offer of one of its
//! neighbours, and no admissible step could lower any cell further.

use vstd::prelude::*;
use std::collections::VecDeque;
use crate::distance::{
    Distance, dist_zero, dist_lt, dist_rank, rank, val_le, val_lt, lam, mu, dist_cmp_lt,
    lemma_lt_iff_rank, lemma_val_total, lemma_dist_order,
};
use crate::direction::{Dir, dir_dx, dir_dy, is_diagonal};
use crate::geometry::{
    Dimensions, FieldError, idx_of, on_grid, lemma_idx_bounds, lemma_idx_injective,
};
use crate::fieldspec::{
    passable, edge_ok, cand_units, cand_diags, supported_exact, supported_ge, closed_edge,
    converged, weight_bound, top_rank, m_of, msum, count_some, dist_bounded, lemma_msum_nonneg,
    lemma_msum_update, lemma_count_update, lemma_count_bounds, lemma_count_none,
    lemma_le_bound_components,
};

verus! {

/// A cell's traversal weight, or `None` for an impassable cell.
pub type Cost = Option<u32>;

/// One weight per cell, row-major against a `Dimensions`.
pub type CostField = Vec<Cost>;

/// One optional distance per cell, row-major against a `Dimensions`.
pub type IntegrationField = Vec<Option<Distance>>;

/// What the builder maintains of the field between relaxations.
pub(crate) open spec fn relax_inv(
    dim: Dimensions,
    cost: Seq<Option<u32>>,
    tx: int,
    ty: int,
    f: Seq<Option<Distance>>,
) -> bool {
    &&& dim.wf()
    &&& cost.len() == dim.max_idx
    &&& f.len() == dim.max_idx
    &&& on_grid(dim, tx, ty)
    &&& cost[idx_of(dim, tx, ty)].is_some()
    &&& f[idx_of(dim, tx, ty)] == Some(dist_zero())
    &&& forall|i: int| 0 <= i < f.len() && #[trigger] f[i].is_some() ==> cost[i].is_some()
    &&& forall|x: int, y: int|
        #![trigger f[idx_of(dim, x, y)]]
        on_grid(dim, x, y) && f[idx_of(dim, x, y)].is_some() && !(x == tx && y == ty)
            ==> exists|d: Dir| supported_ge(dim, cost, f, x, y, d)
    &&& dist_bounded(f)
}

/// Queued coordinates are on the grid and occupied.
pub(crate) open spec fn queue_inv(
    dim: Dimensions,
    f: Seq<Option<Distance>>,
    q: Seq<(usize, usize)>,
) -> bool {
    forall|j: int|
        0 <= j < q.len() ==> on_grid(dim, (#[trigger] q[j]).0 as int, q[j].1 as int)
            && f[idx_of(dim, q[j].0 as int, q[j].1 as int)].is_some()
}

/// The coordinate `(x, y)` occurs in the queue.
pub(crate) open spec fn in_queue(q: Seq<(usize, usize)>, x: int, y: int) -> bool {
    exists|j: int| 0 <= j < q.len() && (#[trigger] q[j]).0 == x && q[j].1 == y
}

/// Every occupied cell except `(ex_x, ex_y)` is either queued for another
/// round of offers, or has already made every admissible offer.
pub(crate) open spec fn closed_except(
    dim: Dimensions,
    cost: Seq<Option<u32>>,
    f: Seq<Option<Distance>>,
    q: Seq<(usize, usize)>,
    ex_x: int,
    ex_y: int,
) -> bool {
    forall|x: int, y: int|
        #![trigger f[idx_of(dim, x, y)]]
        on_grid(dim, x, y) && f[idx_of(dim, x, y)].is_some() && !(x == ex_x && y == ex_y)
            ==> in_queue(q, x, y) || (forall|d: Dir| closed_edge(dim, cost, f, x, y, d))
}

/// One store of the relaxation: at `ti`, the admissible step from `(x, y)`
/// in direction `d` wrote its exact offer `cand`, improving on what was
/// there.
pub(crate) open spec fn write_step(
    dim: Dimensions,
    cost: Seq<Option<u32>>,
    g0: Seq<Option<Distance>>,
    f1: Seq<Option<Distance>>,
    ti: int,
    cand: Distance,
    x: int,
    y: int,
    d: Dir,
    cur: Distance,
) -> bool {
    &&& dim.wf()
    &&& cost.len() == dim.max_idx
    &&& g0.len() == dim.max_idx
    &&& f1 == g0.update(ti, Some(cand))
    &&& on_grid(dim, x, y)
    &&& idx_of(dim, x, y) != ti
    &&& g0[idx_of(dim, x, y)] == Some(cur)
    &&& edge_ok(dim, cost, x, y, d)
    &&& ti == idx_of(dim, x + dir_dx(d), y + dir_dy(d))
    &&& 0 <= ti < g0.len()
    &&& cost[ti].is_some()
    &&& cand.units as int == cand_units(cur, d, cost[ti].unwrap())
    &&& cand.diagonals as int == cand_diags(cur, d)
    &&& (g0[ti].is_some() ==> dist_lt(cand, g0[ti].unwrap()))
}

/// A field of `n` unoccupied cells.
fn none_field(n: usize) -> (r: Vec<Option<Distance>>)
    ensures
        r@.len() == n,
        forall|i: int| 0 <= i < n ==> r@[i].is_none(),
{
    let mut v: Vec<Option<Distance>> = Vec::new();
    let mut k: usize = 0;
    while k < n
        invariant
            v@.len() == k,
            k <= n,
            forall|i: int| 0 <= i < k ==> v@[i].is_none(),
        decreases n - k,
    {
        v.push(None);
        k = k + 1;
    }
    v
}

/// Whether the cell one step in direction `d` from `(x, y)` is passable.
fn passable_at(
    dim: &Dimensions,
    cost_field: &Vec<Option<u32>>,
    x: usize,
    y: usize,
    d: Dir,
) -> (r: bool)
    requires
        dim.wf(),
        cost_field@.len() == dim.max_idx,
        on_grid(*dim, x as int, y as int),
    ensures
        r == passable(*dim, cost_field@, x as int + dir_dx(d), y as int + dir_dy(d)),
{
    let (ox, oy) = d.offset();
    let xn = x as isize + ox;
    let yn = y as isize + oy;
    if dim.in_bounds(xn, yn) {
        let t = dim.project_to_field_idx(xn, yn);
        cost_field[t].is_some()
    } else {
        false
    }
}

/// A closed edge whose source is not the dropped cell stays closed when
/// that one cell's distance drops to `cand`: the source's offer is
/// unchanged, and if the edge enters the dropped cell, the entered value
/// only went down.
proof fn lemma_closed_after_drop(
    dim: Dimensions,
    cost: Seq<Option<u32>>,
    g0: Seq<Option<Distance>>,
    f1: Seq<Option<Distance>>,
    x: int,
    y: int,
    d: Dir,
    ti: int,
    cand: Distance,
)
    requires
        dim.wf(),
        cost.len() == dim.max_idx,
        g0.len() == dim.max_idx,
        f1 == g0.update(ti, Some(cand)),
        0 <= ti < g0.len(),
        idx_of(dim, x, y) != ti,
        on_grid(dim, x, y),
        g0[ti].is_some() ==> dist_lt(cand, g0[ti].unwrap()),
        closed_edge(dim, cost, g0, x, y, d),
    ensures
        closed_edge(dim, cost, f1, x, y, d),
{
    lemma_idx_bounds(dim, x, y);
    let i = idx_of(dim, x, y);
    assert(f1[i] == g0[i]);
    if f1[i].is_some() && edge_ok(dim, cost, x, y, d) {
        let nx = x + dir_dx(d);
        let ny = y + dir_dy(d);
        lemma_idx_bounds(dim, nx, ny);
        let t2 = idx_of(dim, nx, ny);
        let v = f1[i].unwrap();
        if t2 == ti {
            // the edge enters the dropped cell
            assert(g0[t2].is_some());
            let o = g0[t2].unwrap();
            assert(val_le(o.units as int, o.diagonals as int, cand_units(v, d,
                cost[t2].unwrap()), cand_diags(v, d)));
            lemma_lt_iff_rank(cand.units as int, cand.diagonals as int, o.units as int,
                o.diagonals as int);
            lemma_lt_iff_rank(o.units as int, o.diagonals as int, cand_units(v, d,
                cost[t2].unwrap()), cand_diags(v, d));
            lemma_lt_iff_rank(cand.units as int, cand.diagonals as int, cand_units(v, d,
                cost[t2].unwrap()), cand_diags(v, d));
        } else {
            assert(f1[t2] == g0[t2]);
        }
    }
}

/// After a store, every occupied cell except the destination still has a
/// supporting neighbour whose offer is no more than what the cell holds.
#[verifier::rlimit(100)]
#[verifier::spinoff_prover]
proof fn lemma_write_support(
    dim: Dimensions,
    cost: Seq<Option<u32>>,
    g0: Seq<Option<Distance>>,
    f1: Seq<Option<Distance>>,
    ti: int,
    cand: Distance,
    x: int,
    y: int,
    d: Dir,
    cur: Distance,
    tx: int,
    ty: int,
)
    requires
        write_step(dim, cost, g0, f1, ti, cand, x, y, d, cur),
        relax_inv(dim, cost, tx, ty, g0),
    ensures
        forall|x2: int, y2: int|
            #![trigger f1[idx_of(dim, x2, y2)]]
            on_grid(dim, x2, y2) && f1[idx_of(dim, x2, y2)].is_some() && !(x2 == tx && y2 == ty)
                ==> exists|d2: Dir| supported_ge(dim, cost, f1, x2, y2, d2),
{
    let nx = x + dir_dx(d);
    let ny = y + dir_dy(d);
    lemma_idx_bounds(dim, nx, ny);
    lemma_idx_bounds(dim, x, y);
    assert forall|x2: int, y2: int|
        #![trigger f1[idx_of(dim, x2, y2)]]
        on_grid(dim, x2, y2) && f1[idx_of(dim, x2, y2)].is_some() && !(x2 == tx && y2 == ty)
        implies exists|d2: Dir| supported_ge(dim, cost, f1, x2, y2, d2) by {
        lemma_idx_bounds(dim, x2, y2);
        let i2 = idx_of(dim, x2, y2);
        if x2 == nx && y2 == ny {
            // the freshly written cell: supported by (x, y) with equality
            assert(i2 == ti);
            assert(x2 - dir_dx(d) == x && y2 - dir_dy(d) == y);
            assert(f1[idx_of(dim, x, y)] == Some(cur));
            assert(f1[ti] == Some(cand));
            assert(!val_lt(cand.units as int, cand.diagonals as int, cand.units as int,
                cand.diagonals as int));
            assert(supported_ge(dim, cost, f1, x2, y2, d));
        } else {
            if i2 == ti {
                lemma_idx_injective(dim, x2, y2, nx, ny);
                assert(false);
            }
            assert(g0[i2] == f1[i2]);
            assert(g0[idx_of(dim, x2, y2)].is_some());
            let d2 = choose|d2: Dir| supported_ge(dim, cost, g0, x2, y2, d2);
            assert(supported_ge(dim, cost, g0, x2, y2, d2));
            let ux = x2 - dir_dx(d2);
            let uy = y2 - dir_dy(d2);
            lemma_idx_bounds(dim, ux, uy);
            let u = idx_of(dim, ux, uy);
            if u == ti {
                // the supporting neighbour just improved: its offer only
                // went down
                let o = g0[ti].unwrap();
                let w = f1[i2].unwrap();
                let cw = cost[i2].unwrap();
                lemma_dist_order(cand, o);
                lemma_lt_iff_rank(cand_units(o, d2, cw), cand_diags(o, d2), w.units as int,
                    w.diagonals as int);
                lemma_lt_iff_rank(cand_units(cand, d2, cw), cand_diags(cand, d2),
                    w.units as int, w.diagonals as int);
                assert(supported_ge(dim, cost, f1, x2, y2, d2));
            } else {
                assert(g0[u] == f1[u]);
                assert(supported_ge(dim, cost, f1, x2, y2, d2));
            }
        }
    }
}

/// After a store, every occupied cell's distance is still bounded by one
/// step's worth of value per occupied cell.
proof fn lemma_write_bounded(
    dim: Dimensions,
    cost: Seq<Option<u32>>,
    g0: Seq<Option<Distance>>,
    f1: Seq<Option<Distance>>,
    ti: int,
    cand: Distance,
    x: int,
    y: int,
    d: Dir,
    cur: Distance,
)
    requires
        write_step(dim, cost, g0, f1, ti, cand, x, y, d, cur),
        dist_bounded(g0),
    ensures
        dist_bounded(f1),
{
    let wb = weight_bound();
    lemma_count_update(g0, ti, Some(cand));
    lemma_count_bounds(g0);
    let k0 = count_some(g0);
    let k1 = count_some(f1);
    assert(k0 <= k1);
    assert(k0 * wb <= k1 * wb) by (nonlinear_arith)
        requires
            k0 <= k1,
            wb > 0;
    lemma_idx_bounds(dim, x, y);
    assert forall|i: int| 0 <= i < f1.len() && #[trigger] f1[i].is_some()
        implies val_le(f1[i].unwrap().units as int, f1[i].unwrap().diagonals as int,
            k1 * wb, 0) by {
        if i == ti {
            let c = cost[ti].unwrap();
            assert(g0[idx_of(dim, x, y)].is_some());
            assert(val_le(cur.units as int, cur.diagonals as int, k0 * wb, 0));
            // the offer exceeds `cur` by at most one step's worth of rank
            lemma_lt_iff_rank(cur.units as int, cur.diagonals as int, k0 * wb, 0);
            lemma_lt_iff_rank(cand.units as int, cand.diagonals as int, k1 * wb, 0);
            assert(rank(cand.units as int, cand.diagonals as int) <= rank(cur.units as int,
                cur.diagonals as int) + lam() * (c + 1) + mu());
            if g0[ti].is_none() {
                assert(k1 == k0 + 1);
                assert((k0 + 1) * wb == k0 * wb + wb) by (nonlinear_arith);
                assert(lam() * (k0 * wb + wb) == lam() * (k0 * wb) + lam() * wb)
                    by (nonlinear_arith);
                assert(lam() * (c + 1) + mu() <= lam() * wb) by (nonlinear_arith)
                    requires
                        0 <= c <= 0xffff_ffff,
                        wb == 0x1_0000_0002,
                        lam() == 68480406462161287469,
                        mu() == 96845919575610633161;
            } else {
                let o = g0[ti].unwrap();
                assert(val_le(o.units as int, o.diagonals as int, k0 * wb, 0));
                lemma_dist_order(cand, o);
                lemma_lt_iff_rank(o.units as int, o.diagonals as int, k0 * wb, 0);
                lemma_lt_iff_rank(cand.units as int, cand.diagonals as int, k0 * wb, 0);
                lemma_lt_iff_rank(cand.units as int, cand.diagonals as int, k1 * wb, 0);
            }
        } else {
            assert(g0[i] == f1[i]);
            assert(g0[i].is_some());
            let w = f1[i].unwrap();
            assert(val_le(w.units as int, w.diagonals as int, k0 * wb, 0));
            lemma_lt_iff_rank(w.units as int, w.diagonals as int, k0 * wb, 0);
            lemma_lt_iff_rank(w.units as int, w.diagonals as int, k1 * wb, 0);
        }
    }
}

/// After a store and the matching queue push, every occupied cell except
/// the popped one is still queued or fully closed.
proof fn lemma_write_closed(
    dim: Dimensions,
    cost: Seq<Option<u32>>,
    g0: Seq<Option<Distance>>,
    f1: Seq<Option<Distance>>,
    q0: Seq<(usize, usize)>,
    q1: Seq<(usize, usize)>,
    ti: int,
    cand: Distance,
    x: int,
    y: int,
    d: Dir,
    cur: Distance,
)
    requires
        write_step(dim, cost, g0, f1, ti, cand, x, y, d, cur),
        closed_except(dim, cost, g0, q0, x, y),
        q1 == q0.push(((x + dir_dx(d)) as usize, (y + dir_dy(d)) as usize)),
    ensures
        closed_except(dim, cost, f1, q1, x, y),
{
    let nx = x + dir_dx(d);
    let ny = y + dir_dy(d);
    lemma_idx_bounds(dim, nx, ny);
    assert forall|x2: int, y2: int|
        #![trigger f1[idx_of(dim, x2, y2)]]
        on_grid(dim, x2, y2) && f1[idx_of(dim, x2, y2)].is_some() && !(x2 == x && y2 == y)
        implies in_queue(q1, x2, y2) || (forall|d2: Dir| closed_edge(dim, cost, f1, x2, y2,
            d2)) by {
        lemma_idx_bounds(dim, x2, y2);
        let i2 = idx_of(dim, x2, y2);
        if x2 == nx && y2 == ny {
            assert(q1[q1.len() - 1] == ((nx as usize, ny as usize)));
            assert(in_queue(q1, x2, y2));
        } else {
            if i2 == ti {
                lemma_idx_injective(dim, x2, y2, nx, ny);
                assert(false);
            }
            assert(g0[i2] == f1[i2]);
            if in_queue(q0, x2, y2) {
                let j = choose|j: int|
                    0 <= j < q0.len() && (#[trigger] q0[j]).0 == x2 && q0[j].1 == y2;
                assert(q1[j] == q0[j]);
                assert(in_queue(q1, x2, y2));
            } else {
                assert(forall|d2: Dir| closed_edge(dim, cost, g0, x2, y2, d2));
                assert forall|d2: Dir| closed_edge(dim, cost, f1, x2, y2, d2) by {
                    lemma_closed_after_drop(dim, cost, g0, f1, x2, y2, d2, ti, cand);
                }
            }
        }
    }
}

/// One relaxation: offer `cur` plus one step in direction `d` to the
/// neighbour of `(x, y)`, store the offer if it improves on the
/// neighbour's distance, and queue the neighbour if stored.
///
/// The ghost arguments carry the destination. The caller has checked the
/// diagonal gate; the in-bounds and passability checks of the entered cell
/// happen here, as in the reference relaxation.
#[verifier::rlimit(100)]
#[verifier::spinoff_prover]
fn try_relax(
    dim: &Dimensions,
    cost_field: &Vec<Option<u32>>,
    field: &mut Vec<Option<Distance>>,
    queue: &mut VecDeque<(usize, usize)>,
    x: usize,
    y: usize,
    cur: Distance,
    d: Dir,
    tx: Ghost<int>,
    ty: Ghost<int>,
)
    requires
        dim.wf(),
        cost_field@.len() == dim.max_idx,
        on_grid(*dim, x as int, y as int),
        relax_inv(*dim, cost_field@, tx@, ty@, old(field)@),
        queue_inv(*dim, old(field)@, old(queue)@),
        closed_except(*dim, cost_field@, old(field)@, old(queue)@, x as int, y as int),
        old(field)@[idx_of(*dim, x as int, y as int)] == Some(cur),
        is_diagonal(d) ==> passable(*dim, cost_field@, x as int + dir_dx(d), y as int)
            && passable(*dim, cost_field@, x as int, y as int + dir_dy(d)),
    ensures
        relax_inv(*dim, cost_field@, tx@, ty@, final(field)@),
        queue_inv(*dim, final(field)@, final(queue)@),
        closed_except(*dim, cost_field@, final(field)@, final(queue)@, x as int, y as int),
        final(field)@[idx_of(*dim, x as int, y as int)] == Some(cur),
        closed_edge(*dim, cost_field@, final(field)@, x as int, y as int, d),
        forall|d2: Dir|
            closed_edge(*dim, cost_field@, old(field)@, x as int, y as int, d2)
                ==> closed_edge(*dim, cost_field@, final(field)@, x as int, y as int, d2),
        2 * msum(final(field)@) + final(queue)@.len() <= 2 * msum(old(field)@)
            + old(queue)@.len(),
{
    let ghost g0 = field@;
    let (ox, oy) = d.offset();
    let xn = x as isize + ox;
    let yn = y as isize + oy;
    if !dim.in_bounds(xn, yn) {
        // the entered cell is off the grid: no admissible step this way
        return;
    }
    let t = dim.project_to_field_idx(xn, yn);
    let c_opt = cost_field[t];
    let c: u32;
    match c_opt {
        None => {
            // the entered cell is impassable: no admissible step this way
            return;
        },
        Some(cv) => {
            c = cv;
        },
    }
    let ghost i_src = idx_of(*dim, x as int, y as int);
    proof {
        // bound the components of `cur` so the additions below stay in u64
        lemma_count_bounds(g0);
        lemma_idx_bounds(*dim, x as int, y as int);
        assert(g0[i_src].is_some());
        let k = count_some(g0);
        assert(val_le(cur.units as int, cur.diagonals as int, k * weight_bound(), 0));
        assert(k * weight_bound() <= (dim.max_idx as int) * weight_bound()) by (nonlinear_arith)
            requires
                k <= dim.max_idx as int,
                weight_bound() > 0;
        assert((dim.max_idx as int) * weight_bound() <= 0x2000_0000 * 0x1_0000_0002)
            by (nonlinear_arith)
            requires
                0 <= (dim.max_idx as int) <= 0x2000_0000,
                weight_bound() == 0x1_0000_0002;
        lemma_le_bound_components(cur.units as int, cur.diagonals as int, k * weight_bound());
        // the source and the entered cell are distinct cells
        lemma_idx_bounds(*dim, xn as int, yn as int);
        if t as int == i_src {
            lemma_idx_injective(*dim, xn as int, yn as int, x as int, y as int);
            assert(false);
        }
    }
    let sd = d.distance();
    let cand = Distance {
        units: cur.units + (c as u64) + sd.units,
        diagonals: cur.diagonals + sd.diagonals,
    };
    let prior = field[t];
    let do_write: bool = match prior {
        None => true,
        Some(o) => dist_cmp_lt(&cand, &o),
    };
    if !do_write {
        // the neighbour already holds no more than the offer: this edge is
        // closed as it stands
        proof {
            let o = g0[t as int].unwrap();
            assert(!dist_lt(cand, o));
            assert(closed_edge(*dim, cost_field@, field@, x as int, y as int, d));
        }
        return;
    }
    field[t] = Some(cand);
    let txu = xn as usize;
    let tyu = yn as usize;
    queue.push_back((txu, tyu));
    proof {
        let dimv = *dim;
        let cost = cost_field@;
        let f1 = field@;
        let q0 = old(queue)@;
        let q1 = queue@;
        let ti = t as int;
        assert(f1 == g0.update(ti, Some(cand)));
        assert(q1 == q0.push((txu, tyu)));
        assert(txu as int == x as int + dir_dx(d) && tyu as int == y as int + dir_dy(d));
        assert(edge_ok(dimv, cost, x as int, y as int, d));
        assert(write_step(dimv, cost, g0, f1, ti, cand, x as int, y as int, d, cur));

        // the destination never improves: its distance is zero and every
        // offer is positive
        assert(!val_lt(cand.units as int, cand.diagonals as int, 0, 0));
        lemma_idx_bounds(dimv, tx@, ty@);
        if ti == idx_of(dimv, tx@, ty@) {
            assert(g0[ti] == Some(dist_zero()));
            assert(false);
        }
        assert(f1[idx_of(dimv, tx@, ty@)] == Some(dist_zero()));

        // this edge is freshly closed, with equality
        assert(f1[i_src] == Some(cur));
        assert(!val_lt(cand.units as int, cand.diagonals as int, cand.units as int,
            cand.diagonals as int));
        assert(closed_edge(dimv, cost, f1, x as int, y as int, d));

        // occupied cells still have passable ground under them
        assert forall|i: int| 0 <= i < f1.len() && #[trigger] f1[i].is_some()
            implies cost[i].is_some() by {
            if i != ti {
                assert(g0[i] == f1[i]);
            }
        }

        lemma_write_support(dimv, cost, g0, f1, ti, cand, x as int, y as int, d, cur, tx@, ty@);
        lemma_write_bounded(dimv, cost, g0, f1, ti, cand, x as int, y as int, d, cur);
        lemma_write_closed(dimv, cost, g0, f1, q0, q1, ti, cand, x as int, y as int, d, cur);

        // the queue still lists occupied on-grid cells
        assert forall|j: int| 0 <= j < q1.len()
            implies on_grid(dimv, (#[trigger] q1[j]).0 as int, q1[j].1 as int)
                && f1[idx_of(dimv, q1[j].0 as int, q1[j].1 as int)].is_some() by {
            if j < q0.len() {
                assert(q1[j] == q0[j]);
                lemma_idx_bounds(dimv, q0[j].0 as int, q0[j].1 as int);
                let jj = idx_of(dimv, q0[j].0 as int, q0[j].1 as int);
                if jj != ti {
                    assert(g0[jj] == f1[jj]);
                }
            } else {
                assert(q1[j] == (txu, tyu));
            }
        }

        // the written cell's measure dropped, which pays for the queue
        // growing by one
        lemma_msum_update(g0, ti, Some(cand));
        assert(dist_rank(cand) < top_rank());
        if g0[ti].is_some() {
            lemma_dist_order(cand, g0[ti].unwrap());
            assert(m_of(Some(cand)) < m_of(g0[ti]));
        }

        // edges out of the popped cell that were closed stay closed
        assert forall|d2: Dir|
            closed_edge(dimv, cost, g0, x as int, y as int, d2)
            implies closed_edge(dimv, cost, f1, x as int, y as int, d2) by {
            lemma_closed_after_drop(dimv, cost, g0, f1, x as int, y as int, d2, ti, cand);
        }
    }
}

/// Popping the front element suspends its closure obligation: every other
/// occupied cell is still queued or closed.
proof fn lemma_pop_closed(
    dim: Dimensions,
    cost: Seq<Option<u32>>,
    f: Seq<Option<Distance>>,
    qpre: Seq<(usize, usize)>,
    q1: Seq<(usize, usize)>,
    x: usize,
    y: usize,
)
    requires
        qpre.len() > 0,
        qpre[0] == ((x, y)),
        q1 == qpre.subrange(1, qpre.len() as int),
        closed_except(dim, cost, f, qpre, -1, -1),
    ensures
        closed_except(dim, cost, f, q1, x as int, y as int),
{
    assert forall|x2: int, y2: int|
        #![trigger f[idx_of(dim, x2, y2)]]
        on_grid(dim, x2, y2) && f[idx_of(dim, x2, y2)].is_some()
            && !(x2 == x as int && y2 == y as int)
        implies in_queue(q1, x2, y2) || (forall|d2: Dir| closed_edge(dim, cost, f, x2, y2,
            d2)) by {
        if in_queue(qpre, x2, y2) {
            let j = choose|j: int|
                0 <= j < qpre.len() && (#[trigger] qpre[j]).0 == x2 && qpre[j].1 == y2;
            if j == 0 {
                assert(x2 == x as int && y2 == y as int);
                assert(false);
            }
            assert(q1[j - 1] == qpre[j]);
            assert(in_queue(q1, x2, y2));
        }
    }
}

/// Once the four cardinal edges are relaxed and each admissible diagonal
/// edge is relaxed or gated off, the popped cell is closed again, and with
/// it the whole field-and-queue pair.
proof fn lemma_end_closed(
    dim: Dimensions,
    cost: Seq<Option<u32>>,
    f: Seq<Option<Distance>>,
    q: Seq<(usize, usize)>,
    x: usize,
    y: usize,
    p_n: bool,
    p_e: bool,
    p_s: bool,
    p_w: bool,
)
    requires
        dim.wf(),
        on_grid(dim, x as int, y as int),
        p_n == passable(dim, cost, x as int, y as int - 1),
        p_e == passable(dim, cost, x as int + 1, y as int),
        p_s == passable(dim, cost, x as int, y as int + 1),
        p_w == passable(dim, cost, x as int - 1, y as int),
        closed_edge(dim, cost, f, x as int, y as int, Dir::North),
        closed_edge(dim, cost, f, x as int, y as int, Dir::East),
        closed_edge(dim, cost, f, x as int, y as int, Dir::South),
        closed_edge(dim, cost, f, x as int, y as int, Dir::West),
        (p_n && p_e) ==> closed_edge(dim, cost, f, x as int, y as int, Dir::NorthEast),
        (p_s && p_e) ==> closed_edge(dim, cost, f, x as int, y as int, Dir::SouthEast),
        (p_s && p_w) ==> closed_edge(dim, cost, f, x as int, y as int, Dir::SouthWest),
        (p_n && p_w) ==> closed_edge(dim, cost, f, x as int, y as int, Dir::NorthWest),
        closed_except(dim, cost, f, q, x as int, y as int),
    ensures
        closed_except(dim, cost, f, q, -1, -1),
{
    assert forall|d2: Dir| closed_edge(dim, cost, f, x as int, y as int, d2) by {
        if d2 == Dir::NorthEast && !(p_n && p_e) {
            assert(!edge_ok(dim, cost, x as int, y as int, d2));
        } else if d2 == Dir::SouthEast && !(p_s && p_e) {
            assert(!edge_ok(dim, cost, x as int, y as int, d2));
        } else if d2 == Dir::SouthWest && !(p_s && p_w) {
            assert(!edge_ok(dim, cost, x as int, y as int, d2));
        } else if d2 == Dir::NorthWest && !(p_n && p_w) {
            assert(!edge_ok(dim, cost, x as int, y as int, d2));
        }
    }
    assert forall|x2: int, y2: int|
        #![trigger f[idx_of(dim, x2, y2)]]
        on_grid(dim, x2, y2) && f[idx_of(dim, x2, y2)].is_some() && !(x2 == -1 && y2 == -1)
        implies in_queue(q, x2, y2) || (forall|d2: Dir| closed_edge(dim, cost, f, x2, y2,
            d2)) by {
        if !(x2 == x as int && y2 == y as int) {
            assert(f[idx_of(dim, x2, y2)].is_some());
        }
    }
}

/// One round of the wavefront: pop the front cell and offer its distance
/// plus one step to each admissible neighbour. Diagonal offers only go out
/// when both flanking orthogonal cells are passable.
#[verifier::rlimit(100)]
#[verifier::spinoff_prover]
fn process_cell(
    dim: &Dimensions,
    cost_field: &Vec<Option<u32>>,
    field: &mut Vec<Option<Distance>>,
    queue: &mut VecDeque<(usize, usize)>,
    tx: Ghost<int>,
    ty: Ghost<int>,
)
    requires
        dim.wf(),
        cost_field@.len() == dim.max_idx,
        relax_inv(*dim, cost_field@, tx@, ty@, old(field)@),
        queue_inv(*dim, old(field)@, old(queue)@),
        closed_except(*dim, cost_field@, old(field)@, old(queue)@, -1, -1),
        old(queue)@.len() > 0,
    ensures
        relax_inv(*dim, cost_field@, tx@, ty@, final(field)@),
        queue_inv(*dim, final(field)@, final(queue)@),
        closed_except(*dim, cost_field@, final(field)@, final(queue)@, -1, -1),
        2 * msum(final(field)@) + final(queue)@.len() < 2 * msum(old(field)@)
            + old(queue)@.len(),
{
    let ghost dimv = *dim;
    let ghost cost = cost_field@;
    let ghost qpre = queue@;
    let p = queue.pop_front().unwrap();
    let (x, y) = p;
    proof {
        assert(qpre[0] == p);
        lemma_pop_closed(dimv, cost, field@, qpre, queue@, x, y);
    }
    let i = dim.project_to_field_idx(x as isize, y as isize);
    let cur = field[i].unwrap();
    let p_n = passable_at(dim, cost_field, x, y, Dir::North);
    let p_e = passable_at(dim, cost_field, x, y, Dir::East);
    let p_s = passable_at(dim, cost_field, x, y, Dir::South);
    let p_w = passable_at(dim, cost_field, x, y, Dir::West);
    if p_n && p_e {
        try_relax(dim, cost_field, field, queue, x, y, cur, Dir::NorthEast, tx, ty);
    }
    if p_s && p_e {
        try_relax(dim, cost_field, field, queue, x, y, cur, Dir::SouthEast, tx, ty);
    }
    if p_s && p_w {
        try_relax(dim, cost_field, field, queue, x, y, cur, Dir::SouthWest, tx, ty);
    }
    if p_n && p_w {
        try_relax(dim, cost_field, field, queue, x, y, cur, Dir::NorthWest, tx, ty);
    }
    try_relax(dim, cost_field, field, queue, x, y, cur, Dir::North, tx, ty);
    try_relax(dim, cost_field, field, queue, x, y, cur, Dir::East, tx, ty);
    try_relax(dim, cost_field, field, queue, x, y, cur, Dir::South, tx, ty);
    try_relax(dim, cost_field, field, queue, x, y, cur, Dir::West, tx, ty);
    proof {
        // the popped cell has now made every admissible offer: the four
        // cardinal edges were just relaxed, and a diagonal edge is either
        // gated off or was relaxed first and stayed closed
        lemma_end_closed(dimv, cost, field@, queue@, x, y, p_n, p_e, p_s, p_w);
    }
}

/// Build the integration field for destination `to` over `cost_field`:
/// the distance of every cell to `to`, or `None` per cell where no path
/// exists. Returns `None` as a whole when the destination cell itself is
/// impassable.
///
/// The caller must bounds-check the destination and supply one weight per
/// cell; `build_integration_field` is the checked form.
#[verifier::rlimit(100)]
#[verifier::spinoff_prover]
pub fn calculate_integration_field(
    dim: &Dimensions,
    to: (isize, isize),
    cost_field: &CostField,
) -> (r: Option<IntegrationField>)
    requires
        dim.wf(),
        cost_field@.len() == dim.max_idx,
        on_grid(*dim, to.0 as int, to.1 as int),
    ensures
        match r {
            Some(f) => cost_field@[idx_of(*dim, to.0 as int, to.1 as int)].is_some()
                && converged(*dim, cost_field@, to.0 as int, to.1 as int, f@),
            None => cost_field@[idx_of(*dim, to.0 as int, to.1 as int)].is_none(),
        },
{
    let (to_x, to_y) = to;
    let ghost txg = to_x as int;
    let ghost tyg = to_y as int;
    let ghost dimv = *dim;
    let ghost cost = cost_field@;
    let dest_i = dim.project_to_field_idx(to_x, to_y);
    if cost_field[dest_i].is_none() {
        return None;
    }
    let mut field = none_field(dim.max_idx());
    let ghost fnone = field@;
    field[dest_i] = Some(Distance { units: 0, diagonals: 0 });
    let mut queue: VecDeque<(usize, usize)> = VecDeque::new();
    queue.push_back((to_x as usize, to_y as usize));
    proof {
        lemma_idx_bounds(dimv, txg, tyg);
        lemma_count_none(fnone);
        lemma_count_update(fnone, dest_i as int, Some(dist_zero()));
        let f0 = field@;
        assert(f0 == fnone.update(dest_i as int, Some(dist_zero())));
        assert(count_some(f0) == 1);
        assert forall|i: int| 0 <= i < f0.len() && #[trigger] f0[i].is_some()
            implies val_le(f0[i].unwrap().units as int, f0[i].unwrap().diagonals as int,
                count_some(f0) * weight_bound(), 0) by {
            assert(i == dest_i as int);
            assert(f0[i].unwrap() == dist_zero());
            assert(!val_lt(count_some(f0) * weight_bound(), 0, 0, 0));
        }
        assert forall|x2: int, y2: int|
            #![trigger f0[idx_of(dimv, x2, y2)]]
            on_grid(dimv, x2, y2) && f0[idx_of(dimv, x2, y2)].is_some()
                && !(x2 == txg && y2 == tyg)
            implies exists|d2: Dir| supported_ge(dimv, cost, f0, x2, y2, d2) by {
            lemma_idx_bounds(dimv, x2, y2);
            assert(idx_of(dimv, x2, y2) == dest_i as int);
            lemma_idx_injective(dimv, x2, y2, txg, tyg);
            assert(false);
        }
        assert(queue@[0] == ((to_x as usize, to_y as usize)));
        assert(in_queue(queue@, txg, tyg));
        assert forall|x2: int, y2: int|
            #![trigger f0[idx_of(dimv, x2, y2)]]
            on_grid(dimv, x2, y2) && f0[idx_of(dimv, x2, y2)].is_some()
                && !(x2 == -1 && y2 == -1)
            implies in_queue(queue@, x2, y2) || (forall|d2: Dir| closed_edge(dimv, cost, f0,
                x2, y2, d2)) by {
            lemma_idx_bounds(dimv, x2, y2);
            assert(idx_of(dimv, x2, y2) == dest_i as int);
            lemma_idx_injective(dimv, x2, y2, txg, tyg);
            assert(in_queue(queue@, x2, y2));
        }
        lemma_msum_nonneg(f0);
    }
    while queue.len() > 0
        invariant
            dim.wf(),
            dimv == *dim,
            cost == cost_field@,
            cost_field@.len() == dim.max_idx,
            relax_inv(dimv, cost, txg, tyg, field@),
            queue_inv(dimv, field@, queue@),
            closed_except(dimv, cost, field@, queue@, -1, -1),
            msum(field@) >= 0,
        decreases 2 * msum(field@) + queue@.len(),
    {
        process_cell(dim, cost_field, &mut field, &mut queue, Ghost(txg), Ghost(tyg));
        proof {
            lemma_msum_nonneg(field@);
        }
    }
    proof {
        let f = field@;
        // nothing is queued, so every occupied cell is fully closed
        assert forall|x2: int, y2: int, d2: Dir| on_grid(dimv, x2, y2)
            implies #[trigger] closed_edge(dimv, cost, f, x2, y2, d2) by {
            lemma_idx_bounds(dimv, x2, y2);
            if f[idx_of(dimv, x2, y2)].is_some() {
                assert(!in_queue(queue@, x2, y2));
            }
        }
        // and with no offer outstanding, each supporting bound is exact
        assert forall|x2: int, y2: int|
            #![trigger f[idx_of(dimv, x2, y2)]]
            on_grid(dimv, x2, y2) && f[idx_of(dimv, x2, y2)].is_some()
                && !(x2 == txg && y2 == tyg)
            implies exists|d2: Dir| supported_exact(dimv, cost, f, x2, y2, d2) by {
            let d2 = choose|d2: Dir| supported_ge(dimv, cost, f, x2, y2, d2);
            assert(supported_ge(dimv, cost, f, x2, y2, d2));
            let ux = x2 - dir_dx(d2);
            let uy = y2 - dir_dy(d2);
            lemma_idx_bounds(dimv, ux, uy);
            lemma_idx_bounds(dimv, x2, y2);
            let u = idx_of(dimv, ux, uy);
            let i2 = idx_of(dimv, x2, y2);
            assert(closed_edge(dimv, cost, f, ux, uy, d2));
            assert(ux + dir_dx(d2) == x2 && uy + dir_dy(d2) == y2);
            let w = f[i2].unwrap();
            let du = f[u].unwrap();
            let cw = cost[i2].unwrap();
            lemma_val_total(w.units as int, w.diagonals as int, cand_units(du, d2, cw),
                cand_diags(du, d2));
            assert(supported_exact(dimv, cost, f, x2, y2, d2));
        }
    }
    Some(field)
}

/// The checked form of `calculate_integration_field`: rejects a cost field
/// of the wrong length with `SizeMismatch`, and an off-grid destination
/// with `OutOfBounds`.
pub fn build_integration_field(
    dim: &Dimensions,
    to: (isize, isize),
    cost_field: &CostField,
) -> (r: Result<Option<IntegrationField>, FieldError>)
    requires
        dim.wf(),
    ensures
        match r {
            Ok(opt) => {
                &&& cost_field@.len() == dim.max_idx
                &&& on_grid(*dim, to.0 as int, to.1 as int)
                &&& match opt {
                    Some(f) => cost_field@[idx_of(*dim, to.0 as int, to.1 as int)].is_some()
                        && converged(*dim, cost_field@, to.0 as int, to.1 as int, f@),
                    None => cost_field@[idx_of(*dim, to.0 as int, to.1 as int)].is_none(),
                }
            },
            Err(e) => {
                ||| (e == FieldError::SizeMismatch && cost_field@.len() != dim.max_idx)
                ||| (e == FieldError::OutOfBounds && cost_field@.len() == dim.max_idx
                    && !on_grid(*dim, to.0 as int, to.1 as int))
            },
        },
{
    if cost_field.len() != dim.max_idx() {
        Err(FieldError::SizeMismatch)
    } else if !dim.in_bounds(to.0, to.1) {
        Err(FieldError::OutOfBounds)
    } else {
        Ok(calculate_integration_field(dim, to, cost_field))
    }
}

} // verus!
