//! The library's laws: what holds of every built field, stated once and
//! proved against the builders' contracts.

use vstd::prelude::*;
use crate::distance::{
    Distance, dist_zero, dist_le, dist_rank, val_le, val_lt, lemma_dist_order,
    lemma_lt_iff_rank, lemma_val_total,
};
use crate::direction::{Dir, dir_dx, dir_dy, opposite, step_dist};
use crate::geometry::{
    Dimensions, idx_of, on_grid, lemma_idx_bounds, lemma_idx_injective, lemma_idx_surjective,
};
use crate::fieldspec::{
    cand_units, cand_diags, supported_exact, closed_edge, converged, m_of,
    top_rank,
};
use crate::flow::{
    neighbor_dist, opt_le, wins, best_dir, flow_dir_spec, flow_matches, lemma_flow_unique,
};
use crate::flowfield::FlowField;
use crate::baked::{dest_field_ok, dest_field_ok_at};

verus! {

/// Every passable destination holds distance zero in its own integration
/// field.
pub proof fn lemma_destination_distance_zero(
    dim: Dimensions,
    cost: Seq<Option<u32>>,
    tx: int,
    ty: int,
    f: Seq<Option<Distance>>,
)
    requires
        converged(dim, cost, tx, ty, f),
    ensures
        f[idx_of(dim, tx, ty)] == Some(dist_zero()),
{
}

/// Every cell with a distance, other than the destination, has an
/// 8-neighbour with a distance such that its own distance is exactly the
/// step length to that neighbour, plus its own weight, plus the
/// neighbour's distance.
pub proof fn lemma_distance_supported(
    dim: Dimensions,
    cost: Seq<Option<u32>>,
    tx: int,
    ty: int,
    f: Seq<Option<Distance>>,
    x: int,
    y: int,
)
    requires
        converged(dim, cost, tx, ty, f),
        on_grid(dim, x, y),
        f[idx_of(dim, x, y)].is_some(),
        !(x == tx && y == ty),
    ensures
        exists|d: Dir|
            #![trigger step_dist(d)]
            {
                &&& on_grid(dim, x - dir_dx(d), y - dir_dy(d))
                &&& f[idx_of(dim, x - dir_dx(d), y - dir_dy(d))].is_some()
                &&& cost[idx_of(dim, x, y)].is_some()
                &&& f[idx_of(dim, x, y)].unwrap().units == f[idx_of(dim, x - dir_dx(d),
                    y - dir_dy(d))].unwrap().units + cost[idx_of(dim, x, y)].unwrap()
                    + step_dist(d).units
                &&& f[idx_of(dim, x, y)].unwrap().diagonals == f[idx_of(dim, x - dir_dx(d),
                    y - dir_dy(d))].unwrap().diagonals + step_dist(d).diagonals
            },
{
    let d = choose|d: Dir| supported_exact(dim, cost, f, x, y, d);
    assert(supported_exact(dim, cost, f, x, y, d));
    let u = idx_of(dim, x - dir_dx(d), y - dir_dy(d));
    assert(f[u].is_some());
}

/// Impassable cells never hold a distance and never hold a flow
/// direction.
pub proof fn lemma_impassable_blank(
    dim: Dimensions,
    cost: Seq<Option<u32>>,
    tx: int,
    ty: int,
    f: Seq<Option<Distance>>,
    flow: Seq<Option<Dir>>,
    x: int,
    y: int,
)
    requires
        converged(dim, cost, tx, ty, f),
        flow_matches(dim, f, flow),
        on_grid(dim, x, y),
        cost[idx_of(dim, x, y)].is_none(),
    ensures
        f[idx_of(dim, x, y)].is_none(),
        flow[idx_of(dim, x, y)].is_none(),
{
    lemma_idx_bounds(dim, x, y);
    if f[idx_of(dim, x, y)].is_some() {
        assert(cost[idx_of(dim, x, y)].is_some());
    }
    assert(flow[idx_of(dim, x, y)] == flow_dir_spec(dim, f, x, y));
}

/// Flow absence matches distance absence: over a converged field, a
/// cell's direction is absent exactly where its integration distance is
/// absent or the cell is the destination itself, which holds distance
/// zero and needs no movement.
pub proof fn lemma_flow_absence_matches(
    dim: Dimensions,
    cost: Seq<Option<u32>>,
    tx: int,
    ty: int,
    f: Seq<Option<Distance>>,
    flow: Seq<Option<Dir>>,
    x: int,
    y: int,
)
    requires
        converged(dim, cost, tx, ty, f),
        flow_matches(dim, f, flow),
        on_grid(dim, x, y),
    ensures
        flow[idx_of(dim, x, y)].is_some() <==> (f[idx_of(dim, x, y)].is_some() && !(x == tx
            && y == ty)),
{
    lemma_idx_bounds(dim, x, y);
    let i = idx_of(dim, x, y);
    assert(flow[i] == flow_dir_spec(dim, f, x, y));
    if x == tx && y == ty {
        // the destination holds zero, which the derivation suppresses
        assert(f[i] == Some(dist_zero()));
    } else if f[i].is_some() {
        // any other occupied cell holds a neighbour's offer, which adds a
        // step of strictly positive length to a nonnegative distance, so
        // it is not zero; and that neighbour gives the minimum search a
        // candidate
        let d = choose|d: Dir| supported_exact(dim, cost, f, x, y, d);
        assert(supported_exact(dim, cost, f, x, y, d));
        let ux = x - dir_dx(d);
        let uy = y - dir_dy(d);
        lemma_idx_bounds(dim, ux, uy);
        assert(f[i].unwrap() != dist_zero());
        let dw = opposite(d);
        assert(x + dir_dx(dw) == ux && y + dir_dy(dw) == uy);
        assert(neighbor_dist(dim, f, x, y, dw).is_some());
        lemma_best_exists(dim, f, x, y, dw);
        assert(flow[i].is_some());
    }
}

/// When some neighbour has a distance, some direction wins the minimum
/// search, so `best_dir` is present.
proof fn lemma_best_exists(dim: Dimensions, f: Seq<Option<Distance>>, x: int, y: int, dw: Dir)
    requires
        neighbor_dist(dim, f, x, y, dw).is_some(),
    ensures
        best_dir(dim, f, x, y).is_some(),
{
    let o_n = neighbor_dist(dim, f, x, y, Dir::North);
    let o_ne = neighbor_dist(dim, f, x, y, Dir::NorthEast);
    let o_e = neighbor_dist(dim, f, x, y, Dir::East);
    let o_se = neighbor_dist(dim, f, x, y, Dir::SouthEast);
    let o_s = neighbor_dist(dim, f, x, y, Dir::South);
    let o_sw = neighbor_dist(dim, f, x, y, Dir::SouthWest);
    let o_w = neighbor_dist(dim, f, x, y, Dir::West);
    let o_nw = neighbor_dist(dim, f, x, y, Dir::NorthWest);
    // pick a direction of minimal cell measure; occupied cells measure
    // below top_rank(), so the pick is occupied
    let b1 = if m_of(o_ne) < m_of(o_n) { Dir::NorthEast } else { Dir::North };
    let b2 = if m_of(o_e) < m_of(neighbor_dist(dim, f, x, y, b1)) { Dir::East } else { b1 };
    let b3 = if m_of(o_se) < m_of(neighbor_dist(dim, f, x, y, b2)) { Dir::SouthEast } else {
        b2
    };
    let b4 = if m_of(o_s) < m_of(neighbor_dist(dim, f, x, y, b3)) { Dir::South } else { b3 };
    let b5 = if m_of(o_sw) < m_of(neighbor_dist(dim, f, x, y, b4)) { Dir::SouthWest } else {
        b4
    };
    let b6 = if m_of(o_w) < m_of(neighbor_dist(dim, f, x, y, b5)) { Dir::West } else { b5 };
    let b7 = if m_of(o_nw) < m_of(neighbor_dist(dim, f, x, y, b6)) { Dir::NorthWest } else {
        b6
    };
    let ob = neighbor_dist(dim, f, x, y, b7);
    assert(m_of(ob) <= m_of(neighbor_dist(dim, f, x, y, dw)));
    assert(m_of(neighbor_dist(dim, f, x, y, dw)) < top_rank());
    assert(ob.is_some());
    assert forall|d2: Dir| opt_le(ob.unwrap(), #[trigger] neighbor_dist(dim, f, x, y,
        d2)) by {
        let o2 = neighbor_dist(dim, f, x, y, d2);
        if o2.is_some() {
            assert(m_of(ob) <= m_of(o2));
            lemma_dist_order(ob.unwrap(), o2.unwrap());
        }
    }
    assert(wins(dim, f, x, y, b7));
}

/// Rebuilding a flow field from the same integration field gives the
/// identical result: the derivation is a pure function of the field.
pub proof fn lemma_flow_rebuild_deterministic(
    dim: Dimensions,
    f: Seq<Option<Distance>>,
    r1: Seq<Option<Dir>>,
    r2: Seq<Option<Dir>>,
)
    requires
        dim.wf(),
        flow_matches(dim, f, r1),
        flow_matches(dim, f, r2),
    ensures
        r1 == r2,
{
    lemma_flow_unique(dim, f, r1, r2);
}

/// Inductive half of the uniqueness of converged fields: every cell `f1`
/// occupies with rank at most `k`, `f2` occupies with a value no greater.
#[verifier::rlimit(100)]
#[verifier::spinoff_prover]
proof fn lemma_unique_rec(
    dim: Dimensions,
    cost: Seq<Option<u32>>,
    tx: int,
    ty: int,
    f1: Seq<Option<Distance>>,
    f2: Seq<Option<Distance>>,
    k: nat,
)
    requires
        converged(dim, cost, tx, ty, f1),
        converged(dim, cost, tx, ty, f2),
    ensures
        forall|x: int, y: int|
            #![trigger f1[idx_of(dim, x, y)]]
            on_grid(dim, x, y) && f1[idx_of(dim, x, y)].is_some() && dist_rank(f1[idx_of(dim,
                x, y)].unwrap()) <= k ==> f2[idx_of(dim, x, y)].is_some() && dist_le(
                f2[idx_of(dim, x, y)].unwrap(), f1[idx_of(dim, x, y)].unwrap()),
    decreases k,
{
    assert forall|x: int, y: int|
        #![trigger f1[idx_of(dim, x, y)]]
        on_grid(dim, x, y) && f1[idx_of(dim, x, y)].is_some() && dist_rank(f1[idx_of(dim, x,
            y)].unwrap()) <= k
        implies f2[idx_of(dim, x, y)].is_some() && dist_le(f2[idx_of(dim, x, y)].unwrap(),
            f1[idx_of(dim, x, y)].unwrap()) by {
        lemma_idx_bounds(dim, x, y);
        let i = idx_of(dim, x, y);
        if x == tx && y == ty {
            assert(f1[i] == Some(dist_zero()) && f2[i] == Some(dist_zero()));
            assert(!val_lt(0, 0, 0, 0));
        } else {
            let d = choose|d: Dir| supported_exact(dim, cost, f1, x, y, d);
            assert(supported_exact(dim, cost, f1, x, y, d));
            let ux = x - dir_dx(d);
            let uy = y - dir_dy(d);
            lemma_idx_bounds(dim, ux, uy);
            let u = idx_of(dim, ux, uy);
            let w1 = f1[i].unwrap();
            let du1 = f1[u].unwrap();
            let cw = cost[i].unwrap();
            // the supporting neighbour ranks strictly lower
            assert(dist_rank(du1) < dist_rank(w1));
            assert(dist_rank(du1) >= 0);
            lemma_unique_rec(dim, cost, tx, ty, f1, f2, (k - 1) as nat);
            assert(f2[u].is_some() && dist_le(f2[u].unwrap(), du1));
            let du2 = f2[u].unwrap();
            // closure of the second field along the same admissible edge
            assert(closed_edge(dim, cost, f2, ux, uy, d));
            assert(ux + dir_dx(d) == x && uy + dir_dy(d) == y);
            assert(f2[i].is_some());
            let w2 = f2[i].unwrap();
            assert(val_le(w2.units as int, w2.diagonals as int, cand_units(du2, d, cw),
                cand_diags(du2, d)));
            lemma_dist_order(du2, du1);
            lemma_lt_iff_rank(w2.units as int, w2.diagonals as int, cand_units(du2, d, cw),
                cand_diags(du2, d));
            lemma_lt_iff_rank(w2.units as int, w2.diagonals as int, w1.units as int,
                w1.diagonals as int);
            assert(dist_le(w2, w1));
        }
    }
}

/// A converged field is the unique fixed point: two converged fields for
/// the same destination over the same cost field are identical.
pub proof fn lemma_converged_unique(
    dim: Dimensions,
    cost: Seq<Option<u32>>,
    tx: int,
    ty: int,
    f1: Seq<Option<Distance>>,
    f2: Seq<Option<Distance>>,
)
    requires
        converged(dim, cost, tx, ty, f1),
        converged(dim, cost, tx, ty, f2),
    ensures
        f1 == f2,
{
    let k = top_rank() as nat;
    lemma_unique_rec(dim, cost, tx, ty, f1, f2, k);
    lemma_unique_rec(dim, cost, tx, ty, f2, f1, k);
    assert forall|i: int| 0 <= i < f1.len() implies f1[i] == f2[i] by {
        lemma_idx_surjective(dim, i);
        let (x, y) = choose|x: int, y: int|
            on_grid(dim, x, y) && #[trigger] idx_of(dim, x, y) == i;
        if f1[i].is_some() {
            let w1 = f1[idx_of(dim, x, y)].unwrap();
            assert(dist_rank(w1) <= top_rank());
            assert(f2[idx_of(dim, x, y)].is_some());
            let w2 = f2[idx_of(dim, x, y)].unwrap();
            assert(dist_rank(w2) <= top_rank());
            assert(dist_le(w2, w1) && dist_le(w1, w2));
            lemma_val_total(w1.units as int, w1.diagonals as int, w2.units as int,
                w2.diagonals as int);
        } else {
            if f2[i].is_some() {
                let w2 = f2[idx_of(dim, x, y)].unwrap();
                assert(dist_rank(w2) <= top_rank());
                assert(f1[idx_of(dim, x, y)].is_some());
                assert(false);
            }
        }
    }
    assert(f1 =~= f2);
}

/// Batch-bake equivalence: the field `bake` stores for a destination
/// equals the flow field built standalone toward that destination.
pub proof fn lemma_bake_equivalence(
    dim: Dimensions,
    cost: Seq<Option<u32>>,
    tx: int,
    ty: int,
    baked_entry: FlowField,
    g: Seq<Option<Distance>>,
    flow: Seq<Option<Dir>>,
)
    requires
        dim.wf(),
        on_grid(dim, tx, ty),
        dest_field_ok_at(dim, cost, idx_of(dim, tx, ty), baked_entry),
        converged(dim, cost, tx, ty, g),
        flow_matches(dim, g, flow),
    ensures
        baked_entry.field.is_some(),
        baked_entry.field.unwrap()@ == flow,
{
    let (x, y) = choose|x: int, y: int|
        on_grid(dim, x, y) && #[trigger] idx_of(dim, x, y) == idx_of(dim, tx, ty)
            && dest_field_ok(dim, cost, x, y, baked_entry);
    lemma_idx_injective(dim, x, y, tx, ty);
    lemma_idx_bounds(dim, tx, ty);
    assert(g[idx_of(dim, tx, ty)].is_some());
    assert(cost[idx_of(dim, tx, ty)].is_some());
    let g2 = choose|g2: Seq<Option<Distance>>|
        #[trigger] converged(dim, cost, tx, ty, g2) && flow_matches(dim, g2,
            baked_entry.field.unwrap()@);
    lemma_converged_unique(dim, cost, tx, ty, g, g2);
    lemma_flow_unique(dim, g, flow, baked_entry.field.unwrap()@);
}

} // verus!
