//! The flow-field builder: a per-cell steepest-descent direction derived
//! from a completed integration field.
//!
//! Every cell with a distance — except the destination itself, which is
//! the cell holding distance zero and needs no movement — looks at its
//! eight neighbours and picks the one with the strictly smallest distance;
//! ties go to the first direction in the fixed order north, north-east,
//! east, south-east, south, south-west, west, north-west. A chosen
//! diagonal is then checked for corner cutting: when exactly one of its
//! two flanking orthogonal cells is reachable, the flow goes along that
//! single orthogonal direction instead, forcing an L-shaped path around
//! the impassable corner.
//!
//! The result is a pure function of the integration field, cell by cell.

use vstd::prelude::*;
use crate::distance::{Distance, dist_zero, dist_le, dist_lt, dist_cmp_lt};
use crate::direction::{Dir, dir_dx, dir_dy, is_diagonal};
use crate::geometry::{
    Dimensions, FieldError, idx_of, on_grid, lemma_idx_bounds, lemma_idx_surjective,
};
use crate::integration::IntegrationField;

verus! {

/// One optional flow direction per cell, row-major against a `Dimensions`.
pub type FlowField = Vec<Option<Dir>>;

/// The integration distance one step in direction `d` from `(x, y)`, with
/// off-grid neighbours reading as absent.
pub open spec fn neighbor_dist(
    dim: Dimensions,
    f: Seq<Option<Distance>>,
    x: int,
    y: int,
    d: Dir,
) -> Option<Distance> {
    if on_grid(dim, x + dir_dx(d), y + dir_dy(d)) {
        f[idx_of(dim, x + dir_dx(d), y + dir_dy(d))]
    } else {
        None
    }
}

/// `a` is no worse than the optional `b`: absent values never win.
pub open spec fn opt_le(a: Distance, b: Option<Distance>) -> bool {
    match b {
        None => true,
        Some(bv) => dist_le(a, bv),
    }
}

/// The neighbour in direction `d` exists and is no farther than any other
/// neighbour.
pub open spec fn wins(dim: Dimensions, f: Seq<Option<Distance>>, x: int, y: int, d: Dir) -> bool {
    &&& neighbor_dist(dim, f, x, y, d).is_some()
    &&& forall|d2: Dir| opt_le(neighbor_dist(dim, f, x, y, d).unwrap(),
        #[trigger] neighbor_dist(dim, f, x, y, d2))
}

/// The first direction, in the fixed priority order, whose neighbour
/// achieves the minimum distance; absent when no neighbour has one.
pub open spec fn best_dir(dim: Dimensions, f: Seq<Option<Distance>>, x: int, y: int) -> Option<
    Dir,
> {
    if wins(dim, f, x, y, Dir::North) {
        Some(Dir::North)
    } else if wins(dim, f, x, y, Dir::NorthEast) {
        Some(Dir::NorthEast)
    } else if wins(dim, f, x, y, Dir::East) {
        Some(Dir::East)
    } else if wins(dim, f, x, y, Dir::SouthEast) {
        Some(Dir::SouthEast)
    } else if wins(dim, f, x, y, Dir::South) {
        Some(Dir::South)
    } else if wins(dim, f, x, y, Dir::SouthWest) {
        Some(Dir::SouthWest)
    } else if wins(dim, f, x, y, Dir::West) {
        Some(Dir::West)
    } else if wins(dim, f, x, y, Dir::NorthWest) {
        Some(Dir::NorthWest)
    } else {
        None
    }
}

/// The vertical flank of a diagonal.
pub open spec fn vertical_of(d: Dir) -> Dir {
    match d {
        Dir::NorthEast | Dir::NorthWest => Dir::North,
        Dir::SouthEast | Dir::SouthWest => Dir::South,
        _ => d,
    }
}

/// The horizontal flank of a diagonal.
pub open spec fn horizontal_of(d: Dir) -> Dir {
    match d {
        Dir::NorthEast | Dir::SouthEast => Dir::East,
        Dir::NorthWest | Dir::SouthWest => Dir::West,
        _ => d,
    }
}

/// Corner-cutting suppression: a chosen diagonal with exactly one
/// reachable flanking orthogonal cell flows along that orthogonal
/// direction instead.
pub open spec fn corner_adjust(
    dim: Dimensions,
    f: Seq<Option<Distance>>,
    x: int,
    y: int,
    d: Dir,
) -> Dir {
    if !is_diagonal(d) {
        d
    } else {
        let v = neighbor_dist(dim, f, x, y, vertical_of(d));
        let h = neighbor_dist(dim, f, x, y, horizontal_of(d));
        match (v, h) {
            (Some(_), Some(_)) => d,
            (None, None) => d,
            (None, Some(_)) => horizontal_of(d),
            (Some(_), None) => vertical_of(d),
        }
    }
}

/// The flow direction of one cell: absent where the integration distance
/// is absent, at the destination itself (the cell holding distance zero —
/// an agent standing there needs no movement), and where no neighbour has
/// a distance; else the tie-broken minimum neighbour's direction after
/// corner adjustment.
pub open spec fn flow_dir_spec(
    dim: Dimensions,
    f: Seq<Option<Distance>>,
    x: int,
    y: int,
) -> Option<Dir> {
    if f[idx_of(dim, x, y)].is_none() {
        None
    } else if f[idx_of(dim, x, y)].unwrap() == dist_zero() {
        None
    } else {
        match best_dir(dim, f, x, y) {
            None => None,
            Some(d) => Some(corner_adjust(dim, f, x, y, d)),
        }
    }
}

/// `r` is the flow field of `f`: one direction (or absence) per cell.
pub open spec fn flow_matches(
    dim: Dimensions,
    f: Seq<Option<Distance>>,
    r: Seq<Option<Dir>>,
) -> bool {
    &&& r.len() == dim.max_idx
    &&& forall|x: int, y: int|
        #![trigger r[idx_of(dim, x, y)]]
        on_grid(dim, x, y) ==> r[idx_of(dim, x, y)] == flow_dir_spec(dim, f, x, y)
}

/// The flow field of a given integration field is unique: building it is
/// deterministic.
pub proof fn lemma_flow_unique(
    dim: Dimensions,
    f: Seq<Option<Distance>>,
    r1: Seq<Option<Dir>>,
    r2: Seq<Option<Dir>>,
)
    requires
        dim.wf(),
        flow_matches(dim, f, r1),
        flow_matches(dim, f, r2),
    ensures
        r1 == r2,
{
    assert forall|i: int| 0 <= i < r1.len() implies r1[i] == r2[i] by {
        lemma_idx_surjective(dim, i);
        let (x, y) = choose|x: int, y: int|
            on_grid(dim, x, y) && #[trigger] idx_of(dim, x, y) == i;
        assert(r1[idx_of(dim, x, y)] == flow_dir_spec(dim, f, x, y));
        assert(r2[idx_of(dim, x, y)] == flow_dir_spec(dim, f, x, y));
    }
    assert(r1 =~= r2);
}

/// `a` is no worse than the optional `b`.
fn le_opt(a: &Distance, b: &Option<Distance>) -> (r: bool)
    ensures
        r == opt_le(*a, *b),
{
    match b {
        None => true,
        Some(bv) => !dist_cmp_lt(bv, a),
    }
}

/// The integration distance one step in direction `d` from `(x, y)`.
fn integration_at(
    dim: &Dimensions,
    f: &IntegrationField,
    x: usize,
    y: usize,
    d: Dir,
) -> (r: Option<Distance>)
    requires
        dim.wf(),
        f@.len() == dim.max_idx,
        on_grid(*dim, x as int, y as int),
    ensures
        r == neighbor_dist(*dim, f@, x as int, y as int, d),
{
    let (ox, oy) = d.offset();
    let xn = x as isize + ox;
    let yn = y as isize + oy;
    if dim.in_bounds(xn, yn) {
        let t = dim.project_to_field_idx(xn, yn);
        f[t]
    } else {
        None
    }
}

/// Whether the neighbour in direction `d` exists and achieves the minimum.
fn wins_at(dim: &Dimensions, f: &IntegrationField, x: usize, y: usize, d: Dir) -> (r: bool)
    requires
        dim.wf(),
        f@.len() == dim.max_idx,
        on_grid(*dim, x as int, y as int),
    ensures
        r == wins(*dim, f@, x as int, y as int, d),
{
    let own = integration_at(dim, f, x, y, d);
    match own {
        None => false,
        Some(v) => {
            let r = le_opt(&v, &integration_at(dim, f, x, y, Dir::North))
                && le_opt(&v, &integration_at(dim, f, x, y, Dir::NorthEast))
                && le_opt(&v, &integration_at(dim, f, x, y, Dir::East))
                && le_opt(&v, &integration_at(dim, f, x, y, Dir::SouthEast))
                && le_opt(&v, &integration_at(dim, f, x, y, Dir::South))
                && le_opt(&v, &integration_at(dim, f, x, y, Dir::SouthWest))
                && le_opt(&v, &integration_at(dim, f, x, y, Dir::West))
                && le_opt(&v, &integration_at(dim, f, x, y, Dir::NorthWest));
            proof {
                if r {
                    assert forall|d2: Dir|
                        opt_le(v, #[trigger] neighbor_dist(*dim, f@, x as int, y as int,
                            d2)) by {
                        // the eight conjuncts cover every direction
                    }
                }
            }
            r
        },
    }
}

/// The flow direction of one cell.
fn flow_cell(dim: &Dimensions, f: &IntegrationField, x: usize, y: usize) -> (r: Option<Dir>)
    requires
        dim.wf(),
        f@.len() == dim.max_idx,
        on_grid(*dim, x as int, y as int),
    ensures
        r == flow_dir_spec(*dim, f@, x as int, y as int),
{
    let i = dim.project_to_field_idx(x as isize, y as isize);
    match f[i] {
        None => {
            return None;
        },
        Some(own) => {
            // the destination holds distance zero and gets no direction
            if own.units == 0 && own.diagonals == 0 {
                return None;
            }
        },
    }
    let best: Dir;
    if wins_at(dim, f, x, y, Dir::North) {
        best = Dir::North;
    } else if wins_at(dim, f, x, y, Dir::NorthEast) {
        best = Dir::NorthEast;
    } else if wins_at(dim, f, x, y, Dir::East) {
        best = Dir::East;
    } else if wins_at(dim, f, x, y, Dir::SouthEast) {
        best = Dir::SouthEast;
    } else if wins_at(dim, f, x, y, Dir::South) {
        best = Dir::South;
    } else if wins_at(dim, f, x, y, Dir::SouthWest) {
        best = Dir::SouthWest;
    } else if wins_at(dim, f, x, y, Dir::West) {
        best = Dir::West;
    } else if wins_at(dim, f, x, y, Dir::NorthWest) {
        best = Dir::NorthWest;
    } else {
        return None;
    }
    let adjusted: Dir;
    match best {
        Dir::North | Dir::East | Dir::South | Dir::West => {
            adjusted = best;
        },
        _ => {
            let vd = match best {
                Dir::NorthEast | Dir::NorthWest => Dir::North,
                _ => Dir::South,
            };
            let hd = match best {
                Dir::NorthEast | Dir::SouthEast => Dir::East,
                _ => Dir::West,
            };
            let cv = integration_at(dim, f, x, y, vd);
            let ch = integration_at(dim, f, x, y, hd);
            adjusted = match (cv, ch) {
                (Some(_), Some(_)) => best,
                (None, None) => best,
                (None, Some(_)) => hd,
                (Some(_), None) => vd,
            };
        },
    }
    Some(adjusted)
}

/// Derive the flow field from a completed integration field: for every
/// cell with a distance, the direction of its nearest neighbour under the
/// fixed tie-break, with corner-cutting suppression; absence exactly where
/// the integration distance is absent, at the zero-distance destination,
/// or where no neighbour has a distance.
pub fn calculate_flow_field(dim: &Dimensions, integration_field: &IntegrationField) -> (r:
    FlowField)
    requires
        dim.wf(),
        integration_field@.len() == dim.max_idx,
    ensures
        flow_matches(*dim, integration_field@, r@),
{
    let ghost dimv = *dim;
    let ghost fv = integration_field@;
    let mut flow: Vec<Option<Dir>> = Vec::new();
    let mut k: usize = 0;
    let n = dim.max_idx();
    while k < n
        invariant
            flow@.len() == k,
            k <= n,
            n == dim.max_idx,
        decreases n - k,
    {
        flow.push(None);
        k = k + 1;
    }
    let mut y: usize = 0;
    while y < dim.height()
        invariant
            dim.wf(),
            dimv == *dim,
            fv == integration_field@,
            integration_field@.len() == dim.max_idx,
            flow@.len() == dim.max_idx,
            y <= dim.height,
            forall|x2: int, y2: int|
                #![trigger flow@[idx_of(dimv, x2, y2)]]
                on_grid(dimv, x2, y2) && y2 < y ==> flow@[idx_of(dimv, x2, y2)]
                    == flow_dir_spec(dimv, fv, x2, y2),
        decreases dim.height - y,
    {
        let mut x: usize = 0;
        while x < dim.width()
            invariant
                dim.wf(),
                dimv == *dim,
                fv == integration_field@,
                integration_field@.len() == dim.max_idx,
                flow@.len() == dim.max_idx,
                y < dim.height,
                x <= dim.width,
                forall|x2: int, y2: int|
                    #![trigger flow@[idx_of(dimv, x2, y2)]]
                    on_grid(dimv, x2, y2) && (y2 < y || (y2 == y && x2 < x))
                        ==> flow@[idx_of(dimv, x2, y2)] == flow_dir_spec(dimv, fv, x2, y2),
            decreases dim.width - x,
        {
            let v = flow_cell(dim, integration_field, x, y);
            let i = dim.project_to_field_idx(x as isize, y as isize);
            let ghost pre = flow@;
            flow[i] = v;
            proof {
                assert forall|x2: int, y2: int|
                    #![trigger flow@[idx_of(dimv, x2, y2)]]
                    on_grid(dimv, x2, y2) && (y2 < y || (y2 == y && x2 < x + 1))
                    implies flow@[idx_of(dimv, x2, y2)] == flow_dir_spec(dimv, fv, x2, y2) by {
                    lemma_idx_bounds(dimv, x2, y2);
                    if x2 == x as int && y2 == y as int {
                        assert(flow@[idx_of(dimv, x2, y2)] == v);
                    } else {
                        if idx_of(dimv, x2, y2) == idx_of(dimv, x as int, y as int) {
                            crate::geometry::lemma_idx_injective(dimv, x2, y2, x as int,
                                y as int);
                            assert(false);
                        }
                        assert(flow@[idx_of(dimv, x2, y2)] == pre[idx_of(dimv, x2, y2)]);
                    }
                }
            }
            x = x + 1;
        }
        y = y + 1;
    }
    flow
}

/// The checked form of `calculate_flow_field`: rejects an integration
/// field of the wrong length with `SizeMismatch`.
pub fn build_flow_field(dim: &Dimensions, integration_field: &IntegrationField) -> (r: Result<
    FlowField,
    FieldError,
>)
    requires
        dim.wf(),
    ensures
        match r {
            Ok(flow) => integration_field@.len() == dim.max_idx && flow_matches(*dim,
                integration_field@, flow@),
            Err(e) => e == FieldError::SizeMismatch && integration_field@.len()
                != dim.max_idx,
        },
{
    if integration_field.len() != dim.max_idx() {
        Err(FieldError::SizeMismatch)
    } else {
        Ok(calculate_flow_field(dim, integration_field))
    }
}

} // verus!
