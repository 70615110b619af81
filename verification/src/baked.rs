//! The baked multi-destination set: one flow field per candidate
//! destination cell, built independently and in parallel.

use vstd::prelude::*;
use rayon::iter::{IntoParallelIterator, ParallelIterator};
use crate::distance::Distance;
use crate::direction::Dir;
use crate::fieldspec::converged;
use crate::flow::{calculate_flow_field, flow_matches};
use crate::flowfield::{FlowField, FlowFieldFactory, QueryPoint};
use crate::geometry::{Dimensions, FieldError, idx_of, on_grid, lemma_idx_decompose};
use crate::integration::{CostField, calculate_integration_field};

verus! {

/// What `bake` guarantees of the field stored for destination `(x, y)`:
/// an impassable destination stores no field at all, a passable one
/// stores the flow field of a converged integration field toward it.
pub open spec fn dest_field_ok(
    dim: Dimensions,
    cost: Seq<Option<u32>>,
    x: int,
    y: int,
    ff: FlowField,
) -> bool {
    &&& ff.dim == dim
    &&& ff.wf()
    &&& if cost[idx_of(dim, x, y)].is_some() {
        &&& ff.field.is_some()
        &&& exists|g: Seq<Option<Distance>>|
            #[trigger] converged(dim, cost, x, y, g) && flow_matches(dim, g,
                ff.field.unwrap()@)
    } else {
        ff.field.is_none()
    }
}

/// `dest_field_ok` at the destination of linear index `i`.
pub open spec fn dest_field_ok_at(
    dim: Dimensions,
    cost: Seq<Option<u32>>,
    i: int,
    ff: FlowField,
) -> bool {
    exists|x: int, y: int|
        on_grid(dim, x, y) && #[trigger] idx_of(dim, x, y) == i && dest_field_ok(dim, cost, x,
            y, ff)
}

/// Build the flow field toward the destination `(x, y)`: the full
/// pipeline for one destination.
pub fn build_flow_field_at(dim: &Dimensions, cost_field: &CostField, x: usize, y: usize) -> (r:
    FlowField)
    requires
        dim.wf(),
        cost_field@.len() == dim.max_idx,
        on_grid(*dim, x as int, y as int),
    ensures
        dest_field_ok(*dim, cost_field@, x as int, y as int, r),
{
    let integ = calculate_integration_field(dim, (x as isize, y as isize), cost_field);
    match integ {
        None => FlowFieldFactory::create(*dim, None),
        Some(g) => {
            let flow = calculate_flow_field(dim, &g);
            let r = FlowFieldFactory::create(*dim, Some(flow));
            proof {
                assert(converged(*dim, cost_field@, x as int, y as int, g@)
                    && flow_matches(*dim, g@, r.field.unwrap()@));
            }
            r
        },
    }
}

/// Build the flow field toward the destination of linear index `d`.
pub fn build_flow_field_for(dim: &Dimensions, cost_field: &CostField, d: usize) -> (r: FlowField)
    requires
        dim.wf(),
        cost_field@.len() == dim.max_idx,
        d < dim.max_idx,
    ensures
        dest_field_ok_at(*dim, cost_field@, d as int, r),
{
    proof {
        lemma_idx_decompose(*dim, d as int);
    }
    let x = d % dim.width();
    let y = d / dim.width();
    let r = build_flow_field_at(dim, cost_field, x, y);
    proof {
        assert(on_grid(*dim, x as int, y as int) && idx_of(*dim, x as int, y as int)
            == d as int && dest_field_ok(*dim, cost_field@, x as int, y as int, r));
    }
    r
}

/// Relies on rayon's `into_par_iter` over a range, `map` and `collect`
/// into a `Vec`: an indexed parallel iterator collects one result per
/// index, in index order, so entry `i` is what `build_flow_field_for`
/// returns for destination `i`.
#[verifier::external_body]
fn par_build_all(dim: &Dimensions, cost_field: &CostField) -> (r: Vec<FlowField>)
    requires
        dim.wf(),
        cost_field@.len() == dim.max_idx,
    ensures
        r@.len() == dim.max_idx,
        forall|i: int|
            0 <= i < r@.len() ==> dest_field_ok_at(*dim, cost_field@, i, #[trigger] r@[i]),
{
    let n = dim.max_idx();
    (0..n).into_par_iter().map(|d| build_flow_field_for(dim, cost_field, d)).collect()
}

/// One flow field per destination cell of the shared geometry.
#[derive(Clone, PartialEq, Eq, Debug)]
pub struct BakedFlowFields {
    pub dim: Dimensions,
    pub flow_fields: Vec<FlowField>,
}

impl BakedFlowFields {
    /// Well-formedness: one well-formed field per cell, all on the shared
    /// geometry.
    pub open spec fn wf(&self) -> bool {
        &&& self.dim.wf()
        &&& self.flow_fields@.len() == self.dim.max_idx
        &&& forall|i: int|
            0 <= i < self.flow_fields@.len() ==> (#[trigger] self.flow_fields@[i]).wf()
                && self.flow_fields@[i].dim == self.dim
    }

    /// An empty set over an empty geometry.
    pub fn new() -> (r: BakedFlowFields)
        ensures
            r.wf(),
    {
        BakedFlowFields { dim: Dimensions::new(0, 0), flow_fields: Vec::new() }
    }

    /// Whether an agent at `from` can flow toward destination `to`.
    pub fn can_flow_from_to(&self, from: QueryPoint, to: QueryPoint) -> (r: bool)
        requires
            self.wf(),
        ensures
            r == (from.finite && to.finite && on_grid(self.dim, to.x as int, to.y as int)
                && self.flow_fields@[idx_of(self.dim, to.x as int, to.y as int)].has_flow(
                from.x as int, from.y as int)),
    {
        if !from.finite || !to.finite {
            return false;
        }
        if !self.dim.in_bounds(to.x, to.y) {
            return false;
        }
        let ti = self.dim.project_to_field_idx(to.x, to.y);
        let field = &self.flow_fields[ti];
        field.can_flow_internal((from.x, from.y))
    }

    /// The direction an agent at `from` should move toward destination
    /// `to`, with the query surface's error reporting; `OutOfBounds` also
    /// covers a `to` outside the geometry.
    pub fn flow_from_to(&self, from: QueryPoint, to: QueryPoint) -> (r: Result<Dir, FieldError>)
        requires
            self.wf(),
        ensures
            match r {
                Ok(d) => from.finite && to.finite && on_grid(self.dim, to.x as int,
                    to.y as int) && self.flow_fields@[idx_of(self.dim, to.x as int,
                    to.y as int)].has_flow(from.x as int, from.y as int)
                    && self.flow_fields@[idx_of(self.dim, to.x as int,
                    to.y as int)].field.unwrap()@[idx_of(self.dim, from.x as int,
                    from.y as int)] == Some(d),
                Err(e) => {
                    ||| (e == FieldError::InvalidCoordinate && !(from.finite && to.finite))
                    ||| (e == FieldError::OutOfBounds && from.finite && to.finite && !on_grid(
                        self.dim, to.x as int, to.y as int))
                    ||| (e == FieldError::OutOfBounds && from.finite && to.finite && on_grid(
                        self.dim, to.x as int, to.y as int) && !on_grid(self.dim,
                        from.x as int, from.y as int))
                    ||| (e == FieldError::Unreachable && from.finite && to.finite && on_grid(
                        self.dim, to.x as int, to.y as int) && on_grid(self.dim, from.x as int,
                        from.y as int) && !self.flow_fields@[idx_of(self.dim, to.x as int,
                        to.y as int)].has_flow(from.x as int, from.y as int))
                },
            },
    {
        if !from.finite || !to.finite {
            return Err(FieldError::InvalidCoordinate);
        }
        if !self.dim.in_bounds(to.x, to.y) {
            return Err(FieldError::OutOfBounds);
        }
        let ti = self.dim.project_to_field_idx(to.x, to.y);
        let field = &self.flow_fields[ti];
        field.flow_internal((from.x, from.y))
    }
}

/// Builds `BakedFlowFields` values from their parts.
pub struct BakedFlowFieldsFactory {}

impl BakedFlowFieldsFactory {
    pub fn create(dim: Dimensions, fields: Vec<FlowField>) -> (r: BakedFlowFields)
        requires
            dim.wf(),
            fields@.len() == dim.max_idx,
            forall|i: int|
                0 <= i < fields@.len() ==> (#[trigger] fields@[i]).wf() && fields@[i].dim
                    == dim,
        ensures
            r.dim == dim,
            r.flow_fields == fields,
            r.wf(),
    {
        BakedFlowFields { dim, flow_fields: fields }
    }
}

/// Bake one flow field per candidate destination cell, in parallel: each
/// destination's pipeline is independent, sharing only the read-only cost
/// field and geometry.
pub fn bake(dim: &Dimensions, cost_field: &CostField) -> (r: BakedFlowFields)
    requires
        dim.wf(),
        cost_field@.len() == dim.max_idx,
    ensures
        r.wf(),
        r.dim == dim,
        r.flow_fields@.len() == dim.max_idx,
        forall|i: int|
            0 <= i < r.flow_fields@.len() ==> dest_field_ok_at(*dim, cost_field@, i,
                #[trigger] r.flow_fields@[i]),
{
    let fields = par_build_all(dim, cost_field);
    proof {
        assert forall|i: int| 0 <= i < fields@.len()
            implies (#[trigger] fields@[i]).wf() && fields@[i].dim == *dim by {
            let (x, y) = choose|x: int, y: int|
                on_grid(*dim, x, y) && #[trigger] idx_of(*dim, x, y) == i && dest_field_ok(
                    *dim, cost_field@, x, y, fields@[i]);
        }
    }
    BakedFlowFieldsFactory::create(*dim, fields)
}

} // verus!
