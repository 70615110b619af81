//! The read-only query surface over a completed flow field.
//!
//! Queries arrive as coordinates the host has already rounded to integer
//! cells; `QueryPoint` additionally records whether the original
//! floating-point components were finite, and a non-finite query is
//! rejected with `InvalidCoordinate` rather than silently truncated.

use vstd::prelude::*;
use crate::direction::Dir;
use crate::geometry::{Dimensions, FieldError, idx_of, on_grid};

verus! {

/// A queried position: an integer cell, plus whether the floating-point
/// coordinate it was rounded from was finite in both components.
#[derive(Clone, Copy, PartialEq, Eq, Structural, Debug)]
pub struct QueryPoint {
    /// False when the original coordinate had a NaN or infinite component.
    pub finite: bool,
    pub x: isize,
    pub y: isize,
}

impl QueryPoint {
    /// A point the host rounded from finite components.
    pub fn at(x: isize, y: isize) -> (r: QueryPoint)
        ensures
            r == (QueryPoint { finite: true, x, y }),
    {
        QueryPoint { finite: true, x, y }
    }
}

/// A flow field bound to its geometry. `field` is `None` when the field
/// was built toward an impassable destination: nothing can flow at all.
#[derive(Clone, PartialEq, Eq, Debug)]
pub struct FlowField {
    pub dim: Dimensions,
    pub field: Option<Vec<Option<Dir>>>,
}

impl FlowField {
    /// Well-formedness: a present field has one entry per cell.
    pub open spec fn wf(&self) -> bool {
        &&& self.dim.wf()
        &&& (self.field.is_some() ==> self.field.unwrap()@.len() == self.dim.max_idx)
    }

    /// The cell is on the grid and has a stored direction.
    pub open spec fn has_flow(&self, x: int, y: int) -> bool {
        &&& on_grid(self.dim, x, y)
        &&& self.field.is_some()
        &&& self.field.unwrap()@[idx_of(self.dim, x, y)].is_some()
    }

    /// An empty field over an empty geometry.
    pub fn new() -> (r: FlowField)
        ensures
            r.wf(),
            r.field.is_none(),
    {
        FlowField { dim: Dimensions::new(0, 0), field: None }
    }

    /// Whether an agent at `from` can flow: in bounds, with a direction.
    pub fn can_flow_internal(&self, from: (isize, isize)) -> (r: bool)
        requires
            self.wf(),
        ensures
            r == self.has_flow(from.0 as int, from.1 as int),
    {
        let (from_x, from_y) = from;
        if !self.dim.in_bounds(from_x, from_y) {
            return false;
        }
        match &self.field {
            None => false,
            Some(f) => {
                let i = self.dim.project_to_field_idx(from_x, from_y);
                f[i].is_some()
            },
        }
    }

    /// The stored direction at `from`: `OutOfBounds` outside the grid,
    /// `Unreachable` for an in-bounds cell without one.
    pub fn flow_internal(&self, from: (isize, isize)) -> (r: Result<Dir, FieldError>)
        requires
            self.wf(),
        ensures
            match r {
                Ok(d) => self.has_flow(from.0 as int, from.1 as int)
                    && self.field.unwrap()@[idx_of(self.dim, from.0 as int, from.1 as int)]
                    == Some(d),
                Err(e) => {
                    ||| (e == FieldError::OutOfBounds && !on_grid(self.dim, from.0 as int,
                        from.1 as int))
                    ||| (e == FieldError::Unreachable && on_grid(self.dim, from.0 as int,
                        from.1 as int) && !self.has_flow(from.0 as int, from.1 as int))
                },
            },
    {
        let (from_x, from_y) = from;
        if !self.dim.in_bounds(from_x, from_y) {
            return Err(FieldError::OutOfBounds);
        }
        match &self.field {
            None => Err(FieldError::Unreachable),
            Some(f) => {
                let i = self.dim.project_to_field_idx(from_x, from_y);
                match f[i] {
                    Some(d) => Ok(d),
                    None => Err(FieldError::Unreachable),
                }
            },
        }
    }

    /// Whether an agent at `from` can flow; a non-finite query cannot.
    pub fn can_flow(&self, from: QueryPoint) -> (r: bool)
        requires
            self.wf(),
        ensures
            r == (from.finite && self.has_flow(from.x as int, from.y as int)),
    {
        if !from.finite {
            false
        } else {
            self.can_flow_internal((from.x, from.y))
        }
    }

    /// The stored direction at `from`; a non-finite query is rejected with
    /// `InvalidCoordinate`.
    pub fn flow(&self, from: QueryPoint) -> (r: Result<Dir, FieldError>)
        requires
            self.wf(),
        ensures
            match r {
                Ok(d) => from.finite && self.has_flow(from.x as int, from.y as int)
                    && self.field.unwrap()@[idx_of(self.dim, from.x as int, from.y as int)]
                    == Some(d),
                Err(e) => {
                    ||| (e == FieldError::InvalidCoordinate && !from.finite)
                    ||| (e == FieldError::OutOfBounds && from.finite && !on_grid(self.dim,
                        from.x as int, from.y as int))
                    ||| (e == FieldError::Unreachable && from.finite && on_grid(self.dim,
                        from.x as int, from.y as int) && !self.has_flow(from.x as int,
                        from.y as int))
                },
            },
    {
        if !from.finite {
            Err(FieldError::InvalidCoordinate)
        } else {
            self.flow_internal((from.x, from.y))
        }
    }
}

/// Builds `FlowField` values from their parts.
pub struct FlowFieldFactory {}

impl FlowFieldFactory {
    pub fn create(dim: Dimensions, opt_field: Option<Vec<Option<Dir>>>) -> (r: FlowField)
        requires
            dim.wf(),
            opt_field.is_some() ==> opt_field.unwrap()@.len() == dim.max_idx,
        ensures
            r.dim == dim,
            r.field == opt_field,
            r.wf(),
    {
        FlowField { dim, field: opt_field }
    }
}

} // verus!
