//! Flow-field pathfinding over a 2D grid.
//!
//! Given a per-cell traversal cost (or an "impassable" marker) and a
//! destination cell, the library computes an integration field (cumulative
//! distance from every cell to the destination, over an 8-connected grid
//! with corner-cutting prevention) and derives from it a flow field: one of
//! eight movement directions per reachable cell, pointing along a locally
//! optimal path toward the destination.
//!
//! Distances are kept exact: a path is a number of cardinal steps plus
//! entered-cell costs, and a number of diagonal steps, so its length is
//! `units + diagonals * sqrt(2)`. Both parts are stored as integers and
//! compared exactly, so no rounding ever influences a tie-break.

pub mod baked;
pub mod direction;
pub mod distance;
pub mod fieldspec;
pub mod flow;
pub mod flowfield;
pub mod geometry;
pub mod integration;
pub mod laws;

pub use baked::BakedFlowFields;
pub use baked::BakedFlowFieldsFactory;
pub use baked::bake;
pub use baked::build_flow_field_at;
pub use direction::Dir;
pub use distance::Distance;
pub use flow::build_flow_field;
pub use flow::calculate_flow_field;
pub use flowfield::FlowField;
pub use flowfield::FlowFieldFactory;
pub use flowfield::QueryPoint;
pub use geometry::Dimensions;
pub use geometry::FieldError;
pub use geometry::make_geometry;
pub use integration::build_integration_field;
pub use integration::calculate_integration_field;
pub use integration::CostField;
pub use integration::IntegrationField;
