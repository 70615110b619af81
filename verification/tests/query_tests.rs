//! The query surface, the error contract, and the baked set.

use flowfield::{
    bake, build_flow_field, build_integration_field, calculate_flow_field,
    calculate_integration_field, make_geometry, BakedFlowFieldsFactory, Dimensions, Dir,
    FieldError, FlowField, FlowFieldFactory, QueryPoint,
};

fn query(x: f32, y: f32) -> QueryPoint {
    QueryPoint {
        finite: x.is_finite() && y.is_finite(),
        x: x as isize,
        y: y as isize,
    }
}

fn simple_field() -> FlowField {
    // 3x3, all costs 1, destination at the center
    let dim = Dimensions::new(3, 3);
    let cost_field = vec![Some(1); 9];
    let integ = calculate_integration_field(&dim, (1, 1), &cost_field).unwrap();
    let flow = calculate_flow_field(&dim, &integ);
    FlowFieldFactory::create(dim, Some(flow))
}

#[test]
fn make_geometry_validates_dimensions() {
    assert_eq!(make_geometry(0, 5), Err(FieldError::InvalidDimensions));
    assert_eq!(make_geometry(5, 0), Err(FieldError::InvalidDimensions));
    assert_eq!(make_geometry(-3, 4), Err(FieldError::InvalidDimensions));
    assert_eq!(make_geometry(4, -1), Err(FieldError::InvalidDimensions));
    assert_eq!(make_geometry(1 << 20, 1 << 20), Err(FieldError::InvalidDimensions));
    let dim = make_geometry(4, 3).unwrap();
    assert_eq!(dim.width(), 4);
    assert_eq!(dim.height(), 3);
    assert_eq!(dim.max_idx(), 12);
}

#[test]
fn geometry_projection_and_bounds() {
    let dim = Dimensions::new(4, 3);
    assert_eq!(dim.max_idx(), 12);
    assert!(dim.in_bounds(0, 0));
    assert!(dim.in_bounds(3, 2));
    assert!(!dim.in_bounds(4, 0));
    assert!(!dim.in_bounds(0, 3));
    assert!(!dim.in_bounds(-1, 1));
    assert_eq!(dim.project_to_field_idx(3, 2), 11);
    assert_eq!(dim.project_to_field_idx(1, 0), 1);
}

#[test]
fn direction_offsets() {
    assert_eq!(Dir::North.offset(), (0, -1));
    assert_eq!(Dir::East.offset(), (1, 0));
    assert_eq!(Dir::South.offset(), (0, 1));
    assert_eq!(Dir::West.offset(), (-1, 0));
    assert_eq!(Dir::NorthEast.offset(), (1, -1));
    assert_eq!(Dir::SouthEast.offset(), (1, 1));
    assert_eq!(Dir::SouthWest.offset(), (-1, 1));
    assert_eq!(Dir::NorthWest.offset(), (-1, -1));
}

#[test]
fn size_mismatch_is_rejected() {
    let dim = Dimensions::new(3, 3);
    let short_cost = vec![Some(1); 5];
    assert_eq!(
        build_integration_field(&dim, (1, 1), &short_cost),
        Err(FieldError::SizeMismatch)
    );
    let short_integ = vec![None; 5];
    assert_eq!(build_flow_field(&dim, &short_integ), Err(FieldError::SizeMismatch));
}

#[test]
fn off_grid_destination_is_rejected() {
    let dim = Dimensions::new(3, 3);
    let cost_field = vec![Some(1); 9];
    assert_eq!(
        build_integration_field(&dim, (3, 1), &cost_field),
        Err(FieldError::OutOfBounds)
    );
    assert_eq!(
        build_integration_field(&dim, (0, -1), &cost_field),
        Err(FieldError::OutOfBounds)
    );
}

#[test]
fn impassable_destination_yields_no_field() {
    // destination cell impassable: no field at all, and every query
    // reports unreachable, the destination included
    let dim = Dimensions::new(3, 3);
    let mut cost_field = vec![Some(1); 9];
    cost_field[4] = None;
    let built = build_integration_field(&dim, (1, 1), &cost_field).unwrap();
    assert_eq!(built, None);
    let ff = FlowFieldFactory::create(dim, None);
    for y in 0..3 {
        for x in 0..3 {
            assert!(!ff.can_flow(query(x as f32, y as f32)));
            assert_eq!(
                ff.flow(query(x as f32, y as f32)),
                Err(FieldError::Unreachable)
            );
        }
    }
}

#[test]
fn non_finite_query_reports_invalid_coordinate() {
    let ff = simple_field();
    assert_eq!(ff.flow(query(f32::NAN, 1.0)), Err(FieldError::InvalidCoordinate));
    assert_eq!(ff.flow(query(1.0, f32::INFINITY)), Err(FieldError::InvalidCoordinate));
    assert_eq!(
        ff.flow(query(f32::NEG_INFINITY, f32::NAN)),
        Err(FieldError::InvalidCoordinate)
    );
    assert!(!ff.can_flow(query(f32::NAN, 0.0)));
    // a finite query on the same field succeeds
    assert_eq!(ff.flow(query(0.0, 1.0)), Ok(Dir::East));
}

#[test]
fn query_surface_error_contract() {
    let ff = simple_field();
    assert_eq!(ff.flow(query(5.0, 1.0)), Err(FieldError::OutOfBounds));
    assert_eq!(ff.flow(query(-1.0, 0.0)), Err(FieldError::OutOfBounds));
    assert!(!ff.can_flow(query(5.0, 1.0)));
    assert!(ff.can_flow(query(0.0, 0.0)));
    assert_eq!(ff.flow(query(0.0, 0.0)), Ok(Dir::SouthEast));
    assert_eq!(ff.flow(query(1.0, 0.0)), Ok(Dir::South));
    assert_eq!(ff.flow(query(2.0, 2.0)), Ok(Dir::NorthWest));
    // the destination itself has no direction: an agent there degrades to
    // no movement
    assert!(!ff.can_flow(query(1.0, 1.0)));
    assert_eq!(ff.flow(query(1.0, 1.0)), Err(FieldError::Unreachable));
}

#[test]
fn baked_set_matches_standalone_builds() {
    // for every destination, the baked entry equals the standalone
    // pipeline's result
    let dim = Dimensions::new(3, 3);
    let mut cost_field = vec![Some(1); 9];
    cost_field[5] = None;
    let baked = bake(&dim, &cost_field);
    assert_eq!(baked.flow_fields.len(), 9);
    for d in 0..9usize {
        let (x, y) = ((d % 3) as isize, (d / 3) as isize);
        let entry = &baked.flow_fields[d];
        match calculate_integration_field(&dim, (x, y), &cost_field) {
            None => assert_eq!(entry.field, None),
            Some(integ) => {
                let flow = calculate_flow_field(&dim, &integ);
                assert_eq!(entry.field, Some(flow));
            }
        }
    }
}

#[test]
fn baked_queries_delegate_to_the_destination_field() {
    let dim = Dimensions::new(3, 3);
    let mut cost_field = vec![Some(1); 9];
    cost_field[5] = None; // (2, 1) impassable
    let baked = bake(&dim, &cost_field);
    // flowing toward the center from a corner
    assert!(baked.can_flow_from_to(query(0.0, 0.0), query(1.0, 1.0)));
    assert_eq!(
        baked.flow_from_to(query(0.0, 0.0), query(1.0, 1.0)),
        Ok(Dir::SouthEast)
    );
    // toward an impassable destination nothing flows
    assert!(!baked.can_flow_from_to(query(0.0, 0.0), query(2.0, 1.0)));
    assert_eq!(
        baked.flow_from_to(query(0.0, 0.0), query(2.0, 1.0)),
        Err(FieldError::Unreachable)
    );
    // error precedence: non-finite, then destination bounds, then source
    assert_eq!(
        baked.flow_from_to(query(f32::NAN, 0.0), query(1.0, 1.0)),
        Err(FieldError::InvalidCoordinate)
    );
    assert_eq!(
        baked.flow_from_to(query(0.0, 0.0), query(9.0, 0.0)),
        Err(FieldError::OutOfBounds)
    );
    assert_eq!(
        baked.flow_from_to(query(-2.0, 0.0), query(1.0, 1.0)),
        Err(FieldError::OutOfBounds)
    );
}

#[test]
fn baked_factory_assembles_parts() {
    let dim = Dimensions::new(1, 2);
    let cost_field = vec![Some(1), Some(1)];
    let f0 = {
        let integ = calculate_integration_field(&dim, (0, 0), &cost_field).unwrap();
        FlowFieldFactory::create(dim, Some(calculate_flow_field(&dim, &integ)))
    };
    let f1 = {
        let integ = calculate_integration_field(&dim, (0, 1), &cost_field).unwrap();
        FlowFieldFactory::create(dim, Some(calculate_flow_field(&dim, &integ)))
    };
    let baked = BakedFlowFieldsFactory::create(dim, vec![f0, f1]);
    assert_eq!(baked.flow_from_to(query(0.0, 1.0), query(0.0, 0.0)), Ok(Dir::North));
    assert_eq!(baked.flow_from_to(query(0.0, 0.0), query(0.0, 1.0)), Ok(Dir::South));
}

#[test]
fn empty_flow_field_constructor() {
    let ff = FlowField::new();
    assert_eq!(ff.field, None);
    assert!(!ff.can_flow(query(0.0, 0.0)));
}
