//! Integration- and flow-field behaviour on concrete grids.

use std::f32::consts::SQRT_2;

use flowfield::{
    calculate_flow_field, calculate_integration_field, Dimensions, Dir, Distance,
};

fn dist_f32(d: &Distance) -> f32 {
    d.units as f32 + d.diagonals as f32 * SQRT_2
}

fn opt_f32(o: &Option<Distance>) -> Option<f32> {
    o.as_ref().map(dist_f32)
}

fn as_f32_field(f: &[Option<Distance>]) -> Vec<Option<f32>> {
    f.iter().map(opt_f32).collect()
}

#[test]
fn small_integration_field() {
    let cost_field = vec![Some(0); 9];
    let integration_field =
        calculate_integration_field(&Dimensions::new(3, 3), (1, 1), &cost_field);
    assert_eq!(
        integration_field.map(|f| as_f32_field(&f)),
        Some(vec![
            Some(SQRT_2),
            Some(1.),
            Some(SQRT_2),
            Some(1.),
            Some(0.),
            Some(1.),
            Some(SQRT_2),
            Some(1.),
            Some(SQRT_2)
        ]),
        "integration field doesn't match."
    )
}

#[test]
fn uniform_grid_center_destination_flow() {
    // uniform 3x3, all costs 0, destination at the center (1, 1)
    let dim = Dimensions::new(3, 3);
    let cost_field = vec![Some(0); 9];
    let integ = calculate_integration_field(&dim, (1, 1), &cost_field).unwrap();
    assert_eq!(
        as_f32_field(&integ),
        vec![
            Some(SQRT_2),
            Some(1.),
            Some(SQRT_2),
            Some(1.),
            Some(0.),
            Some(1.),
            Some(SQRT_2),
            Some(1.),
            Some(SQRT_2)
        ]
    );
    let flow = calculate_flow_field(&dim, &integ);
    // each edge-adjacent cell points straight at the center, each corner
    // cell diagonally at it
    assert_eq!(flow[0], Some(Dir::SouthEast));
    assert_eq!(flow[1], Some(Dir::South));
    assert_eq!(flow[2], Some(Dir::SouthWest));
    assert_eq!(flow[3], Some(Dir::East));
    assert_eq!(flow[5], Some(Dir::West));
    assert_eq!(flow[6], Some(Dir::NorthEast));
    assert_eq!(flow[7], Some(Dir::North));
    assert_eq!(flow[8], Some(Dir::NorthWest));
    // the destination cell itself has no direction: an agent standing
    // there needs no movement
    assert_eq!(flow[4], None);
}

#[test]
fn destination_distance_is_zero() {
    // varied weights; destination (2, 1) on a 4x3 grid
    let dim = Dimensions::new(4, 3);
    let cost_field = vec![
        Some(3),
        Some(0),
        Some(1),
        Some(7),
        Some(2),
        None,
        Some(0),
        Some(1),
        Some(5),
        Some(4),
        Some(0),
        Some(2),
    ];
    let integ = calculate_integration_field(&dim, (2, 1), &cost_field).unwrap();
    assert_eq!(integ[2 + 1 * 4], Some(Distance { units: 0, diagonals: 0 }));
}

#[test]
fn every_distance_has_a_supporting_neighbor() {
    // for all cells with a distance (except the destination) some
    // 8-neighbour offers exactly the stored value
    let dim = Dimensions::new(4, 4);
    let cost_field = vec![
        Some(1),
        Some(0),
        Some(4),
        Some(2),
        Some(0),
        None,
        None,
        Some(1),
        Some(3),
        Some(0),
        Some(2),
        None,
        Some(1),
        Some(1),
        Some(0),
        Some(5),
    ];
    let (tx, ty) = (0isize, 0isize);
    let integ = calculate_integration_field(&dim, (tx, ty), &cost_field).unwrap();
    let offsets: [(isize, isize, bool); 8] = [
        (0, -1, false),
        (1, -1, true),
        (1, 0, false),
        (1, 1, true),
        (0, 1, false),
        (-1, 1, true),
        (-1, 0, false),
        (-1, -1, true),
    ];
    for y in 0..4isize {
        for x in 0..4isize {
            let i = (x + y * 4) as usize;
            let Some(d) = integ[i] else { continue };
            if (x, y) == (tx, ty) {
                continue;
            }
            let cw = cost_field[i].expect("occupied cells are passable") as u64;
            let supported = offsets.iter().any(|&(ox, oy, diag)| {
                let (nx, ny) = (x - ox, y - oy);
                if !(0..4).contains(&nx) || !(0..4).contains(&ny) {
                    return false;
                }
                let Some(n) = integ[(nx + ny * 4) as usize] else {
                    return false;
                };
                let expect = Distance {
                    units: n.units + cw + if diag { 0 } else { 1 },
                    diagonals: n.diagonals + if diag { 1 } else { 0 },
                };
                expect == d
            });
            assert!(supported, "cell ({}, {}) has no supporting neighbour", x, y);
        }
    }
}

#[test]
fn impassable_cells_stay_blank() {
    let dim = Dimensions::new(4, 4);
    let mut cost_field = vec![Some(1); 16];
    cost_field[5] = None;
    cost_field[10] = None;
    cost_field[12] = None;
    let integ = calculate_integration_field(&dim, (3, 0), &cost_field).unwrap();
    let flow = calculate_flow_field(&dim, &integ);
    for i in [5usize, 10, 12] {
        assert_eq!(integ[i], None);
        assert_eq!(flow[i], None);
    }
}

#[test]
fn flow_absence_matches_distance_absence() {
    // direction absent exactly where the distance is absent or the cell
    // is the destination itself
    let dim = Dimensions::new(4, 4);
    let mut cost_field = vec![Some(2); 16];
    cost_field[6] = None;
    cost_field[9] = None;
    let dest = 0 + 3 * 4;
    let integ = calculate_integration_field(&dim, (0, 3), &cost_field).unwrap();
    let flow = calculate_flow_field(&dim, &integ);
    for i in 0..16usize {
        assert_eq!(flow[i].is_some(), integ[i].is_some() && i != dest);
    }
}

#[test]
fn isolated_destination_has_distance_but_no_flow() {
    // a 1x1 grid: the destination keeps its zero distance but, like every
    // destination, gets no direction
    let dim = Dimensions::new(1, 1);
    let cost_field = vec![Some(0)];
    let integ = calculate_integration_field(&dim, (0, 0), &cost_field).unwrap();
    let flow = calculate_flow_field(&dim, &integ);
    assert_eq!(integ[0], Some(Distance { units: 0, diagonals: 0 }));
    assert_eq!(flow[0], None);
}

#[test]
fn corner_cutting_suppressed() {
    // 3x3, destination bottom-right, the cell east of the center
    // impassable: the center's nearest neighbour is the diagonal, but only
    // the vertical flank is reachable, so it flows south instead
    let dim = Dimensions::new(3, 3);
    let mut cost_field = vec![Some(0); 9];
    cost_field[2 + 1 * 3] = None; // (2, 1)
    let integ = calculate_integration_field(&dim, (2, 2), &cost_field).unwrap();
    let center = integ[1 + 1 * 3].unwrap();
    let diag = integ[2 + 2 * 3].unwrap();
    assert!(dist_f32(&diag) < dist_f32(&center));
    let flow = calculate_flow_field(&dim, &integ);
    assert_eq!(flow[1 + 1 * 3], Some(Dir::South));
    assert_eq!(flow[2 + 2 * 3], None);
}

#[test]
fn blocked_corner_is_unreachable() {
    // both cells flanking the diagonal into the corner are impassable:
    // the gated wavefront never reaches the corner at all
    let dim = Dimensions::new(3, 3);
    let mut cost_field = vec![Some(0); 9];
    cost_field[1] = None; // (1, 0)
    cost_field[3] = None; // (0, 1)
    let integ = calculate_integration_field(&dim, (1, 1), &cost_field).unwrap();
    let flow = calculate_flow_field(&dim, &integ);
    assert_eq!(integ[0], None);
    assert_eq!(flow[0], None);
}

#[test]
fn rebuilding_flow_field_is_deterministic() {
    let dim = Dimensions::new(4, 3);
    let mut cost_field = vec![Some(1); 12];
    cost_field[7] = None;
    let integ = calculate_integration_field(&dim, (1, 2), &cost_field).unwrap();
    let first = calculate_flow_field(&dim, &integ);
    let second = calculate_flow_field(&dim, &integ);
    assert_eq!(first, second);
}

#[test]
fn weights_accumulate_into_distances() {
    // each step adds its length plus the entered cell's weight
    let dim = Dimensions::new(3, 1);
    let cost_field = vec![Some(0), Some(9), Some(0)];
    let integ = calculate_integration_field(&dim, (0, 0), &cost_field).unwrap();
    assert_eq!(integ[0], Some(Distance { units: 0, diagonals: 0 }));
    assert_eq!(integ[1], Some(Distance { units: 10, diagonals: 0 }));
    assert_eq!(integ[2], Some(Distance { units: 11, diagonals: 0 }));
}
