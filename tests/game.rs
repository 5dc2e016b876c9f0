use colony_sim::game::{CharacterMobility, Game, GameError, Node};
use colony_sim::axis::{bound, remove_parked, resort};
use colony_sim::game::Axis;
use colony_sim::tick::step_unit;
use colony_sim::geometry::{is_intersect, Circle, Point};
use std::collections::HashSet;

/// Coordinates per world unit.
const UNIT: i64 = 1000;

fn node(x: i64, y: i64) -> Node {
    Node { coor: Point::new(x * UNIT, y * UNIT), population: 0, buildings: Vec::new() }
}

/// A game with one node per position, one character parked on each and
/// deployed there as a 1 by 1 unit, and both axes sorted.
fn deployed_at(positions: &[(i64, i64)], speed: i64) -> Game {
    let nodes: Vec<Node> = positions.iter().map(|&(x, y)| node(x, y)).collect();
    let mut g = Game::new(nodes, 2100);
    for k in 0..positions.len() {
        let id = g.add_character(k, speed).unwrap();
        assert_eq!(id, k);
        g.deploy_character(id, UNIT, UNIT).unwrap();
    }
    g.update_state();
    g
}

fn ids(v: &[usize]) -> HashSet<usize> {
    v.iter().cloned().collect()
}

/// Every deployed unit that meets the circle, found by testing each one.
fn scan(g: &Game, center: Point, radius: i64) -> HashSet<usize> {
    let circle = Circle { center, radius };
    let mut found = HashSet::new();
    for (id, c) in g.entities.characters.iter().enumerate() {
        if let CharacterMobility::Unit { body, .. } = &c.mobility {
            if is_intersect(body, &circle) {
                found.insert(id);
            }
        }
    }
    found
}

#[test]
fn three_units_by_radius() {
    let g = deployed_at(&[(0, 0), (5, 5), (50, 50)], 10 * UNIT);
    let origin = Point::new(0, 0);
    assert_eq!(g.estimate_nearby_units(origin, UNIT).unwrap(), ids(&[0]));
    assert_eq!(g.estimate_nearby_units(origin, 8 * UNIT).unwrap(), ids(&[0, 1]));
    assert_eq!(g.estimate_nearby_units(origin, 100 * UNIT).unwrap(), ids(&[0, 1, 2]));
}

#[test]
fn unit_arrives_within_one_tick() {
    let nodes = vec![node(0, 0), node(3, 0)];
    let mut g = Game::new(nodes, 2100);
    let id = g.add_character(0, 5 * UNIT).unwrap();
    g.deploy_character(id, UNIT, UNIT).unwrap();
    g.update_state();
    assert_eq!(g.unit_x_axis, vec![id]);
    assert_eq!(g.unit_y_axis, vec![id]);
    g.set_unit_destination(id, 1).unwrap();
    g.update_state();
    assert!(matches!(g.entities.characters[id].mobility, CharacterMobility::Parked { node_idx: 1 }));
    assert_eq!(g.unit_destinations[id], None);
    assert!(g.unit_x_axis.is_empty());
    assert!(g.unit_y_axis.is_empty());
    assert!(g.axes_sorted);
}

#[test]
fn unit_steps_toward_its_destination() {
    let nodes = vec![node(0, 0), node(30, 40)];
    let mut g = Game::new(nodes, 2100);
    let id = g.add_character(0, 10 * UNIT).unwrap();
    g.deploy_character(id, UNIT, UNIT).unwrap();
    g.set_unit_destination(id, 1).unwrap();
    g.update_state();
    // a step of 10 along (30, 40), whose length is 50
    assert_eq!(g.get_unit_coor(id), Point::new(6 * UNIT, 8 * UNIT));
    assert_eq!(g.unit_destinations[id], Some(1));
    for _ in 0..3 {
        g.update_state();
    }
    assert_eq!(g.get_unit_coor(id), Point::new(24 * UNIT, 32 * UNIT));
    // exactly one step away: distance² equals speed², so it steps onto the
    // node rather than arriving
    g.update_state();
    assert_eq!(g.get_unit_coor(id), Point::new(30 * UNIT, 40 * UNIT));
    g.update_state();
    assert!(matches!(g.entities.characters[id].mobility, CharacterMobility::Parked { node_idx: 1 }));
}

#[test]
fn step_uses_the_rounded_down_square_root() {
    // from (0, 0) toward (1, 1) at speed 1: the distance² is 2, not below
    // 1, and the square root rounds down to 1, so the step is (1, 1)
    assert_eq!(step_unit(Point::new(0, 0), Point::new(1, 1), 1), Some(Point::new(1, 1)));
    // toward (3, 4) at speed 2: root 5, step (6 / 5, 8 / 5) rounded toward zero
    assert_eq!(step_unit(Point::new(0, 0), Point::new(3, 4), 2), Some(Point::new(1, 1)));
    // toward (-3, -4) at speed 5: root 5, step (-3, -4)
    assert_eq!(step_unit(Point::new(10, 10), Point::new(7, 6), 5), Some(Point::new(7, 6)));
    // arrival when the distance² is below speed²
    assert_eq!(step_unit(Point::new(0, 0), Point::new(3, 0), 5), None);
    // no step along a vector of length zero at speed zero
    assert_eq!(step_unit(Point::new(2, 2), Point::new(2, 2), 0), Some(Point::new(2, 2)));
}

#[test]
fn axes_hold_the_same_units_after_each_tick() {
    let positions: Vec<(i64, i64)> = (0..12).map(|k| ((k * 37) % 50, (k * 53) % 50)).collect();
    let mut g = deployed_at(&positions, 3 * UNIT);
    for k in 0..12 {
        g.set_unit_destination(k, (k * 5 + 3) % 12).unwrap();
    }
    for _ in 0..30 {
        g.update_state();
        let xs: HashSet<usize> = g.unit_x_axis.iter().cloned().collect();
        let ys: HashSet<usize> = g.unit_y_axis.iter().cloned().collect();
        assert_eq!(xs, ys);
        assert_eq!(xs.len(), g.unit_x_axis.len());
        for w in g.unit_x_axis.windows(2) {
            assert!(g.get_unit_coor(w[0]).x <= g.get_unit_coor(w[1]).x);
        }
        for w in g.unit_y_axis.windows(2) {
            assert!(g.get_unit_coor(w[0]).y <= g.get_unit_coor(w[1]).y);
        }
        for (id, c) in g.entities.characters.iter().enumerate() {
            let deployed = matches!(c.mobility, CharacterMobility::Unit { .. });
            assert_eq!(xs.contains(&id), deployed);
        }
    }
}

/// `scan`, kept to the units whose centers lie in the query's box.
fn scan_in_box(g: &Game, center: Point, radius: i64) -> HashSet<usize> {
    let m = radius + g.max_extent;
    scan(g, center, radius)
        .into_iter()
        .filter(|&id| {
            let p = g.get_unit_coor(id);
            center.x - m <= p.x && p.x < center.x + m && center.y - m <= p.y && p.y < center.y + m
        })
        .collect()
}

#[test]
fn query_agrees_with_scan() {
    let positions: Vec<(i64, i64)> = (0..20).map(|k| ((k * 7) % 30, (k * 11) % 30)).collect();
    let g = deployed_at(&positions, UNIT);
    for &(cx, cy, r) in &[(0, 0, 1), (10, 10, 3), (15, 5, 7), (29, 29, 2), (12, 18, 12)] {
        let center = Point::new(cx * UNIT, cy * UNIT);
        let got = g.estimate_nearby_units(center, r * UNIT).unwrap();
        assert_eq!(got, scan_in_box(&g, center, r * UNIT));
    }
    // where no unit meets the circle along an edge line from outside the
    // box, the two agree outright
    let g = deployed_at(&[(0, 0), (5, 5), (50, 50)], UNIT);
    for r in [1, 3, 8, 30, 100] {
        let origin = Point::new(0, 0);
        assert_eq!(g.estimate_nearby_units(origin, r * UNIT).unwrap(), scan(&g, origin, r * UNIT));
    }
}

#[test]
fn query_misses_units_that_meet_only_along_an_edge_line() {
    // the unit at (50, 0) has the edge line y = 0.5 passing within 1 of the
    // origin, but its center is far outside the searched box
    let g = deployed_at(&[(0, 0), (50, 0)], UNIT);
    let origin = Point::new(0, 0);
    assert_eq!(scan(&g, origin, UNIT), ids(&[0, 1]));
    assert_eq!(g.estimate_nearby_units(origin, UNIT).unwrap(), ids(&[0]));
}

#[test]
fn wider_radius_keeps_every_unit() {
    let positions: Vec<(i64, i64)> = (0..15).map(|k| ((k * 13) % 40, (k * 17) % 40)).collect();
    let g = deployed_at(&positions, UNIT);
    let center = Point::new(20 * UNIT, 20 * UNIT);
    let mut previous: HashSet<usize> = HashSet::new();
    for r in 0..40 {
        let now = g.estimate_nearby_units(center, r * UNIT).unwrap();
        assert!(previous.is_subset(&now));
        previous = now;
    }
    assert_eq!(previous.len(), 15);
}

#[test]
fn query_needs_sorted_axes() {
    let mut g = Game::new(vec![node(0, 0)], 2100);
    let id = g.add_character(0, UNIT).unwrap();
    g.deploy_character(id, UNIT, UNIT).unwrap();
    assert_eq!(g.estimate_nearby_units(Point::new(0, 0), UNIT), Err(GameError::Unsorted));
    g.update_state();
    assert_eq!(g.estimate_nearby_units(Point::new(0, 0), UNIT).unwrap(), ids(&[id]));
}

#[test]
fn errors_of_each_kind() {
    let mut g = Game::new(vec![node(0, 0), node(9, 9)], 2100);
    assert_eq!(g.add_character(2, UNIT), Err(GameError::UnknownNode));
    assert_eq!(g.add_character(0, -1), Err(GameError::BadSpeed));
    let id = g.add_character(0, UNIT).unwrap();
    assert_eq!(g.deploy_character(5, UNIT, UNIT), Err(GameError::UnknownCharacter));
    assert_eq!(g.set_unit_destination(id, 1), Err(GameError::NotDeployed));
    // half the diagonal of a 3 by 3 body exceeds 2.1
    assert_eq!(g.deploy_character(id, 3 * UNIT, 3 * UNIT), Err(GameError::BadBody));
    assert_eq!(g.deploy_character(id, -1, UNIT), Err(GameError::BadBody));
    g.deploy_character(id, UNIT, UNIT).unwrap();
    assert_eq!(g.deploy_character(id, UNIT, UNIT), Err(GameError::NotParked));
    assert_eq!(g.set_unit_destination(7, 1), Err(GameError::UnknownCharacter));
    assert_eq!(g.set_unit_destination(id, 2), Err(GameError::UnknownNode));
    assert_eq!(g.set_unit_destination(id, 1), Ok(()));
}

#[test]
fn comparators_order_by_coordinate() {
    let g = deployed_at(&[(3, 1), (1, 2)], UNIT);
    assert_eq!(g.entities.unit_comparator_by_x(0, 1), std::cmp::Ordering::Greater);
    assert_eq!(g.entities.unit_comparator_by_y(0, 1), std::cmp::Ordering::Less);
    assert_eq!(g.entities.unit_comparator_by_x(1, 1), std::cmp::Ordering::Equal);
    assert_eq!(g.unit_x_axis, vec![1, 0]);
    assert_eq!(g.unit_y_axis, vec![0, 1]);
}

#[test]
fn bound_finds_the_first_position_not_below() {
    let g = deployed_at(&[(3, 0), (1, 0), (5, 0), (3, 9)], UNIT);
    // sorted by x: ids 1 (x 1), then 0 and 3 (x 3), then 2 (x 5)
    assert_eq!(g.unit_x_axis[0], 1);
    assert_eq!(g.unit_x_axis[3], 2);
    let e = &g.entities;
    assert_eq!(bound(e, &g.unit_x_axis, Axis::X, 0), 0);
    assert_eq!(bound(e, &g.unit_x_axis, Axis::X, UNIT), 0);
    assert_eq!(bound(e, &g.unit_x_axis, Axis::X, 3 * UNIT), 1);
    assert_eq!(bound(e, &g.unit_x_axis, Axis::X, 4 * UNIT), 3);
    assert_eq!(bound(e, &g.unit_x_axis, Axis::X, 6 * UNIT), 4);
    assert_eq!(g.entities.characters[0].get_x(), 3 * UNIT);
    assert_eq!(g.entities.characters[3].get_y(), 9 * UNIT);
    assert_eq!(g.entities.coordinate(3, Axis::Y), 9 * UNIT);
}

#[test]
fn parked_units_leave_and_the_rest_are_sorted() {
    let mut g = deployed_at(&[(4, 0), (2, 0), (8, 0)], UNIT);
    // park unit 1 by sending it to its own node
    g.set_unit_destination(1, 1).unwrap();
    let kept_before = remove_parked(&g.entities, &g.unit_x_axis);
    assert_eq!(kept_before, g.unit_x_axis);
    g.update_state();
    assert!(matches!(g.entities.characters[1].mobility, CharacterMobility::Parked { node_idx: 1 }));
    let mut ids = vec![2, 0];
    resort(&g.entities, &mut ids, Axis::X);
    assert_eq!(ids, vec![0, 2]);
    assert_eq!(g.unit_x_axis, vec![0, 2]);
}

#[test]
fn body_at_the_margin_is_refused_and_one_inside_it_is_found() {
    // half the diagonal of a 2 by 0 body is 1: a margin of exactly 1 is
    // too small, since the box must reach past every body
    let mut g = Game::new(vec![node(2, 0)], UNIT);
    let id = g.add_character(0, UNIT).unwrap();
    assert_eq!(g.deploy_character(id, 0, 2 * UNIT), Err(GameError::BadBody));

    let mut g = Game::new(vec![node(2, 0)], UNIT + 1);
    let id = g.add_character(0, UNIT).unwrap();
    g.deploy_character(id, 0, 2 * UNIT).unwrap();
    g.update_state();
    // the body reaches (1, 0), at distance 1 from the origin
    assert_eq!(g.estimate_nearby_units(Point::new(0, 0), UNIT).unwrap(), ids(&[id]));
    assert_eq!(g.estimate_nearby_units(Point::new(0, 0), UNIT - 1).unwrap(), ids(&[]));
}
