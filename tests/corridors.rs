use hashi::game_map::GameMap;
use hashi::point::{order_vector2i, Vector2i};
use hashi::weights::{calc_weights, pick_weighted};

fn v(x: i32, y: i32) -> Vector2i {
    Vector2i::new(x, y)
}

#[test]
fn corridor_along_a_row_in_either_order() {
    assert_eq!(GameMap::calc_points(Some(v(3, 1)), v(0, 1), false), vec![v(0, 1), v(1, 1), v(2, 1), v(3, 1)]);
    assert_eq!(GameMap::calc_points(Some(v(3, 1)), v(0, 1), true), vec![v(1, 1), v(2, 1)]);
}

#[test]
fn corridor_between_neighbours_or_one_point() {
    assert_eq!(GameMap::calc_points(Some(v(2, 2)), v(2, 3), true), vec![]);
    assert_eq!(GameMap::calc_points(Some(v(2, 2)), v(2, 2), true), vec![]);
    assert_eq!(GameMap::calc_points(Some(v(2, 2)), v(2, 2), false), vec![v(2, 2)]);
}

#[test]
fn corridor_without_start_or_off_axis() {
    assert_eq!(GameMap::calc_points(None, v(4, 5), false), vec![v(4, 5)]);
    assert_eq!(GameMap::calc_points(None, v(4, 5), true), vec![]);
    assert_eq!(GameMap::calc_points(Some(v(0, 0)), v(1, 1), false), vec![]);
}

#[test]
fn target_count_formula() {
    assert_eq!(GameMap::calc_max_bridge_count(1, 10, 7), 12);
    assert_eq!(GameMap::calc_max_bridge_count(2, 10, 10), 18);
    assert_eq!(GameMap::calc_max_bridge_count(3, 10, 7), 17);
    assert_eq!(GameMap::calc_max_bridge_count(1, 1, 1), 0);
    assert_eq!(GameMap::calc_max_bridge_count(20, 2_000_000_000, 2_000_000_000), 1_000_000_000_000_000_000);
}

#[test]
fn exponential_and_linear_weights() {
    assert_eq!(calc_weights(5, true), vec![1_000_000, 367_879, 135_334, 49_786, 18_315]);
    assert_eq!(calc_weights(5, false), vec![1_000_000, 555_555, 384_615, 294_117, 238_095]);
    assert_eq!(calc_weights(0, true), vec![]);
}

#[test]
fn weighted_pick_by_cumulative_sum() {
    let w = vec![1, 2, 0, 3];
    assert_eq!(pick_weighted(&w, 0), 0);
    assert_eq!(pick_weighted(&w, 1), 1);
    assert_eq!(pick_weighted(&w, 2), 1);
    assert_eq!(pick_weighted(&w, 3), 3);
    assert_eq!(pick_weighted(&w, 5), 3);
    assert_eq!(pick_weighted(&w, 6), 4);
}

#[test]
fn points_in_order() {
    assert_eq!(order_vector2i(v(3, 0), v(1, 5)), (v(1, 5), v(3, 0)));
    assert_eq!(order_vector2i(v(1, 5), v(3, 0)), (v(1, 5), v(3, 0)));
    assert_eq!(order_vector2i(v(2, 4), v(2, 1)), (v(2, 1), v(2, 4)));
    assert_eq!(order_vector2i(v(2, 2), v(2, 2)), (v(2, 2), v(2, 2)));
}
