use hashi::game_map::{Board, BridgeAction, MapEvent};
use hashi::island::Island;
use hashi::point::{Direction2D, Vector2i};

fn v(x: i32, y: i32) -> Vector2i {
    Vector2i::new(x, y)
}

fn island(x: i32, y: i32, cap: i32) -> Island {
    Island { pos: v(x, y), max_bridge_count: cap, current_bridge_count: 0, bridge_state: [0, 0, 0, 0] }
}

/// A finished 5 by 3 board with islands at (0,1) and (4,1) and the corridor
/// between them.
fn line_board(cap_a: i32, cap_b: i32) -> Board {
    Board {
        width: 5,
        height: 3,
        is_ready: true,
        max_bridge_count: 3,
        islands: vec![island(0, 1, cap_a), island(4, 1, cap_b)],
        islands_pos: vec![v(0, 1), v(4, 1)],
        islands_gate_pos: vec![v(1, 1), v(0, 0), v(0, 2), v(3, 1), v(4, 0), v(4, 2)],
        able_to_gen_islands: vec![v(0, 1), v(4, 1)],
        bridge_points: vec![v(1, 1), v(2, 1), v(3, 1)],
        user_bridge_points: vec![],
        game_mode: 3,
        events: vec![],
    }
}

fn same_board(a: &Board, b: &Board) -> bool {
    a.width == b.width
        && a.height == b.height
        && a.is_ready == b.is_ready
        && a.islands_pos == b.islands_pos
        && a.islands_gate_pos == b.islands_gate_pos
        && a.bridge_points == b.bridge_points
        && a.user_bridge_points == b.user_bridge_points
        && a.events == b.events
        && a.islands.len() == b.islands.len()
        && a.islands.iter().zip(b.islands.iter()).all(|(x, y)| {
            x.pos == y.pos
                && x.max_bridge_count == y.max_bridge_count
                && x.current_bridge_count == y.current_bridge_count
                && x.bridge_state == y.bridge_state
        })
}

fn sorted(mut p: Vec<Vector2i>) -> Vec<(i32, i32)> {
    let mut r: Vec<(i32, i32)> = p.drain(..).map(|q| (q.x, q.y)).collect();
    r.sort();
    r
}

#[test]
fn single_then_remove_when_full() {
    let mut b = line_board(1, 1);
    assert_eq!(b.user_gen_bridge(v(0, 1), Direction2D::Right), BridgeAction::Single);
    assert_eq!(b.islands[0].bridge_state, [0, 1, 0, 0]);
    assert_eq!(b.islands[1].bridge_state, [0, 0, 0, 1]);
    assert_eq!(b.islands[0].current_bridge_count, 1);
    assert_eq!(b.islands[1].current_bridge_count, 1);
    assert_eq!(sorted(b.user_bridge_points.clone()), vec![(1, 1), (2, 1), (3, 1)]);
    assert_eq!(b.user_gen_bridge(v(0, 1), Direction2D::Right), BridgeAction::Remove);
    assert_eq!(b.islands[0].bridge_state, [0, 0, 0, 0]);
    assert_eq!(b.islands[1].bridge_state, [0, 0, 0, 0]);
    assert_eq!(b.islands[0].current_bridge_count, 0);
    assert_eq!(b.islands[1].current_bridge_count, 0);
    assert!(b.user_bridge_points.is_empty());
}

#[test]
fn single_double_then_remove() {
    let mut b = line_board(2, 2);
    assert_eq!(b.user_gen_bridge(v(4, 1), Direction2D::Left), BridgeAction::Single);
    assert_eq!(b.user_gen_bridge(v(4, 1), Direction2D::Left), BridgeAction::Double);
    assert_eq!(b.islands[0].bridge_state[1], 2);
    assert_eq!(b.islands[1].bridge_state[3], 2);
    assert_eq!(b.islands[0].current_bridge_count, 2);
    assert_eq!(b.user_gen_bridge(v(4, 1), Direction2D::Left), BridgeAction::Remove);
    assert_eq!(b.islands[0].bridge_state[1], 0);
    assert_eq!(b.islands[1].bridge_state[3], 0);
    assert_eq!(b.islands[1].current_bridge_count, 0);
}

#[test]
fn double_capped_by_the_smaller_island() {
    let mut b = line_board(2, 1);
    assert_eq!(b.user_gen_bridge(v(0, 1), Direction2D::Right), BridgeAction::Single);
    assert_eq!(b.user_gen_bridge(v(0, 1), Direction2D::Right), BridgeAction::Remove);
}

#[test]
fn facing_slots_agree_after_each_toggle() {
    let mut b = line_board(2, 2);
    for _ in 0..5 {
        let r = b.user_gen_bridge(v(0, 1), Direction2D::Right);
        assert!(r != BridgeAction::Pass);
        assert_eq!(b.islands[0].bridge_state[1], b.islands[1].bridge_state[3]);
        for isl in b.islands.iter() {
            assert_eq!(isl.current_bridge_count, isl.bridge_state.iter().sum::<i32>());
        }
    }
}

#[test]
fn walk_off_the_board_passes() {
    let mut b = line_board(1, 1);
    let before = line_board(1, 1);
    assert_eq!(b.user_gen_bridge(v(0, 1), Direction2D::Up), BridgeAction::Pass);
    assert_eq!(b.user_gen_bridge(v(0, 1), Direction2D::Left), BridgeAction::Pass);
    assert_eq!(b.user_gen_bridge(v(4, 1), Direction2D::Down), BridgeAction::Pass);
    assert!(same_board(&b, &before));
}

#[test]
fn full_islands_without_bridge_pass() {
    let mut b = line_board(0, 1);
    let before = line_board(0, 1);
    assert_eq!(b.user_gen_bridge(v(0, 1), Direction2D::Right), BridgeAction::Pass);
    assert!(same_board(&b, &before));
}

#[test]
fn another_bridge_blocks_the_walk() {
    let mut b = Board {
        width: 5,
        height: 5,
        is_ready: true,
        max_bridge_count: 6,
        islands: vec![
            Island { pos: v(2, 0), max_bridge_count: 1, current_bridge_count: 1, bridge_state: [0, 0, 1, 0] },
            Island { pos: v(2, 4), max_bridge_count: 1, current_bridge_count: 1, bridge_state: [1, 0, 0, 0] },
            island(0, 2, 1),
            island(4, 2, 1),
        ],
        islands_pos: vec![v(2, 0), v(2, 4), v(0, 2), v(4, 2)],
        islands_gate_pos: vec![
            v(1, 0), v(3, 0), v(2, 1), v(1, 4), v(3, 4), v(2, 3), v(0, 1), v(0, 3), v(1, 2), v(4, 1), v(4, 3), v(3, 2),
        ],
        able_to_gen_islands: vec![],
        bridge_points: vec![v(2, 1), v(2, 2), v(2, 3), v(1, 2), v(3, 2)],
        user_bridge_points: vec![v(2, 1), v(2, 2), v(2, 3)],
        game_mode: 3,
        events: vec![],
    };
    assert_eq!(b.user_gen_bridge(v(0, 2), Direction2D::Right), BridgeAction::Pass);
    assert_eq!(b.islands[2].bridge_state, [0, 0, 0, 0]);
    assert_eq!(b.islands[3].bridge_state, [0, 0, 0, 0]);
    assert_eq!(b.user_bridge_points.len(), 3);
    assert!(b.events.is_empty());
    assert_eq!(b.user_gen_bridge(v(2, 0), Direction2D::Down), BridgeAction::Remove);
    assert_eq!(b.user_gen_bridge(v(0, 2), Direction2D::Right), BridgeAction::Single);
    assert_eq!(sorted(b.user_bridge_points.clone()), vec![(1, 2), (2, 2), (3, 2)]);
}

#[test]
fn toggles_notify_the_view() {
    let mut b = line_board(1, 1);
    b.user_gen_bridge(v(0, 1), Direction2D::Right);
    let ev = b.take_events();
    assert_eq!(
        ev,
        vec![
            MapEvent::ChangeBridgeCount { pos: v(0, 1) },
            MapEvent::ChangeBridgeCount { pos: v(4, 1) },
            MapEvent::RenderBridge { src: v(0, 1), target: v(4, 1), action: BridgeAction::Single },
        ]
    );
    assert!(b.events.is_empty());
    b.user_gen_bridge(v(4, 1), Direction2D::Left);
    assert_eq!(
        b.take_events()[2],
        MapEvent::RenderBridge { src: v(4, 1), target: v(0, 1), action: BridgeAction::Remove }
    );
}

#[test]
fn island_lookup() {
    let b = line_board(2, 1);
    assert_eq!(b.island(v(4, 1)).map(|i| i.max_bridge_count), Some(1));
    assert!(b.island(v(2, 1)).is_none());
    let i = Island::create(v(3, 3));
    assert_eq!(i.pos, v(3, 3));
    assert_eq!(i.max_bridge_count, 0);
    assert_eq!(i.current_bridge_count, 0);
    assert_eq!(i.bridge_state, [0, 0, 0, 0]);
}

#[test]
fn opposite_directions() {
    assert_eq!(Direction2D::Up.opposite(), Direction2D::Down);
    assert_eq!(Direction2D::Left.opposite(), Direction2D::Right);
    assert_eq!(Direction2D::Right.index(), 1);
    assert_eq!(Direction2D::Left.index(), 3);
}
