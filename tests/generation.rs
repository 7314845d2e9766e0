use hashi::game_map::{Board, GameMap, StepResult};
use hashi::island::Island;
use hashi::point::Vector2i;

fn v(x: i32, y: i32) -> Vector2i {
    Vector2i::new(x, y)
}

fn run_to_ready(m: &mut GameMap, limit: usize) -> usize {
    let mut steps = 0;
    while !m.board.is_ready && steps < limit {
        m.gen_island();
        steps += 1;
    }
    steps
}

fn check_layout(b: &Board) {
    for (i, p) in b.islands_pos.iter().enumerate() {
        assert!(p.x >= 0 && p.x < b.width && p.y >= 0 && p.y < b.height);
        assert_eq!(b.islands[i].pos, *p);
        assert!(!b.islands_gate_pos.contains(p));
        assert!(!b.bridge_points.contains(p));
        for q in b.islands_pos.iter().skip(i + 1) {
            assert!(p != q);
            assert!((p.x - q.x).abs() + (p.y - q.y).abs() > 1);
        }
        let isl = &b.islands[i];
        assert_eq!(isl.current_bridge_count, isl.bridge_state.iter().sum::<i32>());
        assert!(isl.max_bridge_count >= 0 && isl.max_bridge_count <= 8);
    }
    for g in b.islands_gate_pos.iter() {
        assert!(b.islands_pos.iter().any(|p| (p.x - g.x).abs() + (p.y - g.y).abs() == 1));
    }
}

#[test]
fn one_cell_board_is_ready_after_its_only_island() {
    for seed in 0..5u64 {
        let mut m = GameMap::create(1, 1, seed);
        assert_eq!(m.board.max_bridge_count, 0);
        assert_eq!(m.gen_island(), StepResult::Done);
        assert!(m.board.is_ready);
        assert_eq!(m.board.islands_pos, vec![v(0, 0)]);
        assert_eq!(m.gen_island(), StepResult::Done);
        assert_eq!(m.board.islands_pos.len(), 1);
    }
}

#[test]
fn default_board_becomes_ready_within_target() {
    for seed in 0..20u64 {
        let mut m = GameMap::create(10, 7, seed);
        m.reset(1);
        assert_eq!(m.board.max_bridge_count, 12);
        let steps = run_to_ready(&mut m, 1000);
        assert!(steps < 1000);
        assert!(m.board.is_ready);
        assert!(m.board.islands_pos.len() <= 12);
        assert!(m.board.islands_pos.len() >= 2);
        check_layout(&m.board);
        for isl in m.board.islands.iter() {
            assert!(isl.max_bridge_count >= 1);
            assert_eq!(isl.current_bridge_count, 0);
        }
        assert!(m.board.user_bridge_points.is_empty());
    }
}

#[test]
fn harder_board_becomes_ready() {
    for seed in 0..10u64 {
        let mut m = GameMap::create(12, 9, seed);
        m.reset(5);
        assert_eq!(m.board.max_bridge_count, 27);
        run_to_ready(&mut m, 2000);
        assert!(m.board.is_ready);
        assert!(m.board.islands_pos.len() <= 27);
        check_layout(&m.board);
    }
}

#[test]
fn same_seed_same_board() {
    let mut a = GameMap::create(10, 7, 42);
    let mut b = GameMap::create(10, 7, 42);
    run_to_ready(&mut a, 1000);
    run_to_ready(&mut b, 1000);
    assert_eq!(a.board.islands_pos, b.board.islands_pos);
    assert_eq!(a.board.bridge_points, b.board.bridge_points);
}

#[test]
fn ready_board_stays_unchanged() {
    let mut m = GameMap::create(10, 7, 3);
    run_to_ready(&mut m, 1000);
    let pos = m.board.islands_pos.clone();
    assert_eq!(m.gen_island(), StepResult::Done);
    assert_eq!(m.board.islands_pos, pos);
}

#[test]
fn no_source_left() {
    let mut m = GameMap::create(3, 3, 5);
    m.reset(3);
    assert_eq!(m.board.max_bridge_count, 2);
    assert_eq!(m.gen_island(), StepResult::Continue);
    assert_eq!(m.board.islands_pos.len(), 1);
    m.board.able_to_gen_islands.clear();
    assert_eq!(m.gen_island(), StepResult::NoSourceAvailable);
    assert!(m.board.is_ready);
    assert_eq!(m.board.islands_pos.len(), 1);
}

fn board_with_one_island(width: i32, height: i32, p: Vector2i, m: &mut GameMap) {
    m.board.islands = vec![Island::create(p)];
    m.board.islands_pos = vec![p];
    m.board.able_to_gen_islands = vec![p];
    m.board.islands_gate_pos = vec![];
    for (dx, dy) in [(-1, 0), (1, 0), (0, -1), (0, 1)] {
        let q = v(p.x + dx, p.y + dy);
        if q.x >= 0 && q.x < width && q.y >= 0 && q.y < height {
            m.board.islands_gate_pos.push(q);
        }
    }
}

#[test]
fn no_target_from_the_centre() {
    let mut m = GameMap::create(3, 3, 9);
    m.reset(3);
    board_with_one_island(3, 3, v(1, 1), &mut m);
    assert_eq!(m.gen_island(), StepResult::NoTargetFromSource);
    assert!(m.board.is_ready);
    assert!(m.board.able_to_gen_islands.is_empty());
    assert_eq!(m.board.islands_pos, vec![v(1, 1)]);
}

#[test]
fn link_from_a_corner() {
    for seed in 0..10u64 {
        let mut m = GameMap::create(4, 4, seed);
        m.reset(3);
        assert_eq!(m.board.max_bridge_count, 4);
        board_with_one_island(4, 4, v(0, 0), &mut m);
        assert_eq!(m.gen_island(), StepResult::Continue);
        assert_eq!(m.board.islands_pos.len(), 2);
        let c = m.board.islands_pos[1];
        assert!([v(2, 0), v(3, 0), v(0, 2), v(0, 3)].contains(&c));
        let a = m.board.islands[0].max_bridge_count;
        let b = m.board.islands[1].max_bridge_count;
        assert_eq!(a, b);
        assert!(a == 1 || a == 2);
        if c.y == 0 {
            assert_eq!(m.board.bridge_points.len() as i32, c.x - 1);
            assert!(m.board.bridge_points.contains(&v(1, 0)));
        } else {
            assert_eq!(m.board.bridge_points.len() as i32, c.y - 1);
            assert!(m.board.bridge_points.contains(&v(0, 1)));
        }
        check_layout(&m.board);
    }
}

#[test]
fn candidates_from_a_point() {
    let mut m = GameMap::create(4, 4, 1);
    m.reset(3);
    board_with_one_island(4, 4, v(0, 0), &mut m);
    let mut c = m.board.calc_valid_next_point(v(0, 0), &mut m.rng);
    c.sort_by_key(|p| (p.x, p.y));
    assert_eq!(c, vec![v(0, 2), v(0, 3), v(2, 0), v(3, 0)]);
    assert_eq!(m.board.calc_island_gate_pos(v(0, 0)), vec![v(1, 0), v(0, 1)]);
    assert_eq!(m.board.calc_island_gate_pos(v(1, 1)), vec![v(0, 1), v(2, 1), v(1, 0), v(1, 2)]);
}

#[test]
fn reset_clears_everything() {
    let mut m = GameMap::create(10, 7, 11);
    run_to_ready(&mut m, 1000);
    m.reset(4);
    assert!(!m.board.is_ready);
    assert!(m.board.islands.is_empty());
    assert!(m.board.islands_pos.is_empty());
    assert!(m.board.islands_gate_pos.is_empty());
    assert!(m.board.bridge_points.is_empty());
    assert!(m.board.able_to_gen_islands.is_empty());
    assert_eq!(m.board.game_mode, 4);
    assert_eq!(m.board.max_bridge_count, 17);
}

#[test]
fn every_unfinished_step_makes_progress() {
    for seed in 0..10u64 {
        let mut m = GameMap::create(9, 9, seed);
        let area = (m.board.width * m.board.height) as usize;
        let mut steps = 0;
        loop {
            let before = m.board.islands_pos.len() + m.board.bridge_points.len();
            let r = m.gen_island();
            let after = m.board.islands_pos.len() + m.board.bridge_points.len();
            assert!(after <= area);
            steps += 1;
            if r != StepResult::Continue {
                assert!(m.board.is_ready);
                break;
            }
            assert!(after > before);
        }
        assert!(steps <= area + 1);
    }
}

#[test]
fn candidates_come_nearest_first() {
    let mut m = GameMap::create(9, 9, 4);
    m.reset(3);
    board_with_one_island(9, 9, v(4, 4), &mut m);
    for _ in 0..5 {
        let c = m.board.calc_valid_next_point(v(4, 4), &mut m.rng);
        assert_eq!(c.len(), 12);
        let d: Vec<i32> = c.iter().map(|p| (p.x - 4).abs() + (p.y - 4).abs()).collect();
        assert_eq!(d, vec![2, 2, 2, 2, 3, 3, 3, 3, 4, 4, 4, 4]);
    }
}

#[test]
fn seeds_spread_the_first_island_and_the_capacities() {
    let mut firsts = Vec::new();
    let mut caps = Vec::new();
    for seed in 0..30u64 {
        let mut m = GameMap::create(10, 7, seed);
        m.gen_island();
        firsts.push(m.board.islands_pos[0]);
        run_to_ready(&mut m, 1000);
        for isl in m.board.islands.iter() {
            caps.push(isl.max_bridge_count);
        }
    }
    assert!(firsts.iter().any(|p| *p != firsts[0]));
    assert!(firsts.iter().any(|p| p.x > 0 && p.y > 0));
    assert!(caps.iter().any(|c| *c == 1 || *c == 3));
    assert!(caps.iter().any(|c| *c == 2 || *c == 4));
}
