use hashi::game_map::GameMap;
use hashi::point::Vector2i;
use rand::Rng;

#[test]
fn rng_index_test() {
    let mut rng = rand::thread_rng();
    assert_eq!(0, rng.gen_range(0..1))
}

#[test]
fn test_i32tuple_eq() {
    assert!((0, 0) == (0, 0));
}

#[test]
fn test_vec2i_eq() {
    assert!(Vector2i::new(0, 0) == Vector2i::new(0, 0));
    assert!(Vector2i::new(0, 0).eq(&Vector2i::new(0, 0)));
    assert!(vec![Vector2i::new(0, 0), Vector2i::new(0, 1)].contains(&Vector2i::new(0, 0)));
}

#[test]
fn test_f64_to_i32() {
    assert_eq!(1, (2 as f64 * 0.99) as i32)
}

#[test]
fn test_calc_points() {
    assert_eq!(
        GameMap::calc_points(Some(Vector2i::new(0, 0)), Vector2i::new(0, 2), false),
        vec![Vector2i::new(0, 0), Vector2i::new(0, 1), Vector2i::new(0, 2)]
    );
    assert_eq!(
        GameMap::calc_points(Some(Vector2i::new(0, 0)), Vector2i::new(0, 2), true),
        vec![Vector2i::new(0, 1),]
    );
}

#[test]
fn test_range() {
    let r = 0..10;
    let mut count = 0;
    let mut t = 10;
    for i in r.rev() {
        assert!(t == i + 1);
        t = i;
        count += 1;
    }
    assert_eq!(count, 10);
    let mut rng = rand::thread_rng();
    assert_eq!(rng.gen_range(0..1), 0);
}

#[test]
fn test_list() {
    let mut v = vec![0];
    v.insert(1, 1);
    assert_eq!(v, vec![0, 1])
}
