use maze_search::rng::GameRng;
use maze_search::text::push_decimal;
use maze_search::text::push_digit;
use maze_search::text::push_mark;

#[test]
fn range_i32_stays_in_the_range() {
    let mut rng = GameRng::from_seed(9);
    let mut seen = [false; 10];
    for _ in 0..1000 {
        let v = rng.range_i32(0, 10);
        assert!(0 <= v && v < 10);
        seen[v as usize] = true;
    }
    assert!(seen.iter().all(|&s| s));
    for _ in 0..100 {
        let v = rng.range_i32(-3, -2);
        assert_eq!(v, -3);
    }
}

#[test]
fn range_usize_stays_in_the_range() {
    let mut rng = GameRng::from_seed(9);
    let mut seen = [false; 10];
    for _ in 0..1000 {
        let v = rng.range_usize(1, 10);
        assert!(1 <= v && v < 10);
        seen[v] = true;
    }
    assert!(!seen[0]);
    assert!(seen[1..].iter().all(|&s| s));
}

#[test]
fn chacha8_ranges_stay_in_the_range() {
    let mut rng = GameRng::chacha8_from_seed(9);
    let mut seen = [false; 6];
    for _ in 0..1000 {
        let v = rng.range_i32(2, 6);
        assert!(2 <= v && v < 6);
        seen[v as usize] = true;
        let u = rng.range_usize(2, 6);
        assert!(2 <= u && u < 6);
        seen[u] = true;
    }
    assert_eq!(seen, [false, false, true, true, true, true]);
}

#[test]
fn seeded_generators_repeat_their_stream() {
    let mut a = GameRng::from_seed(5);
    let mut b = GameRng::from_seed(5);
    let mut c = GameRng::from_optional_seed(Some(5));
    for _ in 0..100 {
        let v = a.range_i32(0, 1000);
        assert_eq!(b.range_i32(0, 1000), v);
        assert_eq!(c.range_i32(0, 1000), v);
    }
    let mut a = GameRng::chacha8_from_seed(5);
    let mut b = GameRng::chacha8_from_seed(5);
    for _ in 0..100 {
        assert_eq!(a.range_usize(0, 1000), b.range_usize(0, 1000));
    }
}

#[test]
fn different_seeds_give_different_streams() {
    let mut a = GameRng::from_seed(5);
    let mut b = GameRng::from_seed(6);
    let first: Vec<i32> = (0..50).map(|_| a.range_i32(0, 1000)).collect();
    let second: Vec<i32> = (0..50).map(|_| b.range_i32(0, 1000)).collect();
    assert_ne!(first, second);
}

#[test]
fn entropy_generators_draw_in_range() {
    let mut a = GameRng::from_entropy();
    let mut b = GameRng::from_optional_seed(None);
    for _ in 0..100 {
        assert!(a.range_usize(0, 3) < 3);
        assert!(b.range_i32(0, 3) < 3);
    }
}

#[test]
fn push_digit_appends_one_digit() {
    let mut out = String::from("x");
    for d in 0..10 {
        push_digit(&mut out, d);
    }
    assert_eq!(out, "x0123456789");
}

#[test]
fn push_decimal_appends_the_numeral() {
    let mut out = String::new();
    push_decimal(&mut out, 0);
    push_mark(&mut out, ",");
    push_decimal(&mut out, 7);
    push_mark(&mut out, ",");
    push_decimal(&mut out, 10);
    push_mark(&mut out, ",");
    push_decimal(&mut out, 4096);
    push_mark(&mut out, ",");
    push_decimal(&mut out, 1_000_000_007);
    assert_eq!(out, "0,7,10,4096,1000000007");
}
