use tako::fixed::{isqrt, ln_fixed, SCALE};
use tako::game::Node;

fn node(visits: u64, value_half: u64) -> Node {
    Node {
        terminal: false,
        action: (0, 0),
        visits,
        value_half,
        children: vec![],
        actions: vec![],
        tried: 0,
    }
}

#[test]
fn isqrt_exact_values() {
    assert_eq!(isqrt(0), 0);
    assert_eq!(isqrt(1), 1);
    assert_eq!(isqrt(15), 3);
    assert_eq!(isqrt(16), 4);
    assert_eq!(isqrt(u64::MAX), 0xFFFF_FFFF);
}

#[test]
fn ln_fixed_exact_values() {
    // ln in 16-bit fixed point, linear between powers of two
    assert_eq!(ln_fixed(1), 0);
    assert_eq!(ln_fixed(2), 45426);
    assert_eq!(ln_fixed(4), 90852);
    // 3 = 2^1 * 1.5: one and a half times ln(2)
    assert_eq!(ln_fixed(3), 45426 + 22713);
}

#[test]
fn score_pure_exploitation_is_one_minus_mean() {
    // mean value 1/2: the exploitation term is half of one in fixed point
    let n = node(2, 2);
    assert_eq!(n.score(4, 0), SCALE / 2);
    // mean value 1 scores 0; mean value 0 scores 1
    assert_eq!(node(3, 6).score(4, 0), 0);
    assert_eq!(node(3, 0).score(4, 0), SCALE);
}

#[test]
fn score_exploration_prefers_less_visited() {
    // equal means: with exploration on, fewer visits score strictly higher
    let rare = node(10, 10);
    let common = node(50, 50);
    assert!(rare.score(100, SCALE) > common.score(100, SCALE));
    // and with exploration off they tie
    assert_eq!(rare.score(100, 0), common.score(100, 0));
}

#[test]
fn update_accumulates_half_points() {
    let mut n = node(0, 0);
    n.update(1);
    assert_eq!((n.visits, n.value_half), (1, 2));
    n.update(0);
    assert_eq!((n.visits, n.value_half), (2, 3));
    n.update(-1);
    assert_eq!((n.visits, n.value_half), (3, 3));
}
