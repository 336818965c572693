use jeff::tff::{analyze_loop, is_post_fixpoint, loop_step, Interval, POS_INF, NEG_INF};
use std::cmp::Ordering;

#[test]
fn widening_reaches_postfixpoint() {
    let (post, _) = analyze_loop(100);
    assert_eq!(post, Interval::new(0, POS_INF), "widening jumps the upper bound to +∞");
    assert!(is_post_fixpoint(&post, 100), "F(post) ⊑ post");
}

#[test]
fn narrowing_recovers_precision() {
    let n = 100;
    let (_, narrowed) = analyze_loop(n);
    assert_eq!(narrowed, Interval::new(0, n), "narrowing recovers [0,n]");
    assert!(is_post_fixpoint(&narrowed, n));
}

#[test]
fn interval_bound_sound_upper() {
    let n = 50;
    let (_, inv) = analyze_loop(n);
    for i in 0..=n {
        assert!(inv.lo <= i && i <= inv.hi, "reachable i={i} must be in the sound bound {inv:?}");
    }
    assert!(inv.hi <= n, "invariant proves i ≤ n");
}

#[test]
fn lattice_ordinal_termination() {
    let a = Interval::new(0, 0);
    let b = a.widen(&loop_step(&a, 100));
    assert_eq!(b.measure().ord_cmp(&a.measure()), Ordering::Less, "measure strictly decreases");
}

#[test]
fn lattice_laws() {
    let a = Interval::new(0, 5);
    let b = Interval::new(3, 10);
    assert!(a.leq(&a.join(&b)) && b.leq(&a.join(&b)), "join is an upper bound");
    assert!(Interval::bottom().leq(&a), "⊥ is least");
}

#[test]
fn loop_that_never_runs_keeps_zero() {
    assert_eq!(analyze_loop(0), (Interval::new(0, 0), Interval::new(0, 0)));
    assert_eq!(analyze_loop(-7), (Interval::new(0, 0), Interval::new(0, 0)));
    assert_eq!(analyze_loop(1), (Interval::new(0, POS_INF), Interval::new(0, 1)));
}

#[test]
fn widen_narrow_and_step_values() {
    let a = Interval::new(2, 5);
    assert_eq!(a.widen(&Interval::new(1, 5)), Interval::new(NEG_INF, 5));
    assert_eq!(a.widen(&Interval::new(3, 9)), Interval::new(2, POS_INF));
    assert_eq!(Interval::new(NEG_INF, POS_INF).narrow(&a), a);
    assert_eq!(a.narrow(&Interval::bottom()), Interval::bottom());
    assert!(Interval::bottom().is_bottom());
    assert_eq!(loop_step(&Interval::bottom(), 10), Interval::new(0, 0));
    assert_eq!(loop_step(&Interval::new(0, 3), 10), Interval::new(0, 4));
    assert_eq!(loop_step(&Interval::new(0, 30), 10), Interval::new(0, 10));
    assert_eq!(a.join(&Interval::bottom()), a);
    assert!(!Interval::new(0, 6).leq(&a));
}
