use pathplan::{Fixed, Path, PlanError, Poly};

fn fx(num: i64, den: i64) -> Fixed {
    Fixed::from_ratio(num, den).unwrap()
}

fn step_ms(path: &mut Path, ms: i64) {
    let dt = Fixed::from_raw(1_000_000_000_000).unwrap();
    for _ in 0..ms {
        path.update(dt).unwrap();
    }
}

// Convergence: once the plan completes, position equals the requested
// target exactly and velocity and acceleration are exactly zero.
#[test]
fn convergence_snaps_exactly() {
    let mut path = Path::new(vec![fx(1, 2)]);
    let target = fx(4, 100);
    path.replan(target, fx(1, 10)).unwrap();
    step_ms(&mut path, 700);
    assert!(!path.is_active());
    let (pos, vel, acc) = path.get_state();
    assert_eq!(pos.raw(), target.raw());
    assert_eq!(vel.raw(), 0);
    assert_eq!(acc.raw(), 0);
}

// Zero-distance move from rest: the plan is immediately empty.
#[test]
fn zero_distance_move_is_empty() {
    let mut path = Path::new(vec![fx(1, 2)]);
    path.replan(fx(0, 1), fx(1, 10)).unwrap();
    assert!(!path.is_active());
    let (pos, vel, acc) = path.get_state();
    assert_eq!(pos.raw(), 0);
    assert_eq!(vel.raw(), 0);
    assert_eq!(acc.raw(), 0);
}

// Zero-distance move from rest, jerk-limited planner: likewise empty.
#[test]
fn jlim_zero_distance_move_is_empty() {
    let mut path = Path::new(vec![fx(1, 2), fx(5, 1)]);
    path.replan(fx(0, 1), fx(1, 10)).unwrap();
    assert!(!path.is_active());
    let (pos, vel, acc) = path.get_state();
    assert_eq!(pos.raw(), 0);
    assert_eq!(vel.raw(), 0);
    assert_eq!(acc.raw(), 0);
}

// Continuity: stepping at one millisecond, the sampled velocity changes
// by no more than the acceleration limit allows and the position by no
// more than the cruise limit allows.
#[test]
fn continuity_small_steps() {
    let mut path = Path::new(vec![fx(1, 2)]);
    path.replan(fx(4, 100), fx(1, 10)).unwrap();
    let dt = Fixed::from_raw(1_000_000_000_000).unwrap();
    let mut prev = path.get_state();
    for _ in 0..700 {
        path.update(dt).unwrap();
        let cur = path.get_state();
        let ds = (cur.0.raw() - prev.0.raw()).abs();
        let dv = (cur.1.raw() - prev.1.raw()).abs();
        // |dv| <= a_max * dt (+1%), |ds| <= v_max * dt (+1%).
        assert!(dv <= 505_000_000_000 / 1000 * 1000 + 1000);
        assert!(ds <= 101_000_000_000 + 1000);
        prev = cur;
    }
}

// Idempotence of continuation: replanning to the same target and limit
// mid-move leaves the sampled trajectory unchanged within tolerance.
#[test]
fn replan_to_same_target_is_idempotent() {
    let mut a = Path::new(vec![fx(1, 2)]);
    let mut b = Path::new(vec![fx(1, 2)]);
    a.replan(fx(4, 100), fx(1, 10)).unwrap();
    b.replan(fx(4, 100), fx(1, 10)).unwrap();
    step_ms(&mut a, 300);
    step_ms(&mut b, 300);
    b.replan(fx(4, 100), fx(1, 10)).unwrap();
    for _ in 0..400 {
        step_ms(&mut a, 1);
        step_ms(&mut b, 1);
        let sa = a.get_state();
        let sb = b.get_state();
        assert!((sa.0.raw() - sb.0.raw()).abs() < 1000);
        assert!((sa.1.raw() - sb.1.raw()).abs() < 1000);
    }
    assert!(!a.is_active());
    assert!(!b.is_active());
}

// Stop: the plan reaches zero velocity and never re-targets the original
// position; the new target is wherever the deceleration ends.
#[test]
fn stop_accepts_resulting_position() {
    let mut path = Path::new(vec![fx(1, 2)]);
    path.replan(fx(4, 100), fx(1, 10)).unwrap();
    step_ms(&mut path, 300);
    path.stop().unwrap();
    step_ms(&mut path, 400);
    assert!(!path.is_active());
    let (pos, vel, acc) = path.get_state();
    assert_eq!(vel.raw(), 0);
    assert_eq!(acc.raw(), 0);
    // Stopped well short of the original 0.04 target.
    assert!(pos.raw() < fx(4, 100).raw());
    assert!(pos.raw() > fx(2, 100).raw());
    // Stopping again is a no-op plan.
    path.stop().unwrap();
    assert!(!path.is_active());
}

// A request whose numbers leave the representable range is reported, and
// the planner is left untouched.
#[test]
fn numeric_overflow_reported() {
    let mut path = Path::new(vec![fx(1, 2)]);
    match path.replan(fx(4000, 1), fx(1, 1000)) {
        Err(PlanError::Numeric) => {}
        other => panic!("expected numeric error, got {:?}", other.err()),
    }
    assert!(!path.is_active());
    let (pos, vel, _) = path.get_state();
    assert_eq!(pos.raw(), 0);
    assert_eq!(vel.raw(), 0);
}

// Quadratic solver: distinct roots in ascending order, computed exactly
// on exact inputs.
#[test]
fn quadratic_two_roots_exact() {
    let roots = Poly::solve_quadratic(fx(1, 1), fx(-3, 1), fx(2, 1)).unwrap();
    assert_eq!(roots.len(), 2);
    assert_eq!(roots[0].raw(), fx(1, 1).raw());
    assert_eq!(roots[1].raw(), fx(2, 1).raw());
}

// Quadratic solver: pure square case uses the symmetric branch.
#[test]
fn quadratic_symmetric_roots_exact() {
    let roots = Poly::solve_quadratic(fx(1, 1), fx(0, 1), fx(-4, 1)).unwrap();
    assert_eq!(roots.len(), 2);
    assert_eq!(roots[0].raw(), fx(-2, 1).raw());
    assert_eq!(roots[1].raw(), fx(2, 1).raw());
}

// Quadratic solver: vanishing discriminant gives a repeated root.
#[test]
fn quadratic_repeated_root() {
    let roots = Poly::solve_quadratic(fx(1, 1), fx(-2, 1), fx(1, 1)).unwrap();
    assert_eq!(roots.len(), 2);
    assert_eq!(roots[0].raw(), fx(1, 1).raw());
    assert_eq!(roots[1].raw(), fx(1, 1).raw());
}

// Quadratic solver: negative discriminant gives no real roots.
#[test]
fn quadratic_no_real_roots() {
    let roots = Poly::solve_quadratic(fx(1, 1), fx(0, 1), fx(1, 1)).unwrap();
    assert_eq!(roots.len(), 0);
}

// Quadratic solver: linear fallback.
#[test]
fn quadratic_linear_case() {
    let roots = Poly::solve_quadratic(fx(0, 1), fx(2, 1), fx(-1, 1)).unwrap();
    assert_eq!(roots.len(), 1);
    assert_eq!(roots[0].raw(), fx(1, 2).raw());
    let none = Poly::solve_quadratic(fx(0, 1), fx(0, 1), fx(7, 1)).unwrap();
    assert_eq!(none.len(), 0);
}

// Cubic solver: a triple root is found exactly.
#[test]
fn cubic_triple_root_exact() {
    // (x - 1)^3 = x^3 - 3x^2 + 3x - 1.
    let roots = Poly::solve_cubic(fx(1, 1), fx(-3, 1), fx(3, 1), fx(-1, 1)).unwrap();
    assert_eq!(roots.len(), 3);
    for r in &roots {
        assert_eq!(r.raw(), fx(1, 1).raw());
    }
}

// Cubic solver: a double root plus a simple root, via the exact-form
// discriminant comparison.
#[test]
fn cubic_double_root_exact() {
    // (x - 1)^2 (x + 2) = x^3 - 3x + 2.
    let roots = Poly::solve_cubic(fx(1, 1), fx(0, 1), fx(-3, 1), fx(2, 1)).unwrap();
    assert_eq!(roots.len(), 3);
    assert_eq!(roots[0].raw(), fx(-2, 1).raw());
    assert_eq!(roots[1].raw(), fx(1, 1).raw());
    assert_eq!(roots[2].raw(), fx(1, 1).raw());
}

// Cubic solver: three distinct real roots, ascending, each within a
// couple of quanta of the true root.
#[test]
fn cubic_three_roots() {
    // x(x - 3)(x + 3) = x^3 - 9x.
    let roots = Poly::solve_cubic(fx(1, 1), fx(0, 1), fx(-9, 1), fx(0, 1)).unwrap();
    assert_eq!(roots.len(), 3);
    assert!((roots[0].raw() - fx(-3, 1).raw()).abs() <= 4);
    assert!((roots[1].raw() - 0).abs() <= 4);
    assert!((roots[2].raw() - fx(3, 1).raw()).abs() <= 4);
    assert!(roots[0].raw() <= roots[1].raw() && roots[1].raw() <= roots[2].raw());
}

// Cubic solver: a single real root.
#[test]
fn cubic_single_root() {
    // x^3 - 1 has the one real root 1.
    let roots = Poly::solve_cubic(fx(1, 1), fx(0, 1), fx(0, 1), fx(-1, 1)).unwrap();
    assert_eq!(roots.len(), 1);
    assert!((roots[0].raw() - fx(1, 1).raw()).abs() <= 4);
    // A vanishing leading coefficient is rejected.
    assert!(Poly::solve_cubic(fx(0, 1), fx(1, 1), fx(1, 1), fx(1, 1)).is_err());
}

// The sign convention counts zero as positive: this tie-break selects
// the branch of the stable quadratic form.
#[test]
fn sign_of_zero_is_positive() {
    assert_eq!(Fixed::zero().signum_unit().raw(), fx(1, 1).raw());
    assert_eq!(fx(-1, 2).signum_unit().raw(), fx(-1, 1).raw());
    assert_eq!(fx(1, 2).signum_unit().raw(), fx(1, 1).raw());
}

// Fixed-point basics: exact construction, rounding half away from zero,
// and exact square roots of perfect squares.
#[test]
fn fixed_point_arithmetic() {
    assert_eq!(fx(1, 25).raw(), 40_000_000_000_000);
    assert_eq!(fx(-1, 25).raw(), -40_000_000_000_000);
    // 3e-15 * 0.5 rounds away from zero to 2e-15.
    let tiny = Fixed::from_raw(3).unwrap();
    assert_eq!(tiny.mul(fx(1, 2)).unwrap().raw(), 2);
    let mtiny = Fixed::from_raw(-3).unwrap();
    assert_eq!(mtiny.mul(fx(1, 2)).unwrap().raw(), -2);
    // sqrt(0.0016) == 0.04 exactly.
    assert_eq!(fx(16, 10000).sqrt().unwrap().raw(), fx(4, 100).raw());
    // Out-of-range values are rejected.
    assert!(Fixed::from_int(5000).is_none());
    assert!(Fixed::from_ratio(1, 0).is_none());
}
