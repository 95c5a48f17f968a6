use pathplan::{Fixed, Path, PlanError};

/// Build the fixed-point value `num / den`.
fn fx(num: i64, den: i64) -> Fixed {
    Fixed::from_ratio(num, den).unwrap()
}

fn val_eq(a: i64, b: i64) -> bool {
    (a - b).abs() < 1000
}

enum Act {
    MoveTo(Fixed, Fixed),
    CheckAcc(Fixed),
    CheckVel(Fixed),
    CheckPos(Fixed),
    CheckState(Fixed, Fixed, Fixed),
    Stop,
    Done,
}

struct Action {
    t_raw: i64,
    act: Act,
}

fn at(ms: i64, act: Act) -> Action {
    Action { t_raw: ms * 1_000_000_000_000, act }
}

/// Drive a planner through a timed script on a one-millisecond grid,
/// numerically differentiating the sampled positions to watch the
/// acceleration (and jerk) limits throughout, as a closed-loop
/// controller would.
fn run_case(limits: Vec<Fixed>, actions: &[Action]) -> Result<(), String> {
    let dt_raw: i64 = 1_000_000_000_000;
    let tol_acc = limits[0].raw() + limits[0].raw() / 100;
    let tol_jerk = if limits.len() > 1 {
        limits[1].raw() + limits[1].raw() / 100
    } else {
        0
    };

    let mut path = Path::new(limits.clone());
    let mut t_raw: i64 = 0;
    let mut s_prev: i64 = 0;
    let mut v_prev: i64 = 0;
    let mut a_prev: i64 = 0;
    let mut idx: usize = 0;
    loop {
        let state = path.get_state();
        let v = (state.0.raw() - s_prev) * 1000;
        let a = (v - v_prev) * 1000;
        let j = (a - a_prev) * 1000;

        if a.abs() > tol_acc {
            return Err(format!("t_raw {}: acceleration {} over limit", t_raw, a));
        }
        if limits.len() > 1 && j.abs() > tol_jerk {
            return Err(format!("t_raw {}: jerk {} over limit", t_raw, j));
        }

        s_prev = state.0.raw();
        v_prev = v;
        a_prev = a;

        let action = &actions[idx];
        if t_raw + dt_raw >= action.t_raw {
            let frac = Fixed::from_raw(action.t_raw - t_raw).unwrap();
            path.update(frac).map_err(|e| format!("update: {:?}", e))?;
            match &action.act {
                Act::MoveTo(x, vl) => {
                    path.replan(*x, *vl).map_err(|e| format!("replan: {:?}", e))?;
                }
                Act::Stop => {
                    path.stop().map_err(|e| format!("stop: {:?}", e))?;
                }
                Act::CheckAcc(acc) => {
                    let st = path.get_state();
                    if !val_eq(st.2.raw(), acc.raw()) {
                        return Err(format!("t_raw {}: acc {} != {}", t_raw, st.2.raw(), acc.raw()));
                    }
                }
                Act::CheckVel(vel) => {
                    let st = path.get_state();
                    if !val_eq(st.1.raw(), vel.raw()) {
                        return Err(format!("t_raw {}: vel {} != {}", t_raw, st.1.raw(), vel.raw()));
                    }
                }
                Act::CheckPos(pos) => {
                    let st = path.get_state();
                    if !val_eq(st.0.raw(), pos.raw()) {
                        return Err(format!("t_raw {}: pos {} != {}", t_raw, st.0.raw(), pos.raw()));
                    }
                }
                Act::CheckState(pos, vel, acc) => {
                    let st = path.get_state();
                    if !(val_eq(st.0.raw(), pos.raw())
                        && val_eq(st.1.raw(), vel.raw())
                        && val_eq(st.2.raw(), acc.raw()))
                    {
                        return Err(format!(
                            "t_raw {}: state ({}, {}, {}) != ({}, {}, {})",
                            t_raw,
                            st.0.raw(),
                            st.1.raw(),
                            st.2.raw(),
                            pos.raw(),
                            vel.raw(),
                            acc.raw()
                        ));
                    }
                }
                Act::Done => {
                    if path.is_active() {
                        return Err(format!("t_raw {}: planner still active", t_raw));
                    }
                    return Ok(());
                }
            }
            let frac2 = Fixed::from_raw(t_raw + dt_raw - action.t_raw).unwrap();
            path.update(frac2).map_err(|e| format!("update: {:?}", e))?;
            idx += 1;
        } else {
            path.update(Fixed::from_raw(dt_raw).unwrap())
                .map_err(|e| format!("update: {:?}", e))?;
        }

        t_raw += dt_raw;
    }
}

// Zero-distance move.
#[test]
fn alim_null_move() -> Result<(), String> {
    let limits = vec![fx(1, 2)];
    let actions = [
        at(0, Act::MoveTo(fx(0, 1), fx(1, 10))),
        at(10, Act::Done),
    ];
    run_case(limits, &actions)
}

// Long move that reaches all the limits.
#[test]
fn alim_move_all_limits_pos() -> Result<(), String> {
    let limits = vec![fx(1, 2)];
    let actions = [
        at(0, Act::MoveTo(fx(4, 100), fx(1, 10))),
        at(100, Act::CheckAcc(fx(1, 2))),
        at(300, Act::CheckState(fx(2, 100), fx(1, 10), fx(0, 1))),
        at(600, Act::CheckState(fx(4, 100), fx(0, 1), fx(0, 1))),
        at(610, Act::Done),
    ];
    run_case(limits, &actions)
}

#[test]
fn alim_move_all_limits_neg() -> Result<(), String> {
    let limits = vec![fx(1, 2)];
    let actions = [
        at(0, Act::MoveTo(fx(-4, 100), fx(1, 10))),
        at(100, Act::CheckAcc(fx(-1, 2))),
        at(300, Act::CheckState(fx(-2, 100), fx(-1, 10), fx(0, 1))),
        at(600, Act::CheckState(fx(-4, 100), fx(0, 1), fx(0, 1))),
        at(610, Act::Done),
    ];
    run_case(limits, &actions)
}

// Short, separate moves that reach a_max but not v_max.
#[test]
fn alim_move_no_vmax_pos() -> Result<(), String> {
    let limits = vec![fx(1, 1)];
    let actions = [
        at(0, Act::MoveTo(fx(2, 100), fx(2, 10))),
        at(300, Act::CheckState(fx(2, 100), fx(0, 1), fx(0, 1))),
        at(310, Act::Done),
    ];
    run_case(limits, &actions)
}

#[test]
fn alim_move_no_vmax_neg() -> Result<(), String> {
    let limits = vec![fx(1, 1)];
    let actions = [
        at(0, Act::MoveTo(fx(-2, 100), fx(2, 10))),
        at(300, Act::CheckState(fx(-2, 100), fx(0, 1), fx(0, 1))),
        at(310, Act::Done),
    ];
    run_case(limits, &actions)
}

// Plan a move, then plan another one that continues in the same way.
#[test]
fn alim_continued_move_pos() -> Result<(), String> {
    let limits = vec![fx(1, 2)];
    let actions = [
        at(0, Act::MoveTo(fx(4, 100), fx(1, 10))),
        at(300, Act::MoveTo(fx(4, 100), fx(1, 10))),
        at(600, Act::CheckState(fx(4, 100), fx(0, 1), fx(0, 1))),
        at(610, Act::Done),
    ];
    run_case(limits, &actions)
}

#[test]
fn alim_continued_move_neg() -> Result<(), String> {
    let limits = vec![fx(1, 2)];
    let actions = [
        at(0, Act::MoveTo(fx(-4, 100), fx(1, 10))),
        at(300, Act::MoveTo(fx(-4, 100), fx(1, 10))),
        at(600, Act::CheckState(fx(-4, 100), fx(0, 1), fx(0, 1))),
        at(610, Act::Done),
    ];
    run_case(limits, &actions)
}

// Interrupted move, higher velocity.
#[test]
fn alim_inc_vel_pos() -> Result<(), String> {
    let limits = vec![fx(1, 2)];
    let actions = [
        at(0, Act::MoveTo(fx(6, 100), fx(1, 10))),
        at(300, Act::MoveTo(fx(6, 100), fx(15, 100))),
        at(410, Act::CheckVel(fx(15, 100))),
        at(800, Act::Done),
    ];
    run_case(limits, &actions)
}

// Interrupted move, higher velocity, does not reach vmax.
#[test]
fn alim_inc_vel_novmax_pos() -> Result<(), String> {
    let limits = vec![fx(1, 2)];
    let actions = [
        at(0, Act::MoveTo(fx(5, 100), fx(1, 10))),
        at(300, Act::MoveTo(fx(5, 100), fx(15, 100))),
        at(700, Act::CheckPos(fx(5, 100))),
        at(710, Act::Done),
    ];
    run_case(limits, &actions)
}

// Interrupted move, lower velocity.
#[test]
fn alim_dec_vel_pos() -> Result<(), String> {
    let limits = vec![fx(1, 2)];
    let actions = [
        at(0, Act::MoveTo(fx(5, 100), fx(1, 10))),
        at(300, Act::MoveTo(fx(5, 100), fx(5, 100))),
        at(1000, Act::Done),
    ];
    run_case(limits, &actions)
}

// Shortened move: the new command overshoots before coming back.
#[test]
fn alim_shortened_move_pos() -> Result<(), String> {
    let limits = vec![fx(1, 2)];
    let actions = [
        at(0, Act::MoveTo(fx(5, 100), fx(1, 10))),
        at(300, Act::MoveTo(fx(25, 1000), fx(5, 100))),
        at(800, Act::Done),
    ];
    run_case(limits, &actions)
}

#[test]
fn alim_shortened_move_neg() -> Result<(), String> {
    let limits = vec![fx(1, 2)];
    let actions = [
        at(0, Act::MoveTo(fx(-5, 100), fx(1, 10))),
        at(300, Act::MoveTo(fx(-25, 1000), fx(5, 100))),
        at(800, Act::Done),
    ];
    run_case(limits, &actions)
}

// Reversed move: the new target needs velocity of the other sign.
#[test]
fn alim_reversed_move_pos() -> Result<(), String> {
    let limits = vec![fx(1, 2)];
    let actions = [
        at(0, Act::MoveTo(fx(5, 100), fx(1, 10))),
        at(300, Act::MoveTo(fx(10, 1000), fx(5, 100))),
        at(1010, Act::Done),
    ];
    run_case(limits, &actions)
}

#[test]
fn alim_reversed_move_neg() -> Result<(), String> {
    let limits = vec![fx(1, 2)];
    let actions = [
        at(0, Act::MoveTo(fx(-5, 100), fx(1, 10))),
        at(300, Act::MoveTo(fx(-10, 1000), fx(5, 100))),
        at(1010, Act::Done),
    ];
    run_case(limits, &actions)
}

// Stop during positive velocity.
#[test]
fn alim_stop_pos() -> Result<(), String> {
    let limits = vec![fx(1, 2)];
    let actions = [
        at(0, Act::MoveTo(fx(4, 100), fx(1, 10))),
        at(150, Act::Stop),
        at(350, Act::Done),
    ];
    run_case(limits, &actions)
}

// Stop during negative velocity.
#[test]
fn alim_stop_neg() -> Result<(), String> {
    let limits = vec![fx(1, 2)];
    let actions = [
        at(0, Act::MoveTo(fx(-4, 100), fx(1, 10))),
        at(150, Act::Stop),
        at(350, Act::Done),
    ];
    run_case(limits, &actions)
}

#[test]
fn alim_stop_interrupted() -> Result<(), String> {
    let limits = vec![fx(15, 100)];
    let actions = [
        at(0, Act::MoveTo(fx(-25, 100), fx(2, 10))),
        at(2000, Act::MoveTo(fx(-10, 100), fx(2, 10))),
        at(3000, Act::Stop),
        at(4000, Act::Done),
    ];
    run_case(limits, &actions)
}

// Long jerk-limited move that reaches all the limits.
#[test]
fn jlim_move_all_limits_pos() -> Result<(), String> {
    let limits = vec![fx(1, 2), fx(5, 1)];
    let actions = [
        at(0, Act::MoveTo(fx(4, 100), fx(1, 10))),
        at(150, Act::CheckAcc(fx(1, 2))),
        at(350, Act::CheckState(fx(2, 100), fx(1, 10), fx(0, 1))),
        at(700, Act::CheckState(fx(4, 100), fx(0, 1), fx(0, 1))),
        at(710, Act::Done),
    ];
    run_case(limits, &actions)
}

#[test]
fn jlim_move_all_limits_neg() -> Result<(), String> {
    let limits = vec![fx(1, 2), fx(5, 1)];
    let actions = [
        at(0, Act::MoveTo(fx(-4, 100), fx(1, 10))),
        at(150, Act::CheckAcc(fx(-1, 2))),
        at(350, Act::CheckState(fx(-2, 100), fx(-1, 10), fx(0, 1))),
        at(700, Act::CheckState(fx(-4, 100), fx(0, 1), fx(0, 1))),
        at(710, Act::Done),
    ];
    run_case(limits, &actions)
}

// Long moves that reach v_max but not a_max.
#[test]
fn jlim_move_no_amax_pos() -> Result<(), String> {
    let limits = vec![fx(10, 1), fx(125, 2)];
    let actions = [
        at(0, Act::MoveTo(fx(2, 100), fx(1, 10))),
        at(140, Act::CheckState(fx(1, 100), fx(1, 10), fx(0, 1))),
        at(280, Act::CheckState(fx(2, 100), fx(0, 1), fx(0, 1))),
        at(290, Act::Done),
    ];
    run_case(limits, &actions)
}

#[test]
fn jlim_move_no_amax_neg() -> Result<(), String> {
    let limits = vec![fx(10, 1), fx(125, 2)];
    let actions = [
        at(0, Act::MoveTo(fx(2, 100), fx(1, 10))),
        at(140, Act::CheckState(fx(1, 100), fx(1, 10), fx(0, 1))),
        at(280, Act::CheckState(fx(2, 100), fx(0, 1), fx(0, 1))),
        at(290, Act::Done),
    ];
    run_case(limits, &actions)
}

// Short moves that would reach a_max but not v_max: finishing the
// velocity ramps overshoots the nearby target, so the coast duration
// comes out negative.  Resolving that would take the cubic-based
// peak-velocity reduction; the planner reports the distinct infeasible
// condition instead of building a wrong profile.
#[test]
fn jlim_move_no_vmax_pos() -> Result<(), String> {
    let mut path = Path::new(vec![fx(1, 1), fx(10, 1)]);
    match path.replan(fx(2, 100), fx(2, 10)) {
        Err(PlanError::Infeasible) => {}
        other => return Err(format!("expected infeasible, got {:?}", other.err())),
    }
    if path.is_active() {
        return Err("planner became active on an infeasible request".to_string());
    }
    Ok(())
}

#[test]
fn jlim_move_no_vmax_neg() -> Result<(), String> {
    let mut path = Path::new(vec![fx(1, 1), fx(10, 1)]);
    match path.replan(fx(-2, 100), fx(2, 10)) {
        Err(PlanError::Infeasible) => {}
        other => return Err(format!("expected infeasible, got {:?}", other.err())),
    }
    if path.is_active() {
        return Err("planner became active on an infeasible request".to_string());
    }
    Ok(())
}

// Moves too short to finish the velocity ramps even without coasting:
// the planner reports the distinct infeasible condition instead of
// building a wrong profile.
#[test]
fn jlim_move_no_vmax_nor_amax_pos() -> Result<(), String> {
    let mut path = Path::new(vec![fx(1, 1), fx(10, 1)]);
    match path.replan(fx(25, 10000), fx(2, 10)) {
        Err(PlanError::Infeasible) => {}
        other => return Err(format!("expected infeasible, got {:?}", other.err())),
    }
    if path.is_active() {
        return Err("planner became active on an infeasible request".to_string());
    }
    Ok(())
}

#[test]
fn jlim_move_no_vmax_nor_amax_neg() -> Result<(), String> {
    let mut path = Path::new(vec![fx(1, 1), fx(10, 1)]);
    match path.replan(fx(-25, 10000), fx(2, 10)) {
        Err(PlanError::Infeasible) => {}
        other => return Err(format!("expected infeasible, got {:?}", other.err())),
    }
    if path.is_active() {
        return Err("planner became active on an infeasible request".to_string());
    }
    Ok(())
}

// Plan a move, then plan another one that continues in the same way.
#[test]
fn jlim_continued_move() -> Result<(), String> {
    let limits = vec![fx(1, 2), fx(5, 1)];
    let actions = [
        at(0, Act::MoveTo(fx(4, 100), fx(1, 10))),
        at(350, Act::MoveTo(fx(4, 100), fx(1, 10))),
        at(700, Act::CheckState(fx(4, 100), fx(0, 1), fx(0, 1))),
        at(710, Act::Done),
    ];
    run_case(limits, &actions)
}

// Stop from v_max.
#[test]
fn jlim_stop_at_vmax() -> Result<(), String> {
    let limits = vec![fx(1, 2), fx(5, 1)];
    let actions = [
        at(0, Act::MoveTo(fx(4, 100), fx(1, 10))),
        at(350, Act::Stop),
        at(650, Act::Done),
    ];
    run_case(limits, &actions)
}

// Stop from a_max (not yet at v_max).
#[test]
fn jlim_stop_at_amax() -> Result<(), String> {
    let limits = vec![fx(1, 2), fx(5, 1)];
    let actions = [
        at(0, Act::MoveTo(fx(4, 100), fx(1, 10))),
        at(150, Act::Stop),
        at(510, Act::Done),
    ];
    run_case(limits, &actions)
}

// Stop from positive acceleration and velocity, neither at its limit.
#[test]
fn jlim_stop_not_at_limits() -> Result<(), String> {
    let limits = vec![fx(1, 2), fx(5, 1)];
    let actions = [
        at(10, Act::MoveTo(fx(4, 100), fx(1, 10))),
        at(250, Act::Stop),
        at(620, Act::Done),
    ];
    run_case(limits, &actions)
}

// Stop while heading into negative velocity after a reversal.
#[test]
fn jlim_stop_switch_v() -> Result<(), String> {
    let limits = vec![fx(1, 2), fx(5, 1)];
    let actions = [
        at(0, Act::MoveTo(fx(4, 100), fx(1, 10))),
        at(350, Act::MoveTo(fx(-4, 100), fx(1, 10))),
        at(580, Act::Stop),
        at(800, Act::Done),
    ];
    run_case(limits, &actions)
}
