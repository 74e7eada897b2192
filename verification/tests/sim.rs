use roundabout_sim::car::CarInit;
use roundabout_sim::setting::{RoundaboutSimSetting, SwitchPolicy};
use roundabout_sim::sim::{sim_run, RoundaboutSim, SimError};

const PI: f64 = std::f64::consts::PI;
const RELATIVE: f64 = 1e-1;
const MAX_T: u64 = 10_000_000;

/// One whole unit in fixed-point micro-units.
const U: u64 = 1_000_000;

fn secs(t: u64) -> f64 {
    t as f64 / 1e6
}

fn urad(rad: f64) -> u64 {
    (rad * 1e6).round() as u64
}

fn assert_relative(actual: f64, expected: f64, max_relative: f64) {
    let scale = actual.abs().max(expected.abs());
    assert!(
        (actual - expected).abs() <= max_relative * scale,
        "actual {actual} vs expected {expected} beyond relative {max_relative}"
    );
}

fn setting(
    n_inter: usize,
    r_lanes: Vec<u64>,
    tick: u64,
    policy: Option<SwitchPolicy>,
) -> RoundaboutSimSetting {
    RoundaboutSimSetting::new(n_inter, r_lanes, tick, policy).expect("valid setting")
}

fn car(id: usize, lane: usize, theta: u64, vel: u64, dst: usize) -> CarInit {
    CarInit { id, lane, theta, vel, dst }
}

fn run(s: RoundaboutSimSetting, init: Vec<CarInit>, max_t: u64) -> RoundaboutSim {
    sim_run(s, &init, max_t).expect("simulation should finish")
}

fn check_completion_order(
    s: RoundaboutSimSetting,
    init: Vec<CarInit>,
    max_t: u64,
    order: &[usize],
) {
    let sim = run(s, init, max_t);
    assert_eq!(sim.finished_cars.len(), order.len(), "not all cars finished");
    for (i, c) in sim.finished_cars.iter().enumerate() {
        assert_eq!(c.id, order[i]);
    }
}

fn circular_cars(n: usize) -> Vec<CarInit> {
    let mut cars = Vec::new();
    for i in 0..n {
        cars.push(car(
            i,
            0,
            roundabout_sim::common::TAU * i as u64 / n as u64,
            U,
            (i + 1) % n,
        ));
    }
    cars
}

#[test]
fn sim_single_test() {
    // A lone car cruising half a turn on a unit lane at unit speed.
    let t = run(
        setting(2, vec![U], 100_000, None),
        vec![car(0, 0, 0, U, 1)],
        MAX_T,
    )
    .t;
    assert_relative(secs(t), PI, RELATIVE);

    // A car standing at its destination is finished at once.
    let t = run(
        setting(2, vec![U], 100_000, None),
        vec![car(0, 0, urad(PI), U, 1)],
        MAX_T,
    )
    .t;
    assert!((secs(t) - 0.0).abs() <= RELATIVE);

    // Half a turn away on a two-lane ring: cutting through the inner lane
    // (switch in, half turn at half the radius, switch out) is cheaper.
    let t = run(
        setting(2, vec![U, U / 2], 100_000, None),
        vec![car(0, 0, 0, U, 1)],
        MAX_T,
    )
    .t;
    assert_relative(secs(t), 2.57, RELATIVE);

    // Only 0.64 radians away: staying in the outer lane is cheaper.
    let t = run(
        setting(2, vec![U, U / 2], 50_000, None),
        vec![car(0, 0, urad(PI) - 640_000, U, 1)],
        MAX_T,
    )
    .t;
    assert_relative(secs(t), 0.64, RELATIVE);
}

/// Single lane, closed circular convoy, for the straight-straight collision
/// checks. Ensure every one finishes.
#[test]
fn sim_circular_deadlock_test() {
    let (s, init) = RoundaboutSimSetting::gen_circular(4);
    let sim = run(s, init, MAX_T);
    assert_eq!(sim.finished_cars.len(), 4);
    assert_relative(secs(sim.t), 2.0 * PI / 4.0, RELATIVE);

    let s = setting(36, vec![U], 10_000, None);
    let sim = run(s, circular_cars(36), MAX_T);
    assert_eq!(sim.finished_cars.len(), 36);
    assert_relative(secs(sim.t), 2.0 * PI / 36.0, RELATIVE);

    let (s, init) = RoundaboutSimSetting::gen_circular(360);
    let sim = run(s, init, MAX_T);
    assert_eq!(sim.finished_cars.len(), 360);
    assert_relative(secs(sim.t), 2.0 * PI / 360.0, RELATIVE);
}

/// Single lane, fast car behind a slow one: the run ends with the slower
/// car's own travel time, plus the following-collision stall of the fast
/// one.
#[test]
fn sim_fast_slow_test() {
    let s = setting(2, vec![U], 100_000, None);
    let init = vec![car(0, 0, 0, U, 1), car(1, 0, 200_000, U / 2, 1)];
    let sim = run(s, init, MAX_T);
    assert_relative(secs(sim.t), (PI - 0.2) / 0.5 + 0.1, RELATIVE);
}

/// Verify switch-first by checking the completion order: the switching car
/// exits before the straight-moving cars it cut in front of.
#[test]
fn sim_switch_first_policy() {
    let lanes = vec![U, U / 2];
    let dst = urad(PI);
    let s = setting(2, lanes.clone(), 100_000, Some(SwitchPolicy::SwitchFirst));
    let init = vec![car(0, 1, dst, U, 1), car(1, 0, dst - 50_000, U, 1)];
    check_completion_order(s, init, MAX_T, &[0, 1]);

    let s = setting(2, lanes, 100_000, Some(SwitchPolicy::SwitchFirst));
    let init = vec![
        car(0, 1, dst, U, 1),
        car(1, 0, dst - 50_000, U, 1),
        car(2, 0, dst - 100_000, 700_000, 1),
    ];
    check_completion_order(s, init, MAX_T, &[0, 1, 2]);
}

/// Verify straight-first by checking the completion order: the straight
/// movers pass first and the switching car exits last.
#[test]
fn sim_straight_first_policy() {
    let lanes = vec![U, U / 2];
    let dst = urad(PI);
    let s = setting(2, lanes.clone(), 100_000, Some(SwitchPolicy::StraightFirst));
    let init = vec![car(0, 1, dst, U, 1), car(1, 0, dst - 50_000, U, 1)];
    check_completion_order(s, init, MAX_T, &[1, 0]);

    let s = setting(2, lanes, 100_000, Some(SwitchPolicy::StraightFirst));
    let init = vec![
        car(0, 1, dst, U, 1),
        car(1, 0, dst - 100_000, U / 2, 1),
        car(2, 0, dst - 50_000, U, 1),
    ];
    check_completion_order(s, init, MAX_T, &[2, 1, 0]);
}

/// Two cars choosing the inner shortcut at once, angularly close and at
/// the same radius: the side-collision check halts the rear one for a
/// step, and both still finish in angular order.
#[test]
fn sim_side_collision_switchers() {
    let s = setting(2, vec![U, U / 2], 100_000, None);
    let init = vec![car(0, 0, 0, U, 1), car(1, 0, 5_000, U, 1)];
    check_completion_order(s, init, MAX_T, &[0, 1]);
}

/// The progress invariant is fatal and test-detectable: with the minimal
/// collision threshold raised to its ceiling every follower in a two-car
/// ring halts, and the step reports the deadlock instead of spinning.
#[test]
fn sim_deadlock_detected() {
    let mut s = setting(2, vec![U], 100_000, None);
    s.min_update_tick = 1_000_000_000;
    let init = vec![car(0, 0, 0, U, 1), car(1, 0, 5_000, U, 1)];
    match sim_run(s, &init, MAX_T) {
        Err(SimError::Deadlock) => {},
        other => panic!("expected a deadlock, got {:?}", other.map(|sim| sim.t)),
    }
}

/// Re-running an identical scenario twice gives identical finish times and
/// an identical completion order.
#[test]
fn sim_deterministic_rerun() {
    let mk = || {
        let s = setting(2, vec![U, U / 2], 100_000, Some(SwitchPolicy::SwitchFirst));
        let dst = urad(PI);
        let init = vec![
            car(0, 1, dst, U, 1),
            car(1, 0, dst - 50_000, U, 1),
            car(2, 0, dst - 100_000, 700_000, 1),
        ];
        run(s, init, MAX_T)
    };
    let a = mk();
    let b = mk();
    assert_eq!(a.t, b.t);
    assert_eq!(a.finished_cars.len(), b.finished_cars.len());
    for i in 0..a.finished_cars.len() {
        assert_eq!(a.finished_cars[i].id, b.finished_cars[i].id);
        assert_eq!(a.finished_cars[i].theta, b.finished_cars[i].theta);
    }
}

/// Error reporting of `sim_run`: a car on a lane that does not exist is an
/// invalid scenario, and a budget too small to finish in runs out of time.
#[test]
fn sim_run_errors() {
    let s = setting(2, vec![U], 100_000, None);
    let bad = vec![car(0, 3, 0, U, 1)];
    assert!(matches!(sim_run(s, &bad, MAX_T), Err(SimError::InvalidScenario)));

    let s = setting(2, vec![U], 100_000, None);
    let init = vec![car(0, 0, 0, U, 1)];
    assert!(matches!(sim_run(s, &init, 1), Err(SimError::OutOfTime)));
}
