use roundabout_sim::car::{Car, CarInit};
use roundabout_sim::common::{circ_dist, forward_dist, is_aligned, Action, TAU};
use roundabout_sim::drivers::{Driver, DriverFactory};
use roundabout_sim::setting::{RoundaboutSimSetting, SwitchPolicy};
use roundabout_sim::sim::RoundaboutSim;

const U: u64 = 1_000_000;

fn setting(n_inter: usize, r_lanes: Vec<u64>, tick: u64) -> RoundaboutSimSetting {
    RoundaboutSimSetting::new(n_inter, r_lanes, tick, None).expect("valid setting")
}

#[test]
fn setting_validation() {
    // Missing lanes, radii out of order, and a zero tick all fail whole.
    assert!(RoundaboutSimSetting::new(2, vec![], 100_000, None).is_none());
    assert!(RoundaboutSimSetting::new(2, vec![U / 2, U], 100_000, None).is_none());
    assert!(RoundaboutSimSetting::new(2, vec![U, U], 100_000, None).is_none());
    assert!(RoundaboutSimSetting::new(2, vec![U, 0], 100_000, None).is_none());
    assert!(RoundaboutSimSetting::new(2, vec![U], 0, None).is_none());
    assert!(RoundaboutSimSetting::new(0, vec![U], 100_000, None).is_none());
    // A valid scenario takes the documented default policy: straight first.
    let s = RoundaboutSimSetting::new(3, vec![U, U / 2], 100_000, None).unwrap();
    assert_eq!(s.n_inter, 3);
    assert_eq!(s.switch_policy, SwitchPolicy::StraightFirst);
    assert!(s.is_valid());
    let s =
        RoundaboutSimSetting::new(3, vec![U], 100_000, Some(SwitchPolicy::SwitchFirst)).unwrap();
    assert_eq!(s.switch_policy, SwitchPolicy::SwitchFirst);
}

#[test]
fn setting_default() {
    let s = RoundaboutSimSetting::default();
    assert_eq!(s.n_inter, 2);
    assert_eq!(s.r_lanes, vec![U]);
    assert_eq!(s.tick, 100_000);
    assert_eq!(s.switch_policy, SwitchPolicy::StraightFirst);
    assert!(s.is_valid());
}

#[test]
fn angle_arithmetic() {
    assert_eq!(forward_dist(0, 1_000_000), 1_000_000);
    assert_eq!(forward_dist(1_000_000, 0), TAU - 1_000_000);
    assert_eq!(circ_dist(0, 1_000_000), 1_000_000);
    assert_eq!(circ_dist(1_000_000, 0), 1_000_000);
    assert_eq!(circ_dist(0, TAU - 5), 5);
    assert!(is_aligned(U, U, 0));
    assert!(is_aligned(U - 3, U, 5));
    assert!(!is_aligned(U - 6, U, 5));
}

#[test]
fn driver_factory_default_strategy() {
    assert_eq!(DriverFactory::default(), Driver::Simple);
    assert_eq!(DriverFactory::new(), Driver::Simple);
}

fn make_sim(s: RoundaboutSimSetting, init: Vec<CarInit>) -> RoundaboutSim {
    RoundaboutSim::new(s, &init).expect("valid scenario")
}

#[test]
fn construction_places_cars() {
    let s = setting(4, vec![U, U / 2], 100_000);
    let sim = make_sim(
        s,
        vec![
            CarInit { id: 7, lane: 1, theta: 123, vel: U, dst: 3 },
            CarInit { id: 8, lane: 0, theta: 456, vel: U / 4, dst: 0 },
        ],
    );
    assert_eq!(sim.t, 0);
    assert_eq!(sim.finished_cars.len(), 0);
    assert_eq!(sim.cars.len(), 2);
    let c = &sim.cars[0];
    assert_eq!((c.id, c.lane, c.theta, c.vel), (7, 1, 123, U));
    assert_eq!(c.r, U / 2);
    assert_eq!(c.dst_theta, TAU * 3 / 4);
    assert_eq!(c.action, Action::Straight);
    assert_eq!(sim.cars[1].dst_theta, 0);
    // Out-of-range pieces fail construction whole.
    let s = setting(4, vec![U, U / 2], 100_000);
    assert!(RoundaboutSim::new(s, &vec![CarInit { id: 0, lane: 2, theta: 0, vel: U, dst: 0 }])
        .is_none());
    let s = setting(4, vec![U, U / 2], 100_000);
    assert!(RoundaboutSim::new(s, &vec![CarInit { id: 0, lane: 0, theta: 0, vel: 0, dst: 0 }])
        .is_none());
    let s = setting(4, vec![U, U / 2], 100_000);
    assert!(RoundaboutSim::new(s, &vec![CarInit { id: 0, lane: 0, theta: 0, vel: U, dst: 4 }])
        .is_none());
    let s = setting(4, vec![U, U / 2], 100_000);
    assert!(RoundaboutSim::new(s, &vec![CarInit { id: 0, lane: 0, theta: TAU, vel: U, dst: 0 }])
        .is_none());
}

fn plain_car(lane: usize, r: u64, theta: u64, vel: u64, dst_theta: u64, action: Action) -> Car {
    Car { id: 0, theta, r, vel, lane, dst_theta, action, driver: Driver::Simple }
}

#[test]
fn car_integration_exact() {
    let s = setting(2, vec![U, U / 2], 100_000);
    // Straight: the angle advances by speed * tick / radius.
    let mut c = plain_car(0, U, 0, U, 3_000_000, Action::Straight);
    c.update(100_000, &s);
    assert_eq!(c.theta, 100_000);
    // Straight clamps exactly at the destination angle.
    let mut c = plain_car(0, U, 2_950_000, U, 3_000_000, Action::Straight);
    c.update(100_000, &s);
    assert_eq!(c.theta, 3_000_000);
    assert_eq!(c.lane, 0);
    // An inward switch moves the radius at the car's own speed.
    let mut c = plain_car(0, U, 0, U, 3_000_000, Action::Switch(1));
    c.update(100_000, &s);
    assert_eq!((c.r, c.lane), (900_000, 0));
    // Reaching the target lane snaps exactly onto its radius.
    let mut c = plain_car(0, 550_000, 0, U, 3_000_000, Action::Switch(1));
    c.update(100_000, &s);
    assert_eq!((c.r, c.lane), (500_000, 1));
    // An outward switch snaps onto the outermost lane the same way.
    let mut c = plain_car(1, 950_000, 0, U, 3_000_000, Action::Switch(-1));
    c.update(100_000, &s);
    assert_eq!((c.r, c.lane), (U, 0));
    // Stop leaves everything unchanged.
    let mut c = plain_car(0, U, 42, U, 3_000_000, Action::Stop);
    c.update(100_000, &s);
    assert_eq!((c.r, c.theta, c.lane), (U, 42, 0));
}

#[test]
fn greedy_drive_decisions() {
    let s = setting(2, vec![U, U / 2], 100_000);
    // A finished car proposes Stop.
    let c = plain_car(0, U, 3_000_000, U, 3_000_000, Action::Straight);
    assert!(c.finished(&s));
    assert_eq!(c.driver.drive(&c, &s), Action::Stop);
    // Near the destination off the outermost lane: switch outward to exit.
    let c = plain_car(1, U / 2, 3_000_000, U, 3_000_000, Action::Straight);
    assert_eq!(c.driver.drive(&c, &s), Action::Switch(-1));
    // Half a turn to go: the inner shortcut is cheaper, switch inward.
    let c = plain_car(0, U, 0, U, TAU / 2, Action::Straight);
    assert_eq!(c.driver.drive(&c, &s), Action::Switch(1));
    // A short hop: stay on the outermost lane.
    let c = plain_car(0, U, 0, U, 640_000, Action::Straight);
    assert_eq!(c.driver.drive(&c, &s), Action::Straight);
    // Innermost lane, long way to go, nowhere further inward: straight.
    let c = plain_car(1, U / 2, 0, U, TAU / 2, Action::Straight);
    assert_eq!(c.driver.drive(&c, &s), Action::Straight);
}

#[test]
fn gen_circular_layout() {
    let (s, cars) = RoundaboutSimSetting::gen_circular(4);
    assert_eq!(s.n_inter, 4);
    assert_eq!(s.r_lanes, vec![U]);
    assert_eq!(cars.len(), 4);
    for (i, c) in cars.iter().enumerate() {
        assert_eq!(c.id, i);
        assert_eq!(c.lane, 0);
        assert_eq!(c.vel, U);
        assert_eq!(c.theta, TAU * i as u64 / 4);
        assert_eq!(c.dst, (i + 1) % 4);
    }
}

#[test]
fn gen_random_within_ranges() {
    let lanes = vec![5 * U, 4 * U, 3 * U, 2 * U, U];
    let (s, cars) = RoundaboutSimSetting::gen_random(30, 4, lanes.clone());
    assert_eq!(s.n_inter, 4);
    assert_eq!(s.r_lanes, lanes);
    assert_eq!(cars.len(), 30);
    for (i, c) in cars.iter().enumerate() {
        assert_eq!(c.id, i);
        assert!(c.lane < lanes.len());
        assert!(c.dst < 4);
        assert!(c.theta < TAU);
        assert!((200_000..1_200_000).contains(&c.vel));
    }
    // The generated scenario is accepted as it stands.
    let sim = RoundaboutSim::new(s, &cars);
    assert!(sim.is_some());
}
