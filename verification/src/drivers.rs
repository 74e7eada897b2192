//! Driving strategies: per-car decision makers proposing the next action.

use vstd::prelude::*;

use crate::car::Car;
use crate::common::{
    forward_dist, circ_dist, spec_circ_dist, spec_forward_dist, Action, SCALE,
};
use crate::setting::{RoundaboutSimSetting, SettingView};

verus! {

/// The available driving strategies, dispatched by match. Per-car strategy
/// state would live in the variant's payload.
#[derive(Clone, Copy, Debug, PartialEq, Eq, Structural)]
pub enum Driver {
    /// The greedy nearest-distance strategy.
    Simple,
}

/// Hands out driving strategies for newly created cars.
pub struct DriverFactory {}

impl DriverFactory {
    /// The default strategy.
    pub fn default() -> (d: Driver)
        ensures
            d == Driver::Simple,
    {
        Driver::Simple
    }

    /// A fresh strategy of the default kind.
    pub fn new() -> (d: Driver)
        ensures
            d == Driver::Simple,
    {
        Driver::Simple
    }
}

/// The greedy nearest-distance proposal. A finished car stops. A car off
/// the outermost lane whose remaining arc is within the angular tolerance
/// switches outward to prepare its exit. Otherwise the strategy compares the
/// remaining path cost of staying in its lane against switching one lane
/// further inward first, and switches inward exactly when that is cheaper.
pub open spec fn spec_simple_drive(car: Car, s: SettingView) -> Action {
    let fwd = spec_forward_dist(car.theta as int, car.dst_theta as int);
    let rem = spec_circ_dist(car.theta as int, car.dst_theta as int);
    if car.spec_finished(s) {
        Action::Stop
    } else if car.lane > 0 && rem <= s.theta_allow {
        Action::Switch(-1i32)
    } else {
        let r0 = s.r_lanes[0];
        let rc = s.r_lanes[car.lane as int];
        let straight_dist = rc * fwd / (SCALE as int) + (r0 - rc);
        if car.lane + 1 < s.r_lanes.len() {
            let ri = s.r_lanes[car.lane + 1];
            let switch_in_dist = 2 * (rc - ri) + ri * fwd / (SCALE as int) + (r0 - rc);
            if switch_in_dist < straight_dist {
                Action::Switch(1)
            } else {
                Action::Straight
            }
        } else {
            Action::Straight
        }
    }
}

/// The proposal of a strategy for a car, as a function of both.
pub open spec fn spec_drive(d: Driver, car: Car, s: SettingView) -> Action {
    match d {
        Driver::Simple => spec_simple_drive(car, s),
    }
}

/// A proposed `Switch` always points at an adjacent lane that exists.
pub proof fn lemma_drive_action_wf(d: Driver, car: Car, s: SettingView)
    requires
        s.wf(),
        car.wf(s),
    ensures
        (Car { action: spec_drive(d, car, s), ..car }).action_wf(s),
{
}

impl Driver {
    /// Proposes the next tick's action for the given car.
    pub fn drive(&self, car: &Car, setting: &RoundaboutSimSetting) -> (a: Action)
        requires
            setting@.wf(),
            car.wf(setting@),
        ensures
            a == spec_drive(*self, *car, setting@),
    {
        match self {
            Driver::Simple => {
                let fwd = forward_dist(car.theta, car.dst_theta);
                let rem = circ_dist(car.theta, car.dst_theta);
                if car.finished(setting) {
                    Action::Stop
                } else if car.lane > 0 && rem <= setting.theta_allow {
                    Action::Switch(-1)
                } else {
                    proof {
                        crate::car::lanes_bound(setting@, car.lane as int);
                        crate::common::lemma_mul_le(
                            setting@.r_lanes[car.lane as int] as int,
                            fwd as int,
                            crate::setting::R_MAX as int,
                            crate::common::TAU as int,
                        );
                        crate::common::lemma_div_bound(
                            setting@.r_lanes[car.lane as int] as int * fwd as int,
                            SCALE as int,
                        );
                    }
                    let r0 = setting.r_lanes[0];
                    let rc = setting.r_lanes[car.lane];
                    let straight_dist = rc * fwd / SCALE + (r0 - rc);
                    if car.lane + 1 < setting.r_lanes.len() {
                        let ri = setting.r_lanes[car.lane + 1];
                        proof {
                            crate::setting::lemma_lanes_decreasing(
                                setting@,
                                car.lane as int,
                                car.lane + 1,
                            );
                            crate::common::lemma_mul_le(
                                setting@.r_lanes[car.lane + 1] as int,
                                fwd as int,
                                crate::setting::R_MAX as int,
                                crate::common::TAU as int,
                            );
                            crate::common::lemma_div_bound(
                                setting@.r_lanes[car.lane + 1] as int * fwd as int,
                                SCALE as int,
                            );
                        }
                        let switch_in_dist = 2 * (rc - ri) + ri * fwd / SCALE + (r0 - rc);
                        if switch_in_dist < straight_dist {
                            Action::Switch(1)
                        } else {
                            Action::Straight
                        }
                    } else {
                        Action::Straight
                    }
                }
            },
        }
    }
}

} // verus!
