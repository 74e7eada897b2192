//! The car entity: one vehicle's physical state and its integration rule.

use vstd::prelude::*;

use crate::common::{circ_dist, spec_circ_dist, Action, SCALE, TAU};
use crate::drivers::Driver;
use crate::setting::{RoundaboutSimSetting, SettingView, V_MAX};

verus! {

/// The initial description of one car in a scenario: its lane index, reduced
/// starting angle, speed and destination intersection index.
#[derive(Clone, Copy, Debug, PartialEq, Eq, Structural)]
pub struct CarInit {
    /// Stable identity.
    pub id: usize,
    /// Starting lane index; 0 is the outermost lane.
    pub lane: usize,
    /// Starting angle in microradians, reduced to `[0, TAU)`.
    pub theta: u64,
    /// Forward speed in length units per second; positive.
    pub vel: u64,
    /// Destination intersection index in `[0, n_inter)`.
    pub dst: usize,
}

/// Mutable physical state of one vehicle. Position is polar: a radius in
/// length units and a reduced angle in microradians.
#[derive(Clone, Copy, Debug, PartialEq, Eq, Structural)]
pub struct Car {
    /// Stable identity.
    pub id: usize,
    /// Angular position, reduced to `[0, TAU)`.
    pub theta: u64,
    /// Radial position. Equal to the lane's radius except mid-switch, when
    /// it lies strictly between the source and target lane radii.
    pub r: u64,
    /// Forward speed in length units per second; positive.
    pub vel: u64,
    /// Current lane index; 0 is the outermost lane.
    pub lane: usize,
    /// Destination angle on the outermost lane, reduced to `[0, TAU)`.
    pub dst_theta: u64,
    /// Pending action for the current step.
    pub action: Action,
    /// The strategy that proposes this car's actions.
    pub driver: Driver,
}

impl Car {
    /// The persistent physical invariant: indices and scalars in range, and
    /// the radius either exactly on the current lane or strictly between the
    /// radii of an adjacent pair, as it is mid-switch.
    pub open spec fn wf(self, s: SettingView) -> bool {
        &&& self.lane < s.r_lanes.len()
        &&& self.theta < TAU
        &&& self.dst_theta < TAU
        &&& 1 <= self.vel <= V_MAX
        &&& self.r_wf(s)
    }

    /// The radius invariant alone.
    pub open spec fn r_wf(self, s: SettingView) -> bool {
        ||| self.r == s.r_lanes[self.lane as int]
        ||| (self.lane + 1 < s.r_lanes.len() && s.r_lanes[self.lane + 1] < self.r
            < s.r_lanes[self.lane as int])
        ||| (self.lane >= 1 && s.r_lanes[self.lane as int] < self.r < s.r_lanes[self.lane - 1])
    }

    /// A pending `Switch` action points at an adjacent lane that exists.
    /// Holds from proposal until integration; a stale action left over from
    /// the previous step need not satisfy it.
    pub open spec fn action_wf(self, s: SettingView) -> bool {
        match self.action {
            Action::Switch(d) => (d == 1 && self.lane + 1 < s.r_lanes.len()) || (d == -1
                && self.lane >= 1),
            _ => true,
        }
    }

    /// Finished: on the outermost lane, with the arc to the destination
    /// within the finish tolerance.
    pub open spec fn spec_finished(self, s: SettingView) -> bool {
        self.lane == 0 && spec_circ_dist(self.theta as int, self.dst_theta as int) * s.r_lanes[0]
            / SCALE as int <= s.dist_allow
    }

    /// Whether this car has reached its destination.
    pub fn finished(&self, setting: &RoundaboutSimSetting) -> (b: bool)
        requires
            setting@.wf(),
            self.theta < TAU,
            self.dst_theta < TAU,
        ensures
            b == self.spec_finished(setting@),
    {
        let d = circ_dist(self.theta, self.dst_theta);
        proof {
            crate::common::lemma_mul_le(
                d as int,
                setting@.r_lanes[0] as int,
                TAU as int,
                crate::setting::R_MAX as int,
            );
        }
        self.lane == 0 && d * setting.r_lanes[0] / SCALE <= setting.dist_allow
    }

    /// Stores a granted action.
    pub fn set_action(&mut self, action: Action)
        ensures
            *final(self) == (Car { action, ..*old(self) }),
    {
        self.action = action;
    }

    /// The state this car reaches when its finalized action is applied over
    /// one tick. A `Switch` moves the radius toward the target lane at the
    /// car's own speed and snaps exactly onto it when reached; `Straight`
    /// advances the angle along the current lane and clamps exactly at the
    /// destination angle; `Stop` changes nothing.
    pub open spec fn spec_updated(self, tick: u64, s: SettingView) -> Car {
        match self.action {
            Action::Switch(d) => {
                let moving = self.vel * tick / SCALE as int;
                if d == 1 {
                    let target = s.r_lanes[self.lane + 1];
                    if self.r - target <= moving {
                        Car { r: target, lane: (self.lane + 1) as usize, ..self }
                    } else {
                        Car { r: (self.r - moving) as u64, ..self }
                    }
                } else {
                    let target = s.r_lanes[self.lane - 1];
                    if target - self.r <= moving {
                        Car { r: target, lane: (self.lane - 1) as usize, ..self }
                    } else {
                        Car { r: (self.r + moving) as u64, ..self }
                    }
                }
            },
            Action::Straight => {
                let mv = self.vel * tick / (s.r_lanes[self.lane as int] as int);
                if self.theta + mv >= self.dst_theta {
                    Car { theta: self.dst_theta, ..self }
                } else {
                    Car { theta: (self.theta + mv) as u64, ..self }
                }
            },
            Action::Stop => self,
        }
    }

    /// Applies the finalized action over one tick of the given duration.
    pub fn update(&mut self, tick: u64, setting: &RoundaboutSimSetting)
        requires
            setting@.wf(),
            old(self).wf(setting@),
            old(self).action_wf(setting@),
            tick <= setting@.tick,
        ensures
            *final(self) == old(self).spec_updated(tick, setting@),
            final(self).wf(setting@),
    {
        proof {
            lanes_bound(setting@, self.lane as int);
        }
        match self.action {
            Action::Switch(d) => {
                proof {
                    crate::common::lemma_mul_le(
                        self.vel as int,
                        tick as int,
                        V_MAX as int,
                        crate::setting::T_MAX as int,
                    );
                    crate::common::lemma_div_bound(self.vel as int * tick as int, SCALE as int);
                }
                let moving = self.vel * tick / SCALE;
                if d == 1 {
                    let target = setting.r_lanes[self.lane + 1];
                    proof {
                        crate::setting::lemma_lanes_decreasing(
                            setting@,
                            self.lane as int,
                            self.lane + 1,
                        );
                        if self.lane >= 1 {
                            crate::setting::lemma_lanes_decreasing(
                                setting@,
                                self.lane - 1,
                                self.lane + 1,
                            );
                        }
                    }
                    if self.r - target <= moving {
                        self.r = target;
                        self.lane = self.lane + 1;
                    } else {
                        self.r = self.r - moving;
                    }
                } else {
                    let target = setting.r_lanes[self.lane - 1];
                    proof {
                        crate::setting::lemma_lanes_decreasing(
                            setting@,
                            self.lane - 1,
                            self.lane as int,
                        );
                        if self.lane + 1 < setting@.r_lanes.len() {
                            crate::setting::lemma_lanes_decreasing(
                                setting@,
                                self.lane - 1,
                                self.lane + 1,
                            );
                        }
                    }
                    if target - self.r <= moving {
                        self.r = target;
                        self.lane = self.lane - 1;
                    } else {
                        self.r = self.r + moving;
                    }
                }
            },
            Action::Straight => {
                proof {
                    crate::common::lemma_mul_le(
                        self.vel as int,
                        tick as int,
                        V_MAX as int,
                        crate::setting::T_MAX as int,
                    );
                    crate::common::lemma_div_bound(
                        self.vel as int * tick as int,
                        setting@.r_lanes[self.lane as int] as int,
                    );
                }
                let mv = self.vel * tick / setting.r_lanes[self.lane];
                if self.theta + mv >= self.dst_theta {
                    self.theta = self.dst_theta;
                } else {
                    self.theta = self.theta + mv;
                }
            },
            Action::Stop => {},
        }
    }
}

/// Every lane radius is bounded by the outermost one.
pub proof fn lanes_bound(s: SettingView, i: int)
    requires
        s.wf(),
        0 <= i < s.r_lanes.len(),
    ensures
        s.r_lanes[i] <= s.r_lanes[0],
{
    if i > 0 {
        crate::setting::lemma_lanes_decreasing(s, 0, i);
    }
}

} // verus!
