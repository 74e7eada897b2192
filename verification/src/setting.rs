//! Scenario configuration: lane geometry, tick ceiling, conflict policy and
//! the tolerances the engine works with.

use vstd::prelude::*;

use crate::car::CarInit;
use crate::common::{lemma_mul_le, SCALE, TAU};
use crate::rng::random_below;

verus! {

/// Largest lane radius the engine accepts (1000 whole units).
pub const R_MAX: u64 = 1_000_000_000;

/// Largest car speed the engine accepts (1000 whole units per second).
pub const V_MAX: u64 = 1_000_000_000;

/// Largest tick ceiling the engine accepts (1000 seconds).
pub const T_MAX: u64 = 1_000_000_000;

/// Largest intersection count the engine accepts.
pub const N_INTER_MAX: usize = 1_000_000_000;

/// Largest number of cars one scenario may hold.
pub const N_CARS_MAX: usize = 1_000_000_000;

/// Default intersection count.
pub const DEFAULT_N_INTER: usize = 2;

/// Default tick ceiling: a tenth of a second.
pub const DEFAULT_TICK: u64 = 100_000;

/// Default finish tolerance: within a hundredth of a unit of the exit point.
pub const DEFAULT_DIST_ALLOW: u64 = 10_000;

/// Default radial drift tolerance for the lane-alignment check. The
/// fixed-point integration snaps radii exactly, so no drift is tolerated.
pub const DEFAULT_ALIGN_ALLOW: u64 = 0;

/// Default angular tolerance: a hundredth of pi radians.
pub const DEFAULT_THETA_ALLOW: u64 = 31_415;

/// Default minimal collision threshold: a hundredth of a second.
pub const DEFAULT_MIN_UPDATE_TICK: u64 = 10_000;

/// How a switch-into-lane conflict between a switching car and a
/// straight-moving occupant of the target lane is resolved.
#[derive(Clone, Copy, Debug, PartialEq, Eq, Structural)]
pub enum SwitchPolicy {
    /// The switching car proceeds; the straight-moving car is halted.
    SwitchFirst,
    /// The straight-moving car proceeds; the switching car is halted.
    StraightFirst,
}

/// Immutable scenario configuration, shared read-only by every component.
#[derive(Debug)]
pub struct RoundaboutSimSetting {
    /// Number of equally spaced exit points around the outermost lane.
    pub n_inter: usize,
    /// Lane radii in length units, outermost first, strictly decreasing.
    pub r_lanes: Vec<u64>,
    /// Maximum step duration in time units, absent any constraining event.
    pub tick: u64,
    /// Switch-conflict policy; `StraightFirst` when a scenario names none.
    pub switch_policy: SwitchPolicy,
    /// Finish tolerance: a car on the outermost lane within this distance of
    /// its destination is done.
    pub dist_allow: u64,
    /// Radial drift tolerance of the lane-alignment check.
    pub align_allow: u64,
    /// Angular tolerance: the switch-out window of the greedy strategy and
    /// the influence range of the side-collision check.
    pub theta_allow: u64,
    /// Minimal collision threshold: a hazard due sooner than this halts a
    /// car instead of shrinking the tick.
    pub min_update_tick: u64,
}

/// The mathematical content of a settings value.
pub ghost struct SettingView {
    pub n_inter: usize,
    pub r_lanes: Seq<u64>,
    pub tick: u64,
    pub switch_policy: SwitchPolicy,
    pub dist_allow: u64,
    pub align_allow: u64,
    pub theta_allow: u64,
    pub min_update_tick: u64,
}

impl View for RoundaboutSimSetting {
    type V = SettingView;

    open spec fn view(&self) -> SettingView {
        SettingView {
            n_inter: self.n_inter,
            r_lanes: self.r_lanes@,
            tick: self.tick,
            switch_policy: self.switch_policy,
            dist_allow: self.dist_allow,
            align_allow: self.align_allow,
            theta_allow: self.theta_allow,
            min_update_tick: self.min_update_tick,
        }
    }
}

impl SettingView {
    /// A valid configuration: at least one lane, radii positive, bounded and
    /// strictly decreasing outermost-first, and every scalar within the
    /// machine bounds the engine's arithmetic relies on.
    pub open spec fn wf(self) -> bool {
        &&& 1 <= self.n_inter <= N_INTER_MAX
        &&& 1 <= self.r_lanes.len() <= N_INTER_MAX
        &&& (forall|i: int|
            0 <= i < self.r_lanes.len() ==> 1 <= #[trigger] self.r_lanes[i] <= R_MAX)
        &&& (forall|i: int|
            0 < i < self.r_lanes.len() ==> #[trigger] self.r_lanes[i] < self.r_lanes[i - 1])
        &&& 1 <= self.tick <= T_MAX
        &&& self.theta_allow <= TAU
        &&& self.min_update_tick <= T_MAX
        &&& self.dist_allow <= R_MAX
        &&& self.align_allow <= R_MAX
    }
}

/// Strictly decreasing radii order extends from adjacent lanes to any pair:
/// an inner lane is always strictly smaller than any lane outside it.
pub proof fn lemma_lanes_decreasing(s: SettingView, i: int, j: int)
    requires
        s.wf(),
        0 <= i < j < s.r_lanes.len(),
    ensures
        s.r_lanes[j] < s.r_lanes[i],
    decreases j - i,
{
    if j == i + 1 {
    } else {
        lemma_lanes_decreasing(s, i, j - 1);
    }
}

/// The settings value that given scenario fields would produce: tolerances
/// take their defaults, and an absent policy falls back to `StraightFirst`.
pub open spec fn spec_setting_from(
    n_inter: usize,
    r_lanes: Seq<u64>,
    tick: u64,
    switch_policy: Option<SwitchPolicy>,
) -> SettingView {
    SettingView {
        n_inter,
        r_lanes,
        tick,
        switch_policy: switch_policy.unwrap_or(SwitchPolicy::StraightFirst),
        dist_allow: DEFAULT_DIST_ALLOW,
        align_allow: DEFAULT_ALIGN_ALLOW,
        theta_allow: DEFAULT_THETA_ALLOW,
        min_update_tick: DEFAULT_MIN_UPDATE_TICK,
    }
}

impl RoundaboutSimSetting {
    /// Runtime check of the configuration invariant, for callers that build
    /// or alter settings outside the validated constructor.
    pub fn is_valid(&self) -> (b: bool)
        ensures
            b == self@.wf(),
    {
        if !(1 <= self.n_inter && self.n_inter <= N_INTER_MAX) {
            return false;
        }
        if !(1 <= self.r_lanes.len() && self.r_lanes.len() <= N_INTER_MAX) {
            return false;
        }
        if !(1 <= self.tick && self.tick <= T_MAX) {
            return false;
        }
        if !(self.theta_allow <= TAU && self.min_update_tick <= T_MAX) {
            return false;
        }
        if !(self.dist_allow <= R_MAX && self.align_allow <= R_MAX) {
            return false;
        }
        let mut i: usize = 0;
        while i < self.r_lanes.len()
            invariant
                i <= self.r_lanes@.len(),
                forall|j: int| 0 <= j < i ==> 1 <= #[trigger] self.r_lanes@[j] <= R_MAX,
                forall|j: int| 0 < j < i ==> #[trigger] self.r_lanes@[j] < self.r_lanes@[j - 1],
            decreases self.r_lanes@.len() - i,
        {
            if !(1 <= self.r_lanes[i] && self.r_lanes[i] <= R_MAX) {
                return false;
            }
            if i > 0 && !(self.r_lanes[i] < self.r_lanes[i - 1]) {
                return false;
            }
            i += 1;
        }
        true
    }

    /// The default scenario configuration: two exit points, one unit lane,
    /// a tenth-of-a-second tick ceiling and the `StraightFirst` policy.
    pub fn default() -> (r: RoundaboutSimSetting)
        ensures
            r@ == spec_setting_from(
                DEFAULT_N_INTER,
                seq![SCALE],
                DEFAULT_TICK,
                None::<SwitchPolicy>,
            ),
            r@.wf(),
    {
        let mut r_lanes: Vec<u64> = Vec::new();
        r_lanes.push(SCALE);
        let r = RoundaboutSimSetting {
            n_inter: DEFAULT_N_INTER,
            r_lanes,
            tick: DEFAULT_TICK,
            switch_policy: SwitchPolicy::StraightFirst,
            dist_allow: DEFAULT_DIST_ALLOW,
            align_allow: DEFAULT_ALIGN_ALLOW,
            theta_allow: DEFAULT_THETA_ALLOW,
            min_update_tick: DEFAULT_MIN_UPDATE_TICK,
        };
        proof {
            assert(r@.r_lanes =~= seq![SCALE]);
            assert(r@ == spec_setting_from(
                DEFAULT_N_INTER,
                seq![SCALE],
                DEFAULT_TICK,
                None::<SwitchPolicy>,
            ));
        }
        r
    }

    /// Builds a validated configuration from scenario fields. Tolerances take
    /// their defaults; an absent policy defaults to `StraightFirst`. Returns
    /// `None` exactly when the fields break the configuration invariant:
    /// construction fails immediately and completely, with no default-filling
    /// for required geometry.
    pub fn new(
        n_inter: usize,
        r_lanes: Vec<u64>,
        tick: u64,
        switch_policy: Option<SwitchPolicy>,
    ) -> (r: Option<RoundaboutSimSetting>)
        ensures
            r is Some <==> spec_setting_from(n_inter, r_lanes@, tick, switch_policy).wf(),
            r matches Some(s) ==> s@ == spec_setting_from(n_inter, r_lanes@, tick, switch_policy),
    {
        let policy = match switch_policy {
            Some(p) => p,
            None => SwitchPolicy::StraightFirst,
        };
        let s = RoundaboutSimSetting {
            n_inter,
            r_lanes,
            tick,
            switch_policy: policy,
            dist_allow: DEFAULT_DIST_ALLOW,
            align_allow: DEFAULT_ALIGN_ALLOW,
            theta_allow: DEFAULT_THETA_ALLOW,
            min_update_tick: DEFAULT_MIN_UPDATE_TICK,
        };
        if s.is_valid() {
            Some(s)
        } else {
            None
        }
    }

    /// The uniform circular convoy scenario: `n_cars` cars evenly spaced on
    /// a single unit-radius lane at unit speed, each car's destination the
    /// next car's starting point, one intersection per car, and the default
    /// configuration otherwise.
    pub fn gen_circular(n_cars: usize) -> (r: (RoundaboutSimSetting, Vec<CarInit>))
        requires
            1 <= n_cars <= N_INTER_MAX,
        ensures
            r.0@ == spec_setting_from(n_cars, seq![SCALE], DEFAULT_TICK, None::<SwitchPolicy>),
            r.0@.wf(),
            r.1@.len() == n_cars,
            forall|i: int|
                0 <= i < n_cars ==> r.1@[i] == (CarInit {
                    id: i as usize,
                    lane: 0,
                    theta: (TAU * i / n_cars as int) as u64,
                    vel: SCALE,
                    dst: ((i + 1) % n_cars as int) as usize,
                }),
            forall|i: int| 0 <= i < n_cars ==> crate::sim::spec_init_ok(#[trigger] r.1@[i], r.0@),
    {
        let mut r_lanes: Vec<u64> = Vec::new();
        r_lanes.push(SCALE);
        let setting = RoundaboutSimSetting {
            n_inter: n_cars,
            r_lanes,
            tick: DEFAULT_TICK,
            switch_policy: SwitchPolicy::StraightFirst,
            dist_allow: DEFAULT_DIST_ALLOW,
            align_allow: DEFAULT_ALIGN_ALLOW,
            theta_allow: DEFAULT_THETA_ALLOW,
            min_update_tick: DEFAULT_MIN_UPDATE_TICK,
        };
        proof {
            assert(setting@.r_lanes =~= seq![SCALE]);
        }
        let mut cars: Vec<CarInit> = Vec::new();
        let mut i: usize = 0;
        while i < n_cars
            invariant
                i <= n_cars,
                1 <= n_cars <= N_INTER_MAX,
                setting@ == spec_setting_from(
                    n_cars,
                    seq![SCALE],
                    DEFAULT_TICK,
                    None::<SwitchPolicy>,
                ),
                setting@.wf(),
                cars@.len() == i,
                forall|j: int|
                    0 <= j < i ==> cars@[j] == (CarInit {
                        id: j as usize,
                        lane: 0,
                        theta: (TAU * j / n_cars as int) as u64,
                        vel: SCALE,
                        dst: ((j + 1) % n_cars as int) as usize,
                    }),
                forall|j: int|
                    0 <= j < i ==> crate::sim::spec_init_ok(#[trigger] cars@[j], setting@),
            decreases n_cars - i,
        {
            proof {
                lemma_mul_le(TAU as int, i as int, TAU as int, N_INTER_MAX as int);
                let ghost ii = i as int;
                let ghost n = n_cars as int;
                assert((TAU as int * ii) / n < TAU as int) by (nonlinear_arith)
                    requires
                        0 <= ii < n,
                ;
            }
            let theta = TAU * (i as u64) / (n_cars as u64);
            let ci = CarInit { id: i, lane: 0, theta, vel: SCALE, dst: (i + 1) % n_cars };
            cars.push(ci);
            i += 1;
        }
        (setting, cars)
    }

    /// A randomized multi-lane scenario over the given geometry: every
    /// car's speed is drawn uniformly from one fifth to six fifths of a
    /// unit per second, its lane, destination and starting angle uniformly
    /// from their ranges; everything else takes the defaults. What holds of
    /// every outcome is stated; the drawn values themselves are chance.
    pub fn gen_random(n_cars: usize, n_inter: usize, r_lanes: Vec<u64>) -> (r: (
        RoundaboutSimSetting,
        Vec<CarInit>,
    ))
        requires
            1 <= n_cars <= N_CARS_MAX,
            spec_setting_from(n_inter, r_lanes@, DEFAULT_TICK, None::<SwitchPolicy>).wf(),
        ensures
            r.0@ == spec_setting_from(n_inter, r_lanes@, DEFAULT_TICK, None::<SwitchPolicy>),
            r.1@.len() == n_cars,
            forall|i: int|
                0 <= i < n_cars ==> (#[trigger] r.1@[i]).id == i && 200_000 <= r.1@[i].vel
                    < 1_200_000,
            forall|i: int| 0 <= i < n_cars ==> crate::sim::spec_init_ok(#[trigger] r.1@[i], r.0@),
    {
        let setting = RoundaboutSimSetting {
            n_inter,
            r_lanes,
            tick: DEFAULT_TICK,
            switch_policy: SwitchPolicy::StraightFirst,
            dist_allow: DEFAULT_DIST_ALLOW,
            align_allow: DEFAULT_ALIGN_ALLOW,
            theta_allow: DEFAULT_THETA_ALLOW,
            min_update_tick: DEFAULT_MIN_UPDATE_TICK,
        };
        let n_lanes = setting.r_lanes.len();
        let mut cars: Vec<CarInit> = Vec::new();
        let mut i: usize = 0;
        while i < n_cars
            invariant
                i <= n_cars,
                setting@.wf(),
                n_lanes == setting@.r_lanes.len(),
                1 <= n_lanes,
                1 <= setting@.n_inter,
                cars@.len() == i,
                forall|j: int|
                    0 <= j < i ==> (#[trigger] cars@[j]).id == j && 200_000 <= cars@[j].vel
                        < 1_200_000,
                forall|j: int|
                    0 <= j < i ==> crate::sim::spec_init_ok(#[trigger] cars@[j], setting@),
            decreases n_cars - i,
        {
            let vel = 200_000 + random_below(1_000_000);
            let lane = random_below(n_lanes as u64) as usize;
            let dst = random_below(setting.n_inter as u64) as usize;
            let theta = random_below(TAU);
            let ci = CarInit { id: i, lane, theta, vel, dst };
            cars.push(ci);
            i += 1;
        }
        (setting, cars)
    }
}

} // verus!
