//! The simulation engine: per-step action proposal, collision arbitration,
//! variable-tick computation, physical integration and completion
//! bookkeeping.

use vstd::prelude::*;

use crate::car::{Car, CarInit};
use crate::common::{
    forward_dist, is_aligned, lemma_div_bound, lemma_mul_le, spec_circ_dist, spec_forward_dist,
    spec_is_aligned, Action, SCALE, TAU,
};
use crate::drivers::{lemma_drive_action_wf, spec_drive, Driver};
use crate::setting::{RoundaboutSimSetting, SettingView, SwitchPolicy, N_CARS_MAX, R_MAX, V_MAX};

verus! {

/// Why a simulation call could not deliver a finished run.
#[derive(Clone, Copy, Debug, PartialEq, Eq, Structural)]
pub enum SimError {
    /// The scenario broke a construction invariant; nothing was built.
    InvalidScenario,
    /// Every active car stood still during a step: a fatal defect of a
    /// strategy or of the engine, not a recoverable condition.
    Deadlock,
    /// The simulated-time budget ran out before every car finished.
    OutOfTime,
}

/// The simulation engine state: current time, the immutable settings, the
/// active cars and the finished cars in completion order.
pub struct RoundaboutSim {
    /// Current simulated time.
    pub t: u64,
    /// The scenario configuration.
    pub setting: RoundaboutSimSetting,
    /// Cars that reached their destination, in completion order. A finished
    /// car is never mutated again.
    pub finished_cars: Vec<Car>,
    /// Cars still under way.
    pub cars: Vec<Car>,
}

/// Every car of a sequence satisfies the physical invariant.
pub open spec fn cars_wf(s: Seq<Car>, st: SettingView) -> bool {
    forall|i: int| 0 <= i < s.len() ==> #[trigger] s[i].wf(st)
}

/// Every car of a sequence carries a well-formed pending action.
pub open spec fn cars_action_wf(s: Seq<Car>, st: SettingView) -> bool {
    forall|i: int| 0 <= i < s.len() ==> #[trigger] s[i].action_wf(st)
}

impl RoundaboutSim {
    /// The engine invariant: valid settings, a bounded car count and every
    /// active car physically well-formed.
    pub open spec fn wf(self) -> bool {
        &&& self.setting@.wf()
        &&& self.cars@.len() <= N_CARS_MAX
        &&& cars_wf(self.cars@, self.setting@)
    }
}

/// An initial car description that the given settings accept.
pub open spec fn spec_init_ok(ci: CarInit, st: SettingView) -> bool {
    &&& ci.lane < st.r_lanes.len()
    &&& 1 <= ci.vel <= V_MAX
    &&& ci.dst < st.n_inter
    &&& ci.theta < TAU
}

/// The car a valid initial description produces: placed exactly on its
/// lane's radius, aimed at the destination intersection's angle on the
/// outermost lane, initially going straight under the default strategy.
pub open spec fn spec_car_from_init(ci: CarInit, st: SettingView) -> Car {
    Car {
        id: ci.id,
        theta: ci.theta,
        r: st.r_lanes[ci.lane as int],
        vel: ci.vel,
        lane: ci.lane,
        dst_theta: (TAU * ci.dst / st.n_inter as int) as u64,
        action: Action::Straight,
        driver: Driver::Simple,
    }
}

impl RoundaboutSim {
    /// Builds an engine from validated settings and an initial car list.
    /// Returns `None` exactly when the settings are invalid or some car
    /// description is out of range; construction then fails completely.
    pub fn new(setting: RoundaboutSimSetting, init: &Vec<CarInit>) -> (r: Option<RoundaboutSim>)
        ensures
            r is Some <==> {
                &&& setting@.wf()
                &&& init@.len() <= N_CARS_MAX
                &&& forall|i: int|
                    0 <= i < init@.len() ==> spec_init_ok(#[trigger] init@[i], setting@)
            },
            r matches Some(sim) ==> {
                &&& sim.t == 0
                &&& sim.setting == setting
                &&& sim.finished_cars@ == Seq::<Car>::empty()
                &&& sim.cars@ == init@.map_values(
                    |ci: CarInit| spec_car_from_init(ci, setting@),
                )
                &&& sim.wf()
            },
    {
        if !setting.is_valid() {
            return None;
        }
        if init.len() > N_CARS_MAX {
            return None;
        }
        let mut cars: Vec<Car> = Vec::new();
        let mut i: usize = 0;
        while i < init.len()
            invariant
                i <= init@.len(),
                setting@.wf(),
                forall|j: int| 0 <= j < i ==> spec_init_ok(#[trigger] init@[j], setting@),
                cars@ == init@.take(i as int).map_values(
                    |ci: CarInit| spec_car_from_init(ci, setting@),
                ),
                cars_wf(cars@, setting@),
            decreases init@.len() - i,
        {
            let ci = init[i];
            if !(ci.lane < setting.r_lanes.len() && 1 <= ci.vel && ci.vel <= V_MAX && ci.dst
                < setting.n_inter && ci.theta < TAU) {
                return None;
            }
            proof {
                crate::common::lemma_mul_le(
                    TAU as int,
                    ci.dst as int,
                    TAU as int,
                    crate::setting::N_INTER_MAX as int,
                );
                let ghost d = ci.dst as int;
                let ghost n = setting@.n_inter as int;
                assert((TAU as int * d) / n < TAU as int) by (nonlinear_arith)
                    requires
                        0 <= d < n,
                ;
            }
            let dst_theta = TAU * (ci.dst as u64) / (setting.n_inter as u64);
            let car = Car {
                id: ci.id,
                theta: ci.theta,
                r: setting.r_lanes[ci.lane],
                vel: ci.vel,
                lane: ci.lane,
                dst_theta,
                action: Action::Straight,
                driver: Driver::Simple,
            };
            cars.push(car);
            proof {
                assert(car == spec_car_from_init(ci, setting@));
                assert(init@.take(i + 1).drop_last() =~= init@.take(i as int));
                assert(init@.take(i + 1).map_values(
                    |ci: CarInit| spec_car_from_init(ci, setting@),
                ) =~= init@.take(i as int).map_values(
                    |ci: CarInit| spec_car_from_init(ci, setting@),
                ).push(car));
            }
            i += 1;
        }
        proof {
            assert(init@.take(init@.len() as int) =~= init@);
        }
        Some(
            RoundaboutSim {
                t: 0,
                setting,
                finished_cars: Vec::new(),
                cars,
            },
        )
    }
}

// ------------------------------------------------------------------
// Step phase 1: stable sort of the active cars by angular position.
// ------------------------------------------------------------------
/// Where a car is inserted into an angularly sorted sequence: after every
/// car whose angle does not exceed its own, which keeps the sort stable.
pub open spec fn spec_insert_pos(s: Seq<Car>, c: Car) -> int
    decreases s.len(),
{
    if s.len() == 0 {
        0
    } else if s[0].theta <= c.theta {
        1 + spec_insert_pos(s.drop_first(), c)
    } else {
        0
    }
}

/// One stable insertion into an angularly sorted sequence.
pub open spec fn spec_insert_sorted(s: Seq<Car>, c: Car) -> Seq<Car> {
    s.insert(spec_insert_pos(s, c), c)
}

/// The angularly sorted, stable rearrangement of a car sequence.
pub open spec fn spec_sort_cars(s: Seq<Car>) -> Seq<Car>
    decreases s.len(),
{
    if s.len() == 0 {
        Seq::empty()
    } else {
        spec_insert_sorted(spec_sort_cars(s.drop_last()), s.last())
    }
}

proof fn lemma_insert_pos_bounds(s: Seq<Car>, c: Car)
    ensures
        0 <= spec_insert_pos(s, c) <= s.len(),
    decreases s.len(),
{
    if s.len() > 0 && s[0].theta <= c.theta {
        lemma_insert_pos_bounds(s.drop_first(), c);
    }
}

proof fn lemma_insert_pos_char(s: Seq<Car>, c: Car, k: int)
    requires
        0 <= k <= s.len(),
        forall|j: int| 0 <= j < k ==> #[trigger] s[j].theta <= c.theta,
        k < s.len() ==> s[k].theta > c.theta,
    ensures
        spec_insert_pos(s, c) == k,
    decreases s.len(),
{
    if s.len() == 0 {
    } else if s[0].theta <= c.theta {
        assert(k >= 1);
        assert forall|j: int| 0 <= j < k - 1 implies #[trigger] s.drop_first()[j].theta
            <= c.theta by {
            assert(s.drop_first()[j] == s[j + 1]);
        }
        lemma_insert_pos_char(s.drop_first(), c, k - 1);
    } else {
        assert(k == 0);
    }
}

/// Elementwise content of one stable insertion: one slot holds the new car,
/// every other car of the result stands in the input.
proof fn lemma_insert_sorted_props(s: Seq<Car>, c: Car)
    ensures
        spec_insert_sorted(s, c).len() == s.len() + 1,
        forall|x: Car| #![trigger spec_insert_sorted(s, c).contains(x)]
            spec_insert_sorted(s, c).contains(x) <==> (s.contains(x) || x == c),
    decreases s.len(),
{
    lemma_insert_pos_bounds(s, c);
    let pos = spec_insert_pos(s, c);
    let r = spec_insert_sorted(s, c);
    s.insert_ensures(pos, c);
    assert forall|x: Car| r.contains(x) implies (s.contains(x) || x == c) by {
        let i = choose|i: int| 0 <= i < r.len() && r[i] == x;
        if i < pos {
            assert(s[i] == x);
        } else if i > pos {
            assert(s[i - 1] == x);
        }
    }
    assert forall|x: Car| (s.contains(x) || x == c) implies r.contains(x) by {
        if x == c {
            assert(r[pos] == x);
        } else {
            let i = choose|i: int| 0 <= i < s.len() && s[i] == x;
            if i < pos {
                assert(r[i] == x);
            } else {
                assert(r[i + 1] == x);
            }
        }
    }
}

/// A sort neither adds nor loses cars: same length, same members.
pub proof fn lemma_sort_cars_props(s: Seq<Car>)
    ensures
        spec_sort_cars(s).len() == s.len(),
        forall|x: Car| spec_sort_cars(s).contains(x) <==> s.contains(x),
    decreases s.len(),
{
    if s.len() > 0 {
        lemma_sort_cars_props(s.drop_last());
        lemma_insert_sorted_props(spec_sort_cars(s.drop_last()), s.last());
        assert(spec_sort_cars(s) == spec_insert_sorted(spec_sort_cars(s.drop_last()), s.last()));
        assert forall|x: Car| spec_sort_cars(s).contains(x) implies s.contains(x) by {
            assert(spec_insert_sorted(spec_sort_cars(s.drop_last()), s.last()).contains(x));
            if s.drop_last().contains(x) {
                let i = choose|i: int| 0 <= i < s.drop_last().len() && s.drop_last()[i] == x;
                assert(s[i] == x);
                assert(s.contains(x));
            } else {
                assert(x == s.last());
                assert(s[s.len() - 1] == x);
                assert(s.contains(x));
            }
        }
        assert forall|x: Car| s.contains(x) implies spec_sort_cars(s).contains(x) by {
            let i = choose|i: int| 0 <= i < s.len() && s[i] == x;
            if i < s.len() - 1 {
                assert(s.drop_last()[i] == x);
                assert(s.drop_last().contains(x));
                assert(spec_sort_cars(s.drop_last()).contains(x));
            } else {
                assert(x == s.last());
            }
            assert(spec_insert_sorted(spec_sort_cars(s.drop_last()), s.last()).contains(x));
        }
    }
}

/// Angular position is non-decreasing along a sequence.
pub open spec fn sorted_by_theta(s: Seq<Car>) -> bool {
    forall|i: int, j: int|
        0 <= i < j < s.len() ==> #[trigger] s[i].theta <= #[trigger] s[j].theta
}

proof fn lemma_insert_pos_front(s: Seq<Car>, c: Car)
    ensures
        forall|j: int| 0 <= j < spec_insert_pos(s, c) ==> #[trigger] s[j].theta <= c.theta,
        spec_insert_pos(s, c) < s.len() ==> s[spec_insert_pos(s, c)].theta > c.theta,
    decreases s.len(),
{
    if s.len() > 0 && s[0].theta <= c.theta {
        lemma_insert_pos_front(s.drop_first(), c);
        lemma_insert_pos_bounds(s.drop_first(), c);
        let pos = spec_insert_pos(s, c);
        let pos1 = spec_insert_pos(s.drop_first(), c);
        assert(pos == 1 + pos1);
        assert forall|j: int| 0 <= j < pos implies #[trigger] s[j].theta <= c.theta by {
            if j > 0 {
                assert(s.drop_first()[j - 1] == s[j]);
                assert(s.drop_first()[j - 1].theta <= c.theta);
            }
        }
        if pos < s.len() {
            assert(pos1 < s.drop_first().len());
            assert(s.drop_first()[pos1].theta > c.theta);
            assert(s.drop_first()[pos1] == s[pos1 + 1]);
        }
    }
}

/// A stable insertion keeps the sequence sorted by angle.
proof fn lemma_insert_sorted_sorted(s: Seq<Car>, c: Car)
    requires
        sorted_by_theta(s),
    ensures
        sorted_by_theta(spec_insert_sorted(s, c)),
{
    lemma_insert_pos_bounds(s, c);
    lemma_insert_pos_front(s, c);
    let pos = spec_insert_pos(s, c);
    let r = spec_insert_sorted(s, c);
    s.insert_ensures(pos, c);
    assert forall|i: int, j: int| 0 <= i < j < r.len() implies #[trigger] r[i].theta
        <= #[trigger] r[j].theta by {
        if i < pos {
            assert(r[i] == s[i]);
        } else if i > pos {
            assert(r[i] == s[i - 1]);
        }
        if j < pos {
            assert(r[j] == s[j]);
        } else if j > pos {
            assert(r[j] == s[j - 1]);
        }
    }
}

/// The sort of the active cars indeed orders them by angular position.
pub proof fn lemma_sort_cars_sorted(s: Seq<Car>)
    ensures
        sorted_by_theta(spec_sort_cars(s)),
    decreases s.len(),
{
    if s.len() > 0 {
        lemma_sort_cars_sorted(s.drop_last());
        lemma_insert_sorted_sorted(spec_sort_cars(s.drop_last()), s.last());
    }
}

/// The physical invariant survives sorting.
pub proof fn lemma_sort_cars_wf(s: Seq<Car>, st: SettingView)
    requires
        cars_wf(s, st),
    ensures
        cars_wf(spec_sort_cars(s), st),
{
    lemma_sort_cars_props(s);
    let r = spec_sort_cars(s);
    assert forall|i: int| 0 <= i < r.len() implies #[trigger] r[i].wf(st) by {
        assert(r.contains(r[i]));
        assert(s.contains(r[i]));
        let j = choose|j: int| 0 <= j < s.len() && s[j] == r[i];
        assert(s[j].wf(st));
    }
}

/// The stable insertion point of a car within a sorted prefix.
fn insert_position(out: &Vec<Car>, c: &Car) -> (k: usize)
    ensures
        k == spec_insert_pos(out@, *c),
        k <= out@.len(),
{
    let mut k: usize = 0;
    while k < out.len() && out[k].theta <= c.theta
        invariant
            k <= out@.len(),
            forall|j: int| 0 <= j < k ==> #[trigger] out@[j].theta <= c.theta,
        decreases out@.len() - k,
    {
        k += 1;
    }
    proof {
        lemma_insert_pos_char(out@, *c, k as int);
    }
    k
}

/// Sorts the active cars by angular position, stably.
fn sort_cars(cars: &mut Vec<Car>)
    ensures
        final(cars)@ == spec_sort_cars(old(cars)@),
{
    let ghost orig = cars@;
    let mut out: Vec<Car> = Vec::new();
    let mut i: usize = 0;
    while i < cars.len()
        invariant
            i <= cars@.len(),
            cars@ == orig,
            out@ == spec_sort_cars(orig.take(i as int)),
        decreases cars@.len() - i,
    {
        let c = cars[i];
        let k = insert_position(&out, &c);
        out.insert(k, c);
        proof {
            assert(orig.take(i + 1).drop_last() =~= orig.take(i as int));
            assert(orig.take(i + 1).last() == orig[i as int]);
        }
        i += 1;
    }
    proof {
        assert(orig.take(orig.len() as int) =~= orig);
    }
    *cars = out;
}

// ------------------------------------------------------------------
// Step phase 2: action proposal and the alignment consistency guard.
// ------------------------------------------------------------------
/// The consistency guard: a car proposing `Straight` while its radius is
/// not aligned with its nominal lane is mid-switch, and is forcibly
/// downgraded to `Stop`; a `Switch(0)` is the halted-switch sentinel and
/// normalizes to `Stop` as well. Defensive checks against strategy
/// defects, not normal control flow.
pub open spec fn spec_guarded(a: Action, c: Car, st: SettingView) -> Action {
    match a {
        Action::Switch(d) => if d == 0 {
            Action::Stop
        } else {
            a
        },
        Action::Straight => if !spec_is_aligned(
            c.r as int,
            st.r_lanes[c.lane as int] as int,
            st.align_allow as int,
        ) {
            Action::Stop
        } else {
            a
        },
        Action::Stop => a,
    }
}

/// One car after proposal: its strategy's proposal, run through the guard.
pub open spec fn spec_proposed_car(c: Car, st: SettingView) -> Car {
    Car { action: spec_guarded(spec_drive(c.driver, c, st), c, st), ..c }
}

/// The whole active set after the proposal phase.
pub open spec fn spec_propose(s: Seq<Car>, st: SettingView) -> Seq<Car> {
    s.map_values(|c: Car| spec_proposed_car(c, st))
}

/// Proposal keeps the physical invariant and leaves every pending action
/// well-formed.
pub proof fn lemma_propose_wf(s: Seq<Car>, st: SettingView)
    requires
        st.wf(),
        cars_wf(s, st),
    ensures
        spec_propose(s, st).len() == s.len(),
        cars_wf(spec_propose(s, st), st),
        cars_action_wf(spec_propose(s, st), st),
{
    let r = spec_propose(s, st);
    assert forall|i: int| 0 <= i < r.len() implies #[trigger] r[i].wf(st) && r[i].action_wf(
        st,
    ) by {
        assert(s[i].wf(st));
        lemma_drive_action_wf(s[i].driver, s[i], st);
        assert(r[i] == spec_proposed_car(s[i], st));
    }
}

/// Runs every car's strategy and stores the guarded proposal.
fn propose_pass(cars: &mut Vec<Car>, setting: &RoundaboutSimSetting)
    requires
        setting@.wf(),
        cars_wf(old(cars)@, setting@),
    ensures
        final(cars)@ == spec_propose(old(cars)@, setting@),
{
    let ghost orig = cars@;
    let mut out: Vec<Car> = Vec::new();
    let mut i: usize = 0;
    while i < cars.len()
        invariant
            cars@ == orig,
            i <= orig.len(),
            setting@.wf(),
            cars_wf(orig, setting@),
            out@ == spec_propose(orig.take(i as int), setting@),
        decreases orig.len() - i,
    {
        let c = cars[i];
        proof {
            assert(orig[i as int].wf(setting@));
        }
        let proposal = c.driver.drive(&c, setting);
        let granted = match proposal {
            Action::Switch(d) => {
                if d == 0 {
                    Action::Stop
                } else {
                    proposal
                }
            },
            Action::Straight => {
                if !is_aligned(c.r, setting.r_lanes[c.lane], setting.align_allow) {
                    Action::Stop
                } else {
                    Action::Straight
                }
            },
            Action::Stop => Action::Stop,
        };
        out.push(Car { action: granted, ..c });
        proof {
            assert(orig.take(i + 1).drop_last() =~= orig.take(i as int));
            assert(spec_propose(orig.take(i + 1), setting@) =~= spec_propose(
                orig.take(i as int),
                setting@,
            ).push(spec_proposed_car(orig[i as int], setting@)));
        }
        i += 1;
    }
    proof {
        assert(orig.take(orig.len() as int) =~= orig);
    }
    *cars = out;
}

// ------------------------------------------------------------------
// Step phase 3: following collisions along each lane.
// ------------------------------------------------------------------
/// The next car in the same lane in cyclic angular order: within a sorted
/// sequence, the car that car `i` is following. `None` when it is alone in
/// its lane.
pub open spec fn spec_next_same_lane(s: Seq<Car>, i: int, off: int) -> Option<int>
    decreases s.len() - off,
{
    if off >= s.len() {
        None
    } else {
        let j = (i + off) % (s.len() as int);
        if j != i && s[j].lane == s[i].lane {
            Some(j)
        } else {
            spec_next_same_lane(s, i, off + 1)
        }
    }
}

/// The time until a straight-moving follower would reach its leader's
/// current angular position at its own speed; `None` when the follower is
/// not going straight.
pub open spec fn spec_straight_collision(follow: Car, precede: Car, st: SettingView) -> Option<
    u64,
> {
    if follow.action is Straight {
        let margin = spec_forward_dist(follow.theta as int, precede.theta as int);
        Some((margin * st.r_lanes[follow.lane as int] / follow.vel as int) as u64)
    } else {
        None
    }
}

/// The following-collision time of car `i` against the car it follows.
pub open spec fn spec_follow_candidate(s: Seq<Car>, st: SettingView, i: int) -> Option<u64> {
    match spec_next_same_lane(s, i, 1) {
        Some(j) => spec_straight_collision(s[i], s[j], st),
        None => None,
    }
}

/// Car `i`'s action after the following check: a follower due to collide
/// within the minimal threshold is halted, all else is untouched.
pub open spec fn spec_follow_action(s: Seq<Car>, st: SettingView, i: int) -> Action {
    match spec_follow_candidate(s, st, i) {
        Some(t) => if t <= st.min_update_tick {
            Action::Stop
        } else {
            s[i].action
        },
        None => s[i].action,
    }
}

/// The whole active set after the following check.
pub open spec fn spec_follow_cars(s: Seq<Car>, st: SettingView) -> Seq<Car> {
    Seq::new(s.len(), |i: int| Car { action: spec_follow_action(s, st, i), ..s[i] })
}

/// The tick after the following check: the ceiling, shrunk to the smallest
/// collision time that exceeds the minimal threshold among the first `n`
/// cars.
pub open spec fn spec_follow_tick(s: Seq<Car>, st: SettingView, n: int) -> u64
    decreases n,
{
    if n <= 0 {
        st.tick
    } else {
        let rest = spec_follow_tick(s, st, n - 1);
        match spec_follow_candidate(s, st, n - 1) {
            Some(t) => if t > st.min_update_tick && t < rest {
                t
            } else {
                rest
            },
            None => rest,
        }
    }
}

/// The tick after the following check is positive and never exceeds the
/// configured ceiling.
pub proof fn lemma_follow_tick_bounds(s: Seq<Car>, st: SettingView, n: int)
    requires
        st.wf(),
    ensures
        1 <= spec_follow_tick(s, st, n) <= st.tick,
    decreases n,
{
    if n > 0 {
        lemma_follow_tick_bounds(s, st, n - 1);
    }
}

/// Safety of the chosen tick: the following check's tick never exceeds
/// the collision time of any straight-moving follower it did not halt.
/// The later checks only shrink the tick further, so a follower's angular
/// sweep during the step stays within the gap to its leader.
pub proof fn lemma_follow_tick_safe(s: Seq<Car>, st: SettingView, n: int, i: int)
    requires
        0 <= i < n,
    ensures
        (match spec_follow_candidate(s, st, i) {
            Some(t) => t > st.min_update_tick ==> spec_follow_tick(s, st, n) <= t,
            None => true,
        }),
    decreases n,
{
    if i < n - 1 {
        lemma_follow_tick_safe(s, st, n - 1, i);
    }
}

/// Travelling for at most the follow-collision time `gap * r / v` covers
/// at most the gap itself: the tick bound really prevents passing the
/// leader's position.
pub proof fn lemma_sweep_within_gap(gap: int, r: int, v: int, t: int)
    requires
        0 <= gap,
        1 <= r,
        1 <= v,
        0 <= t <= gap * r / v,
    ensures
        v * t / r <= gap,
{
    assert(v * t <= gap * r) by (nonlinear_arith)
        requires
            1 <= v,
            0 <= t <= gap * r / v,
            0 <= gap,
            1 <= r,
    ;
    assert(v * t / r <= gap) by (nonlinear_arith)
        requires
            v * t <= gap * r,
            1 <= r,
            0 <= v * t,
    ;
}

/// The following check keeps the physical invariant and well-formed
/// actions.
pub proof fn lemma_follow_wf(s: Seq<Car>, st: SettingView)
    requires
        st.wf(),
        cars_wf(s, st),
        cars_action_wf(s, st),
    ensures
        spec_follow_cars(s, st).len() == s.len(),
        cars_wf(spec_follow_cars(s, st), st),
        cars_action_wf(spec_follow_cars(s, st), st),
{
    let r = spec_follow_cars(s, st);
    assert forall|i: int| 0 <= i < r.len() implies #[trigger] r[i].wf(st) && r[i].action_wf(
        st,
    ) by {
        assert(s[i].wf(st));
        assert(s[i].action_wf(st));
    }
}

/// The time for a straight-moving follower to reach its leader's position.
fn straight_collision(follow: &Car, precede: &Car, setting: &RoundaboutSimSetting) -> (r: Option<
    u64,
>)
    requires
        setting@.wf(),
        follow.wf(setting@),
        precede.theta < TAU,
    ensures
        r == spec_straight_collision(*follow, *precede, setting@),
{
    match follow.action {
        Action::Straight => {
            let margin = forward_dist(follow.theta, precede.theta);
            proof {
                lemma_mul_le(
                    margin as int,
                    setting@.r_lanes[follow.lane as int] as int,
                    TAU as int,
                    R_MAX as int,
                );
                lemma_div_bound(
                    margin as int * setting@.r_lanes[follow.lane as int] as int,
                    follow.vel as int,
                );
            }
            Some(margin * setting.r_lanes[follow.lane] / follow.vel)
        },
        _ => None,
    }
}

/// Finds the car that car `i` follows within its lane, if any.
fn next_same_lane(cars: &Vec<Car>, i: usize) -> (r: Option<usize>)
    requires
        i < cars@.len(),
        cars@.len() <= N_CARS_MAX,
    ensures
        r is Some <==> spec_next_same_lane(cars@, i as int, 1) is Some,
        r matches Some(j) ==> {
            &&& spec_next_same_lane(cars@, i as int, 1) == Some(j as int)
            &&& j < cars@.len()
            &&& j != i
        },
{
    let n = cars.len();
    let mut off: usize = 1;
    while off < n
        invariant
            1 <= off <= n,
            n == cars@.len(),
            i < n,
            n <= N_CARS_MAX,
            spec_next_same_lane(cars@, i as int, 1) == spec_next_same_lane(
                cars@,
                i as int,
                off as int,
            ),
        decreases n - off,
    {
        let j = (i + off) % n;
        if j != i && cars[j].lane == cars[i].lane {
            proof {
                assert(spec_next_same_lane(cars@, i as int, off as int) == Some(j as int));
            }
            return Some(j);
        }
        proof {
            assert(spec_next_same_lane(cars@, i as int, off as int) == spec_next_same_lane(
                cars@,
                i as int,
                off as int + 1,
            ));
        }
        off += 1;
    }
    None
}

/// Applies the following-collision check: halts followers due to collide
/// within the minimal threshold and returns the tick, shrunk by the
/// remaining collision times.
fn follow_pass(cars: &mut Vec<Car>, setting: &RoundaboutSimSetting) -> (tick: u64)
    requires
        setting@.wf(),
        cars_wf(old(cars)@, setting@),
        old(cars)@.len() <= N_CARS_MAX,
    ensures
        final(cars)@ == spec_follow_cars(old(cars)@, setting@),
        tick == spec_follow_tick(old(cars)@, setting@, old(cars)@.len() as int),
{
    let ghost orig = cars@;
    let mut out: Vec<Car> = Vec::new();
    let mut tick = setting.tick;
    let mut i: usize = 0;
    while i < cars.len()
        invariant
            cars@ == orig,
            i <= orig.len(),
            setting@.wf(),
            cars_wf(orig, setting@),
            orig.len() <= N_CARS_MAX,
            out@.len() == i,
            forall|k: int|
                0 <= k < i ==> out@[k] == (Car {
                    action: spec_follow_action(orig, setting@, k),
                    ..orig[k]
                }),
            tick == spec_follow_tick(orig, setting@, i as int),
        decreases orig.len() - i,
    {
        let c = cars[i];
        proof {
            assert(orig[i as int].wf(setting@));
        }
        let leader = next_same_lane(cars, i);
        let cand: Option<u64> = match leader {
            Some(j) => {
                proof {
                    assert(orig[j as int].wf(setting@));
                }
                straight_collision(&c, &cars[j], setting)
            },
            None => None,
        };
        proof {
            assert(cand == spec_follow_candidate(orig, setting@, i as int));
        }
        let mut newc = c;
        match cand {
            Some(tc) => {
                if tc <= setting.min_update_tick {
                    newc.action = Action::Stop;
                } else if tc < tick {
                    tick = tc;
                }
            },
            None => {},
        }
        out.push(newc);
        proof {
            assert(newc == (Car { action: spec_follow_action(orig, setting@, i as int), ..orig[i as int] }));
        }
        i += 1;
    }
    proof {
        assert(out@ =~= spec_follow_cars(orig, setting@));
    }
    *cars = out;
    tick
}

// ------------------------------------------------------------------
// Step phase 4: switch-into-lane conflicts, resolved under the policy.
// ------------------------------------------------------------------
/// The nearest index at or below `j` whose car occupies the given lane.
/// Within a sorted sequence this is the occupant angularly just before a
/// reference point, and from the top index the angularly last occupant.
pub open spec fn spec_scan_down(s: Seq<Car>, lane: int, j: int) -> Option<int>
    decreases j + 1,
{
    if j < 0 {
        None
    } else if s[j].lane == lane {
        Some(j)
    } else {
        spec_scan_down(s, lane, j - 1)
    }
}

proof fn lemma_scan_down_bounds(s: Seq<Car>, lane: int, j: int)
    requires
        j < s.len(),
    ensures
        spec_scan_down(s, lane, j) matches Some(k) ==> 0 <= k <= j && s[k].lane == lane,
    decreases j + 1,
{
    if j >= 0 && s[j].lane != lane {
        lemma_scan_down_bounds(s, lane, j - 1);
    }
}

/// A switch-into-lane hazard: the switching car's target point on the
/// destination lane falls within the angular arc a straight-moving occupant
/// of that lane will sweep during the tentative tick.
pub open spec fn spec_switch_collision(cs: Car, co: Car, st: SettingView, tick: u64) -> bool {
    if co.action is Straight {
        match cs.action {
            Action::Switch(d) => {
                let target = cs.lane + d as int;
                if target == co.lane {
                    let sweep = co.vel * tick / st.r_lanes[target] as int;
                    spec_forward_dist(co.theta as int, cs.theta as int) <= sweep
                } else {
                    false
                }
            },
            _ => false,
        }
    } else {
        false
    }
}

/// One resolved conflict between switching car `i` and straight-moving car
/// `j`: under `StraightFirst` the switching car is halted and its radius
/// normalized back onto its source lane; under `SwitchFirst` the
/// straight-moving car is halted instead.
pub open spec fn spec_apply_switch_conflict(
    s: Seq<Car>,
    st: SettingView,
    tick: u64,
    i: int,
    j: int,
) -> Seq<Car> {
    if spec_switch_collision(s[i], s[j], st, tick) {
        match st.switch_policy {
            SwitchPolicy::StraightFirst => s.update(
                i,
                Car { r: st.r_lanes[s[i].lane as int], action: Action::Stop, ..s[i] },
            ),
            SwitchPolicy::SwitchFirst => s.update(j, Car { action: Action::Stop, ..s[j] }),
        }
    } else {
        s
    }
}

/// The switch check for one car: a switching car is held against the
/// occupant angularly just before its target point in the destination lane
/// and against the angularly last occupant of that lane, which covers the
/// ring's wrap-around.
pub open spec fn spec_switch_step(s: Seq<Car>, st: SettingView, tick: u64, i: int) -> Seq<Car> {
    match s[i].action {
        Action::Switch(d) => {
            let target = s[i].lane + d as int;
            if 0 <= target < st.r_lanes.len() {
                let s1 = match spec_scan_down(s, target, i - 1) {
                    Some(j) => spec_apply_switch_conflict(s, st, tick, i, j),
                    None => s,
                };
                match spec_scan_down(s1, target, s1.len() - 1) {
                    Some(j) => spec_apply_switch_conflict(s1, st, tick, i, j),
                    None => s1,
                }
            } else {
                s
            }
        },
        _ => s,
    }
}

/// The whole active set after the switch check ran for the first `n` cars
/// in angular order.
pub open spec fn spec_switch_pass(s: Seq<Car>, st: SettingView, tick: u64, n: int) -> Seq<Car>
    decreases n,
{
    if n <= 0 {
        s
    } else {
        spec_switch_step(spec_switch_pass(s, st, tick, n - 1), st, tick, n - 1)
    }
}

proof fn lemma_apply_switch_conflict_wf(s: Seq<Car>, st: SettingView, tick: u64, i: int, j: int)
    requires
        st.wf(),
        cars_wf(s, st),
        cars_action_wf(s, st),
        0 <= i < s.len(),
        0 <= j < s.len(),
    ensures
        spec_apply_switch_conflict(s, st, tick, i, j).len() == s.len(),
        cars_wf(spec_apply_switch_conflict(s, st, tick, i, j), st),
        cars_action_wf(spec_apply_switch_conflict(s, st, tick, i, j), st),
{
    let r = spec_apply_switch_conflict(s, st, tick, i, j);
    assert(s[i].wf(st));
    assert(s[j].wf(st));
    assert forall|k: int| 0 <= k < r.len() implies #[trigger] r[k].wf(st) && r[k].action_wf(
        st,
    ) by {
        assert(s[k].wf(st));
        assert(s[k].action_wf(st));
    }
}

proof fn lemma_switch_step_wf(s: Seq<Car>, st: SettingView, tick: u64, i: int)
    requires
        st.wf(),
        cars_wf(s, st),
        cars_action_wf(s, st),
        0 <= i < s.len(),
    ensures
        spec_switch_step(s, st, tick, i).len() == s.len(),
        cars_wf(spec_switch_step(s, st, tick, i), st),
        cars_action_wf(spec_switch_step(s, st, tick, i), st),
{
    match s[i].action {
        Action::Switch(d) => {
            let target = s[i].lane + d as int;
            if 0 <= target < st.r_lanes.len() {
                lemma_scan_down_bounds(s, target, i - 1);
                let s1 = match spec_scan_down(s, target, i - 1) {
                    Some(j) => {
                        lemma_apply_switch_conflict_wf(s, st, tick, i, j);
                        spec_apply_switch_conflict(s, st, tick, i, j)
                    },
                    None => s,
                };
                lemma_scan_down_bounds(s1, target, s1.len() - 1);
                match spec_scan_down(s1, target, s1.len() - 1) {
                    Some(j) => {
                        lemma_apply_switch_conflict_wf(s1, st, tick, i, j);
                    },
                    None => {},
                }
            }
        },
        _ => {},
    }
}

/// The switch check keeps lengths, the physical invariant and well-formed
/// actions.
pub proof fn lemma_switch_pass_wf(s: Seq<Car>, st: SettingView, tick: u64, n: int)
    requires
        st.wf(),
        cars_wf(s, st),
        cars_action_wf(s, st),
        n <= s.len(),
    ensures
        spec_switch_pass(s, st, tick, n).len() == s.len(),
        cars_wf(spec_switch_pass(s, st, tick, n), st),
        cars_action_wf(spec_switch_pass(s, st, tick, n), st),
    decreases n,
{
    if n > 0 {
        lemma_switch_pass_wf(s, st, tick, n - 1);
        lemma_switch_step_wf(spec_switch_pass(s, st, tick, n - 1), st, tick, n - 1);
    }
}

/// Whether a switching car and a straight-moving occupant of its target
/// lane are due to collide within the tentative tick.
fn switch_collision(
    car_switch: &Car,
    car_other: &Car,
    setting: &RoundaboutSimSetting,
    tick: u64,
) -> (b: bool)
    requires
        setting@.wf(),
        car_switch.wf(setting@),
        car_switch.action_wf(setting@),
        car_other.theta < TAU,
        car_other.vel <= V_MAX,
        tick <= setting@.tick,
    ensures
        b == spec_switch_collision(*car_switch, *car_other, setting@, tick),
{
    match car_other.action {
        Action::Straight => {
            match car_switch.action {
                Action::Switch(d) => {
                    let target: usize = if d == 1 {
                        car_switch.lane + 1
                    } else {
                        car_switch.lane - 1
                    };
                    if target == car_other.lane {
                        proof {
                            lemma_mul_le(
                                car_other.vel as int,
                                tick as int,
                                V_MAX as int,
                                crate::setting::T_MAX as int,
                            );
                            lemma_div_bound(
                                car_other.vel as int * tick as int,
                                setting@.r_lanes[target as int] as int,
                            );
                        }
                        let sweep = car_other.vel * tick / setting.r_lanes[target];
                        forward_dist(car_other.theta, car_switch.theta) <= sweep
                    } else {
                        false
                    }
                },
                _ => false,
            }
        },
        _ => false,
    }
}

/// Resolves one switch conflict pair under the configured policy.
fn apply_switch_conflict(
    cars: &mut Vec<Car>,
    setting: &RoundaboutSimSetting,
    tick: u64,
    i: usize,
    j: usize,
)
    requires
        setting@.wf(),
        cars_wf(old(cars)@, setting@),
        cars_action_wf(old(cars)@, setting@),
        i < old(cars)@.len(),
        j < old(cars)@.len(),
        tick <= setting@.tick,
    ensures
        final(cars)@ == spec_apply_switch_conflict(old(cars)@, setting@, tick, i as int, j as int),
{
    proof {
        assert(cars@[i as int].wf(setting@));
        assert(cars@[i as int].action_wf(setting@));
        assert(cars@[j as int].wf(setting@));
    }
    let collide = switch_collision(&cars[i], &cars[j], setting, tick);
    if collide {
        match setting.switch_policy {
            SwitchPolicy::StraightFirst => {
                let mut c = cars[i];
                c.r = setting.r_lanes[c.lane];
                c.action = Action::Stop;
                cars.set(i, c);
            },
            SwitchPolicy::SwitchFirst => {
                let mut c = cars[j];
                c.action = Action::Stop;
                cars.set(j, c);
            },
        }
    }
}

/// The nearest occupant of a lane at an index below `from`, scanning down.
fn scan_down(cars: &Vec<Car>, lane: usize, from: usize) -> (r: Option<usize>)
    requires
        from <= cars@.len(),
    ensures
        r is Some <==> spec_scan_down(cars@, lane as int, from as int - 1) is Some,
        r matches Some(j) ==> {
            &&& spec_scan_down(cars@, lane as int, from as int - 1) == Some(j as int)
            &&& j < from
        },
{
    let mut k = from;
    while k > 0
        invariant
            k <= from,
            from <= cars@.len(),
            spec_scan_down(cars@, lane as int, from as int - 1) == spec_scan_down(
                cars@,
                lane as int,
                k as int - 1,
            ),
        decreases k,
    {
        if cars[k - 1].lane == lane {
            proof {
                assert(spec_scan_down(cars@, lane as int, k as int - 1) == Some(k as int - 1));
            }
            return Some(k - 1);
        }
        proof {
            assert(spec_scan_down(cars@, lane as int, k as int - 1) == spec_scan_down(
                cars@,
                lane as int,
                k as int - 2,
            ));
        }
        k -= 1;
    }
    None
}

/// The switch check for the car at sorted position `i`.
fn switch_step(cars: &mut Vec<Car>, setting: &RoundaboutSimSetting, tick: u64, i: usize)
    requires
        setting@.wf(),
        cars_wf(old(cars)@, setting@),
        cars_action_wf(old(cars)@, setting@),
        i < old(cars)@.len(),
        tick <= setting@.tick,
    ensures
        final(cars)@ == spec_switch_step(old(cars)@, setting@, tick, i as int),
{
    let ghost s0 = cars@;
    let d_opt: Option<i32> = match cars[i].action {
        Action::Switch(d) => Some(d),
        _ => None,
    };
    match d_opt {
        Some(d) => {
            proof {
                assert(cars@[i as int].wf(setting@));
                assert(cars@[i as int].action_wf(setting@));
            }
            let target: usize = if d == 1 {
                cars[i].lane + 1
            } else {
                cars[i].lane - 1
            };
            match scan_down(cars, target, i) {
                Some(j) => {
                    apply_switch_conflict(cars, setting, tick, i, j);
                    proof {
                        lemma_apply_switch_conflict_wf(s0, setting@, tick, i as int, j as int);
                    }
                },
                None => {},
            }
            let n = cars.len();
            match scan_down(cars, target, n) {
                Some(j) => {
                    apply_switch_conflict(cars, setting, tick, i, j);
                },
                None => {},
            }
        },
        None => {},
    }
}

/// Runs the switch-into-lane check over every car in angular order.
fn switch_pass(cars: &mut Vec<Car>, setting: &RoundaboutSimSetting, tick: u64)
    requires
        setting@.wf(),
        cars_wf(old(cars)@, setting@),
        cars_action_wf(old(cars)@, setting@),
        tick <= setting@.tick,
    ensures
        final(cars)@ == spec_switch_pass(old(cars)@, setting@, tick, old(cars)@.len() as int),
{
    let ghost s0 = cars@;
    let mut i: usize = 0;
    while i < cars.len()
        invariant
            setting@.wf(),
            tick <= setting@.tick,
            cars_wf(s0, setting@),
            cars_action_wf(s0, setting@),
            i <= s0.len(),
            cars@ == spec_switch_pass(s0, setting@, tick, i as int),
            cars@.len() == s0.len(),
            cars_wf(cars@, setting@),
            cars_action_wf(cars@, setting@),
        decreases s0.len() - i,
    {
        switch_step(cars, setting, tick, i);
        proof {
            lemma_switch_step_wf(
                spec_switch_pass(s0, setting@, tick, i as int),
                setting@,
                tick,
                i as int,
            );
        }
        i += 1;
    }
}

// ------------------------------------------------------------------
// Step phase 5: side collisions between simultaneous switches.
// ------------------------------------------------------------------
/// The radial direction of a pending action: `1` inward, `-1` outward,
/// `0` for anything else.
pub open spec fn spec_switch_dir(a: Action) -> int {
    match a {
        Action::Switch(d) => d as int,
        _ => 0,
    }
}

/// A side-collision hazard exists between two cars both switching in the
/// same radial direction out of the same lane while angularly within half
/// the angular tolerance of one another.
pub open spec fn spec_side_pair_applies(a: Car, b: Car, st: SettingView) -> bool {
    match a.action {
        Action::Switch(da) => match b.action {
            Action::Switch(db) => {
                &&& da == db
                &&& a.lane == b.lane
                &&& spec_circ_dist(a.theta as int, b.theta as int) <= st.theta_allow as int / 2
            },
            _ => false,
        },
        _ => false,
    }
}

/// The rear car of a same-direction pair: the one farther from the shared
/// target lane — the larger radius when switching inward, the smaller when
/// switching outward; equal radii fall to the later sorted position.
pub open spec fn spec_side_rear(s: Seq<Car>, i: int, j: int) -> int {
    let a = s[i];
    let b = s[j];
    if a.r == b.r {
        if i > j {
            i
        } else {
            j
        }
    } else if spec_switch_dir(a.action) == 1 {
        if a.r > b.r {
            i
        } else {
            j
        }
    } else {
        if a.r < b.r {
            i
        } else {
            j
        }
    }
}

/// One examined ordered pair of the side check. When the rear car closes on
/// the front one, contact within the minimal threshold halts the rear car;
/// later contact within the tentative tick clamps the tick to the time of
/// contact.
pub open spec fn spec_side_apply(s: Seq<Car>, st: SettingView, tick: u64, i: int, j: int) -> (
    Seq<Car>,
    u64,
) {
    if i != j && spec_side_pair_applies(s[i], s[j], st) {
        let rear = spec_side_rear(s, i, j);
        let front = if rear == i {
            j
        } else {
            i
        };
        let dr = if s[i].r >= s[j].r {
            s[i].r - s[j].r
        } else {
            s[j].r - s[i].r
        };
        if dr == 0 {
            (s.update(rear, Car { action: Action::Stop, ..s[rear] }), tick)
        } else if s[rear].vel > s[front].vel {
            let tc = (dr * SCALE / (s[rear].vel - s[front].vel)) as u64;
            if tc <= st.min_update_tick {
                (s.update(rear, Car { action: Action::Stop, ..s[rear] }), tick)
            } else if tc < tick {
                (s, tc)
            } else {
                (s, tick)
            }
        } else {
            (s, tick)
        }
    } else {
        (s, tick)
    }
}

/// The side check of car `i` against the first `m` cars, in order.
pub open spec fn spec_side_inner(s: Seq<Car>, st: SettingView, tick: u64, i: int, m: int) -> (
    Seq<Car>,
    u64,
)
    decreases m,
{
    if m <= 0 {
        (s, tick)
    } else {
        let r = spec_side_inner(s, st, tick, i, m - 1);
        spec_side_apply(r.0, st, r.1, i, m - 1)
    }
}

/// The active set and tick after the side check ran for the first `n` cars.
pub open spec fn spec_side_pass(s: Seq<Car>, st: SettingView, tick: u64, n: int) -> (Seq<Car>, u64)
    decreases n,
{
    if n <= 0 {
        (s, tick)
    } else {
        let r = spec_side_pass(s, st, tick, n - 1);
        spec_side_inner(r.0, st, r.1, n - 1, r.0.len() as int)
    }
}

proof fn lemma_side_apply_wf(s: Seq<Car>, st: SettingView, tick: u64, i: int, j: int)
    requires
        st.wf(),
        cars_wf(s, st),
        cars_action_wf(s, st),
        0 <= i < s.len(),
        0 <= j < s.len(),
        1 <= tick,
    ensures
        spec_side_apply(s, st, tick, i, j).0.len() == s.len(),
        cars_wf(spec_side_apply(s, st, tick, i, j).0, st),
        cars_action_wf(spec_side_apply(s, st, tick, i, j).0, st),
        1 <= spec_side_apply(s, st, tick, i, j).1 <= tick,
{
    let r = spec_side_apply(s, st, tick, i, j).0;
    assert(s[i].wf(st));
    assert(s[j].wf(st));
    assert forall|k: int| 0 <= k < r.len() implies #[trigger] r[k].wf(st) && r[k].action_wf(
        st,
    ) by {
        assert(s[k].wf(st));
        assert(s[k].action_wf(st));
    }
}

proof fn lemma_side_inner_wf(s: Seq<Car>, st: SettingView, tick: u64, i: int, m: int)
    requires
        st.wf(),
        cars_wf(s, st),
        cars_action_wf(s, st),
        0 <= i < s.len(),
        m <= s.len(),
        1 <= tick,
    ensures
        spec_side_inner(s, st, tick, i, m).0.len() == s.len(),
        cars_wf(spec_side_inner(s, st, tick, i, m).0, st),
        cars_action_wf(spec_side_inner(s, st, tick, i, m).0, st),
        1 <= spec_side_inner(s, st, tick, i, m).1 <= tick,
    decreases m,
{
    if m > 0 {
        lemma_side_inner_wf(s, st, tick, i, m - 1);
        let r = spec_side_inner(s, st, tick, i, m - 1);
        lemma_side_apply_wf(r.0, st, r.1, i, m - 1);
    }
}

/// The side check keeps lengths, invariants and well-formed actions, and
/// only ever shrinks the tick, never below one time unit.
pub proof fn lemma_side_pass_wf(s: Seq<Car>, st: SettingView, tick: u64, n: int)
    requires
        st.wf(),
        cars_wf(s, st),
        cars_action_wf(s, st),
        n <= s.len(),
        1 <= tick,
    ensures
        spec_side_pass(s, st, tick, n).0.len() == s.len(),
        cars_wf(spec_side_pass(s, st, tick, n).0, st),
        cars_action_wf(spec_side_pass(s, st, tick, n).0, st),
        1 <= spec_side_pass(s, st, tick, n).1 <= tick,
    decreases n,
{
    if n > 0 {
        lemma_side_pass_wf(s, st, tick, n - 1);
        let r = spec_side_pass(s, st, tick, n - 1);
        lemma_side_inner_wf(r.0, st, r.1, n - 1, r.0.len() as int);
    }
}

/// Examines one ordered pair of the side check and resolves any hazard.
fn side_apply(cars: &mut Vec<Car>, setting: &RoundaboutSimSetting, tick: u64, i: usize, j: usize) -> (newtick: u64)
    requires
        setting@.wf(),
        cars_wf(old(cars)@, setting@),
        cars_action_wf(old(cars)@, setting@),
        i < old(cars)@.len(),
        j < old(cars)@.len(),
    ensures
        final(cars)@ == spec_side_apply(old(cars)@, setting@, tick, i as int, j as int).0,
        newtick == spec_side_apply(old(cars)@, setting@, tick, i as int, j as int).1,
{
    if i == j {
        return tick;
    }
    let a = cars[i];
    let b = cars[j];
    proof {
        assert(cars@[i as int].wf(setting@));
        assert(cars@[j as int].wf(setting@));
    }
    let da: i32 = match a.action {
        Action::Switch(d) => d,
        _ => {
            return tick;
        },
    };
    let db: i32 = match b.action {
        Action::Switch(d) => d,
        _ => {
            return tick;
        },
    };
    if !(da == db && a.lane == b.lane && crate::common::circ_dist(a.theta, b.theta)
        <= setting.theta_allow / 2) {
        return tick;
    }
    let rear_is_i: bool = if a.r == b.r {
        i > j
    } else if da == 1 {
        a.r > b.r
    } else {
        a.r < b.r
    };
    let (rear, front) = if rear_is_i {
        (i, j)
    } else {
        (j, i)
    };
    let dr = if a.r >= b.r {
        a.r - b.r
    } else {
        b.r - a.r
    };
    if dr == 0 {
        let mut c = cars[rear];
        c.action = Action::Stop;
        cars.set(rear, c);
        return tick;
    }
    let v_rear = cars[rear].vel;
    let v_front = cars[front].vel;
    if v_rear > v_front {
        proof {
            lemma_mul_le(dr as int, SCALE as int, R_MAX as int, SCALE as int);
            lemma_div_bound(dr as int * SCALE as int, v_rear as int - v_front as int);
        }
        let tc = dr * SCALE / (v_rear - v_front);
        if tc <= setting.min_update_tick {
            let mut c = cars[rear];
            c.action = Action::Stop;
            cars.set(rear, c);
            tick
        } else if tc < tick {
            tc
        } else {
            tick
        }
    } else {
        tick
    }
}

/// Runs the side-collision check over every ordered pair of cars.
fn side_pass(cars: &mut Vec<Car>, setting: &RoundaboutSimSetting, tick0: u64) -> (tick: u64)
    requires
        setting@.wf(),
        cars_wf(old(cars)@, setting@),
        cars_action_wf(old(cars)@, setting@),
        1 <= tick0 <= setting@.tick,
    ensures
        final(cars)@ == spec_side_pass(old(cars)@, setting@, tick0, old(cars)@.len() as int).0,
        tick == spec_side_pass(old(cars)@, setting@, tick0, old(cars)@.len() as int).1,
{
    let ghost s0 = cars@;
    let mut tick = tick0;
    let mut i: usize = 0;
    while i < cars.len()
        invariant
            setting@.wf(),
            cars_wf(s0, setting@),
            cars_action_wf(s0, setting@),
            1 <= tick0 <= setting@.tick,
            i <= s0.len(),
            cars@ == spec_side_pass(s0, setting@, tick0, i as int).0,
            tick == spec_side_pass(s0, setting@, tick0, i as int).1,
            cars@.len() == s0.len(),
            cars_wf(cars@, setting@),
            cars_action_wf(cars@, setting@),
            1 <= tick <= tick0,
        decreases s0.len() - i,
    {
        let ghost si = cars@;
        let ghost ti = tick;
        let mut j: usize = 0;
        while j < cars.len()
            invariant
                setting@.wf(),
                cars_wf(si, setting@),
                cars_action_wf(si, setting@),
                i < si.len(),
                j <= si.len(),
                1 <= ti,
                cars@ == spec_side_inner(si, setting@, ti, i as int, j as int).0,
                tick == spec_side_inner(si, setting@, ti, i as int, j as int).1,
                cars@.len() == si.len(),
                cars_wf(cars@, setting@),
                cars_action_wf(cars@, setting@),
                1 <= tick <= ti,
            decreases si.len() - j,
        {
            tick = side_apply(cars, setting, tick, i, j);
            proof {
                lemma_side_apply_wf(
                    spec_side_inner(si, setting@, ti, i as int, j as int).0,
                    setting@,
                    spec_side_inner(si, setting@, ti, i as int, j as int).1,
                    i as int,
                    j as int,
                );
            }
            j += 1;
        }
        proof {
            lemma_side_inner_wf(si, setting@, ti, i as int, si.len() as int);
        }
        i += 1;
    }
    tick
}

// ------------------------------------------------------------------
// Step phases 6 and 7: physical integration and completion bookkeeping.
// ------------------------------------------------------------------
/// The whole active set after physical integration over the final tick.
pub open spec fn spec_integrate(s: Seq<Car>, st: SettingView, tick: u64) -> Seq<Car> {
    s.map_values(|c: Car| c.spec_updated(tick, st))
}

/// The integrated cars not yet finished, in order.
pub open spec fn spec_partition_active(s: Seq<Car>, st: SettingView) -> Seq<Car>
    decreases s.len(),
{
    if s.len() == 0 {
        Seq::empty()
    } else {
        let rest = spec_partition_active(s.drop_last(), st);
        if s.last().spec_finished(st) {
            rest
        } else {
            rest.push(s.last())
        }
    }
}

/// The integrated cars that are now finished, in completion order.
pub open spec fn spec_partition_finished(s: Seq<Car>, st: SettingView) -> Seq<Car>
    decreases s.len(),
{
    if s.len() == 0 {
        Seq::empty()
    } else {
        let rest = spec_partition_finished(s.drop_last(), st);
        if s.last().spec_finished(st) {
            rest.push(s.last())
        } else {
            rest
        }
    }
}

/// Completion bookkeeping conserves cars: every integrated car lands in
/// exactly one of the two lists.
pub proof fn lemma_partition_lens(s: Seq<Car>, st: SettingView)
    ensures
        spec_partition_active(s, st).len() + spec_partition_finished(s, st).len() == s.len(),
    decreases s.len(),
{
    if s.len() > 0 {
        lemma_partition_lens(s.drop_last(), st);
    }
}

/// A finalized action that moves its car this step.
pub open spec fn spec_moves(c: Car) -> bool {
    !(c.action is Stop)
}

/// Some car's finalized action moves it this step.
pub open spec fn spec_has_progress(s: Seq<Car>) -> bool {
    exists|i: int| 0 <= i < s.len() && spec_moves(#[trigger] s[i])
}

// ------------------------------------------------------------------
// The whole step, composed.
// ------------------------------------------------------------------
/// The arbitrated active set and final tick of one step: the active cars
/// sorted by angle, their strategies' guarded proposals, and the three
/// collision checks applied in order — following, switch-into-lane, side.
pub open spec fn spec_step_core(s: Seq<Car>, st: SettingView) -> (Seq<Car>, u64) {
    let sorted = spec_sort_cars(s);
    let proposed = spec_propose(sorted, st);
    let t1 = spec_follow_tick(proposed, st, proposed.len() as int);
    let followed = spec_follow_cars(proposed, st);
    let switched = spec_switch_pass(followed, st, t1, followed.len() as int);
    spec_side_pass(switched, st, t1, switched.len() as int)
}

/// The active set of one step after arbitration, before integration.
pub open spec fn spec_step_arbitrated(s: Seq<Car>, st: SettingView) -> Seq<Car> {
    spec_step_core(s, st).0
}

/// The exact duration one step advances simulated time by.
pub open spec fn spec_step_tick(s: Seq<Car>, st: SettingView) -> u64 {
    spec_step_core(s, st).1
}

/// The active cars remaining after one step, in order.
pub open spec fn spec_step_cars(s: Seq<Car>, st: SettingView) -> Seq<Car> {
    spec_partition_active(
        spec_integrate(spec_step_arbitrated(s, st), st, spec_step_tick(s, st)),
        st,
    )
}

/// The cars that finish during one step, in completion order.
pub open spec fn spec_step_finished(s: Seq<Car>, st: SettingView) -> Seq<Car> {
    spec_partition_finished(
        spec_integrate(spec_step_arbitrated(s, st), st, spec_step_tick(s, st)),
        st,
    )
}

/// A step makes progress: either some car's finalized action is not `Stop`,
/// or no car remains active afterwards. Its violation is the fatal
/// deadlock.
pub open spec fn spec_step_ok(s: Seq<Car>, st: SettingView) -> bool {
    spec_has_progress(spec_step_arbitrated(s, st)) || spec_step_cars(s, st).len() == 0
}

/// The arbitrated set keeps the car count and all invariants, and the final
/// tick lies between one time unit and the configured ceiling.
pub proof fn lemma_step_core_wf(s: Seq<Car>, st: SettingView)
    requires
        st.wf(),
        cars_wf(s, st),
    ensures
        spec_step_arbitrated(s, st).len() == s.len(),
        cars_wf(spec_step_arbitrated(s, st), st),
        cars_action_wf(spec_step_arbitrated(s, st), st),
        1 <= spec_step_tick(s, st) <= st.tick,
{
    lemma_sort_cars_props(s);
    lemma_sort_cars_wf(s, st);
    let sorted = spec_sort_cars(s);
    lemma_propose_wf(sorted, st);
    let proposed = spec_propose(sorted, st);
    lemma_follow_wf(proposed, st);
    lemma_follow_tick_bounds(proposed, st, proposed.len() as int);
    let t1 = spec_follow_tick(proposed, st, proposed.len() as int);
    let followed = spec_follow_cars(proposed, st);
    lemma_switch_pass_wf(followed, st, t1, followed.len() as int);
    let switched = spec_switch_pass(followed, st, t1, followed.len() as int);
    lemma_side_pass_wf(switched, st, t1, switched.len() as int);
}

impl RoundaboutSim {
    /// One full engine step, in strict order: sort the active cars by
    /// angle, gather every strategy's guarded proposal, shrink the tick and
    /// halt cars under the three collision checks, advance time by the
    /// final tick, integrate every car's finalized action, and move the
    /// cars that reached their destination to the finished list in
    /// completion order.
    ///
    /// Returns `Ok(true)` once no active car remains, `Ok(false)` while
    /// some do, and `Err(SimError::Deadlock)` for the fatal case in which
    /// cars remain active but none moved.
    ///
    /// The new state is a function of the old state alone, stated exactly
    /// by the `spec_step` functions: re-running a step from an identical
    /// state yields an identical outcome.
    pub fn update(&mut self) -> (r: Result<bool, SimError>)
        requires
            old(self).wf(),
            old(self).t + old(self).setting@.tick <= u64::MAX,
        ensures
            final(self).wf(),
            final(self).setting == old(self).setting,
            final(self).t == old(self).t + spec_step_tick(old(self).cars@, old(self).setting@),
            final(self).cars@ == spec_step_cars(old(self).cars@, old(self).setting@),
            final(self).finished_cars@ == old(self).finished_cars@ + spec_step_finished(
                old(self).cars@,
                old(self).setting@,
            ),
            r is Ok <==> spec_step_ok(old(self).cars@, old(self).setting@),
            r matches Ok(done) ==> done == (final(self).cars@.len() == 0),
            r is Err ==> r == Err::<bool, SimError>(SimError::Deadlock),
            final(self).cars@.len() <= old(self).cars@.len(),
            final(self).cars@.len() + final(self).finished_cars@.len() == old(self).cars@.len()
                + old(self).finished_cars@.len(),
    {
        let ghost s_orig = self.cars@;
        let ghost st = self.setting@;
        proof {
            lemma_step_core_wf(s_orig, st);
        }
        sort_cars(&mut self.cars);
        proof {
            lemma_sort_cars_props(s_orig);
            lemma_sort_cars_wf(s_orig, st);
        }
        propose_pass(&mut self.cars, &self.setting);
        let ghost proposed = spec_propose(spec_sort_cars(s_orig), st);
        proof {
            lemma_propose_wf(spec_sort_cars(s_orig), st);
        }
        let tick1 = follow_pass(&mut self.cars, &self.setting);
        proof {
            lemma_follow_wf(proposed, st);
            lemma_follow_tick_bounds(proposed, st, proposed.len() as int);
        }
        let ghost followed = spec_follow_cars(proposed, st);
        switch_pass(&mut self.cars, &self.setting, tick1);
        proof {
            lemma_switch_pass_wf(followed, st, tick1, followed.len() as int);
        }
        let tick = side_pass(&mut self.cars, &self.setting, tick1);
        let ghost arb = spec_step_arbitrated(s_orig, st);
        proof {
            assert(self.cars@ == arb);
            assert(tick == spec_step_tick(s_orig, st));
        }
        self.t = self.t + tick;
        let ghost fin0 = self.finished_cars@;
        let mut active: Vec<Car> = Vec::new();
        let mut progress = false;
        let mut i: usize = 0;
        while i < self.cars.len()
            invariant
                self.setting == old(self).setting,
                self.t == old(self).t + spec_step_tick(s_orig, st),
                self.setting@ == st,
                st.wf(),
                cars_wf(arb, st),
                cars_action_wf(arb, st),
                self.cars@ == arb,
                i <= arb.len(),
                tick <= st.tick,
                active@ == spec_partition_active(
                    spec_integrate(arb.take(i as int), st, tick),
                    st,
                ),
                self.finished_cars@ == fin0 + spec_partition_finished(
                    spec_integrate(arb.take(i as int), st, tick),
                    st,
                ),
                progress == spec_has_progress(arb.take(i as int)),
                cars_wf(active@, st),
                active@.len() <= i,
            decreases arb.len() - i,
        {
            let mut c = self.cars[i];
            proof {
                assert(arb[i as int].wf(st));
                assert(arb[i as int].action_wf(st));
            }
            c.update(tick, &self.setting);
            proof {
                assert(c.action == arb[i as int].action);
            }
            match c.action {
                Action::Stop => {},
                _ => {
                    progress = true;
                },
            }
            let ghost integ_pre = spec_integrate(arb.take(i as int), st, tick);
            let ghost integ_post = spec_integrate(arb.take(i + 1), st, tick);
            proof {
                assert(arb.take(i + 1).drop_last() =~= arb.take(i as int));
                assert(integ_post =~= integ_pre.push(arb[i as int].spec_updated(tick, st)));
                assert(integ_post.drop_last() =~= integ_pre);
                assert(integ_post.last() == c);
            }
            if c.finished(&self.setting) {
                self.finished_cars.push(c);
            } else {
                active.push(c);
            }
            proof {
                assert(arb.take(i + 1) =~= arb.take(i as int).push(arb[i as int]));
                if spec_moves(c) {
                    assert(spec_moves(arb.take(i + 1)[i as int]));
                    assert(spec_has_progress(arb.take(i + 1)));
                } else {
                    if spec_has_progress(arb.take(i as int)) {
                        let w = choose|w: int|
                            0 <= w < i && spec_moves(#[trigger] arb.take(i as int)[w]);
                        assert(spec_moves(arb.take(i + 1)[w]));
                    }
                    if spec_has_progress(arb.take(i + 1)) {
                        let w = choose|w: int|
                            0 <= w < i + 1 && spec_moves(#[trigger] arb.take(i + 1)[w]);
                        assert(w < i);
                        assert(spec_moves(arb.take(i as int)[w]));
                    }
                }
            }
            i += 1;
        }
        proof {
            assert(arb.take(arb.len() as int) =~= arb);
            lemma_partition_lens(spec_integrate(arb, st, tick), st);
        }
        self.cars = active;
        if !progress && self.cars.len() > 0 {
            Err(SimError::Deadlock)
        } else {
            Ok(self.cars.len() == 0)
        }
    }
}

/// The outcome of stepping the engine from a given state until every car
/// finishes or the simulated time `t` reaches the budget `max_t`: the
/// final active and finished lists, the final time, and the verdict —
/// `Ok` once no car remains active, otherwise which error ended the run.
/// One recursion level is one engine step.
pub open spec fn spec_run(
    cars: Seq<Car>,
    fin: Seq<Car>,
    t: u64,
    st: SettingView,
    max_t: u64,
) -> (Seq<Car>, Seq<Car>, u64, Result<(), SimError>)
    decreases
            (if t < max_t {
                max_t - t
            } else {
                0
            }),
        when
            st.wf() && max_t as int + crate::setting::T_MAX as int <= u64::MAX as int
        via spec_run_decreases
{
    if t >= max_t {
        (cars, fin, t, Err(SimError::OutOfTime))
    } else if !spec_step_ok(cars, st) {
        (cars, fin, t, Err(SimError::Deadlock))
    } else {
        let cars2 = spec_step_cars(cars, st);
        let fin2 = fin + spec_step_finished(cars, st);
        let t2 = (t + spec_step_tick(cars, st)) as u64;
        if cars2.len() == 0 {
            (cars2, fin2, t2, Ok(()))
        } else {
            spec_run(cars2, fin2, t2, st, max_t)
        }
    }
}

#[via_fn]
proof fn spec_run_decreases(cars: Seq<Car>, fin: Seq<Car>, t: u64, st: SettingView, max_t: u64) {
    if st.wf() && t < max_t && spec_step_ok(cars, st) {
        lemma_follow_tick_bounds(
            spec_propose(spec_sort_cars(cars), st),
            st,
            spec_propose(spec_sort_cars(cars), st).len() as int,
        );
        let t1 = spec_follow_tick(
            spec_propose(spec_sort_cars(cars), st),
            st,
            spec_propose(spec_sort_cars(cars), st).len() as int,
        );
        let followed = spec_follow_cars(spec_propose(spec_sort_cars(cars), st), st);
        let switched = spec_switch_pass(followed, st, t1, followed.len() as int);
        lemma_side_tick_bounds(switched, st, t1, switched.len() as int);
    }
}

proof fn lemma_side_apply_tick_bounds(s: Seq<Car>, st: SettingView, tick: u64, i: int, j: int)
    requires
        st.wf(),
        1 <= tick,
    ensures
        1 <= spec_side_apply(s, st, tick, i, j).1 <= tick,
{
}

proof fn lemma_side_inner_tick_bounds(s: Seq<Car>, st: SettingView, tick: u64, i: int, m: int)
    requires
        st.wf(),
        1 <= tick,
    ensures
        1 <= spec_side_inner(s, st, tick, i, m).1 <= tick,
    decreases m,
{
    if m > 0 {
        lemma_side_inner_tick_bounds(s, st, tick, i, m - 1);
        let r = spec_side_inner(s, st, tick, i, m - 1);
        lemma_side_apply_tick_bounds(r.0, st, r.1, i, m - 1);
    }
}

/// The final tick of the side check is positive and bounded by its input,
/// whatever the car sequence holds.
proof fn lemma_side_tick_bounds(s: Seq<Car>, st: SettingView, tick: u64, n: int)
    requires
        st.wf(),
        1 <= tick,
    ensures
        1 <= spec_side_pass(s, st, tick, n).1 <= tick,
    decreases n,
{
    if n > 0 {
        lemma_side_tick_bounds(s, st, tick, n - 1);
        let r = spec_side_pass(s, st, tick, n - 1);
        lemma_side_inner_tick_bounds(r.0, st, r.1, n - 1, r.0.len() as int);
    }
}

/// Builds the engine from a scenario and steps it until every car finishes
/// or the simulated-time budget `max_t` runs out. The whole run is pinned
/// to `spec_run` over the initial car list: what comes back — verdict,
/// finish time and completion order — is a function of the scenario alone.
///
/// `Err(InvalidScenario)` reports exactly the scenarios the constructor
/// rejects; `Err(OutOfTime)` a budget that ran out with cars still active;
/// `Err(Deadlock)` the fatal progress violation of some step.
pub fn sim_run(setting: RoundaboutSimSetting, init: &Vec<CarInit>, max_t: u64) -> (r: Result<
    RoundaboutSim,
    SimError,
>)
    requires
        max_t as int + crate::setting::T_MAX as int <= u64::MAX as int,
    ensures
        r == Err::<RoundaboutSim, SimError>(SimError::InvalidScenario) <==> !{
            &&& setting@.wf()
            &&& init@.len() <= N_CARS_MAX
            &&& forall|i: int| 0 <= i < init@.len() ==> spec_init_ok(#[trigger] init@[i], setting@)
        },
        r matches Ok(sim) ==> {
            &&& sim.wf()
            &&& sim.cars@.len() == 0
            &&& sim.finished_cars@.len() == init@.len()
            &&& sim.setting == setting
            &&& sim.t <= max_t as int + crate::setting::T_MAX as int
        },
        ({
            let valid = {
                &&& setting@.wf()
                &&& init@.len() <= N_CARS_MAX
                &&& forall|i: int|
                    0 <= i < init@.len() ==> spec_init_ok(#[trigger] init@[i], setting@)
            };
            let outcome = spec_run(
                init@.map_values(|ci: CarInit| spec_car_from_init(ci, setting@)),
                Seq::<Car>::empty(),
                0,
                setting@,
                max_t,
            );
            valid ==> match r {
                Ok(sim) => {
                    &&& outcome.3 == Ok::<(), SimError>(())
                    &&& sim.cars@ == outcome.0
                    &&& sim.finished_cars@ == outcome.1
                    &&& sim.t == outcome.2
                },
                Err(e) => e != SimError::InvalidScenario && outcome.3 == Err::<(), SimError>(e),
            }
        }),
{
    let mut sim = match RoundaboutSim::new(setting, init) {
        Some(s) => s,
        None => {
            return Err(SimError::InvalidScenario);
        },
    };
    let ghost setting0 = sim.setting;
    let ghost outcome = spec_run(
        init@.map_values(|ci: CarInit| spec_car_from_init(ci, setting@)),
        Seq::<Car>::empty(),
        0,
        setting@,
        max_t,
    );
    let mut finished = false;
    while sim.t < max_t && !finished
        invariant
            sim.wf(),
            sim.setting == setting0,
            sim.setting@ == setting@,
            setting@.wf(),
            init@.len() <= N_CARS_MAX,
            forall|i: int| 0 <= i < init@.len() ==> spec_init_ok(#[trigger] init@[i], setting@),
            max_t as int + crate::setting::T_MAX as int <= u64::MAX as int,
            sim.t <= max_t as int + crate::setting::T_MAX as int,
            sim.cars@.len() + sim.finished_cars@.len() == init@.len(),
            finished ==> sim.cars@.len() == 0,
            outcome == spec_run(
                init@.map_values(|ci: CarInit| spec_car_from_init(ci, setting@)),
                Seq::<Car>::empty(),
                0,
                setting@,
                max_t,
            ),
            (if finished {
                outcome == (sim.cars@, sim.finished_cars@, sim.t, Ok::<(), SimError>(()))
            } else {
                outcome == spec_run(sim.cars@, sim.finished_cars@, sim.t, setting@, max_t)
            }),
        decreases (if sim.t < max_t {
            max_t - sim.t
        } else {
            0
        }),
    {
        let ghost pre_cars = sim.cars@;
        let ghost pre_fin = sim.finished_cars@;
        let ghost pre_t = sim.t;
        proof {
            lemma_step_core_wf(sim.cars@, sim.setting@);
        }
        match sim.update() {
            Ok(done) => {
                finished = done;
                proof {
                    assert(spec_step_ok(pre_cars, setting@));
                    assert(sim.cars@ == spec_step_cars(pre_cars, setting@));
                    assert(sim.finished_cars@ == pre_fin + spec_step_finished(
                        pre_cars,
                        setting@,
                    ));
                    assert(sim.t == (pre_t + spec_step_tick(pre_cars, setting@)) as u64);
                }
            },
            Err(e) => {
                proof {
                    assert(!spec_step_ok(pre_cars, setting@));
                    assert(outcome == (pre_cars, pre_fin, pre_t, Err::<(), SimError>(
                        SimError::Deadlock,
                    )));
                }
                return Err(e);
            },
        }
    }
    if finished {
        Ok(sim)
    } else {
        proof {
            assert(outcome.3 == Err::<(), SimError>(SimError::OutOfTime));
        }
        Err(SimError::OutOfTime)
    }
}

// ------------------------------------------------------------------
// Laws of the step.
// ------------------------------------------------------------------
/// Determinism: the outcome of a step — remaining cars, newly finished
/// cars, tick and progress verdict — is a function of the engine state
/// alone. Together with `update`'s contract, which pins its whole effect to
/// these functions, re-running an identical scenario reproduces identical
/// finish times and an identical completion order, step by step.
pub proof fn lemma_step_deterministic(
    a: Seq<Car>,
    b: Seq<Car>,
    sta: SettingView,
    stb: SettingView,
)
    requires
        a == b,
        sta == stb,
    ensures
        spec_step_cars(a, sta) == spec_step_cars(b, stb),
        spec_step_finished(a, sta) == spec_step_finished(b, stb),
        spec_step_tick(a, sta) == spec_step_tick(b, stb),
        spec_step_ok(a, sta) == spec_step_ok(b, stb),
{
}

/// Determinism of whole runs: one scenario and one budget give one
/// outcome. Two runs from identical settings, initial car lists, times and
/// budgets end with the same verdict, the same finish time and the same
/// completion order.
pub proof fn lemma_run_deterministic(
    a: Seq<Car>,
    b: Seq<Car>,
    fin_a: Seq<Car>,
    fin_b: Seq<Car>,
    t_a: u64,
    t_b: u64,
    st_a: SettingView,
    st_b: SettingView,
    max_t_a: u64,
    max_t_b: u64,
)
    requires
        a == b,
        fin_a == fin_b,
        t_a == t_b,
        st_a == st_b,
        max_t_a == max_t_b,
    ensures
        spec_run(a, fin_a, t_a, st_a, max_t_a) == spec_run(b, fin_b, t_b, st_b, max_t_b),
{
}

// ------------------------------------------------------------------
// No overtaking: the tick is safe for every straight-moving follower.
// ------------------------------------------------------------------
/// What the collision checks may do to one car: pass it through, halt it,
/// or halt it and normalize its radius back onto its lane. Identity,
/// angular position, lane, speed and destination always survive.
pub open spec fn spec_arb_outcome(post: Car, pre: Car, st: SettingView) -> bool {
    ||| post == pre
    ||| post == (Car { action: Action::Stop, ..pre })
    ||| post == (Car { action: Action::Stop, r: st.r_lanes[pre.lane as int], ..pre })
}

proof fn lemma_arb_outcome_trans(c2: Car, c1: Car, c0: Car, st: SettingView)
    requires
        spec_arb_outcome(c2, c1, st),
        spec_arb_outcome(c1, c0, st),
    ensures
        spec_arb_outcome(c2, c0, st),
{
}

proof fn lemma_apply_arb(s: Seq<Car>, st: SettingView, tick: u64, i: int, j: int, k: int)
    requires
        0 <= i < s.len(),
        0 <= j < s.len(),
        0 <= k < s.len(),
    ensures
        spec_apply_switch_conflict(s, st, tick, i, j).len() == s.len(),
        spec_arb_outcome(spec_apply_switch_conflict(s, st, tick, i, j)[k], s[k], st),
{
}

proof fn lemma_switch_step_arb(s: Seq<Car>, st: SettingView, tick: u64, i: int, k: int)
    requires
        0 <= i < s.len(),
        0 <= k < s.len(),
    ensures
        spec_switch_step(s, st, tick, i).len() == s.len(),
        spec_arb_outcome(spec_switch_step(s, st, tick, i)[k], s[k], st),
{
    match s[i].action {
        Action::Switch(d) => {
            let target = s[i].lane + d as int;
            if 0 <= target < st.r_lanes.len() {
                lemma_scan_down_bounds(s, target, i - 1);
                let s1 = match spec_scan_down(s, target, i - 1) {
                    Some(j) => {
                        lemma_apply_arb(s, st, tick, i, j, k);
                        spec_apply_switch_conflict(s, st, tick, i, j)
                    },
                    None => s,
                };
                lemma_scan_down_bounds(s1, target, s1.len() - 1);
                match spec_scan_down(s1, target, s1.len() - 1) {
                    Some(j) => {
                        lemma_apply_arb(s1, st, tick, i, j, k);
                        lemma_arb_outcome_trans(
                            spec_apply_switch_conflict(s1, st, tick, i, j)[k],
                            s1[k],
                            s[k],
                            st,
                        );
                    },
                    None => {},
                }
            }
        },
        _ => {},
    }
}

proof fn lemma_switch_pass_arb(s: Seq<Car>, st: SettingView, tick: u64, n: int, k: int)
    requires
        n <= s.len(),
        0 <= k < s.len(),
    ensures
        spec_switch_pass(s, st, tick, n).len() == s.len(),
        spec_arb_outcome(spec_switch_pass(s, st, tick, n)[k], s[k], st),
    decreases n,
{
    if n > 0 {
        lemma_switch_pass_arb(s, st, tick, n - 1, k);
        lemma_switch_step_arb(spec_switch_pass(s, st, tick, n - 1), st, tick, n - 1, k);
        lemma_arb_outcome_trans(
            spec_switch_pass(s, st, tick, n)[k],
            spec_switch_pass(s, st, tick, n - 1)[k],
            s[k],
            st,
        );
    }
}

proof fn lemma_side_apply_arb(s: Seq<Car>, st: SettingView, tick: u64, i: int, j: int, k: int)
    requires
        0 <= i < s.len(),
        0 <= j < s.len(),
        0 <= k < s.len(),
    ensures
        spec_side_apply(s, st, tick, i, j).0.len() == s.len(),
        spec_arb_outcome(spec_side_apply(s, st, tick, i, j).0[k], s[k], st),
{
}

proof fn lemma_side_inner_arb(s: Seq<Car>, st: SettingView, tick: u64, i: int, m: int, k: int)
    requires
        0 <= i < s.len(),
        m <= s.len(),
        0 <= k < s.len(),
    ensures
        spec_side_inner(s, st, tick, i, m).0.len() == s.len(),
        spec_arb_outcome(spec_side_inner(s, st, tick, i, m).0[k], s[k], st),
    decreases m,
{
    if m > 0 {
        lemma_side_inner_arb(s, st, tick, i, m - 1, k);
        let r = spec_side_inner(s, st, tick, i, m - 1);
        lemma_side_apply_arb(r.0, st, r.1, i, m - 1, k);
        lemma_arb_outcome_trans(spec_side_inner(s, st, tick, i, m).0[k], r.0[k], s[k], st);
    }
}

proof fn lemma_side_pass_arb(s: Seq<Car>, st: SettingView, tick: u64, n: int, k: int)
    requires
        n <= s.len(),
        0 <= k < s.len(),
    ensures
        spec_side_pass(s, st, tick, n).0.len() == s.len(),
        spec_arb_outcome(spec_side_pass(s, st, tick, n).0[k], s[k], st),
    decreases n,
{
    if n > 0 {
        lemma_side_pass_arb(s, st, tick, n - 1, k);
        let r = spec_side_pass(s, st, tick, n - 1);
        lemma_side_inner_arb(r.0, st, r.1, n - 1, r.0.len() as int, k);
        lemma_arb_outcome_trans(spec_side_pass(s, st, tick, n).0[k], r.0[k], s[k], st);
    }
}

proof fn lemma_next_same_lane_bounds(s: Seq<Car>, i: int, off: int)
    requires
        0 <= off,
    ensures
        spec_next_same_lane(s, i, off) matches Some(j) ==> 0 <= j < s.len(),
    decreases s.len() - off,
{
    if off < s.len() {
        vstd::arithmetic::div_mod::lemma_mod_bound(i + off, s.len() as int);
        let j = (i + off) % (s.len() as int);
        if !(j != i && s[j].lane == s[i].lane) {
            lemma_next_same_lane_bounds(s, i, off + 1);
        }
    }
}

proof fn lemma_next_same_lane_congruent(a: Seq<Car>, b: Seq<Car>, i: int, off: int)
    requires
        a.len() == b.len(),
        0 <= i < a.len(),
        0 <= off,
        forall|k: int| 0 <= k < a.len() ==> (#[trigger] a[k]).lane == b[k].lane,
    ensures
        spec_next_same_lane(a, i, off) == spec_next_same_lane(b, i, off),
    decreases a.len() - off,
{
    if off < a.len() {
        vstd::arithmetic::div_mod::lemma_mod_bound(i + off, a.len() as int);
        let j = (i + off) % (a.len() as int);
        assert(0 <= j < a.len());
        assert(a[j].lane == b[j].lane);
        assert(a[i].lane == b[i].lane);
        if !(j != i && a[j].lane == a[i].lane) {
            lemma_next_same_lane_congruent(a, b, i, off + 1);
        }
    }
}

/// No overtaking through the following rule: a car whose finalized action
/// after all collision checks is still `Straight` is allotted an angular
/// sweep for this step — speed times tick over its lane radius — that
/// never exceeds the gap to the next car in its lane. Together with the
/// exact integration clamp, a straight-moving car never passes the
/// position its leader held when the step began.
pub proof fn lemma_step_no_overtake(s: Seq<Car>, st: SettingView, k: int)
    requires
        st.wf(),
        cars_wf(s, st),
        0 <= k < spec_step_arbitrated(s, st).len(),
        spec_step_arbitrated(s, st)[k].action is Straight,
    ensures
        (match spec_next_same_lane(spec_step_arbitrated(s, st), k, 1) {
            Some(j) => {
                let arb = spec_step_arbitrated(s, st);
                arb[k].vel * spec_step_tick(s, st) / (st.r_lanes[arb[k].lane as int] as int)
                    <= spec_forward_dist(arb[k].theta as int, arb[j].theta as int)
            },
            None => true,
        }),
{
    lemma_step_core_wf(s, st);
    lemma_sort_cars_props(s);
    lemma_sort_cars_wf(s, st);
    let sorted = spec_sort_cars(s);
    lemma_propose_wf(sorted, st);
    let proposed = spec_propose(sorted, st);
    lemma_follow_wf(proposed, st);
    let n = proposed.len() as int;
    let t1 = spec_follow_tick(proposed, st, n);
    lemma_follow_tick_bounds(proposed, st, n);
    let followed = spec_follow_cars(proposed, st);
    let switched = spec_switch_pass(followed, st, t1, followed.len() as int);
    lemma_switch_pass_wf(followed, st, t1, followed.len() as int);
    lemma_side_tick_bounds(switched, st, t1, switched.len() as int);
    let arb = spec_step_arbitrated(s, st);
    let t2 = spec_step_tick(s, st);
    // Arbitration only halts cars: the straight car at position k came
    // through both passes untouched.
    lemma_switch_pass_arb(followed, st, t1, followed.len() as int, k);
    lemma_side_pass_arb(switched, st, t1, switched.len() as int, k);
    lemma_arb_outcome_trans(arb[k], switched[k], followed[k], st);
    assert(arb[k] == followed[k]);
    assert(followed[k] == (Car { action: spec_follow_action(proposed, st, k), ..proposed[k] }));
    assert(proposed[k].action is Straight);
    // Both passes keep every car's lane, so the leader is the same one the
    // following check measured against.
    assert forall|m: int| 0 <= m < arb.len() implies (#[trigger] arb[m]).lane == proposed[m].lane
        && arb[m].theta == proposed[m].theta && arb[m].vel == proposed[m].vel by {
        lemma_switch_pass_arb(followed, st, t1, followed.len() as int, m);
        lemma_side_pass_arb(switched, st, t1, switched.len() as int, m);
    }
    lemma_next_same_lane_congruent(arb, proposed, k, 1);
    lemma_next_same_lane_bounds(proposed, k, 1);
    match spec_next_same_lane(arb, k, 1) {
        Some(j) => {
            assert(spec_next_same_lane(proposed, k, 1) == Some(j));
            assert(0 <= j < proposed.len());
            assert(proposed[j].wf(st));
            assert(proposed[k].wf(st));
            let cand = spec_follow_candidate(proposed, st, k);
            assert(cand == spec_straight_collision(proposed[k], proposed[j], st));
            let gap = spec_forward_dist(proposed[k].theta as int, proposed[j].theta as int);
            assert(0 <= gap < TAU) by {
                assert(proposed[k].theta < TAU);
                assert(proposed[j].theta < TAU);
            }
            let r_lane = st.r_lanes[proposed[k].lane as int];
            let tcol = gap * r_lane / proposed[k].vel as int;
            assert(cand == Some(tcol as u64));
            assert(proposed[k].wf(st));
            assert(0 <= tcol <= u64::MAX) by {
                lemma_mul_le(gap, r_lane as int, TAU as int, R_MAX as int);
                lemma_div_bound(gap * r_lane, proposed[k].vel as int);
            }
            // Had the collision time been within the minimal threshold the
            // follower would have been halted, not left straight.
            assert(tcol as u64 > st.min_update_tick);
            lemma_follow_tick_safe(proposed, st, n, k);
            assert(t1 <= tcol);
            assert(t2 <= t1);
            lemma_sweep_within_gap(gap, r_lane as int, proposed[k].vel as int, t2 as int);
        },
        None => {},
    }
}

proof fn lemma_switch_step_preserves_stopped(
    s: Seq<Car>,
    st: SettingView,
    tick: u64,
    i: int,
    j: int,
)
    requires
        st.wf(),
        cars_wf(s, st),
        cars_action_wf(s, st),
        0 <= i < s.len(),
        0 <= j < s.len(),
        s[j].action is Stop,
    ensures
        spec_switch_step(s, st, tick, i)[j] == s[j],
{
    match s[i].action {
        Action::Switch(d) => {
            let target = s[i].lane + d as int;
            if 0 <= target < st.r_lanes.len() {
                lemma_scan_down_bounds(s, target, i - 1);
                let s1 = match spec_scan_down(s, target, i - 1) {
                    Some(k) => spec_apply_switch_conflict(s, st, tick, i, k),
                    None => s,
                };
                lemma_apply_preserves_stopped(s, st, tick, i, j);
                lemma_switch_step_wf(s, st, tick, i);
                lemma_scan_down_bounds(s1, target, s1.len() - 1);
                match spec_scan_down(s1, target, s1.len() - 1) {
                    Some(k) => {
                        lemma_apply_preserves_stopped(s1, st, tick, i, j);
                    },
                    None => {},
                }
            }
        },
        _ => {},
    }
}

/// A halted car is touched by no conflict application: it is never the
/// switching party and, not going straight, never the halted neighbor.
proof fn lemma_apply_preserves_stopped(s: Seq<Car>, st: SettingView, tick: u64, i: int, j: int)
    requires
        0 <= i < s.len(),
        0 <= j < s.len(),
        s[j].action is Stop,
    ensures
        forall|k: int|
            0 <= k < s.len() ==> #[trigger] spec_apply_switch_conflict(s, st, tick, i, k)[j]
                == s[j],
{
    assert forall|k: int|
        0 <= k < s.len() implies #[trigger] spec_apply_switch_conflict(s, st, tick, i, k)[j]
        == s[j] by {
        if spec_switch_collision(s[i], s[k], st, tick) {
            assert(s[k].action is Straight);
            assert(!(s[i].action is Stop));
        }
    }
}

proof fn lemma_switch_pass_preserves_stopped(
    s: Seq<Car>,
    st: SettingView,
    tick: u64,
    n: int,
    j: int,
)
    requires
        st.wf(),
        cars_wf(s, st),
        cars_action_wf(s, st),
        n <= s.len(),
        0 <= j < s.len(),
        s[j].action is Stop,
    ensures
        spec_switch_pass(s, st, tick, n)[j] == s[j],
    decreases n,
{
    if n > 0 {
        lemma_switch_pass_preserves_stopped(s, st, tick, n - 1, j);
        lemma_switch_pass_wf(s, st, tick, n - 1);
        lemma_switch_step_preserves_stopped(
            spec_switch_pass(s, st, tick, n - 1),
            st,
            tick,
            n - 1,
            j,
        );
    }
}

proof fn lemma_side_apply_preserves_stopped(
    s: Seq<Car>,
    st: SettingView,
    tick: u64,
    i: int,
    m: int,
    j: int,
)
    requires
        0 <= i < s.len(),
        0 <= m < s.len(),
        0 <= j < s.len(),
        s[j].action is Stop,
    ensures
        spec_side_apply(s, st, tick, i, m).0[j] == s[j],
{
    if i != m && spec_side_pair_applies(s[i], s[m], st) {
        assert(s[i].action is Switch);
        assert(s[m].action is Switch);
        let rear = spec_side_rear(s, i, m);
        assert(rear == i || rear == m);
    }
}

proof fn lemma_side_inner_preserves_stopped(
    s: Seq<Car>,
    st: SettingView,
    tick: u64,
    i: int,
    m: int,
    j: int,
)
    requires
        st.wf(),
        cars_wf(s, st),
        cars_action_wf(s, st),
        0 <= i < s.len(),
        m <= s.len(),
        0 <= j < s.len(),
        s[j].action is Stop,
        1 <= tick,
    ensures
        spec_side_inner(s, st, tick, i, m).0[j] == s[j],
    decreases m,
{
    if m > 0 {
        lemma_side_inner_preserves_stopped(s, st, tick, i, m - 1, j);
        lemma_side_inner_wf(s, st, tick, i, m - 1);
        let r = spec_side_inner(s, st, tick, i, m - 1);
        lemma_side_apply_preserves_stopped(r.0, st, r.1, i, m - 1, j);
    }
}

proof fn lemma_side_pass_preserves_stopped(
    s: Seq<Car>,
    st: SettingView,
    tick: u64,
    n: int,
    j: int,
)
    requires
        st.wf(),
        cars_wf(s, st),
        cars_action_wf(s, st),
        n <= s.len(),
        0 <= j < s.len(),
        s[j].action is Stop,
        1 <= tick,
    ensures
        spec_side_pass(s, st, tick, n).0[j] == s[j],
    decreases n,
{
    if n > 0 {
        lemma_side_pass_preserves_stopped(s, st, tick, n - 1, j);
        lemma_side_pass_wf(s, st, tick, n - 1);
        let r = spec_side_pass(s, st, tick, n - 1);
        lemma_side_inner_preserves_stopped(r.0, st, r.1, n - 1, r.0.len() as int, j);
    }
}

proof fn lemma_partition_finished_contains(s: Seq<Car>, st: SettingView, j: int)
    requires
        0 <= j < s.len(),
        s[j].spec_finished(st),
    ensures
        spec_partition_finished(s, st).contains(s[j]),
    decreases s.len(),
{
    let r = spec_partition_finished(s, st);
    let rest = spec_partition_finished(s.drop_last(), st);
    if j == s.len() - 1 {
        assert(r == rest.push(s.last()));
        assert(r[r.len() - 1] == s[j]);
    } else {
        assert(s.drop_last()[j] == s[j]);
        lemma_partition_finished_contains(s.drop_last(), st, j);
        let w = choose|w: int| 0 <= w < rest.len() && rest[w] == s[j];
        if s.last().spec_finished(st) {
            assert(r == rest.push(s.last()));
            assert(r[w] == s[j]);
        } else {
            assert(r == rest);
        }
    }
}

/// A car already finished at construction leaves the active set on the very
/// first step: its strategy proposes `Stop`, no collision check touches a
/// halted car, integration leaves it in place, and completion bookkeeping
/// moves it — with its halted action — to the finished list. As a step
/// advances time by at most the tick ceiling, such a car's finish time is
/// bounded by one tick.
pub proof fn lemma_finished_car_exits_first_step(s: Seq<Car>, st: SettingView, i: int)
    requires
        st.wf(),
        cars_wf(s, st),
        0 <= i < s.len(),
        s[i].spec_finished(st),
    ensures
        spec_step_finished(s, st).contains(Car { action: Action::Stop, ..s[i] }),
{
    let c = s[i];
    let c1 = Car { action: Action::Stop, ..c };
    lemma_sort_cars_props(s);
    lemma_sort_cars_wf(s, st);
    let sorted = spec_sort_cars(s);
    assert(s.contains(c));
    assert(sorted.contains(c));
    let j = choose|j: int| 0 <= j < sorted.len() && sorted[j] == c;
    let proposed = spec_propose(sorted, st);
    lemma_propose_wf(sorted, st);
    assert(c.spec_finished(st));
    assert(crate::drivers::spec_simple_drive(c, st) == Action::Stop);
    assert(spec_drive(c.driver, c, st) == Action::Stop);
    assert(proposed[j] == spec_proposed_car(c, st));
    assert(proposed[j] == c1);
    let followed = spec_follow_cars(proposed, st);
    lemma_follow_wf(proposed, st);
    let t1 = spec_follow_tick(proposed, st, proposed.len() as int);
    lemma_follow_tick_bounds(proposed, st, proposed.len() as int);
    assert(spec_follow_candidate(proposed, st, j) is None);
    assert(followed[j] == (Car { action: spec_follow_action(proposed, st, j), ..proposed[j] }));
    assert(followed[j] == c1);
    let switched = spec_switch_pass(followed, st, t1, followed.len() as int);
    lemma_switch_pass_preserves_stopped(followed, st, t1, followed.len() as int, j);
    lemma_switch_pass_wf(followed, st, t1, followed.len() as int);
    assert(switched[j] == c1);
    let arb = spec_step_arbitrated(s, st);
    let tick = spec_step_tick(s, st);
    lemma_side_pass_preserves_stopped(switched, st, t1, switched.len() as int, j);
    lemma_side_pass_wf(switched, st, t1, switched.len() as int);
    assert(arb[j] == c1);
    let integ = spec_integrate(arb, st, tick);
    assert(integ[j] == c1.spec_updated(tick, st));
    assert(c1.spec_updated(tick, st) == c1);
    assert(c1.spec_finished(st));
    lemma_partition_finished_contains(integ, st, j);
}

} // verus!
