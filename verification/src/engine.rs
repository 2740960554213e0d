//! The step machinery of the annealing worker: the tagged union of move
//! kinds, the weighted chooser, and the commit step.  The temperature
//! schedule, the Metropolis draw and the worker loop live outside the
//! library, which hands them plain score deltas.

use vstd::prelude::*;
use rand::rngs::SmallRng;
use crate::rng::rng_below;
use crate::moves::{
    add_visit_delta, multi_add_delta, multi_remove_delta, remove_visit_delta, shift_between_delta,
    shift_in_route_delta, AddMultipleNewOrders, AddNewOrder, RemoveMultipleOrders, RemoveOrder,
    ShiftBetweenDays, ShiftInRoute,
};
use crate::order_day_flags::spec_filled;
use crate::resource::Problem;
use crate::route::OrderIndex;
use crate::solution::{spec_score, Solution};
use crate::Time;

verus! {

#[derive(Debug, PartialEq, Eq, Clone, Copy, Hash, Structural)]
pub enum TruckEnum {
    Truck1,
    Truck2,
}

impl TruckEnum {
    /// A uniformly random truck.
    pub fn sample(rng: &mut SmallRng) -> TruckEnum {
        if rng_below(rng, 2) == 0 {
            TruckEnum::Truck1
        } else {
            TruckEnum::Truck2
        }
    }
}

/// What the step loop owes the queue after a move is settled: nothing, or
/// an order to requeue after a removal, or an order to requeue if an add
/// was rejected.
pub enum EndOfStepInfo {
    Nothing,
    Removed(OrderIndex),
    Add(OrderIndex),
}

/// The closed set of neighbourhood moves.  The step loop draws the
/// whole-order kinds, which keep the frequency constraint an all-or-nothing
/// unit; the single-visit kinds remain available to callers.
pub enum NeighborMove {
    Add(AddNewOrder),
    AddAll(AddMultipleNewOrders),
    ShiftRoute(ShiftInRoute),
    ShiftDays(ShiftBetweenDays),
    Remove(RemoveOrder),
    RemoveAll(RemoveMultipleOrders),
}

/// The exact score change a move causes on a given plan.
pub open spec fn move_delta(p: Problem, s: Solution, m: NeighborMove) -> int {
    match m {
        NeighborMove::Add(a) => add_visit_delta(
            p,
            s,
            a.truck1,
            a.day,
            a.time_of_day,
            a.insert_after_index,
            a.order,
        ),
        NeighborMove::AddAll(a) => multi_add_delta(p, s, a.order_index, a.placements@, 0, 0),
        NeighborMove::ShiftRoute(a) => shift_in_route_delta(
            p,
            s,
            a.truck1,
            a.day,
            a.time_of_day,
            a.shifting_node,
            a.target_neighbor1,
        ),
        NeighborMove::ShiftDays(a) => shift_between_delta(p, s, a),
        NeighborMove::Remove(a) => remove_visit_delta(
            p,
            s,
            a.truck1,
            a.day_enum,
            a.time_of_day,
            a.node_index,
        ),
        NeighborMove::RemoveAll(a) => multi_remove_delta(
            p,
            s,
            a.order_index,
            a.spots@,
            0,
            s.order_flags.mask(a.order_index as int),
        ),
    }
}

impl NeighborMove {
    /// Whether the move's parameters fit the plan.
    pub open spec fn ok(self, p: Problem, s: Solution) -> bool {
        match self {
            NeighborMove::Add(a) => a.ok(p, s),
            NeighborMove::AddAll(a) => a.ok(p, s),
            NeighborMove::ShiftRoute(a) => a.ok(p, s),
            NeighborMove::ShiftDays(a) => a.ok(p, s),
            NeighborMove::Remove(a) => a.ok(p, s),
            NeighborMove::RemoveAll(a) => a.ok(p, s),
        }
    }

    /// The score change this move would cause; pure.
    pub fn evaluate(&self, p: &Problem, s: &Solution) -> (r: Time)
        requires
            p.wf(),
            s.wf(*p),
            self.ok(*p, *s),
        ensures
            r as int == move_delta(*p, *s, *self),
    {
        match self {
            NeighborMove::Add(a) => a.evaluate(p, s),
            NeighborMove::AddAll(a) => a.evaluate(p, s),
            NeighborMove::ShiftRoute(a) => a.evaluate(p, s),
            NeighborMove::ShiftDays(a) => a.evaluate(p, s),
            NeighborMove::Remove(a) => a.evaluate(p, s),
            NeighborMove::RemoveAll(a) => a.evaluate(p, s),
        }
    }

    /// Commit the move; the returned score change equals the evaluation,
    /// and the plan's running score tracks the true score.
    pub fn apply(&self, p: &Problem, s: &mut Solution) -> (r: Time)
        requires
            p.wf(),
            old(s).wf(*p),
            self.ok(*p, *old(s)),
        ensures
            final(s).wf(*p),
            r as int == move_delta(*p, *old(s), *self),
            spec_score(*p, *final(s)) == spec_score(*p, *old(s)) + r,
            final(s).score == old(s).score + r,
            final(s).unfilled_orders == old(s).unfilled_orders,
    {
        match self {
            NeighborMove::Add(a) => a.apply(p, s),
            NeighborMove::AddAll(a) => a.apply(p, s),
            NeighborMove::ShiftRoute(a) => a.apply(p, s),
            NeighborMove::ShiftDays(a) => a.apply(p, s),
            NeighborMove::Remove(a) => a.apply(p, s),
            NeighborMove::RemoveAll(a) => a.apply(p, s),
        }
    }
}

/// Evaluating a move and then applying it yields the same score change:
/// both equal `move_delta` of the starting plan.
pub proof fn lemma_evaluate_apply_equivalence(
    p: Problem,
    s: Solution,
    m: NeighborMove,
    evaluated: Time,
    applied: Time,
)
    requires
        evaluated as int == move_delta(p, s, m),
        applied as int == move_delta(p, s, m),
    ensures
        evaluated == applied,
{
}

/// Put an order back on the unfilled queue.
pub fn requeue(p: &Problem, s: &mut Solution, o: OrderIndex)
    requires
        p.wf(),
        old(s).wf(*p),
        (o as int) < p.spec_depot(),
    ensures
        final(s).wf(*p),
        final(s).truck1 == old(s).truck1,
        final(s).truck2 == old(s).truck2,
        final(s).order_flags == old(s).order_flags,
        final(s).score == old(s).score,
        final(s).unfilled_orders@ == old(s).unfilled_orders@.push(o),
{
    let ghost s0 = *s;
    s.unfilled_orders.push_back(o);
    proof {
        assert(spec_score(*p, *s) == spec_score(*p, s0));
        assert forall|o2: OrderIndex, d2: crate::week::DayEnum| (o2 as int)
            < p.spec_depot() implies #[trigger] crate::solution::day_occ(*s, d2, o2) == (
        if s.order_flags.has_day(o2 as int, d2) {
            1int
        } else {
            0int
        }) by {
            assert(crate::solution::day_occ(*s, d2, o2) == crate::solution::day_occ(s0, d2, o2));
        }
    }
}

/// Choose a move kind by the given weights and try to instantiate it; an
/// add pops its order from the unfilled queue, and the caller learns what
/// the queue is owed.  Retries across kinds up to `attempts` times and
/// returns none when nothing could be instantiated.
pub fn choose_neighbor(
    p: &Problem,
    s: &mut Solution,
    rng: &mut SmallRng,
    weights: [u64; 4],
    attempts: u64,
) -> (r: Option<(NeighborMove, EndOfStepInfo)>)
    requires
        p.wf(),
        old(s).wf(*p),
    ensures
        final(s).wf(*p),
        final(s).truck1 == old(s).truck1,
        final(s).truck2 == old(s).truck2,
        final(s).order_flags == old(s).order_flags,
        final(s).score == old(s).score,
        r matches Some(pair) ==> pair.0.ok(*p, *final(s)),
        r matches Some(pair) ==> match pair.1 {
            EndOfStepInfo::Add(o) => (o as int) < p.spec_depot(),
            EndOfStepInfo::Removed(o) => (o as int) < p.spec_depot(),
            EndOfStepInfo::Nothing => true,
        },
        weights[0] == 0 && weights[1] == 0 && weights[2] == 0 && weights[3] == 0 ==> r is None,
{
    let in_range = weights[0] <= 1000000 && weights[1] <= 1000000 && weights[2] <= 1000000
        && weights[3] <= 1000000;
    let t0: u64 = if in_range {
        weights[0]
    } else {
        1
    };
    let t1: u64 = if in_range {
        t0 + weights[1]
    } else {
        2
    };
    let t2: u64 = if in_range {
        t1 + weights[2]
    } else {
        3
    };
    let total: u64 = if in_range {
        t2 + weights[3]
    } else {
        4
    };
    if total == 0 {
        return None;
    }
    let ghost s0 = *s;
    let mut tries: u64 = 0;
    while tries < attempts
        invariant
            p.wf(),
            s.wf(*p),
            total > 0,
            !(weights[0] == 0 && weights[1] == 0 && weights[2] == 0 && weights[3] == 0),
            s0 == *old(s),
            s.truck1 == s0.truck1,
            s.truck2 == s0.truck2,
            s.order_flags == s0.order_flags,
            s.score == s0.score,
        decreases attempts - tries,
    {
        let draw = rng_below(rng, total);
        let kind: u64 = if draw < t0 {
            0
        } else if draw < t1 {
            1
        } else if draw < t2 {
            2
        } else {
            3
        };
        if kind == 0 {
            let ghost spre = *s;
            let popped = s.unfilled_orders.pop_front();
            proof {
                assert(spec_score(*p, *s) == spec_score(*p, spre));
                assert forall|o2: OrderIndex, d2: crate::week::DayEnum| (o2 as int)
                    < p.spec_depot() implies #[trigger] crate::solution::day_occ(*s, d2, o2) == (
                if s.order_flags.has_day(o2 as int, d2) {
                    1int
                } else {
                    0int
                }) by {
                    assert(crate::solution::day_occ(*s, d2, o2) == crate::solution::day_occ(
                        spre,
                        d2,
                        o2,
                    ));
                }
                if popped is Some {
                    assert((spre.unfilled_orders@[0] as int) < p.spec_depot());
                    assert forall|k: int|
                        0 <= k < s.unfilled_orders@.len() implies (
                    #[trigger] s.unfilled_orders@[k] as int) < p.spec_depot() by {
                        assert(s.unfilled_orders@[k] == spre.unfilled_orders@[k + 1]);
                    }
                }
                assert(s.wf(*p));
            }
            if let Some(order) = popped {
                proof {
                    assert((order as int) < p.spec_depot());
                }
                if s.order_flags.get_filled_count(order) != 0 {
                    // Only untouched orders are scheduled whole; anything
                    // else goes back for the shift and removal moves.
                    requeue(p, s, order);
                } else {
                    match AddMultipleNewOrders::new(p, s, rng, order) {
                        Some(m) => {
                            return Some((NeighborMove::AddAll(m), EndOfStepInfo::Add(order)));
                        },
                        None => {
                            requeue(p, s, order);
                        },
                    }
                }
            }
        } else if kind == 1 {
            if let Some(m) = ShiftInRoute::new(p, s, rng) {
                return Some((NeighborMove::ShiftRoute(m), EndOfStepInfo::Nothing));
            }
        } else if kind == 2 {
            if let Some(m) = ShiftBetweenDays::new(p, s, rng) {
                return Some((NeighborMove::ShiftDays(m), EndOfStepInfo::Nothing));
            }
        } else {
            if let Some(m) = RemoveMultipleOrders::new(p, s, rng) {
                let order = m.order_index;
                return Some((NeighborMove::RemoveAll(m), EndOfStepInfo::Removed(order)));
            }
        }
        tries = tries + 1;
    }
    None
}

/// The end-of-anneal cleanup pass: every order left with a partial
/// frequency assignment has all its visits withdrawn and returns to the
/// unfilled queue, so afterwards each order is either completely scheduled
/// or not scheduled at all; the stored route times are then recomputed from
/// the ground up, which the invariants make a no-op.
pub fn cleanup(p: &Problem, s: &mut Solution)
    requires
        p.wf(),
        old(s).wf(*p),
    ensures
        final(s).wf(*p),
        forall|o: OrderIndex|
            (o as int) < p.spec_depot() ==> spec_filled(
                #[trigger] final(s).order_flags.mask(o as int),
            ) == p.freq(o as int) || final(s).order_flags.mask(o as int) == 0,
{
    let depot = p.depot();
    let mut o: usize = 0;
    while o < depot
        invariant
            p.wf(),
            s.wf(*p),
            o <= depot,
            depot == p.spec_depot(),
            forall|j: int|
                0 <= j < o ==> spec_filled(#[trigger] s.order_flags.mask(j)) == p.freq(j)
                    || s.order_flags.mask(j) == 0,
        decreases depot - o,
    {
        let c = s.order_flags.get_filled_count(o);
        let f = p.orders[o].frequency.count();
        if c != f as u32 && c != 0 {
            let spots = RemoveMultipleOrders::collect_spots(p, s, o);
            let mv = RemoveMultipleOrders { spots, order_index: o };
            mv.apply(p, s);
            requeue(p, s, o);
        } else if c == 0 {
            proof {
                s.order_flags.lemma_mask_bound(o as int);
                crate::order_day_flags::lemma_zero_filled_mask(s.order_flags.mask(o as int));
            }
        }
        o = o + 1;
    }
    s.truck1.recalculate_total_time(p);
    s.truck2.recalculate_total_time(p);
}

/// The iterated-local-search acceptance rule: a candidate replaces the
/// best-known plan exactly when its score is no worse.
pub fn keep_better(best_score: Time, candidate_score: Time) -> (r: bool)
    ensures
        r <==> candidate_score <= best_score,
{
    candidate_score <= best_score
}

/// How many perturb-reheat-reanneal rounds the outer search runs.
pub const MAX_ITERATIONS: u32 = 100;

/// How many heavily-biased steps one perturbation phase takes.
pub const NUM_PERTURBATIONS: u32 = 80;

/// The move-kind weights of the main annealing loop.
pub fn main_weights() -> (r: [u64; 4])
    ensures
        r@ =~= seq![100u64, 1000u64, 1000u64, 1u64],
{
    [100, 1000, 1000, 1]
}

/// The move-kind weights of the perturbation phase, biased towards the
/// structural shifts.
pub fn perturbation_weights() -> (r: [u64; 4])
    ensures
        r@ =~= seq![1u64, 10u64, 10u64, 1u64],
{
    [1, 10, 10, 1]
}

} // verus!
