//! A full plan: both trucks' weeks, the running score, the queue of orders
//! not yet scheduled, and the per-order weekday tracker.

use vstd::prelude::*;
use std::collections::VecDeque;
use crate::day::Day;
use crate::order_day_flags::{spec_filled, OrderFlags};
use crate::resource::Problem;
use crate::route::{Route, OrderIndex, MAX_ROUTE_LEN};
use crate::week::{DayEnum, Week};
use crate::Time;

verus! {

/// How often order `o` appears in a route's stop sequence.
pub open spec fn route_occ(r: Route, o: OrderIndex) -> nat {
    r.stops().to_multiset().count(o)
}

/// How often order `o` appears across the four routes of weekday `d`.
pub open spec fn day_occ(s: Solution, d: DayEnum, o: OrderIndex) -> int {
    route_occ(s.truck1.spec_get(d).morning, o) as int + route_occ(
        s.truck1.spec_get(d).afternoon,
        o,
    ) as int + route_occ(s.truck2.spec_get(d).morning, o) as int + route_occ(
        s.truck2.spec_get(d).afternoon,
        o,
    ) as int
}

/// A route that does not mention an order carries no occurrence of it.
pub proof fn lemma_occ_absent(r: Route, o: OrderIndex)
    requires
        !r.stops().contains(o),
    ensures
        route_occ(r, o) == 0,
{
    r.stops().to_multiset_ensures();
}

/// The unmet-frequency penalty over all real orders from index `i` on: an
/// order whose scheduled-day count misses its required frequency costs its
/// stored penalty.
pub open spec fn penalty_sum(p: Problem, fl: OrderFlags, i: int) -> int
    decreases p.spec_depot() - i,
{
    if i < 0 || i >= p.spec_depot() {
        0
    } else {
        penalty_term(p, fl, i) + penalty_sum(p, fl, i + 1)
    }
}

/// One order's contribution to the penalty.
pub open spec fn penalty_term(p: Problem, fl: OrderFlags, i: int) -> int {
    if spec_filled(fl.mask(i)) == p.freq(i) {
        0int
    } else {
        p.orders@[i].penalty as int
    }
}

/// The total scheduled time of a plan.
pub open spec fn spec_total_time(s: Solution) -> int {
    s.truck1.spec_total_time() + s.truck2.spec_total_time()
}

/// The score: total scheduled time plus the unmet-frequency penalty.
pub open spec fn spec_score(p: Problem, s: Solution) -> int {
    spec_total_time(s) + penalty_sum(p, s.order_flags, 0)
}

/// Flag states that agree everywhere except possibly at order `o` shift the
/// penalty sum by exactly that order's term.
pub proof fn lemma_penalty_update(p: Problem, f1: OrderFlags, f2: OrderFlags, o: int, i: int)
    requires
        forall|j: int| 0 <= j < p.spec_depot() && j != o ==> #[trigger] f2.mask(j) == f1.mask(j),
        0 <= o < p.spec_depot(),
        0 <= i,
    ensures
        penalty_sum(p, f2, i) - penalty_sum(p, f1, i) == (if i <= o {
            penalty_term(p, f2, o) - penalty_term(p, f1, o)
        } else {
            0int
        }),
    decreases p.spec_depot() - i,
{
    if i < 0 || i >= p.spec_depot() {
    } else {
        lemma_penalty_update(p, f1, f2, o, i + 1);
    }
}

/// Flag states that agree on all real orders give the same penalty sum.
pub proof fn lemma_penalty_same(p: Problem, f1: OrderFlags, f2: OrderFlags, i: int)
    requires
        forall|j: int| 0 <= j < p.spec_depot() ==> #[trigger] f2.mask(j) == f1.mask(j),
    ensures
        penalty_sum(p, f2, i) == penalty_sum(p, f1, i),
    decreases p.spec_depot() - i,
{
    if i < 0 || i >= p.spec_depot() {
    } else {
        lemma_penalty_same(p, f1, f2, i + 1);
    }
}

/// An order's penalty lies in `[0, 51840000]`.
pub proof fn lemma_penalty_term_bounds(p: Problem, i: int)
    requires
        p.wf(),
        0 <= i < p.orders@.len(),
    ensures
        0 <= p.orders@[i].penalty <= 51840000,
{
    assert(p.orders@[i].penalty == 3 * p.orders@[i].frequency.spec_count()
        * p.orders@[i].emptying_time);
    assert(0 <= p.orders@[i].emptying_time <= 4320000);
    assert(0 <= 3 * (p.orders@[i].frequency.spec_count() as int) * (
    p.orders@[i].emptying_time as int) <= 51840000) by (nonlinear_arith)
        requires
            p.orders@[i].frequency.spec_count() <= 4,
            0 <= p.orders@[i].emptying_time <= 4320000,
    ;
}

/// The penalty sum is nonnegative and linearly bounded.
pub proof fn lemma_penalty_bounds(p: Problem, fl: OrderFlags, i: int)
    requires
        p.wf(),
        0 <= i,
    ensures
        0 <= penalty_sum(p, fl, i) <= 51840000 * (if i >= p.spec_depot() {
            0int
        } else {
            p.spec_depot() - i
        }),
    decreases p.spec_depot() - i,
{
    if i >= p.spec_depot() {
    } else {
        lemma_penalty_bounds(p, fl, i + 1);
        lemma_penalty_term_bounds(p, i);
        assert(51840000 * (p.spec_depot() - i) == 51840000 + 51840000 * (p.spec_depot() - (i + 1)))
            by (nonlinear_arith);
    }
}

/// The unmet-frequency penalty of a plan's current tracker state, summed
/// over all real orders.
pub fn calculate_penalty(p: &Problem, fl: &OrderFlags) -> (r: Time)
    requires
        p.wf(),
        fl.wf(),
        fl.len() == p.orders@.len(),
    ensures
        r == penalty_sum(*p, *fl, 0),
        0 <= r <= 54975581388800,
{
    let depot = p.depot();
    let mut acc: Time = 0;
    let mut i: usize = depot;
    proof {
        lemma_penalty_bounds(*p, *fl, 0);
        assert(51840000 * p.spec_depot() <= 54975581388800) by (nonlinear_arith)
            requires
                p.spec_depot() < 1048576,
        ;
    }
    while i > 0
        invariant
            p.wf(),
            fl.wf(),
            fl.len() == p.orders@.len(),
            i <= depot as int,
            depot == p.spec_depot(),
            acc == penalty_sum(*p, *fl, i as int),
        decreases i,
    {
        i = i - 1;
        proof {
            lemma_penalty_bounds(*p, *fl, i as int);
            lemma_penalty_bounds(*p, *fl, i + 1);
            lemma_penalty_term_bounds(*p, i as int);
            assert(51840000 * (p.spec_depot() - i) <= 54975581388800) by (nonlinear_arith)
                requires
                    0 <= p.spec_depot() - i <= 1048576,
            ;
            assert(51840000 * (p.spec_depot() - (i + 1)) <= 54975581388800) by (nonlinear_arith)
                requires
                    0 <= p.spec_depot() - (i + 1) <= 1048576,
            ;
        }
        let c = fl.get_filled_count(i);
        let f = p.orders[i].frequency.count();
        if c != f as u32 {
            acc = acc + p.orders[i].get_penalty();
        }
    }
    proof {
        lemma_penalty_bounds(*p, *fl, 0);
    }
    acc
}

/// The score a fresh, empty plan starts from: no travel, every real order's
/// penalty.
pub fn calculate_starting_score(p: &Problem, fl: &OrderFlags) -> (r: Time)
    requires
        p.wf(),
        fl.wf(),
        fl.len() == p.orders@.len(),
    ensures
        r == penalty_sum(*p, *fl, 0),
{
    calculate_penalty(p, fl)
}

pub struct Solution {
    pub truck1: Week,
    pub truck2: Week,
    pub score: Time,
    pub unfilled_orders: VecDeque<OrderIndex>,
    pub order_flags: OrderFlags,
}

impl Solution {
    pub open spec fn spec_truck(self, truck1: bool) -> Week {
        if truck1 {
            self.truck1
        } else {
            self.truck2
        }
    }

    /// Plan validity: both weeks valid; the tracker covers every order and
    /// mirrors the routes exactly (order `o` stands in one route of day `d`
    /// exactly when its `d` bit is set); the queue holds distinct real
    /// orders with no visits yet; and the running score is the true score.
    pub open spec fn wf(self, p: Problem) -> bool {
        &&& self.truck1.wf(p)
        &&& self.truck2.wf(p)
        &&& self.order_flags.wf()
        &&& self.order_flags.len() == p.orders@.len()
        &&& forall|o: OrderIndex, d: DayEnum|
            (o as int) < p.spec_depot() ==> #[trigger] day_occ(self, d, o) == (if self.order_flags.has_day(
                o as int,
                d,
            ) {
                1int
            } else {
                0int
            })
        &&& forall|k: int|
            0 <= k < self.unfilled_orders@.len() ==> (#[trigger] self.unfilled_orders@[k] as int)
                < p.spec_depot()
        &&& self.score as int == spec_score(p, self)
    }

    /// A fresh plan: empty routes, no visits, every real order queued, and
    /// the starting score (all penalties, no travel).
    pub fn new(p: &Problem) -> (s: Solution)
        requires
            p.wf(),
        ensures
            s.wf(*p),
            s.unfilled_orders@ =~= Seq::new(
                p.spec_depot() as nat,
                |i: int| i as OrderIndex,
            ),
            spec_total_time(s) == 0,
    {
        let truck1 = Week::new(p);
        let truck2 = Week::new(p);
        let order_flags = OrderFlags::new(p.order_count());
        let mut unfilled_orders: VecDeque<OrderIndex> = VecDeque::new();
        let depot = p.depot();
        let mut i: usize = 0;
        while i < depot
            invariant
                i <= depot,
                unfilled_orders@.len() == i,
                forall|k: int| 0 <= k < i ==> #[trigger] unfilled_orders@[k] == k as OrderIndex,
            decreases depot - i,
        {
            unfilled_orders.push_back(i);
            i = i + 1;
        }
        let score = calculate_starting_score(p, &order_flags);
        let s = Solution { truck1, truck2, score, unfilled_orders, order_flags };
        proof {
            let dd = seq![(p.spec_depot() as OrderIndex), (p.spec_depot() as OrderIndex)];
            assert forall|o: OrderIndex, d: DayEnum| (o as int) < p.spec_depot() implies #[trigger] day_occ(
                s,
                d,
                o,
            ) == (if s.order_flags.has_day(o as int, d) {
                1int
            } else {
                0int
            }) by {
                assert(s.truck1.spec_get(d).morning.stops() =~= dd);
                assert(!s.truck1.spec_get(d).morning.stops().contains(o));
                lemma_occ_absent(s.truck1.spec_get(d).morning, o);
                assert(!s.truck1.spec_get(d).afternoon.stops().contains(o));
                lemma_occ_absent(s.truck1.spec_get(d).afternoon, o);
                assert(!s.truck2.spec_get(d).morning.stops().contains(o));
                lemma_occ_absent(s.truck2.spec_get(d).morning, o);
                assert(!s.truck2.spec_get(d).afternoon.stops().contains(o));
                lemma_occ_absent(s.truck2.spec_get(d).afternoon, o);
                assert(s.order_flags.mask(o as int) == 0);
                assert(0u8 & d.spec_bit() == 0) by (bit_vector);
            }
        }
        s
    }

    /// A structural copy of the plan, for keeping and perturbing snapshots:
    /// same routes, tracker, queue and score, hence the same true score.
    pub fn duplicate(&self, p: &Problem) -> (r: Solution)
        requires
            p.wf(),
            self.wf(*p),
        ensures
            r.wf(*p),
            r.score == self.score,
            spec_score(*p, r) == spec_score(*p, *self),
            r.unfilled_orders@ == self.unfilled_orders@,
            forall|o: int|
                0 <= o < p.orders@.len() ==> #[trigger] r.order_flags.mask(o)
                    == self.order_flags.mask(o),
    {
        let truck1 = self.truck1.duplicate(p);
        let truck2 = self.truck2.duplicate(p);
        let order_flags = self.order_flags.duplicate();
        let mut unfilled_orders: VecDeque<OrderIndex> = VecDeque::new();
        let mut i: usize = 0;
        while i < self.unfilled_orders.len()
            invariant
                i <= self.unfilled_orders@.len(),
                unfilled_orders@.len() == i,
                forall|j: int|
                    0 <= j < i ==> #[trigger] unfilled_orders@[j] == self.unfilled_orders@[j],
            decreases self.unfilled_orders@.len() - i,
        {
            unfilled_orders.push_back(self.unfilled_orders[i]);
            i = i + 1;
        }
        let r = Solution {
            truck1,
            truck2,
            score: self.score,
            unfilled_orders,
            order_flags,
        };
        proof {
            assert(r.unfilled_orders@ =~= self.unfilled_orders@);
            lemma_penalty_same(*p, self.order_flags, r.order_flags, 0);
            assert forall|o: OrderIndex, d: DayEnum| (o as int)
                < p.spec_depot() implies #[trigger] day_occ(r, d, o) == (
            if r.order_flags.has_day(o as int, d) {
                1int
            } else {
                0int
            }) by {
                assert(r.truck1.spec_get(d).morning.stops() == self.truck1.spec_get(
                    d,
                ).morning.stops());
                assert(r.truck1.spec_get(d).afternoon.stops() == self.truck1.spec_get(
                    d,
                ).afternoon.stops());
                assert(r.truck2.spec_get(d).morning.stops() == self.truck2.spec_get(
                    d,
                ).morning.stops());
                assert(r.truck2.spec_get(d).afternoon.stops() == self.truck2.spec_get(
                    d,
                ).afternoon.stops());
                assert(day_occ(r, d, o) == day_occ(*self, d, o));
            }
            assert(r.wf(*p));
        }
        r
    }

    /// The number of visits currently placed across all routes: every route
    /// holds its stops minus the two sentinels.
    pub fn fulfilled_order_count(&self, p: &Problem) -> (n: u64)
        requires
            p.wf(),
            self.wf(*p),
        ensures
            n as int == spec_fulfilled(*self),
    {
        let a = week_visits(&self.truck1, p);
        let b = week_visits(&self.truck2, p);
        a + b
    }
}

/// Visits placed in one route: its stops minus the two sentinels.
pub open spec fn route_visits(r: Route) -> int {
    r.stops().len() - 2
}

/// Visits placed in one day.
pub open spec fn day_visits(d: Day) -> int {
    route_visits(d.morning) + route_visits(d.afternoon)
}

/// Visits placed in one week.
pub open spec fn week_visits_spec(w: Week) -> int {
    day_visits(w.monday) + day_visits(w.tuesday) + day_visits(w.wednesday) + day_visits(w.thursday)
        + day_visits(w.friday)
}

/// Visits placed in a whole plan.
pub open spec fn spec_fulfilled(s: Solution) -> int {
    week_visits_spec(s.truck1) + week_visits_spec(s.truck2)
}

/// Count one day's placed visits.
fn day_visits_exec(d: &Day, p: &Problem) -> (n: u64)
    requires
        p.wf(),
        d.wf(*p),
    ensures
        n as int == day_visits(*d),
        n <= 2 * MAX_ROUTE_LEN,
{
    proof {
        d.morning.linked_vector.lemma_well_formed_facts();
        d.morning.linked_vector.lemma_view();
        d.afternoon.linked_vector.lemma_well_formed_facts();
        d.afternoon.linked_vector.lemma_view();
    }
    let m = d.morning.linked_vector.len() as u64;
    let a = d.afternoon.linked_vector.len() as u64;
    (m - 2) + (a - 2)
}

/// Count one week's placed visits.
fn week_visits(w: &Week, p: &Problem) -> (n: u64)
    requires
        p.wf(),
        w.wf(*p),
    ensures
        n as int == week_visits_spec(*w),
        n <= 10 * MAX_ROUTE_LEN,
{
    let mo = day_visits_exec(&w.monday, p);
    let tu = day_visits_exec(&w.tuesday, p);
    let we = day_visits_exec(&w.wednesday, p);
    let th = day_visits_exec(&w.thursday, p);
    let fr = day_visits_exec(&w.friday, p);
    mo + tu + we + th + fr
}

/// The ground-truth score of a plan: every day's contribution plus the
/// unmet-frequency penalty, all recomputed from the current structures.
pub fn calculate_score(p: &Problem, s: &Solution) -> (r: Time)
    requires
        p.wf(),
        s.truck1.wf(*p),
        s.truck2.wf(*p),
        s.order_flags.wf(),
        s.order_flags.len() == p.orders@.len(),
    ensures
        r == spec_score(*p, *s),
{
    proof {
        lemma_week_time_bound(*p, s.truck1);
        lemma_week_time_bound(*p, s.truck2);
    }
    let t1 = week_total_time(&s.truck1, p);
    let t2 = week_total_time(&s.truck2, p);
    let pen = calculate_penalty(p, &s.order_flags);
    t1 + t2 + pen
}

/// One week's scheduled time, from the stored route times.
pub fn week_total_time(w: &Week, p: &Problem) -> (t: Time)
    requires
        p.wf(),
        w.wf(*p),
    ensures
        t == w.spec_total_time(),
        0 <= t <= 30000000000000000,
{
    proof {
        lemma_day_time_bound(*p, w.monday);
        lemma_day_time_bound(*p, w.tuesday);
        lemma_day_time_bound(*p, w.wednesday);
        lemma_day_time_bound(*p, w.thursday);
        lemma_day_time_bound(*p, w.friday);
    }
    let mo = w.monday.get_total_time(p);
    let tu = w.tuesday.get_total_time(p);
    let we = w.wednesday.get_total_time(p);
    let th = w.thursday.get_total_time(p);
    let fr = w.friday.get_total_time(p);
    mo + tu + we + th + fr
}

/// A valid day's contribution is within the per-route time bound, twice.
pub proof fn lemma_day_time_bound(p: Problem, d: Day)
    requires
        p.wf(),
        d.wf(p),
    ensures
        0 <= d.spec_total_time() <= 6000000000000000,
{
    d.morning.linked_vector.lemma_well_formed_facts();
    d.morning.linked_vector.lemma_view();
    d.afternoon.linked_vector.lemma_well_formed_facts();
    d.afternoon.linked_vector.lemma_view();
    crate::route::lemma_time_fits(p, d.morning.stops());
    crate::route::lemma_time_fits(p, d.afternoon.stops());
}

/// A valid week's contribution is within five days' bounds.
pub proof fn lemma_week_time_bound(p: Problem, w: Week)
    requires
        p.wf(),
        w.wf(p),
    ensures
        0 <= w.spec_total_time() <= 30000000000000000,
{
    lemma_day_time_bound(p, w.monday);
    lemma_day_time_bound(p, w.tuesday);
    lemma_day_time_bound(p, w.wednesday);
    lemma_day_time_bound(p, w.thursday);
    lemma_day_time_bound(p, w.friday);
}

} // verus!
