//! Placing and withdrawing single visits on a plan, with the exact score
//! change each causes.  The neighbourhood moves are built from these two
//! primitives.

use vstd::prelude::*;
use rand::rngs::SmallRng;
use crate::rng::rng_below;
use crate::day::TimeOfDay;
use crate::order_day_flags::spec_filled;
use crate::resource::Problem;
use crate::route::{
    add_delta, remove_delta, Route, OrderIndex, MAX_ROUTE_LEN,
};
use crate::solution::{
    day_occ, penalty_sum, penalty_term, route_occ, spec_score, spec_total_time, Solution,
    lemma_penalty_update,
};
use crate::week::DayEnum;
use crate::{Time, HALF_HOUR};

verus! {

/// A route holding only the sentinel pair carries exactly the fixed
/// overhead.
pub proof fn lemma_len2_time(p: Problem, r: Route)
    requires
        p.wf(),
        r.wf(p),
        r.stops().len() == 2,
    ensures
        r.time == HALF_HOUR,
{
    let s = r.stops();
    assert(s.drop_first() =~= seq![s[1]]);
    assert(crate::route::spec_route_time(p, s.drop_first()) == HALF_HOUR as int);
    assert((s[0] as int) == p.spec_depot() && (s[1] as int) == p.spec_depot());
    assert(p.travel(s[0] as int, s[1] as int) == 0);
    assert(p.service(s[0] as int) == 0);
}

/// Inserting one value shifts a route's occurrence counts by one at exactly
/// that value.
pub proof fn lemma_occ_insert(r1: Route, r2: Route, j: int, x: OrderIndex)
    requires
        0 <= j <= r1.stops().len(),
        r2.stops() == r1.stops().insert(j, x),
    ensures
        forall|o: OrderIndex| #[trigger]
            route_occ(r2, o) == route_occ(r1, o) + (if o == x {
                1nat
            } else {
                0nat
            }),
{
    broadcast use vstd::seq_lib::to_multiset_insert;
    broadcast use vstd::multiset::group_multiset_axioms;

    assert(r2.stops().to_multiset() =~= r1.stops().to_multiset().insert(x));
}

/// Removing one position shifts a route's occurrence counts by one at
/// exactly the removed value.
pub proof fn lemma_occ_remove(r1: Route, r2: Route, j: int)
    requires
        0 <= j < r1.stops().len(),
        r2.stops() == r1.stops().remove(j),
    ensures
        forall|o: OrderIndex| #[trigger]
            route_occ(r2, o) == route_occ(r1, o) - (if o == r1.stops()[j] {
                1nat
            } else {
                0nat
            }),
        route_occ(r1, r1.stops()[j]) >= 1,
{
    broadcast use vstd::seq_lib::to_multiset_remove;
    broadcast use vstd::multiset::group_multiset_axioms;

    assert(r2.stops().to_multiset() =~= r1.stops().to_multiset().remove(r1.stops()[j]));
    assert(r1.stops().contains(r1.stops()[j]));
    r1.stops().to_multiset_ensures();
}

/// A week that changed in one day only moved its total by that day's change.
pub proof fn lemma_week_total_one_day(w1: crate::week::Week, w2: crate::week::Week, d: DayEnum)
    requires
        forall|d2: DayEnum| d2 != d ==> #[trigger] w2.spec_get(d2) == w1.spec_get(d2),
    ensures
        w2.spec_total_time() - w1.spec_total_time() == w2.spec_get(d).spec_total_time()
            - w1.spec_get(d).spec_total_time(),
{
    match d {
        DayEnum::Monday => {
            assert(w2.spec_get(DayEnum::Tuesday) == w1.spec_get(DayEnum::Tuesday));
            assert(w2.spec_get(DayEnum::Wednesday) == w1.spec_get(DayEnum::Wednesday));
            assert(w2.spec_get(DayEnum::Thursday) == w1.spec_get(DayEnum::Thursday));
            assert(w2.spec_get(DayEnum::Friday) == w1.spec_get(DayEnum::Friday));
        },
        DayEnum::Tuesday => {
            assert(w2.spec_get(DayEnum::Monday) == w1.spec_get(DayEnum::Monday));
            assert(w2.spec_get(DayEnum::Wednesday) == w1.spec_get(DayEnum::Wednesday));
            assert(w2.spec_get(DayEnum::Thursday) == w1.spec_get(DayEnum::Thursday));
            assert(w2.spec_get(DayEnum::Friday) == w1.spec_get(DayEnum::Friday));
        },
        DayEnum::Wednesday => {
            assert(w2.spec_get(DayEnum::Monday) == w1.spec_get(DayEnum::Monday));
            assert(w2.spec_get(DayEnum::Tuesday) == w1.spec_get(DayEnum::Tuesday));
            assert(w2.spec_get(DayEnum::Thursday) == w1.spec_get(DayEnum::Thursday));
            assert(w2.spec_get(DayEnum::Friday) == w1.spec_get(DayEnum::Friday));
        },
        DayEnum::Thursday => {
            assert(w2.spec_get(DayEnum::Monday) == w1.spec_get(DayEnum::Monday));
            assert(w2.spec_get(DayEnum::Tuesday) == w1.spec_get(DayEnum::Tuesday));
            assert(w2.spec_get(DayEnum::Wednesday) == w1.spec_get(DayEnum::Wednesday));
            assert(w2.spec_get(DayEnum::Friday) == w1.spec_get(DayEnum::Friday));
        },
        DayEnum::Friday => {
            assert(w2.spec_get(DayEnum::Monday) == w1.spec_get(DayEnum::Monday));
            assert(w2.spec_get(DayEnum::Tuesday) == w1.spec_get(DayEnum::Tuesday));
            assert(w2.spec_get(DayEnum::Wednesday) == w1.spec_get(DayEnum::Wednesday));
            assert(w2.spec_get(DayEnum::Thursday) == w1.spec_get(DayEnum::Thursday));
        },
    }
}

//// A day stays valid when one shift's route is replaced by a valid,
/// compacted one.
pub proof fn lemma_day_wf_one_shift(p: Problem, d1: crate::day::Day, d2: crate::day::Day, tod: TimeOfDay)
    requires
        d1.wf(p),
        d2.spec_get(tod.spec_other()) == d1.spec_get(tod.spec_other()),
        d2.spec_get(tod).wf(p),
        d2.spec_get(tod).linked_vector.free_len() == 0,
    ensures
        d2.wf(p),
{
    match tod {
        TimeOfDay::Morning => {
            assert(d2.afternoon == d1.afternoon);
        },
        TimeOfDay::Afternoon => {
            assert(d2.morning == d1.morning);
        },
    }
}

/// A week stays valid when one day is replaced by a valid one.
pub proof fn lemma_week_wf_one_day(p: Problem, w1: crate::week::Week, w2: crate::week::Week, d: DayEnum)
    requires
        w1.wf(p),
        forall|d2: DayEnum| d2 != d ==> #[trigger] w2.spec_get(d2) == w1.spec_get(d2),
        w2.spec_get(d).wf(p),
    ensures
        w2.wf(p),
{
    match d {
        DayEnum::Monday => {
            assert(w2.spec_get(DayEnum::Tuesday) == w1.spec_get(DayEnum::Tuesday));
            assert(w2.spec_get(DayEnum::Wednesday) == w1.spec_get(DayEnum::Wednesday));
            assert(w2.spec_get(DayEnum::Thursday) == w1.spec_get(DayEnum::Thursday));
            assert(w2.spec_get(DayEnum::Friday) == w1.spec_get(DayEnum::Friday));
        },
        DayEnum::Tuesday => {
            assert(w2.spec_get(DayEnum::Monday) == w1.spec_get(DayEnum::Monday));
            assert(w2.spec_get(DayEnum::Wednesday) == w1.spec_get(DayEnum::Wednesday));
            assert(w2.spec_get(DayEnum::Thursday) == w1.spec_get(DayEnum::Thursday));
            assert(w2.spec_get(DayEnum::Friday) == w1.spec_get(DayEnum::Friday));
        },
        DayEnum::Wednesday => {
            assert(w2.spec_get(DayEnum::Monday) == w1.spec_get(DayEnum::Monday));
            assert(w2.spec_get(DayEnum::Tuesday) == w1.spec_get(DayEnum::Tuesday));
            assert(w2.spec_get(DayEnum::Thursday) == w1.spec_get(DayEnum::Thursday));
            assert(w2.spec_get(DayEnum::Friday) == w1.spec_get(DayEnum::Friday));
        },
        DayEnum::Thursday => {
            assert(w2.spec_get(DayEnum::Monday) == w1.spec_get(DayEnum::Monday));
            assert(w2.spec_get(DayEnum::Tuesday) == w1.spec_get(DayEnum::Tuesday));
            assert(w2.spec_get(DayEnum::Wednesday) == w1.spec_get(DayEnum::Wednesday));
            assert(w2.spec_get(DayEnum::Friday) == w1.spec_get(DayEnum::Friday));
        },
        DayEnum::Friday => {
            assert(w2.spec_get(DayEnum::Monday) == w1.spec_get(DayEnum::Monday));
            assert(w2.spec_get(DayEnum::Tuesday) == w1.spec_get(DayEnum::Tuesday));
            assert(w2.spec_get(DayEnum::Wednesday) == w1.spec_get(DayEnum::Wednesday));
            assert(w2.spec_get(DayEnum::Thursday) == w1.spec_get(DayEnum::Thursday));
        },
    }
}

/// Every day but `d` keeps its schedule, on both trucks.
pub closed spec fn other_days_unchanged(s1: Solution, s2: Solution, d: DayEnum) -> bool {
    forall|d2: DayEnum|
        d2 != d ==> #[trigger] s2.truck1.spec_get(d2) == s1.truck1.spec_get(d2)
            && s2.truck2.spec_get(d2) == s1.truck2.spec_get(d2)
}

/// What `other_days_unchanged` says of one particular other day.
pub proof fn lemma_other_days_unchanged(s1: Solution, s2: Solution, d: DayEnum, d2: DayEnum)
    requires
        other_days_unchanged(s1, s2, d),
        d2 != d,
    ensures
        s2.truck1.spec_get(d2) == s1.truck1.spec_get(d2),
        s2.truck2.spec_get(d2) == s1.truck2.spec_get(d2),
{
    assert(s2.truck1.spec_get(d2) == s1.truck1.spec_get(d2));
}

/// The score change of placing one visit of order `o` after slot `slot` in
/// the route of (`truck1`, `d`, `tod`): the route's own time change, plus
/// the depot overhead if the route was empty, plus the change of the order's
/// penalty term once the day is marked.
pub open spec fn add_visit_delta(
    p: Problem,
    s: Solution,
    truck1: bool,
    d: DayEnum,
    tod: TimeOfDay,
    slot: usize,
    o: OrderIndex,
) -> int {
    let rt = s.spec_truck(truck1).spec_get(d).spec_get(tod);
    let f2 = s.order_flags.mask(o as int) | d.spec_bit();
    add_delta(p, rt.stops(), rt.pos(slot) + 1, o) + (if rt.stops().len() == 2 {
        HALF_HOUR as int
    } else {
        0int
    }) + (if spec_filled(f2) == p.freq(o as int) {
        0int
    } else {
        p.orders@[o as int].penalty as int
    }) - penalty_term(p, s.order_flags, o as int)
}

/// The score change of withdrawing the visit in slot `slot` of the route of
/// (`truck1`, `d`, `tod`).
pub open spec fn remove_visit_delta(
    p: Problem,
    s: Solution,
    truck1: bool,
    d: DayEnum,
    tod: TimeOfDay,
    slot: usize,
) -> int {
    let rt = s.spec_truck(truck1).spec_get(d).spec_get(tod);
    let o = rt.stops()[rt.pos(slot)];
    let f2 = s.order_flags.mask(o as int) & !d.spec_bit();
    remove_delta(p, rt.stops(), rt.pos(slot)) + (if rt.stops().len() == 3 {
        -(HALF_HOUR as int)
    } else {
        0int
    }) + (if spec_filled(f2) == p.freq(o as int) {
        0int
    } else {
        p.orders@[o as int].penalty as int
    }) - penalty_term(p, s.order_flags, o as int)
}

/// The slot named by an add move is usable: occupied and not the tail.
pub open spec fn add_slot_ok(s: Solution, truck1: bool, d: DayEnum, tod: TimeOfDay, slot: usize, o: OrderIndex, p: Problem) -> bool {
    let rt = s.spec_truck(truck1).spec_get(d).spec_get(tod);
    &&& rt.linked_vector.occupied(slot)
    &&& rt.pos(slot) < rt.stops().len() - 1
    &&& rt.linked_vector.n_slots() < MAX_ROUTE_LEN
    &&& rt.capacity + p.volume(o as int) <= 100000
    &&& (o as int) < p.spec_depot()
    &&& s.order_flags.mask(o as int) & d.spec_bit() == 0
}

/// The slot named by a remove move is usable: occupied and interior.
pub open spec fn remove_slot_ok(s: Solution, truck1: bool, d: DayEnum, tod: TimeOfDay, slot: usize) -> bool {
    let rt = s.spec_truck(truck1).spec_get(d).spec_get(tod);
    &&& rt.linked_vector.occupied(slot)
    &&& 0 < rt.pos(slot) < rt.stops().len() - 1
}

impl Solution {
    /// Place one visit of order `o` after `slot` in the named route, mark
    /// the day, and book the exact score change.
    #[verifier::rlimit(100)]
    #[verifier::spinoff_prover]
    pub fn apply_add_visit(
        &mut self,
        p: &Problem,
        truck1: bool,
        d: DayEnum,
        tod: TimeOfDay,
        slot: usize,
        o: OrderIndex,
    ) -> (r: Time)
        requires
            p.wf(),
            old(self).wf(*p),
            add_slot_ok(*old(self), truck1, d, tod, slot, o, *p),
        ensures
            final(self).wf(*p),
            r as int == add_visit_delta(*p, *old(self), truck1, d, tod, slot, o),
            final(self).score == old(self).score + r,
            spec_score(*p, *final(self)) == spec_score(*p, *old(self)) + r,
            final(self).unfilled_orders == old(self).unfilled_orders,
            final(self).order_flags.mask(o as int) == old(self).order_flags.mask(o as int)
                | d.spec_bit(),
            forall|o2: int|
                0 <= o2 < p.orders@.len() && o2 != o ==> #[trigger] final(self).order_flags.mask(o2)
                    == old(self).order_flags.mask(o2),
            final(self).spec_truck(truck1).spec_get(d).spec_get(tod).stops() =~= old(
                self,
            ).spec_truck(truck1).spec_get(d).spec_get(tod).stops().insert(
                old(self).spec_truck(truck1).spec_get(d).spec_get(tod).pos(slot) + 1,
                o,
            ),
            other_days_unchanged(*old(self), *final(self), d),
            truck1 ==> final(self).truck2 == old(self).truck2,
            !truck1 ==> final(self).truck1 == old(self).truck1,
            final(self).spec_truck(truck1).spec_get(d).spec_get(tod.spec_other()) == old(
                self,
            ).spec_truck(truck1).spec_get(d).spec_get(tod.spec_other()),
            ({
                let rt0 = old(self).spec_truck(truck1).spec_get(d).spec_get(tod);
                let rt1 = final(self).spec_truck(truck1).spec_get(d).spec_get(tod);
                rt1.capacity == rt0.capacity + p.volume(o as int)
            }),
    {
        let ghost s0 = *self;
        let ghost rt0 = s0.spec_truck(truck1).spec_get(d).spec_get(tod);
        let ghost pos = rt0.pos(slot);
        let week = if truck1 {
            &mut self.truck1
        } else {
            &mut self.truck2
        };
        let day = week.get_mut(d);
        let route = day.get_mut(tod);
        let was_empty = route.linked_vector.len() == 2;
        proof {
            route.linked_vector.lemma_well_formed_facts();
            route.linked_vector.lemma_view();
            if was_empty {
                lemma_len2_time(*p, *route);
            }
        }
        let route_delta = route.apply_add_order(p, slot, o);
        let extra = if was_empty {
            HALF_HOUR
        } else {
            0
        };
        let term_before = penalty_term_exec(p, &self.order_flags, o);
        self.order_flags.add_order(o, d);
        let term_after = penalty_term_exec(p, &self.order_flags, o);
        proof {
            let s1 = *self;
            let rt1 = s1.spec_truck(truck1).spec_get(d).spec_get(tod);
            assert(rt1.stops() =~= rt0.stops().insert(pos + 1, o));
            lemma_occ_insert(rt0, rt1, pos + 1, o);
            lemma_penalty_update(*p, s0.order_flags, s1.order_flags, o as int, 0);
            crate::route::lemma_time_fits(*p, rt0.stops());
            crate::route::lemma_time_fits(*p, rt1.stops());
            crate::solution::lemma_penalty_bounds(*p, s0.order_flags, 0);
            crate::solution::lemma_penalty_bounds(*p, s1.order_flags, 0);
            crate::solution::lemma_penalty_term_bounds(*p, o as int);
            assert(penalty_term(*p, s0.order_flags, o as int) == term_before as int);
            assert(penalty_term(*p, s1.order_flags, o as int) == term_after as int);
            // Every other route is untouched, so day occurrences elsewhere
            // keep their counts.
            assert forall|o2: OrderIndex, d2: DayEnum| (o2 as int) < p.spec_depot() implies #[trigger] day_occ(
                s1,
                d2,
                o2,
            ) == (if s1.order_flags.has_day(o2 as int, d2) {
                1int
            } else {
                0int
            }) by {
                if d2 == d {
                    if o2 == o {
                        assert(day_occ(s0, d, o) == 0) by {
                            assert(!s0.order_flags.has_day(o as int, d));
                        }
                        assert(day_occ(s1, d, o) == 1);
                        assert(s1.order_flags.has_day(o as int, d)) by {
                            crate::order_day_flags::lemma_set_bit(
                                s0.order_flags.mask(o as int),
                                d.spec_bit(),
                            );
                        }
                    } else {
                        assert(day_occ(s1, d2, o2) == day_occ(s0, d2, o2));
                        assert(s1.order_flags.has_day(o2 as int, d2) == s0.order_flags.has_day(
                            o2 as int,
                            d2,
                        ));
                    }
                } else {
                    assert(day_occ(s1, d2, o2) == day_occ(s0, d2, o2));
                    assert(s1.order_flags.has_day(o2 as int, d2) == s0.order_flags.has_day(
                        o2 as int,
                        d2,
                    )) by {
                        if o2 == o {
                            crate::order_day_flags::lemma_other_bit(
                                s0.order_flags.mask(o as int),
                                d.spec_bit(),
                                d2.spec_bit(),
                            );
                        }
                    }
                }
            }
        }
        proof {
            let s1 = *self;
            let rt1 = s1.spec_truck(truck1).spec_get(d).spec_get(tod);
            if truck1 {
                lemma_day_wf_one_shift(*p, s0.truck1.spec_get(d), s1.truck1.spec_get(d), tod);
                lemma_week_wf_one_day(*p, s0.truck1, s1.truck1, d);
                lemma_week_total_one_day(s0.truck1, s1.truck1, d);
            } else {
                lemma_day_wf_one_shift(*p, s0.truck2.spec_get(d), s1.truck2.spec_get(d), tod);
                lemma_week_wf_one_day(*p, s0.truck2, s1.truck2, d);
                lemma_week_total_one_day(s0.truck2, s1.truck2, d);
            }
            assert(spec_total_time(s1) - spec_total_time(s0) == route_delta + extra);
            crate::solution::lemma_week_time_bound(*p, s0.truck1);
            crate::solution::lemma_week_time_bound(*p, s0.truck2);
            crate::solution::lemma_week_time_bound(*p, s1.truck1);
            crate::solution::lemma_week_time_bound(*p, s1.truck2);
        }
        let r = route_delta + extra + term_after - term_before;
        let ghost s1s = *self;
        proof {
            assert(spec_score(*p, *self) - spec_score(*p, s0) == r);
        }
        self.score = self.score + r;
        proof {
            let s2 = *self;
            assert(s2.truck1 == s1s.truck1 && s2.truck2 == s1s.truck2);
            assert(s2.order_flags == s1s.order_flags);
            assert forall|o2: OrderIndex, d2: DayEnum| (o2 as int)
                < p.spec_depot() implies #[trigger] day_occ(s2, d2, o2) == (
            if s2.order_flags.has_day(o2 as int, d2) {
                1int
            } else {
                0int
            }) by {
                assert(day_occ(s2, d2, o2) == day_occ(s1s, d2, o2));
            }
            assert(spec_score(*p, s2) == spec_score(*p, s1s));
            assert(self.wf(*p));
        }
        r
    }

    /// Withdraw the visit in `slot` of the named route, unmark its day, and
    /// book the exact score change.
    #[verifier::rlimit(100)]
    #[verifier::spinoff_prover]
    pub fn apply_remove_visit(
        &mut self,
        p: &Problem,
        truck1: bool,
        d: DayEnum,
        tod: TimeOfDay,
        slot: usize,
    ) -> (r: Time)
        requires
            p.wf(),
            old(self).wf(*p),
            remove_slot_ok(*old(self), truck1, d, tod, slot),
        ensures
            final(self).wf(*p),
            r as int == remove_visit_delta(*p, *old(self), truck1, d, tod, slot),
            final(self).score == old(self).score + r,
            spec_score(*p, *final(self)) == spec_score(*p, *old(self)) + r,
            final(self).unfilled_orders == old(self).unfilled_orders,
            ({
                let rt = old(self).spec_truck(truck1).spec_get(d).spec_get(tod);
                let o = rt.stops()[rt.pos(slot)];
                &&& final(self).order_flags.mask(o as int) == old(self).order_flags.mask(o as int)
                    & !d.spec_bit()
                &&& forall|o2: int|
                    0 <= o2 < p.orders@.len() && o2 != o
                        ==> #[trigger] final(self).order_flags.mask(o2)
                        == old(self).order_flags.mask(o2)
                &&& final(self).spec_truck(truck1).spec_get(d).spec_get(tod).stops() =~= rt.stops(
                ).remove(rt.pos(slot))
            }),
            other_days_unchanged(*old(self), *final(self), d),
            truck1 ==> final(self).truck2 == old(self).truck2,
            !truck1 ==> final(self).truck1 == old(self).truck1,
            final(self).spec_truck(truck1).spec_get(d).spec_get(tod.spec_other()) == old(
                self,
            ).spec_truck(truck1).spec_get(d).spec_get(tod.spec_other()),
            ({
                let rt0 = old(self).spec_truck(truck1).spec_get(d).spec_get(tod);
                let rt1 = final(self).spec_truck(truck1).spec_get(d).spec_get(tod);
                rt1.capacity == rt0.capacity - p.volume(rt0.stops()[rt0.pos(slot)] as int)
            }),
    {
        let ghost s0 = *self;
        let ghost rt0 = s0.spec_truck(truck1).spec_get(d).spec_get(tod);
        let ghost pos = rt0.pos(slot);
        let week = if truck1 {
            &mut self.truck1
        } else {
            &mut self.truck2
        };
        let day = week.get_mut(d);
        let route = day.get_mut(tod);
        proof {
            route.linked_vector.lemma_well_formed_facts();
            route.linked_vector.lemma_view();
            route.linked_vector.lemma_pos_of(slot);
        }
        let o = route.linked_vector.get_value(slot).unwrap();
        proof {
            assert(o == rt0.stops()[pos]);
            assert((o as int) < p.spec_depot());
        }
        let was_three = route.linked_vector.len() == 3;
        let route_delta = route.apply_remove_node(p, slot);
        let extra: Time = if was_three {
            -HALF_HOUR
        } else {
            0
        };
        proof {
            // The order has a visit on this day: its occurrence here shows
            // the flag bit is set.
            let rt1 = self.spec_truck(truck1).spec_get(d).spec_get(tod);
            assert(rt1.stops() =~= rt0.stops().remove(pos));
            lemma_occ_remove(rt0, rt1, pos);
            assert(day_occ(s0, d, o) >= 1);
            assert(s0.order_flags.has_day(o as int, d));
            assert(s0.order_flags.mask(o as int) & d.spec_bit() == d.spec_bit()) by {
                crate::order_day_flags::lemma_bit_forms(
                    s0.order_flags.mask(o as int),
                    d.spec_bit(),
                );
            }
        }
        let term_before = penalty_term_exec(p, &self.order_flags, o);
        self.order_flags.remove_order(o, d);
        let term_after = penalty_term_exec(p, &self.order_flags, o);
        proof {
            let s1 = *self;
            let rt1 = s1.spec_truck(truck1).spec_get(d).spec_get(tod);
            lemma_penalty_update(*p, s0.order_flags, s1.order_flags, o as int, 0);
            crate::route::lemma_time_fits(*p, rt0.stops());
            crate::route::lemma_time_fits(*p, rt1.stops());
            crate::solution::lemma_penalty_bounds(*p, s0.order_flags, 0);
            crate::solution::lemma_penalty_bounds(*p, s1.order_flags, 0);
            crate::solution::lemma_penalty_term_bounds(*p, o as int);
            assert(penalty_term(*p, s0.order_flags, o as int) == term_before as int);
            assert(penalty_term(*p, s1.order_flags, o as int) == term_after as int);
            if rt0.stops().len() == 3 {
                lemma_len2_time(*p, rt1);
            }
            assert forall|o2: OrderIndex, d2: DayEnum| (o2 as int) < p.spec_depot() implies #[trigger] day_occ(
                s1,
                d2,
                o2,
            ) == (if s1.order_flags.has_day(o2 as int, d2) {
                1int
            } else {
                0int
            }) by {
                lemma_occ_remove(rt0, rt1, pos);
                if d2 == d {
                    if o2 == o {
                        assert(day_occ(s0, d, o) == 1);
                        assert(day_occ(s1, d, o) == 0);
                        assert(!s1.order_flags.has_day(o as int, d)) by {
                            crate::order_day_flags::lemma_clear_bit(
                                s0.order_flags.mask(o as int),
                                d.spec_bit(),
                            );
                        }
                    } else {
                        assert(day_occ(s1, d2, o2) == day_occ(s0, d2, o2));
                        assert(s1.order_flags.has_day(o2 as int, d2) == s0.order_flags.has_day(
                            o2 as int,
                            d2,
                        ));
                    }
                } else {
                    assert(day_occ(s1, d2, o2) == day_occ(s0, d2, o2));
                    assert(s1.order_flags.has_day(o2 as int, d2) == s0.order_flags.has_day(
                        o2 as int,
                        d2,
                    )) by {
                        if o2 == o {
                            crate::order_day_flags::lemma_other_bit_clear(
                                s0.order_flags.mask(o as int),
                                d.spec_bit(),
                                d2.spec_bit(),
                            );
                        }
                    }
                }
            }
        }
        proof {
            let s1 = *self;
            let rt1 = s1.spec_truck(truck1).spec_get(d).spec_get(tod);
            if truck1 {
                lemma_day_wf_one_shift(*p, s0.truck1.spec_get(d), s1.truck1.spec_get(d), tod);
                lemma_week_wf_one_day(*p, s0.truck1, s1.truck1, d);
                lemma_week_total_one_day(s0.truck1, s1.truck1, d);
            } else {
                lemma_day_wf_one_shift(*p, s0.truck2.spec_get(d), s1.truck2.spec_get(d), tod);
                lemma_week_wf_one_day(*p, s0.truck2, s1.truck2, d);
                lemma_week_total_one_day(s0.truck2, s1.truck2, d);
            }
            assert(spec_total_time(s1) - spec_total_time(s0) == route_delta + extra);
            crate::solution::lemma_week_time_bound(*p, s0.truck1);
            crate::solution::lemma_week_time_bound(*p, s0.truck2);
            crate::solution::lemma_week_time_bound(*p, s1.truck1);
            crate::solution::lemma_week_time_bound(*p, s1.truck2);
        }
        let r = route_delta + extra + term_after - term_before;
        let ghost s1s = *self;
        proof {
            assert(spec_score(*p, *self) - spec_score(*p, s0) == r);
        }
        self.score = self.score + r;
        proof {
            let s2 = *self;
            assert(s2.truck1 == s1s.truck1 && s2.truck2 == s1s.truck2);
            assert(s2.order_flags == s1s.order_flags);
            assert forall|o2: OrderIndex, d2: DayEnum| (o2 as int)
                < p.spec_depot() implies #[trigger] day_occ(s2, d2, o2) == (
            if s2.order_flags.has_day(o2 as int, d2) {
                1int
            } else {
                0int
            }) by {
                assert(day_occ(s2, d2, o2) == day_occ(s1s, d2, o2));
            }
            assert(spec_score(*p, s2) == spec_score(*p, s1s));
            assert(self.wf(*p));
        }
        r
    }
}

/// One order's current penalty contribution.
pub fn penalty_term_exec(p: &Problem, fl: &crate::order_day_flags::OrderFlags, o: OrderIndex) -> (r:
    Time)
    requires
        p.wf(),
        (o as int) < fl.len(),
        (o as int) < p.orders@.len(),
    ensures
        r as int == penalty_term(*p, *fl, o as int),
        0 <= r <= 51840000,
{
    proof {
        crate::solution::lemma_penalty_term_bounds(*p, o as int);
    }
    let c = fl.get_filled_count(o);
    let f = p.orders[o].frequency.count();
    if c == f as u32 {
        0
    } else {
        p.orders[o].get_penalty()
    }
}

/// A day the legality table allows never carries the order's bit already.
pub proof fn lemma_allowed_unset(freq: int, m: u8, d: DayEnum)
    requires
        crate::order_day_flags::allowed_day(freq, m, d),
    ensures
        m & d.spec_bit() == 0,
{
    let b = d.spec_bit();
    if freq == 1 {
        assert(0u8 & b == 0) by (bit_vector);
    } else if freq == 2 {
        if m == 0 {
            assert(0u8 & b == 0) by (bit_vector);
        } else {
            assert((1u8 & 8u8 == 0) && (8u8 & 1u8 == 0) && (2u8 & 16u8 == 0) && (16u8 & 2u8 == 0))
                by (bit_vector);
        }
    }
}

/// A uniformly random occupied slot that is not the tail, to insert after;
/// none when the sampling attempts all land on the tail.
fn sample_insert_slot(route: &Route, rng: &mut SmallRng) -> (r: Option<usize>)
    requires
        route.linked_vector.well_formed(),
        route.linked_vector.free_len() == 0,
        route.stops().len() >= 2,
    ensures
        r matches Some(i) ==> route.linked_vector.occupied(i) && route.pos(i) < route.stops().len()
            - 1,
{
    proof {
        route.linked_vector.lemma_view();
        route.linked_vector.lemma_well_formed_facts();
    }
    let tail = route.linked_vector.get_tail_index().unwrap();
    let mut attempts: u64 = 0;
    while attempts < 16
        invariant
            route.linked_vector.well_formed(),
            route.linked_vector.free_len() == 0,
            route.stops().len() >= 2,
            Some(tail) == route.linked_vector.spec_tail(),
        decreases 16 - attempts,
    {
        let got = route.linked_vector.get_random(rng);
        proof {
            route.linked_vector.lemma_view();
            route.linked_vector.lemma_well_formed_facts();
        }
        if let Some((i, _)) = got {
            if i != tail {
                proof {
                    route.linked_vector.lemma_pos_of(i);
                    let c = route.linked_vector.spec_chain();
                    if route.pos(i) == c.len() - 1 {
                        assert(c[c.len() - 1] == i);
                    }
                }
                return Some(i);
            }
        }
        attempts = attempts + 1;
    }
    None
}

/// A uniformly random interior slot (neither sentinel), to remove or shift;
/// none when the sampling attempts all land on the ends.
fn sample_interior_slot(route: &Route, rng: &mut SmallRng) -> (r: Option<usize>)
    requires
        route.linked_vector.well_formed(),
        route.linked_vector.free_len() == 0,
        route.stops().len() >= 2,
    ensures
        r matches Some(i) ==> route.linked_vector.occupied(i) && 0 < route.pos(i)
            < route.stops().len() - 1,
{
    proof {
        route.linked_vector.lemma_view();
        route.linked_vector.lemma_well_formed_facts();
    }
    let head = route.linked_vector.get_head_index().unwrap();
    let tail = route.linked_vector.get_tail_index().unwrap();
    let mut attempts: u64 = 0;
    while attempts < 16
        invariant
            route.linked_vector.well_formed(),
            route.linked_vector.free_len() == 0,
            route.stops().len() >= 2,
            Some(head) == route.linked_vector.spec_head(),
            Some(tail) == route.linked_vector.spec_tail(),
        decreases 16 - attempts,
    {
        let got = route.linked_vector.get_random(rng);
        proof {
            route.linked_vector.lemma_view();
            route.linked_vector.lemma_well_formed_facts();
        }
        if let Some((i, _)) = got {
            if i != tail && i != head {
                proof {
                    route.linked_vector.lemma_pos_of(i);
                    let c = route.linked_vector.spec_chain();
                    if route.pos(i) == c.len() - 1 {
                        assert(c[c.len() - 1] == i);
                    }
                    if route.pos(i) == 0 {
                        assert(c[0] == i);
                    }
                }
                return Some(i);
            }
        }
        attempts = attempts + 1;
    }
    None
}

/// Add one visit of an order from the unfilled queue to a random legal
/// weekday, shift, and position.
pub struct AddNewOrder {
    pub truck1: bool,
    pub day: DayEnum,
    pub time_of_day: TimeOfDay,
    pub insert_after_index: usize,
    pub order: OrderIndex,
}

impl AddNewOrder {
    /// The move names a usable slot, a day the legality table allows for
    /// this order, and a route with room.
    pub open spec fn ok(self, p: Problem, s: Solution) -> bool {
        &&& add_slot_ok(s, self.truck1, self.day, self.time_of_day, self.insert_after_index, self.order, p)
        &&& crate::order_day_flags::allowed_day(
            p.freq(self.order as int),
            s.order_flags.mask(self.order as int),
            self.day,
        )
    }

    /// Sample a placement for `order`: a random truck, a legal weekday, a
    /// random shift and a random position; none when the day quota is
    /// already met, the route is full, or sampling found no usable slot.
    pub fn new(p: &Problem, s: &Solution, rng: &mut SmallRng, order: OrderIndex) -> (r: Option<
        AddNewOrder,
    >)
        requires
            p.wf(),
            s.wf(*p),
            (order as int) < p.spec_depot(),
        ensures
            r matches Some(m) ==> m.ok(*p, *s) && m.order == order,
    {
        let truck1 = rng_below(rng, 2) == 0;
        let week = if truck1 {
            &s.truck1
        } else {
            &s.truck2
        };
        let freq0 = p.orders[order].frequency.count();
        if freq0 == 2 && s.order_flags.get_mask(order) & DayEnum::Wednesday.bit() != 0 {
            return None;
        }
        let day_opt = s.order_flags.get_random_allowed_day(p, order, rng);
        let day = match day_opt {
            Some(d) => d,
            None => {
                return None;
            },
        };
        proof {
            lemma_allowed_unset(p.freq(order as int), s.order_flags.mask(order as int), day);
        }
        let (route_ref, time_of_day) = week.get(day).get_random(rng);
        let volume = p.orders[order].trash();
        if route_ref.capacity > 100000 || volume > 100000 - route_ref.capacity {
            return None;
        }
        if route_ref.linked_vector.len() >= crate::route::MAX_ROUTE_LEN {
            return None;
        }
        let slot_opt = sample_insert_slot(route_ref, rng);
        let insert_after_index = match slot_opt {
            Some(i) => i,
            None => {
                return None;
            },
        };
        Some(AddNewOrder { truck1, day, time_of_day, insert_after_index, order })
    }

    /// The score change this move would cause, computed without touching the
    /// plan.
    pub fn evaluate(&self, p: &Problem, s: &Solution) -> (r: Time)
        requires
            p.wf(),
            s.wf(*p),
            self.ok(*p, *s),
        ensures
            r as int == add_visit_delta(
                *p,
                *s,
                self.truck1,
                self.day,
                self.time_of_day,
                self.insert_after_index,
                self.order,
            ),
    {
        let week = if self.truck1 {
            &s.truck1
        } else {
            &s.truck2
        };
        let route = week.get(self.day).get(self.time_of_day);
        let dt = route.calculate_add_order(p, self.insert_after_index, self.order);
        let extra = if route.linked_vector.len() == 2 {
            HALF_HOUR
        } else {
            0
        };
        proof {
            route.linked_vector.lemma_well_formed_facts();
            route.linked_vector.lemma_view();
            crate::order_day_flags::lemma_set_bit(
                s.order_flags.mask(self.order as int),
                self.day.spec_bit(),
            );
            crate::solution::lemma_penalty_term_bounds(*p, self.order as int);
        }
        let term_before = penalty_term_exec(p, &s.order_flags, self.order);
        let c = s.order_flags.get_filled_count(self.order);
        let f = p.orders[self.order].frequency.count();
        let term_after: Time = if c + 1 == f as u32 {
            0
        } else {
            p.orders[self.order].get_penalty()
        };
        dt + extra + term_after - term_before
    }

    /// Commit the move; the returned score change equals the evaluation.
    pub fn apply(&self, p: &Problem, s: &mut Solution) -> (r: Time)
        requires
            p.wf(),
            old(s).wf(*p),
            self.ok(*p, *old(s)),
        ensures
            final(s).wf(*p),
            r as int == add_visit_delta(
                *p,
                *old(s),
                self.truck1,
                self.day,
                self.time_of_day,
                self.insert_after_index,
                self.order,
            ),
            spec_score(*p, *final(s)) == spec_score(*p, *old(s)) + r,
            final(s).score == old(s).score + r,
            final(s).unfilled_orders == old(s).unfilled_orders,
            final(s).order_flags.mask(self.order as int) == old(s).order_flags.mask(
                self.order as int,
            ) | self.day.spec_bit(),
            forall|o2: int|
                0 <= o2 < p.orders@.len() && o2 != self.order
                    ==> #[trigger] final(s).order_flags.mask(o2) == old(s).order_flags.mask(o2),
            ({
                let rt0 = old(s).spec_truck(self.truck1).spec_get(self.day).spec_get(
                    self.time_of_day,
                );
                let rt1 = final(s).spec_truck(self.truck1).spec_get(self.day).spec_get(
                    self.time_of_day,
                );
                &&& rt1.stops() =~= rt0.stops().insert(
                    rt0.pos(self.insert_after_index) + 1,
                    self.order,
                )
                &&& rt1.capacity == rt0.capacity + p.volume(self.order as int)
            }),
            other_days_unchanged(*old(s), *final(s), self.day),
            final(s).spec_truck(self.truck1).spec_get(self.day).spec_get(
                self.time_of_day.spec_other(),
            ) == old(s).spec_truck(self.truck1).spec_get(self.day).spec_get(
                self.time_of_day.spec_other(),
            ),
    {
        let ghost s0 = *s;
        let r = s.apply_add_visit(
            p,
            self.truck1,
            self.day,
            self.time_of_day,
            self.insert_after_index,
            self.order,
        );
        r
    }
}

/// Withdraw one visit found at a random interior position of a random route.
pub struct RemoveOrder {
    pub truck1: bool,
    pub day_enum: DayEnum,
    pub time_of_day: TimeOfDay,
    pub node_index: usize,
    pub order_index: OrderIndex,
}

impl RemoveOrder {
    /// The move names an interior slot whose stop is this order.
    pub open spec fn ok(self, p: Problem, s: Solution) -> bool {
        let rt = s.spec_truck(self.truck1).spec_get(self.day_enum).spec_get(self.time_of_day);
        &&& remove_slot_ok(s, self.truck1, self.day_enum, self.time_of_day, self.node_index)
        &&& rt.stops()[rt.pos(self.node_index)] == self.order_index
    }

    /// Sample a visit to withdraw: a random route, and a random interior
    /// stop of it; none when the route is empty or sampling found only the
    /// sentinels.
    pub fn new(p: &Problem, s: &Solution, rng: &mut SmallRng) -> (r: Option<RemoveOrder>)
        requires
            p.wf(),
            s.wf(*p),
        ensures
            r matches Some(m) ==> m.ok(*p, *s),
    {
        let truck1 = rng_below(rng, 2) == 0;
        let week = if truck1 {
            &s.truck1
        } else {
            &s.truck2
        };
        let (day_ref, day_enum) = week.get_random(rng);
        let (route_ref, time_of_day) = day_ref.get_random(rng);
        if route_ref.linked_vector.len() == 2 {
            return None;
        }
        let node_index = match sample_interior_slot(route_ref, rng) {
            Some(i) => i,
            None => {
                return None;
            },
        };
        proof {
            route_ref.linked_vector.lemma_pos_of(node_index);
            route_ref.linked_vector.lemma_view();
        }
        let order_index = route_ref.linked_vector.get_value(node_index).unwrap();
        Some(RemoveOrder { truck1, day_enum, time_of_day, node_index, order_index })
    }

    /// The score change this move would cause, computed without touching the
    /// plan.
    pub fn evaluate(&self, p: &Problem, s: &Solution) -> (r: Time)
        requires
            p.wf(),
            s.wf(*p),
            self.ok(*p, *s),
        ensures
            r as int == remove_visit_delta(
                *p,
                *s,
                self.truck1,
                self.day_enum,
                self.time_of_day,
                self.node_index,
            ),
    {
        let week = if self.truck1 {
            &s.truck1
        } else {
            &s.truck2
        };
        let route = week.get(self.day_enum).get(self.time_of_day);
        let ghost rt = *route;
        let ghost pos = rt.pos(self.node_index);
        let dt = route.calculate_remove_node(p, self.node_index);
        let extra: Time = if route.linked_vector.len() == 3 {
            -HALF_HOUR
        } else {
            0
        };
        proof {
            route.linked_vector.lemma_well_formed_facts();
            route.linked_vector.lemma_view();
            route.linked_vector.lemma_pos_of(self.node_index);
            // The visit exists in this day's routes, so the day bit is set.
            assert(rt.stops().contains(self.order_index));
            rt.stops().to_multiset_ensures();
            assert(route_occ(rt, self.order_index) >= 1);
            assert(day_occ(*s, self.day_enum, self.order_index) >= 1);
            assert(s.order_flags.has_day(self.order_index as int, self.day_enum));
            crate::order_day_flags::lemma_bit_forms(
                s.order_flags.mask(self.order_index as int),
                self.day_enum.spec_bit(),
            );
            crate::order_day_flags::lemma_clear_bit(
                s.order_flags.mask(self.order_index as int),
                self.day_enum.spec_bit(),
            );
            crate::solution::lemma_penalty_term_bounds(*p, self.order_index as int);
        }
        let term_before = penalty_term_exec(p, &s.order_flags, self.order_index);
        let c = s.order_flags.get_filled_count(self.order_index);
        let f = p.orders[self.order_index].frequency.count();
        let term_after: Time = if c - 1 == f as u32 {
            0
        } else {
            p.orders[self.order_index].get_penalty()
        };
        dt + extra + term_after - term_before
    }

    /// Commit the move; the returned score change equals the evaluation.
    pub fn apply(&self, p: &Problem, s: &mut Solution) -> (r: Time)
        requires
            p.wf(),
            old(s).wf(*p),
            self.ok(*p, *old(s)),
        ensures
            final(s).wf(*p),
            r as int == remove_visit_delta(
                *p,
                *old(s),
                self.truck1,
                self.day_enum,
                self.time_of_day,
                self.node_index,
            ),
            spec_score(*p, *final(s)) == spec_score(*p, *old(s)) + r,
            final(s).score == old(s).score + r,
            final(s).unfilled_orders == old(s).unfilled_orders,
            final(s).order_flags.mask(self.order_index as int) == old(s).order_flags.mask(
                self.order_index as int,
            ) & !self.day_enum.spec_bit(),
            forall|o2: int|
                0 <= o2 < p.orders@.len() && o2 != self.order_index
                    ==> #[trigger] final(s).order_flags.mask(o2) == old(s).order_flags.mask(o2),
            ({
                let rt0 = old(s).spec_truck(self.truck1).spec_get(self.day_enum).spec_get(
                    self.time_of_day,
                );
                let rt1 = final(s).spec_truck(self.truck1).spec_get(self.day_enum).spec_get(
                    self.time_of_day,
                );
                &&& rt1.stops() =~= rt0.stops().remove(rt0.pos(self.node_index))
                &&& rt1.capacity == rt0.capacity - p.volume(self.order_index as int)
            }),
            other_days_unchanged(*old(s), *final(s), self.day_enum),
    {
        let ghost s0 = *s;
        let r = s.apply_remove_visit(
            p,
            self.truck1,
            self.day_enum,
            self.time_of_day,
            self.node_index,
        );
        r
    }
}


/// The score change of relocating the stop in `shifting` to sit right after
/// `target` within the same route: the removal's saving plus the insertion's
/// cost; flags and penalties are untouched.
pub open spec fn shift_in_route_delta(
    p: Problem,
    s: Solution,
    truck1: bool,
    d: DayEnum,
    tod: TimeOfDay,
    shifting: usize,
    target: usize,
) -> int {
    let rt = s.spec_truck(truck1).spec_get(d).spec_get(tod);
    remove_delta(p, rt.stops(), rt.pos(shifting)) + add_delta(
        p,
        rt.stops(),
        rt.pos(target) + 1,
        rt.stops()[rt.pos(shifting)],
    )
}

/// The slots named by an in-route shift are usable: the shifted stop is
/// interior, the landing slot is not the tail, and the two are neither equal
/// nor adjacent in the order that would make the relocation a no-op.
pub open spec fn shift_slots_ok(
    s: Solution,
    truck1: bool,
    d: DayEnum,
    tod: TimeOfDay,
    shifting: usize,
    target: usize,
) -> bool {
    let rt = s.spec_truck(truck1).spec_get(d).spec_get(tod);
    &&& rt.linked_vector.occupied(shifting)
    &&& 0 < rt.pos(shifting) < rt.stops().len() - 1
    &&& rt.linked_vector.occupied(target)
    &&& rt.pos(target) < rt.stops().len() - 1
    &&& target != shifting
    &&& rt.pos(target) != rt.pos(shifting) - 1
}

impl Solution {
    /// Relocate the stop in `shifting` to sit right after `target` in the
    /// same route, and book the exact score change.  Flags, the queue, and
    /// every other route are untouched.
    #[verifier::rlimit(100)]
    #[verifier::spinoff_prover]
    pub fn apply_shift_in_route(
        &mut self,
        p: &Problem,
        truck1: bool,
        d: DayEnum,
        tod: TimeOfDay,
        shifting: usize,
        target: usize,
    ) -> (r: Time)
        requires
            p.wf(),
            old(self).wf(*p),
            shift_slots_ok(*old(self), truck1, d, tod, shifting, target),
        ensures
            final(self).wf(*p),
            r as int == shift_in_route_delta(*p, *old(self), truck1, d, tod, shifting, target),
            final(self).score == old(self).score + r,
            spec_score(*p, *final(self)) == spec_score(*p, *old(self)) + r,
            final(self).unfilled_orders == old(self).unfilled_orders,
            final(self).order_flags == old(self).order_flags,
            ({
                let rt0 = old(self).spec_truck(truck1).spec_get(d).spec_get(tod);
                let rt1 = final(self).spec_truck(truck1).spec_get(d).spec_get(tod);
                &&& forall|o2: OrderIndex| #[trigger] route_occ(rt1, o2) == route_occ(rt0, o2)
                &&& rt1.stops().len() == rt0.stops().len()
                &&& rt1.capacity == rt0.capacity
            }),
            other_days_unchanged(*old(self), *final(self), d),
            truck1 ==> final(self).truck2 == old(self).truck2,
            !truck1 ==> final(self).truck1 == old(self).truck1,
            final(self).spec_truck(truck1).spec_get(d).spec_get(tod.spec_other()) == old(
                self,
            ).spec_truck(truck1).spec_get(d).spec_get(tod.spec_other()),
    {
        let ghost s0 = *self;
        let ghost rt0 = s0.spec_truck(truck1).spec_get(d).spec_get(tod);
        let ghost q = rt0.pos(shifting);
        let ghost tpos = rt0.pos(target);
        let week = if truck1 {
            &mut self.truck1
        } else {
            &mut self.truck2
        };
        let day = week.get_mut(d);
        let route = day.get_mut(tod);
        proof {
            route.linked_vector.lemma_well_formed_facts();
            route.linked_vector.lemma_view();
            route.linked_vector.lemma_pos_of(shifting);
            route.linked_vector.lemma_pos_of(target);
        }
        let shifting_value = route.linked_vector.get_value(shifting).unwrap();
        let ghost x = rt0.stops()[q];
        proof {
            assert(shifting_value == x);
        }
        let d1 = route.apply_remove_node_without_compact(p, shifting);
        proof {
            route.linked_vector.lemma_well_formed_facts();
            route.linked_vector.lemma_view();
            assert(route.linked_vector.occupied(target));
            route.linked_vector.lemma_pos_of(target);
            let c0 = rt0.linked_vector.spec_chain();
            let c1 = route.linked_vector.spec_chain();
            assert(c1 =~= c0.remove(q));
            c0.remove_ensures(q);
            // The landing slot keeps its chain neighbourhood values.
            if tpos < q {
                rt0.linked_vector.lemma_index_of_unique(target, tpos);
                route.linked_vector.lemma_index_of_unique(target, tpos);
            } else {
                route.linked_vector.lemma_index_of_unique(target, tpos - 1);
            }
            rt0.stops().remove_ensures(q);
            assert(route.stops() =~= rt0.stops().remove(q));
        }
        let ghost tpos1 = route.pos(target);
        proof {
            assert(route.stops()[tpos1] == rt0.stops()[tpos]);
            assert(route.stops()[tpos1 + 1] == rt0.stops()[tpos + 1]) by {
                if tpos < q {
                    assert(tpos + 1 != q);
                }
            }
            assert(tpos1 < route.stops().len() - 1);
            assert((x as int) < p.spec_depot());
        }
        let d2 = route.apply_add_order(p, target, shifting_value);
        proof {
            assert(d2 as int == add_delta(*p, rt0.stops(), tpos + 1, x)) by {
                assert(add_delta(*p, rt0.stops().remove(q), tpos1 + 1, x) == add_delta(
                    *p,
                    rt0.stops(),
                    tpos + 1,
                    x,
                ));
            }
            let s1 = *self;
            let rt2 = s1.spec_truck(truck1).spec_get(d).spec_get(tod);
            assert(rt2.stops() =~= rt0.stops().remove(q).insert(tpos1 + 1, x));
        }
        proof {
            let s1 = *self;
            let rt2 = s1.spec_truck(truck1).spec_get(d).spec_get(tod);
            // Occurrence counts are restored: the removed value went back in.
            assert forall|o2: OrderIndex| #[trigger] route_occ(rt2, o2) == route_occ(rt0, o2) by {
                broadcast use vstd::seq_lib::to_multiset_insert;
                broadcast use vstd::seq_lib::to_multiset_remove;
                broadcast use vstd::multiset::group_multiset_axioms;

                assert(rt0.stops().contains(x));
                rt0.stops().to_multiset_ensures();
                assert(rt2.stops().to_multiset() =~= rt0.stops().to_multiset().remove(x).insert(x));
            }
            assert forall|o2: OrderIndex, d2: DayEnum| (o2 as int)
                < p.spec_depot() implies #[trigger] day_occ(s1, d2, o2) == (
            if s1.order_flags.has_day(o2 as int, d2) {
                1int
            } else {
                0int
            }) by {
                assert(day_occ(s1, d2, o2) == day_occ(s0, d2, o2));
            }
            if truck1 {
                lemma_day_wf_one_shift(*p, s0.truck1.spec_get(d), s1.truck1.spec_get(d), tod);
                lemma_week_wf_one_day(*p, s0.truck1, s1.truck1, d);
                lemma_week_total_one_day(s0.truck1, s1.truck1, d);
            } else {
                lemma_day_wf_one_shift(*p, s0.truck2.spec_get(d), s1.truck2.spec_get(d), tod);
                lemma_week_wf_one_day(*p, s0.truck2, s1.truck2, d);
                lemma_week_total_one_day(s0.truck2, s1.truck2, d);
            }
            assert(rt2.stops().len() == rt0.stops().len());
            assert(spec_total_time(s1) - spec_total_time(s0) == d1 + d2);
            crate::solution::lemma_week_time_bound(*p, s0.truck1);
            crate::solution::lemma_week_time_bound(*p, s0.truck2);
            crate::solution::lemma_week_time_bound(*p, s1.truck1);
            crate::solution::lemma_week_time_bound(*p, s1.truck2);
            crate::solution::lemma_penalty_bounds(*p, s0.order_flags, 0);
            assert(penalty_sum(*p, s1.order_flags, 0) == penalty_sum(*p, s0.order_flags, 0));
        }
        let r = d1 + d2;
        let ghost s1s = *self;
        self.score = self.score + r;
        proof {
            let s2 = *self;
            assert(s2.truck1 == s1s.truck1 && s2.truck2 == s1s.truck2);
            assert(s2.order_flags == s1s.order_flags);
            assert forall|o2: OrderIndex, d2: DayEnum| (o2 as int)
                < p.spec_depot() implies #[trigger] day_occ(s2, d2, o2) == (
            if s2.order_flags.has_day(o2 as int, d2) {
                1int
            } else {
                0int
            }) by {
                assert(day_occ(s2, d2, o2) == day_occ(s1s, d2, o2));
            }
            assert(spec_score(*p, s2) == spec_score(*p, s1s));
            assert(self.wf(*p));
        }
        r
    }
}

/// Relocate one stop to a different position of the same route.
pub struct ShiftInRoute {
    pub truck1: bool,
    pub day: DayEnum,
    pub time_of_day: TimeOfDay,
    pub shifting_node: usize,
    pub target_neighbor1: usize,
}

impl ShiftInRoute {
    pub open spec fn ok(self, p: Problem, s: Solution) -> bool {
        shift_slots_ok(s, self.truck1, self.day, self.time_of_day, self.shifting_node, self.target_neighbor1)
    }

    /// Sample a stop to relocate and a distinct landing slot in the same
    /// route; none when the route is too short or sampling found no valid
    /// pair.
    pub fn new(p: &Problem, s: &Solution, rng: &mut SmallRng) -> (r: Option<ShiftInRoute>)
        requires
            p.wf(),
            s.wf(*p),
        ensures
            r matches Some(m) ==> m.ok(*p, *s),
    {
        let truck1 = rng_below(rng, 2) == 0;
        let week = if truck1 {
            &s.truck1
        } else {
            &s.truck2
        };
        let (day_ref, day) = week.get_random(rng);
        let (route, time_of_day) = day_ref.get_random(rng);
        if route.linked_vector.len() < 5 {
            return None;
        }
        let shifting_node = match sample_interior_slot(route, rng) {
            Some(i) => i,
            None => {
                return None;
            },
        };
        proof {
            route.linked_vector.lemma_pos_of(shifting_node);
        }
        let before_shifting = route.linked_vector.get_prev(shifting_node).unwrap();
        let mut attempts: u64 = 0;
        while attempts < 16
            invariant
                p.wf(),
                route.wf(*p),
                route.linked_vector.free_len() == 0,
                route.linked_vector.occupied(shifting_node),
                0 < route.pos(shifting_node) < route.stops().len() - 1,
                before_shifting == route.linked_vector.spec_chain()[route.pos(shifting_node) - 1],
                *route == s.spec_truck(truck1).spec_get(day).spec_get(time_of_day),
            decreases 16 - attempts,
        {
            let got = route.linked_vector.get_random(rng);
            proof {
                route.linked_vector.lemma_view();
                route.linked_vector.lemma_well_formed_facts();
            }
            if let Some((i, _)) = got {
                let tail = route.linked_vector.get_tail_index().unwrap();
                if i != shifting_node && i != before_shifting && i != tail {
                    proof {
                        route.linked_vector.lemma_pos_of(i);
                        let c = route.linked_vector.spec_chain();
                        if route.pos(i) == c.len() - 1 {
                            assert(c[c.len() - 1] == i);
                        }
                        if route.pos(i) == route.pos(shifting_node) - 1 {
                            assert(c[route.pos(shifting_node) - 1] == i);
                        }
                    }
                    return Some(
                        ShiftInRoute {
                            truck1,
                            day,
                            time_of_day,
                            shifting_node,
                            target_neighbor1: i,
                        },
                    );
                }
            }
            attempts = attempts + 1;
        }
        None
    }

    /// The score change this move would cause, computed without touching the
    /// plan.
    pub fn evaluate(&self, p: &Problem, s: &Solution) -> (r: Time)
        requires
            p.wf(),
            s.wf(*p),
            self.ok(*p, *s),
        ensures
            r as int == shift_in_route_delta(
                *p,
                *s,
                self.truck1,
                self.day,
                self.time_of_day,
                self.shifting_node,
                self.target_neighbor1,
            ),
    {
        let week = if self.truck1 {
            &s.truck1
        } else {
            &s.truck2
        };
        let route = week.get(self.day).get(self.time_of_day);
        proof {
            route.linked_vector.lemma_pos_of(self.shifting_node);
            route.linked_vector.lemma_view();
        }
        let shifting_value = route.linked_vector.get_value(self.shifting_node).unwrap();
        let d1 = route.calculate_remove_node(p, self.shifting_node);
        let d2 = route.calculate_add_order(p, self.target_neighbor1, shifting_value);
        d1 + d2
    }

    /// Commit the move; the returned score change equals the evaluation.
    pub fn apply(&self, p: &Problem, s: &mut Solution) -> (r: Time)
        requires
            p.wf(),
            old(s).wf(*p),
            self.ok(*p, *old(s)),
        ensures
            final(s).wf(*p),
            r as int == shift_in_route_delta(
                *p,
                *old(s),
                self.truck1,
                self.day,
                self.time_of_day,
                self.shifting_node,
                self.target_neighbor1,
            ),
            spec_score(*p, *final(s)) == spec_score(*p, *old(s)) + r,
            final(s).score == old(s).score + r,
            final(s).unfilled_orders == old(s).unfilled_orders,
            final(s).order_flags == old(s).order_flags,
            ({
                let rt0 = old(s).spec_truck(self.truck1).spec_get(self.day).spec_get(
                    self.time_of_day,
                );
                let rt1 = final(s).spec_truck(self.truck1).spec_get(self.day).spec_get(
                    self.time_of_day,
                );
                &&& forall|o2: crate::route::OrderIndex| #[trigger]
                    route_occ(rt1, o2) == route_occ(rt0, o2)
                &&& rt1.stops().len() == rt0.stops().len()
                &&& rt1.capacity == rt0.capacity
            }),
            other_days_unchanged(*old(s), *final(s), self.day),
            final(s).spec_truck(self.truck1).spec_get(self.day).spec_get(
                self.time_of_day.spec_other(),
            ) == old(s).spec_truck(self.truck1).spec_get(self.day).spec_get(
                self.time_of_day.spec_other(),
            ),
    {
        let ghost s0 = *s;
        let r = s.apply_shift_in_route(
            p,
            self.truck1,
            self.day,
            self.time_of_day,
            self.shifting_node,
            self.target_neighbor1,
        );
        r
    }
}


/// Relocate one stop from its route to a route on a different, legal
/// weekday, possibly on the other truck.
pub struct ShiftBetweenDays {
    pub shift_truck1: bool,
    pub shift_day: DayEnum,
    pub shift_time_of_day: TimeOfDay,
    pub shift_node: usize,
    pub target_truck1: bool,
    pub target_day: DayEnum,
    pub target_time_of_day: TimeOfDay,
    pub target_node: usize,
    pub order: OrderIndex,
}

/// The score change of a between-days shift: the withdrawal from the source
/// route plus the insertion into the target route, with the flag bit moving
/// from the source day to the target day.
pub open spec fn shift_between_delta(p: Problem, s: Solution, m: ShiftBetweenDays) -> int {
    let rts = s.spec_truck(m.shift_truck1).spec_get(m.shift_day).spec_get(m.shift_time_of_day);
    let rtt = s.spec_truck(m.target_truck1).spec_get(m.target_day).spec_get(m.target_time_of_day);
    let m0 = s.order_flags.mask(m.order as int);
    let f2 = (m0 & !m.shift_day.spec_bit()) | m.target_day.spec_bit();
    remove_delta(p, rts.stops(), rts.pos(m.shift_node)) + (if rts.stops().len() == 3 {
        -(HALF_HOUR as int)
    } else {
        0int
    }) + add_delta(p, rtt.stops(), rtt.pos(m.target_node) + 1, m.order) + (if rtt.stops().len()
        == 2 {
        HALF_HOUR as int
    } else {
        0int
    }) + (if spec_filled(f2) == p.freq(m.order as int) {
        0int
    } else {
        p.orders@[m.order as int].penalty as int
    }) - penalty_term(p, s.order_flags, m.order as int)
}

impl ShiftBetweenDays {
    /// The move names a withdrawable stop, a distinct legal target day, and
    /// a target slot with room.
    pub open spec fn ok(self, p: Problem, s: Solution) -> bool {
        let rts = s.spec_truck(self.shift_truck1).spec_get(self.shift_day).spec_get(
            self.shift_time_of_day,
        );
        let rtt = s.spec_truck(self.target_truck1).spec_get(self.target_day).spec_get(
            self.target_time_of_day,
        );
        let m0 = s.order_flags.mask(self.order as int);
        &&& remove_slot_ok(s, self.shift_truck1, self.shift_day, self.shift_time_of_day, self.shift_node)
        &&& rts.stops()[rts.pos(self.shift_node)] == self.order
        &&& self.target_day != self.shift_day
        &&& rtt.linked_vector.occupied(self.target_node)
        &&& rtt.pos(self.target_node) < rtt.stops().len() - 1
        &&& rtt.linked_vector.n_slots() < MAX_ROUTE_LEN
        &&& rtt.capacity + p.volume(self.order as int) <= 100000
        &&& (self.order as int) < p.spec_depot()
        &&& (m0 & !self.shift_day.spec_bit()) & self.target_day.spec_bit() == 0
        &&& crate::order_day_flags::allowed_day(
            p.freq(self.order as int),
            m0 & !self.shift_day.spec_bit(),
            self.target_day,
        )
    }

    /// Sample a stop to move and a legal landing place on another weekday;
    /// none when no legal day remains or sampling found no usable slots.
    pub fn new(p: &Problem, s: &Solution, rng: &mut SmallRng) -> (r: Option<ShiftBetweenDays>)
        requires
            p.wf(),
            s.wf(*p),
        ensures
            r matches Some(m) ==> m.ok(*p, *s),
    {
        let shift_truck1 = rng_below(rng, 2) == 0;
        let sweek = if shift_truck1 {
            &s.truck1
        } else {
            &s.truck2
        };
        let (sday_ref, shift_day) = sweek.get_random(rng);
        let (sroute, shift_time_of_day) = sday_ref.get_random(rng);
        if sroute.linked_vector.len() == 2 {
            return None;
        }
        let shift_node = match sample_interior_slot(sroute, rng) {
            Some(i) => i,
            None => {
                return None;
            },
        };
        proof {
            sroute.linked_vector.lemma_pos_of(shift_node);
            sroute.linked_vector.lemma_view();
        }
        let order = sroute.linked_vector.get_value(shift_node).unwrap();
        proof {
            assert(order == sroute.stops()[sroute.pos(shift_node)]);
            assert((order as int) < p.spec_depot());
        }
        let target_day = match s.order_flags.get_random_day_to_shift_to(p, order, shift_day, rng) {
            Some(d) => d,
            None => {
                return None;
            },
        };
        proof {
            lemma_allowed_unset(
                p.freq(order as int),
                s.order_flags.mask(order as int) & !shift_day.spec_bit(),
                target_day,
            );
        }
        let target_truck1 = rng_below(rng, 2) == 0;
        let tweek = if target_truck1 {
            &s.truck1
        } else {
            &s.truck2
        };
        let (troute, target_time_of_day) = tweek.get(target_day).get_random(rng);
        let volume = p.orders[order].trash();
        if troute.capacity > 100000 || volume > 100000 - troute.capacity {
            return None;
        }
        if troute.linked_vector.len() >= crate::route::MAX_ROUTE_LEN {
            return None;
        }
        let target_node = match sample_insert_slot(troute, rng) {
            Some(i) => i,
            None => {
                return None;
            },
        };
        Some(
            ShiftBetweenDays {
                shift_truck1,
                shift_day,
                shift_time_of_day,
                shift_node,
                target_truck1,
                target_day,
                target_time_of_day,
                target_node,
                order,
            },
        )
    }

    /// The score change this move would cause, computed without touching the
    /// plan.
    pub fn evaluate(&self, p: &Problem, s: &Solution) -> (r: Time)
        requires
            p.wf(),
            s.wf(*p),
            self.ok(*p, *s),
        ensures
            r as int == shift_between_delta(*p, *s, *self),
    {
        let sweek = if self.shift_truck1 {
            &s.truck1
        } else {
            &s.truck2
        };
        let sroute = sweek.get(self.shift_day).get(self.shift_time_of_day);
        let d1 = sroute.calculate_remove_node(p, self.shift_node);
        let e1: Time = if sroute.linked_vector.len() == 3 {
            -HALF_HOUR
        } else {
            0
        };
        let tweek = if self.target_truck1 {
            &s.truck1
        } else {
            &s.truck2
        };
        let troute = tweek.get(self.target_day).get(self.target_time_of_day);
        let d2 = troute.calculate_add_order(p, self.target_node, self.order);
        let e2: Time = if troute.linked_vector.len() == 2 {
            HALF_HOUR
        } else {
            0
        };
        proof {
            sroute.linked_vector.lemma_well_formed_facts();
            sroute.linked_vector.lemma_view();
            troute.linked_vector.lemma_well_formed_facts();
            troute.linked_vector.lemma_view();
            crate::solution::lemma_penalty_term_bounds(*p, self.order as int);
        }
        let term_before = penalty_term_exec(p, &s.order_flags, self.order);
        let m0 = s.order_flags.get_mask(self.order);
        let b_s = self.shift_day.bit();
        let b_t = self.target_day.bit();
        proof {
            // The bit moves from the source day to the target day, so the
            // filled count is unchanged overall.
            let rts = s.spec_truck(self.shift_truck1).spec_get(self.shift_day).spec_get(
                self.shift_time_of_day,
            );
            assert(rts.stops().contains(self.order)) by {
                rts.linked_vector.lemma_pos_of(self.shift_node);
                rts.linked_vector.lemma_view();
            }
            rts.stops().to_multiset_ensures();
            assert(route_occ(rts, self.order) >= 1);
            assert(day_occ(*s, self.shift_day, self.order) >= 1);
            assert(s.order_flags.has_day(self.order as int, self.shift_day));
            crate::order_day_flags::lemma_bit_forms(m0, b_s);
            crate::order_day_flags::lemma_clear_bit(m0, b_s);
            crate::order_day_flags::lemma_set_bit(m0 & !b_s, b_t);
        }
        let masked = (m0 & !b_s) | b_t;
        let c = count_filled_mask(masked);
        let f = p.orders[self.order].frequency.count();
        let term_after: Time = if c == f as u32 {
            0
        } else {
            p.orders[self.order].get_penalty()
        };
        d1 + e1 + d2 + e2 + term_after - term_before
    }

    /// Commit the move; the returned score change equals the evaluation.
    #[verifier::rlimit(100)]
    #[verifier::spinoff_prover]
    pub fn apply(&self, p: &Problem, s: &mut Solution) -> (r: Time)
        requires
            p.wf(),
            old(s).wf(*p),
            self.ok(*p, *old(s)),
        ensures
            final(s).wf(*p),
            r as int == shift_between_delta(*p, *old(s), *self),
            spec_score(*p, *final(s)) == spec_score(*p, *old(s)) + r,
            final(s).score == old(s).score + r,
            final(s).unfilled_orders == old(s).unfilled_orders,
            final(s).order_flags.mask(self.order as int) == (old(s).order_flags.mask(
                self.order as int,
            ) & !self.shift_day.spec_bit()) | self.target_day.spec_bit(),
            spec_filled(final(s).order_flags.mask(self.order as int)) == spec_filled(
                old(s).order_flags.mask(self.order as int),
            ),
            forall|o2: int|
                0 <= o2 < p.orders@.len() && o2 != self.order
                    ==> #[trigger] final(s).order_flags.mask(o2) == old(s).order_flags.mask(o2),
            ({
                let rts0 = old(s).spec_truck(self.shift_truck1).spec_get(self.shift_day).spec_get(
                    self.shift_time_of_day,
                );
                let rts1 = final(s).spec_truck(self.shift_truck1).spec_get(self.shift_day).spec_get(
                    self.shift_time_of_day,
                );
                rts1.stops() =~= rts0.stops().remove(rts0.pos(self.shift_node))
            }),
            ({
                let rtt0 = old(s).spec_truck(self.target_truck1).spec_get(
                    self.target_day,
                ).spec_get(self.target_time_of_day);
                let rtt1 = final(s).spec_truck(self.target_truck1).spec_get(
                    self.target_day,
                ).spec_get(self.target_time_of_day);
                rtt1.stops() =~= rtt0.stops().insert(rtt0.pos(self.target_node) + 1, self.order)
            }),
    {
        let ghost s0 = *s;
        let ghost rts0 = s0.spec_truck(self.shift_truck1).spec_get(self.shift_day).spec_get(
            self.shift_time_of_day,
        );
        let ghost rtt0 = s0.spec_truck(self.target_truck1).spec_get(self.target_day).spec_get(
            self.target_time_of_day,
        );
        let r1 = s.apply_remove_visit(
            p,
            self.shift_truck1,
            self.shift_day,
            self.shift_time_of_day,
            self.shift_node,
        );
        proof {
            let s1 = *s;
            assert(s1.truck1.spec_get(self.target_day) == s0.truck1.spec_get(self.target_day));
            assert(s1.truck2.spec_get(self.target_day) == s0.truck2.spec_get(self.target_day));
            let rtt1 = s1.spec_truck(self.target_truck1).spec_get(self.target_day).spec_get(
                self.target_time_of_day,
            );
            assert(rtt1 == rtt0);
            assert(add_slot_ok(
                s1,
                self.target_truck1,
                self.target_day,
                self.target_time_of_day,
                self.target_node,
                self.order,
                *p,
            ));
        }
        let r2 = s.apply_add_visit(
            p,
            self.target_truck1,
            self.target_day,
            self.target_time_of_day,
            self.target_node,
            self.order,
        );
        proof {
            let s1v = *s;
            crate::solution::lemma_week_time_bound(*p, s0.truck1);
            crate::solution::lemma_week_time_bound(*p, s0.truck2);
            crate::solution::lemma_week_time_bound(*p, s1v.truck1);
            crate::solution::lemma_week_time_bound(*p, s1v.truck2);
            crate::solution::lemma_penalty_bounds(*p, s0.order_flags, 0);
            crate::solution::lemma_penalty_bounds(*p, s1v.order_flags, 0);
            assert(r1 + r2 == shift_between_delta(*p, s0, *self));
            // The bit moves from the source day to the target day, so the
            // filled count is unchanged.
            let m0 = s0.order_flags.mask(self.order as int);
            let bs = self.shift_day.spec_bit();
            let bt = self.target_day.spec_bit();
            assert(rts0.stops().contains(self.order)) by {
                rts0.linked_vector.lemma_pos_of(self.shift_node);
                rts0.linked_vector.lemma_view();
            }
            rts0.stops().to_multiset_ensures();
            assert(route_occ(rts0, self.order) >= 1);
            assert(day_occ(s0, self.shift_day, self.order) >= 1);
            assert(s0.order_flags.has_day(self.order as int, self.shift_day));
            crate::order_day_flags::lemma_bit_forms(m0, bs);
            crate::order_day_flags::lemma_clear_bit(m0, bs);
            crate::order_day_flags::lemma_set_bit(m0 & !bs, bt);
        }
        r1 + r2
    }
}

/// How many of the five day bits a raw mask has set.
pub fn count_filled_mask(m: u8) -> (c: u32)
    ensures
        c == spec_filled(m),
{
    let mut c: u32 = 0;
    if m & 1 != 0 {
        c = c + 1;
    }
    if m & 2 != 0 {
        c = c + 1;
    }
    if m & 4 != 0 {
        c = c + 1;
    }
    if m & 8 != 0 {
        c = c + 1;
    }
    if m & 16 != 0 {
        c = c + 1;
    }
    c
}


/// Total number of visits of order `o` across the whole week.
pub open spec fn total_occ(s: Solution, o: OrderIndex) -> int {
    day_occ(s, DayEnum::Monday, o) + day_occ(s, DayEnum::Tuesday, o) + day_occ(
        s,
        DayEnum::Wednesday,
        o,
    ) + day_occ(s, DayEnum::Thursday, o) + day_occ(s, DayEnum::Friday, o)
}

/// Frequency conservation: in a valid plan whose tracker is complete, every
/// real order stands in the routes exactly its required number of times.
pub proof fn lemma_frequency_conservation(p: Problem, s: Solution)
    requires
        p.wf(),
        s.wf(p),
        forall|o: OrderIndex|
            (o as int) < p.spec_depot() ==> spec_filled(
                #[trigger] s.order_flags.mask(o as int),
            ) == p.freq(o as int),
    ensures
        forall|o: OrderIndex| (o as int) < p.spec_depot() ==> #[trigger] total_occ(s, o) == p.freq(
            o as int,
        ),
{
    assert forall|o: OrderIndex| (o as int) < p.spec_depot() implies #[trigger] total_occ(s, o)
        == p.freq(o as int) by {
        let m = s.order_flags.mask(o as int);
        assert(day_occ(s, DayEnum::Monday, o) == (if m & 1 != 0 {
            1int
        } else {
            0int
        }));
        assert(day_occ(s, DayEnum::Tuesday, o) == (if m & 2 != 0 {
            1int
        } else {
            0int
        }));
        assert(day_occ(s, DayEnum::Wednesday, o) == (if m & 4 != 0 {
            1int
        } else {
            0int
        }));
        assert(day_occ(s, DayEnum::Thursday, o) == (if m & 8 != 0 {
            1int
        } else {
            0int
        }));
        assert(day_occ(s, DayEnum::Friday, o) == (if m & 16 != 0 {
            1int
        } else {
            0int
        }));
        assert(total_occ(s, o) == spec_filled(m));
    }
}


/// One placement of a whole-order add: which route and where in it.
pub struct Placement {
    pub truck1: bool,
    pub day: DayEnum,
    pub time_of_day: TimeOfDay,
    pub insert_after_index: usize,
}

/// An order's penalty term for a raw mask value.
pub open spec fn term_m(p: Problem, m: u8, o: int) -> int {
    if spec_filled(m) == p.freq(o) {
        0int
    } else {
        p.orders@[o].penalty as int
    }
}

/// The mask after marking the days of the first `k` placements.
pub open spec fn mask_fold(pls: Seq<Placement>, k: int) -> u8
    decreases k,
{
    if k <= 0 {
        0
    } else {
        mask_fold(pls, k - 1) | pls[k - 1].day.spec_bit()
    }
}

/// Appending a placement does not change the mask folds of the prefix.
pub proof fn lemma_mask_fold_push(pls: Seq<Placement>, x: Placement, i: int)
    requires
        0 <= i <= pls.len(),
    ensures
        mask_fold(pls.push(x), i) == mask_fold(pls, i),
    decreases i,
{
    if i > 0 {
        lemma_mask_fold_push(pls, x, i - 1);
        assert(pls.push(x)[i - 1] == pls[i - 1]);
    }
}

/// The score change of placing visits `i..` of order `o` when the mask is
/// `m` and every named route still has its starting shape.
pub open spec fn multi_add_delta(
    p: Problem,
    s: Solution,
    o: OrderIndex,
    pls: Seq<Placement>,
    i: int,
    m: u8,
) -> int
    decreases pls.len() - i,
{
    if i < 0 || i >= pls.len() {
        0
    } else {
        let pl = pls[i];
        let rt = s.spec_truck(pl.truck1).spec_get(pl.day).spec_get(pl.time_of_day);
        add_delta(p, rt.stops(), rt.pos(pl.insert_after_index) + 1, o) + (if rt.stops().len()
            == 2 {
            HALF_HOUR as int
        } else {
            0int
        }) + term_m(p, m | pl.day.spec_bit(), o as int) - term_m(p, m, o as int)
            + multi_add_delta(p, s, o, pls, i + 1, m | pl.day.spec_bit())
    }
}

/// Distinct weekdays carry distinct mask bits.
pub proof fn lemma_bits_injective(d1: DayEnum, d2: DayEnum)
    requires
        d1 != d2,
    ensures
        d1.spec_bit() != d2.spec_bit(),
{
}

/// One placement is usable on a plan.
pub open spec fn placement_ok(p: Problem, s: Solution, o: OrderIndex, pl: Placement) -> bool {
    add_slot_ok(s, pl.truck1, pl.day, pl.time_of_day, pl.insert_after_index, o, p)
}

/// Schedule every required visit of one order atomically, across distinct
/// legal weekdays, so that the frequency quota is met in a single commit.
pub struct AddMultipleNewOrders {
    pub placements: Vec<Placement>,
    pub order_index: OrderIndex,
}

impl AddMultipleNewOrders {
    /// The move schedules an untouched order completely: one placement per
    /// required visit, all on distinct legal days, each naming a usable
    /// slot in a route with room.
    pub open spec fn ok(self, p: Problem, s: Solution) -> bool {
        let o = self.order_index;
        let pls = self.placements@;
        &&& (o as int) < p.spec_depot()
        &&& s.order_flags.mask(o as int) == 0
        &&& pls.len() == p.freq(o as int)
        &&& 1 <= pls.len() <= 4
        &&& forall|i: int, j: int|
            0 <= i < pls.len() && 0 <= j < pls.len() && i != j ==> #[trigger] pls[i].day
                != #[trigger] pls[j].day
        &&& forall|i: int| 0 <= i < pls.len() ==> placement_ok(p, s, o, #[trigger] pls[i])
        &&& forall|i: int|
            0 <= i < pls.len() ==> crate::order_day_flags::allowed_day(
                p.freq(o as int),
                mask_fold(pls, i),
                (#[trigger] pls[i]).day,
            )
    }

    /// Sample a placement for every required visit of `order`: each on a
    /// fresh legal weekday, in a random shift-route with room.  None when
    /// the order already has visits, a day quota cannot be met, or sampling
    /// found no usable slot.
    pub fn new(p: &Problem, s: &Solution, rng: &mut SmallRng, order: OrderIndex) -> (r: Option<
        AddMultipleNewOrders,
    >)
        requires
            p.wf(),
            s.wf(*p),
            (order as int) < p.spec_depot(),
        ensures
            r matches Some(m) ==> m.ok(*p, *s) && m.order_index == order,
    {
        if s.order_flags.get_mask(order) != 0 {
            return None;
        }
        let freq = p.orders[order].frequency.count();
        if freq == 0 {
            return None;
        }
        let mut placements: Vec<Placement> = Vec::new();
        let mut sim: u8 = 0;
        let mut v: u8 = 0;
        proof {
            assert(0u8 & 1 == 0 && 0u8 & 2 == 0 && 0u8 & 4 == 0 && 0u8 & 8 == 0 && 0u8 & 16 == 0)
                by (bit_vector);
        }
        while v < freq
            invariant
                p.wf(),
                s.wf(*p),
                (order as int) < p.spec_depot(),
                s.order_flags.mask(order as int) == 0,
                freq == p.freq(order as int),
                1 <= freq <= 4,
                v <= freq,
                placements@.len() == v,
                sim < 32,
                sim == mask_fold(placements@, v as int),
                forall|i: int|
                    0 <= i < v ==> placement_ok(*p, *s, order, #[trigger] placements@[i]),
                forall|i: int|
                    0 <= i < v ==> crate::order_day_flags::allowed_day(
                        p.freq(order as int),
                        mask_fold(placements@, i),
                        (#[trigger] placements@[i]).day,
                    ),
                forall|i: int|
                    0 <= i < v ==> sim & (#[trigger] placements@[i].day.spec_bit())
                        == placements@[i].day.spec_bit(),
                forall|i: int, j: int|
                    0 <= i < v && 0 <= j < v && i != j ==> #[trigger] placements@[i].day
                        != #[trigger] placements@[j].day,
            decreases freq - v,
        {
            let day = match crate::order_day_flags::pick_allowed_day(freq, sim, rng) {
                Some(d) => d,
                None => {
                    return None;
                },
            };
            proof {
                lemma_allowed_unset(freq as int, sim, day);
                crate::order_day_flags::lemma_set_bit(sim, day.spec_bit());
            }
            let truck1 = rng_below(rng, 2) == 0;
            let week = if truck1 {
                &s.truck1
            } else {
                &s.truck2
            };
            let (route, time_of_day) = week.get(day).get_random(rng);
            let volume = p.orders[order].trash();
            if route.capacity > 100000 || volume > 100000 - route.capacity {
                return None;
            }
            if route.linked_vector.len() >= crate::route::MAX_ROUTE_LEN {
                return None;
            }
            let slot = match sample_insert_slot(route, rng) {
                Some(i) => i,
                None => {
                    return None;
                },
            };
            let ghost placements0 = placements@;
            let ghost sim0 = sim;
            placements.push(Placement { truck1, day, time_of_day, insert_after_index: slot });
            sim = sim | day.bit();
            proof {
                assert(0u8 & 1 == 0 && 0u8 & 2 == 0 && 0u8 & 4 == 0 && 0u8 & 8 == 0 && 0u8 & 16
                    == 0) by (bit_vector);
                assert(placements@ == placements0.push(
                    Placement { truck1, day, time_of_day, insert_after_index: slot },
                ));
                assert(placement_ok(*p, *s, order, placements@[v as int]));
                assert forall|i: int| 0 <= i <= v implies mask_fold(placements@, i) == mask_fold(
                    placements0,
                    i,
                ) by {
                    lemma_mask_fold_push(
                        placements0,
                        Placement { truck1, day, time_of_day, insert_after_index: slot },
                        i,
                    );
                }
                assert(crate::order_day_flags::allowed_day(
                    p.freq(order as int),
                    mask_fold(placements@, v as int),
                    placements@[v as int].day,
                ));
                assert forall|i: int|
                    0 <= i < v + 1 implies sim & (#[trigger] placements@[i].day.spec_bit())
                    == placements@[i].day.spec_bit() by {
                    if i < v {
                        assert(placements@[i] == placements0[i]);
                        crate::order_day_flags::lemma_other_bit(
                            sim0,
                            day.spec_bit(),
                            placements@[i].day.spec_bit(),
                        );
                    }
                }
                assert forall|i: int, j: int|
                    0 <= i < v + 1 && 0 <= j < v + 1 && i != j implies #[trigger] placements@[i].day
                    != #[trigger] placements@[j].day by {
                    if i == v as int && j < v {
                        assert(sim0 & placements@[j].day.spec_bit()
                            == placements@[j].day.spec_bit());
                        assert(sim0 & day.spec_bit() == 0);
                    } else if j == v as int && i < v {
                        assert(sim0 & placements@[i].day.spec_bit()
                            == placements@[i].day.spec_bit());
                        assert(sim0 & day.spec_bit() == 0);
                    }
                }
            }
            v = v + 1;
        }
        Some(AddMultipleNewOrders { placements, order_index: order })
    }

    /// The score change this move would cause, computed without touching
    /// the plan: the placements land in distinct routes, so each prices
    /// against the starting state, while the mask evolves.
    pub fn evaluate(&self, p: &Problem, s: &Solution) -> (r: Time)
        requires
            p.wf(),
            s.wf(*p),
            self.ok(*p, *s),
        ensures
            r as int == multi_add_delta(*p, *s, self.order_index, self.placements@, 0, 0),
    {
        let o = self.order_index;
        let ghost pls = self.placements@;
        let mut acc: Time = 0;
        let mut sim: u8 = 0;
        let mut k: usize = 0;
        proof {
            crate::solution::lemma_penalty_term_bounds(*p, o as int);
            assert(0u8 & 1 == 0 && 0u8 & 2 == 0 && 0u8 & 4 == 0 && 0u8 & 8 == 0 && 0u8 & 16 == 0)
                by (bit_vector);
        }
        while k < self.placements.len()
            invariant
                p.wf(),
                s.wf(*p),
                self.ok(*p, *s),
                pls == self.placements@,
                o == self.order_index,
                k <= pls.len(),
                sim == mask_fold(pls, k as int),
                sim < 32,
                forall|i: int|
                    k <= i < pls.len() ==> sim & (#[trigger] pls[i].day.spec_bit()) == 0,
                acc + multi_add_delta(*p, *s, o, pls, k as int, sim) == multi_add_delta(
                    *p,
                    *s,
                    o,
                    pls,
                    0,
                    0,
                ),
                -300000000 * k <= acc <= 300000000 * k,
            decreases pls.len() - k,
        {
            let pl = &self.placements[k];
            proof {
                assert(placement_ok(*p, *s, o, pls[k as int]));
            }
            let week = if pl.truck1 {
                &s.truck1
            } else {
                &s.truck2
            };
            let route = week.get(pl.day).get(pl.time_of_day);
            let dt = route.calculate_add_order(p, pl.insert_after_index, o);
            let extra: Time = if route.linked_vector.len() == 2 {
                HALF_HOUR
            } else {
                0
            };
            proof {
                route.linked_vector.lemma_well_formed_facts();
                route.linked_vector.lemma_view();
                crate::order_day_flags::lemma_set_bit(sim, pl.day.spec_bit());
                crate::solution::lemma_penalty_term_bounds(*p, o as int);
            }
            let tb = term_m_exec(p, sim, o);
            let sim2 = sim | pl.day.bit();
            let ta = term_m_exec(p, sim2, o);
            proof {
                assert forall|i: int|
                    k + 1 <= i < pls.len() implies sim2 & (#[trigger] pls[i].day.spec_bit())
                    == 0 by {
                    assert(pls[i].day != pls[k as int].day);
                    lemma_bits_injective(pls[i].day, pls[k as int].day);
                    crate::order_day_flags::lemma_other_bit(
                        sim,
                        pls[k as int].day.spec_bit(),
                        pls[i].day.spec_bit(),
                    );
                }
            }
            acc = acc + dt + extra + ta - tb;
            sim = sim2;
            k = k + 1;
        }
        acc
    }

    /// Commit the move: place every visit and mark every day; the returned
    /// score change equals the evaluation, and the order's quota is met.
    #[verifier::rlimit(100)]
    #[verifier::spinoff_prover]
    pub fn apply(&self, p: &Problem, s: &mut Solution) -> (r: Time)
        requires
            p.wf(),
            old(s).wf(*p),
            self.ok(*p, *old(s)),
        ensures
            final(s).wf(*p),
            r as int == multi_add_delta(*p, *old(s), self.order_index, self.placements@, 0, 0),
            spec_score(*p, *final(s)) == spec_score(*p, *old(s)) + r,
            final(s).score == old(s).score + r,
            final(s).unfilled_orders == old(s).unfilled_orders,
            spec_filled(final(s).order_flags.mask(self.order_index as int)) == p.freq(
                self.order_index as int,
            ),
    {
        let o = self.order_index;
        let ghost pls = self.placements@;
        let ghost s0 = *s;
        let mut acc: Time = 0;
        let mut k: usize = 0;
        let ghost mut sim: u8 = 0;
        proof {
            assert(0u8 & 1 == 0 && 0u8 & 2 == 0 && 0u8 & 4 == 0 && 0u8 & 8 == 0 && 0u8 & 16 == 0)
                by (bit_vector);
        }
        while k < self.placements.len()
            invariant
                p.wf(),
                s.wf(*p),
                self.ok(*p, s0),
                s0 == *old(s),
                s0.wf(*p),
                pls == self.placements@,
                o == self.order_index,
                (o as int) < p.spec_depot(),
                k <= pls.len(),
                sim == mask_fold(pls, k as int),
                sim < 32,
                s.order_flags.mask(o as int) == sim,
                spec_filled(sim) == k as int,
                forall|o2: int|
                    0 <= o2 < p.orders@.len() && o2 != o ==> #[trigger] s.order_flags.mask(o2)
                        == s0.order_flags.mask(o2),
                forall|i: int|
                    k <= i < pls.len() ==> #[trigger] s.truck1.spec_get(pls[i].day)
                        == s0.truck1.spec_get(pls[i].day) && s.truck2.spec_get(pls[i].day)
                        == s0.truck2.spec_get(pls[i].day),
                forall|i: int|
                    k <= i < pls.len() ==> sim & (#[trigger] pls[i].day.spec_bit()) == 0,
                s.unfilled_orders == s0.unfilled_orders,
                s.score == s0.score + acc,
                acc + multi_add_delta(*p, s0, o, pls, k as int, sim) == multi_add_delta(
                    *p,
                    s0,
                    o,
                    pls,
                    0,
                    0,
                ),
            decreases pls.len() - k,
        {
            let pl = &self.placements[k];
            let ghost scur = *s;
            proof {
                assert(placement_ok(*p, s0, o, pls[k as int]));
                assert(s.truck1.spec_get(pls[k as int].day) == s0.truck1.spec_get(
                    pls[k as int].day,
                ));
                assert(s.truck2.spec_get(pls[k as int].day) == s0.truck2.spec_get(
                    pls[k as int].day,
                ));
                assert(add_slot_ok(
                    *s,
                    pls[k as int].truck1,
                    pls[k as int].day,
                    pls[k as int].time_of_day,
                    pls[k as int].insert_after_index,
                    o,
                    *p,
                ));
                crate::order_day_flags::lemma_set_bit(sim, pls[k as int].day.spec_bit());
            }
            let rk = s.apply_add_visit(
                p,
                pl.truck1,
                pl.day,
                pl.time_of_day,
                pl.insert_after_index,
                o,
            );
            proof {
                let rt0 = s0.spec_truck(pls[k as int].truck1).spec_get(pls[k as int].day).spec_get(
                    pls[k as int].time_of_day,
                );
                let rtc = scur.spec_truck(pls[k as int].truck1).spec_get(
                    pls[k as int].day,
                ).spec_get(pls[k as int].time_of_day);
                assert(rtc == rt0);
                assert(rk as int == add_delta(*p, rt0.stops(), rt0.pos(pls[k as int].insert_after_index) + 1, o)
                    + (if rt0.stops().len() == 2 { HALF_HOUR as int } else { 0int })
                    + term_m(*p, sim | pls[k as int].day.spec_bit(), o as int)
                    - term_m(*p, sim, o as int));
                sim = sim | pls[k as int].day.spec_bit();
                assert(s.order_flags.mask(o as int) == sim);
                // Future days stay untouched and their bits stay clear.
                assert forall|i: int|
                    k + 1 <= i < pls.len() implies #[trigger] s.truck1.spec_get(pls[i].day)
                    == s0.truck1.spec_get(pls[i].day) && s.truck2.spec_get(pls[i].day)
                    == s0.truck2.spec_get(pls[i].day) by {
                    assert(pls[i].day != pls[k as int].day);
                    assert(s.truck1.spec_get(pls[i].day) == scur.truck1.spec_get(pls[i].day));
                    assert(s.truck2.spec_get(pls[i].day) == scur.truck2.spec_get(pls[i].day));
                }
                assert forall|i: int|
                    k + 1 <= i < pls.len() implies sim & (#[trigger] pls[i].day.spec_bit())
                    == 0 by {
                    assert(pls[i].day != pls[k as int].day);
                    lemma_bits_injective(pls[i].day, pls[k as int].day);
                    crate::order_day_flags::lemma_other_bit(
                        mask_fold(pls, k as int),
                        pls[k as int].day.spec_bit(),
                        pls[i].day.spec_bit(),
                    );
                }
                crate::solution::lemma_week_time_bound(*p, s0.truck1);
                crate::solution::lemma_week_time_bound(*p, s0.truck2);
                crate::solution::lemma_week_time_bound(*p, s.truck1);
                crate::solution::lemma_week_time_bound(*p, s.truck2);
                crate::solution::lemma_penalty_bounds(*p, s0.order_flags, 0);
                crate::solution::lemma_penalty_bounds(*p, s.order_flags, 0);
            }
            acc = acc + rk;
            k = k + 1;
        }
        acc
    }
}

/// An order's penalty term for a hypothetical mask.
pub fn term_m_exec(p: &Problem, m: u8, o: OrderIndex) -> (r: Time)
    requires
        p.wf(),
        (o as int) < p.orders@.len(),
    ensures
        r as int == term_m(*p, m, o as int),
        0 <= r <= 51840000,
{
    proof {
        crate::solution::lemma_penalty_term_bounds(*p, o as int);
    }
    let c = count_filled_mask(m);
    let f = p.orders[o].frequency.count();
    if c == f as u32 {
        0
    } else {
        p.orders[o].get_penalty()
    }
}


/// One visit to withdraw: which route and which arena slot in it.
pub struct RemovalSpot {
    pub truck1: bool,
    pub day: DayEnum,
    pub time_of_day: TimeOfDay,
    pub node_index: usize,
}

/// The mask after clearing the days of the first `k` removal spots.
pub open spec fn clear_fold(spots: Seq<RemovalSpot>, k: int, m0: u8) -> u8
    decreases k,
{
    if k <= 0 {
        m0
    } else {
        clear_fold(spots, k - 1, m0) & !spots[k - 1].day.spec_bit()
    }
}

/// The score change of withdrawing visits `i..` of order `o` when the mask
/// is `m` and every named route still has its starting shape.
pub open spec fn multi_remove_delta(
    p: Problem,
    s: Solution,
    o: OrderIndex,
    spots: Seq<RemovalSpot>,
    i: int,
    m: u8,
) -> int
    decreases spots.len() - i,
{
    if i < 0 || i >= spots.len() {
        0
    } else {
        let sp = spots[i];
        let rt = s.spec_truck(sp.truck1).spec_get(sp.day).spec_get(sp.time_of_day);
        remove_delta(p, rt.stops(), rt.pos(sp.node_index)) + (if rt.stops().len() == 3 {
            -(HALF_HOUR as int)
        } else {
            0int
        }) + term_m(p, m & !sp.day.spec_bit(), o as int) - term_m(p, m, o as int)
            + multi_remove_delta(p, s, o, spots, i + 1, m & !sp.day.spec_bit())
    }
}

/// One removal spot is usable on a plan: an interior slot of its route that
/// carries the order.
pub open spec fn removal_spot_ok(p: Problem, s: Solution, o: OrderIndex, sp: RemovalSpot) -> bool {
    let rt = s.spec_truck(sp.truck1).spec_get(sp.day).spec_get(sp.time_of_day);
    &&& remove_slot_ok(s, sp.truck1, sp.day, sp.time_of_day, sp.node_index)
    &&& rt.stops()[rt.pos(sp.node_index)] == o
}

/// Withdraw every visit of one order atomically, one spot per scheduled
/// day, returning the order to the unscheduled state in a single commit.
pub struct RemoveMultipleOrders {
    pub spots: Vec<RemovalSpot>,
    pub order_index: OrderIndex,
}

impl RemoveMultipleOrders {
    /// The move names one usable interior slot per scheduled day of the
    /// order: pairwise-distinct days, every spot's day marked, and as many
    /// spots as marked days.
    pub open spec fn ok(self, p: Problem, s: Solution) -> bool {
        let o = self.order_index;
        let sps = self.spots@;
        let m0 = s.order_flags.mask(o as int);
        &&& (o as int) < p.spec_depot()
        &&& sps.len() == spec_filled(m0)
        &&& 1 <= sps.len() <= 5
        &&& forall|i: int, j: int|
            0 <= i < sps.len() && 0 <= j < sps.len() && i != j ==> #[trigger] sps[i].day
                != #[trigger] sps[j].day
        &&& forall|i: int|
            0 <= i < sps.len() ==> m0 & (#[trigger] sps[i].day.spec_bit()) == sps[i].day.spec_bit()
        &&& forall|i: int| 0 <= i < sps.len() ==> removal_spot_ok(p, s, o, #[trigger] sps[i])
    }

    /// Sample an order by picking a random stop, then collect one of its
    /// visits for every scheduled day by searching that day's four routes;
    /// none when the sampled route is empty or a visit cannot be found.
    pub fn new(p: &Problem, s: &Solution, rng: &mut SmallRng) -> (r: Option<RemoveMultipleOrders>)
        requires
            p.wf(),
            s.wf(*p),
        ensures
            r matches Some(m) ==> m.ok(*p, *s),
    {
        let truck1 = rng_below(rng, 2) == 0;
        let week = if truck1 {
            &s.truck1
        } else {
            &s.truck2
        };
        let (day_ref, _day_enum) = week.get_random(rng);
        let (route_ref, _time_of_day) = day_ref.get_random(rng);
        if route_ref.linked_vector.len() == 2 {
            return None;
        }
        let node = match sample_interior_slot(route_ref, rng) {
            Some(i) => i,
            None => {
                return None;
            },
        };
        proof {
            route_ref.linked_vector.lemma_pos_of(node);
            route_ref.linked_vector.lemma_view();
        }
        let order = route_ref.linked_vector.get_value(node).unwrap();
        proof {
            assert(order == route_ref.stops()[route_ref.pos(node)]);
            assert((order as int) < p.spec_depot());
        }
        let spots = RemoveMultipleOrders::collect_spots(p, s, order);
        if spots.len() == 0 {
            return None;
        }
        Some(RemoveMultipleOrders { spots, order_index: order })
    }

    /// The score change this move would cause, computed without touching
    /// the plan: the spots sit in distinct routes, so each prices against
    /// the starting state, while the mask evolves.
    pub fn evaluate(&self, p: &Problem, s: &Solution) -> (r: Time)
        requires
            p.wf(),
            s.wf(*p),
            self.ok(*p, *s),
        ensures
            r as int == multi_remove_delta(
                *p,
                *s,
                self.order_index,
                self.spots@,
                0,
                s.order_flags.mask(self.order_index as int),
            ),
    {
        let o = self.order_index;
        let ghost sps = self.spots@;
        proof {
            s.order_flags.lemma_mask_bound(o as int);
        }
        let m0 = s.order_flags.get_mask(o);
        let mut acc: Time = 0;
        let mut sim: u8 = m0;
        let mut k: usize = 0;
        proof {
            crate::solution::lemma_penalty_term_bounds(*p, o as int);
        }
        while k < self.spots.len()
            invariant
                p.wf(),
                s.wf(*p),
                self.ok(*p, *s),
                sps == self.spots@,
                o == self.order_index,
                m0 == s.order_flags.mask(o as int),
                k <= sps.len(),
                sim == clear_fold(sps, k as int, m0),
                sim < 32,
                forall|i: int|
                    k <= i < sps.len() ==> sim & (#[trigger] sps[i].day.spec_bit())
                        == sps[i].day.spec_bit(),
                acc + multi_remove_delta(*p, *s, o, sps, k as int, sim) == multi_remove_delta(
                    *p,
                    *s,
                    o,
                    sps,
                    0,
                    m0,
                ),
                -300000000 * k <= acc <= 300000000 * k,
            decreases sps.len() - k,
        {
            let sp = &self.spots[k];
            proof {
                assert(removal_spot_ok(*p, *s, o, sps[k as int]));
            }
            let week = if sp.truck1 {
                &s.truck1
            } else {
                &s.truck2
            };
            let route = week.get(sp.day).get(sp.time_of_day);
            let dt = route.calculate_remove_node(p, sp.node_index);
            let extra: Time = if route.linked_vector.len() == 3 {
                -HALF_HOUR
            } else {
                0
            };
            proof {
                route.linked_vector.lemma_well_formed_facts();
                route.linked_vector.lemma_view();
                crate::order_day_flags::lemma_clear_bit(sim, sp.day.spec_bit());
                crate::solution::lemma_penalty_term_bounds(*p, o as int);
            }
            let tb = term_m_exec(p, sim, o);
            let sim2 = sim & !sp.day.bit();
            let ta = term_m_exec(p, sim2, o);
            proof {
                assert forall|i: int|
                    k + 1 <= i < sps.len() implies sim2 & (#[trigger] sps[i].day.spec_bit())
                    == sps[i].day.spec_bit() by {
                    assert(sps[i].day != sps[k as int].day);
                    lemma_bits_injective(sps[i].day, sps[k as int].day);
                    crate::order_day_flags::lemma_other_bit_clear(
                        sim,
                        sps[k as int].day.spec_bit(),
                        sps[i].day.spec_bit(),
                    );
                }
            }
            acc = acc + dt + extra + ta - tb;
            sim = sim2;
            k = k + 1;
        }
        acc
    }

    /// Commit the move: withdraw every visit and unmark every day; the
    /// returned score change equals the evaluation, and the order ends with
    /// no visits at all.
    #[verifier::rlimit(100)]
    #[verifier::spinoff_prover]
    pub fn apply(&self, p: &Problem, s: &mut Solution) -> (r: Time)
        requires
            p.wf(),
            old(s).wf(*p),
            self.ok(*p, *old(s)),
        ensures
            final(s).wf(*p),
            r as int == multi_remove_delta(
                *p,
                *old(s),
                self.order_index,
                self.spots@,
                0,
                old(s).order_flags.mask(self.order_index as int),
            ),
            spec_score(*p, *final(s)) == spec_score(*p, *old(s)) + r,
            final(s).score == old(s).score + r,
            final(s).unfilled_orders == old(s).unfilled_orders,
            final(s).order_flags.mask(self.order_index as int) == 0,
            forall|o2: int|
                0 <= o2 < p.orders@.len() && o2 != self.order_index
                    ==> #[trigger] final(s).order_flags.mask(o2) == old(s).order_flags.mask(o2),
    {
        let o = self.order_index;
        let ghost sps = self.spots@;
        let ghost s0 = *s;
        let ghost m0 = s0.order_flags.mask(o as int);
        proof {
            s.order_flags.lemma_mask_bound(o as int);
        }
        let mut acc: Time = 0;
        let mut k: usize = 0;
        let ghost mut sim: u8 = m0;
        while k < self.spots.len()
            invariant
                p.wf(),
                s.wf(*p),
                self.ok(*p, s0),
                s0 == *old(s),
                s0.wf(*p),
                sps == self.spots@,
                o == self.order_index,
                (o as int) < p.spec_depot(),
                m0 == s0.order_flags.mask(o as int),
                m0 < 32,
                k <= sps.len(),
                sim == clear_fold(sps, k as int, m0),
                sim < 32,
                s.order_flags.mask(o as int) == sim,
                spec_filled(sim) == spec_filled(m0) - k,
                forall|o2: int|
                    0 <= o2 < p.orders@.len() && o2 != o ==> #[trigger] s.order_flags.mask(o2)
                        == s0.order_flags.mask(o2),
                forall|i: int|
                    k <= i < sps.len() ==> #[trigger] s.truck1.spec_get(sps[i].day)
                        == s0.truck1.spec_get(sps[i].day) && s.truck2.spec_get(sps[i].day)
                        == s0.truck2.spec_get(sps[i].day),
                forall|i: int|
                    k <= i < sps.len() ==> sim & (#[trigger] sps[i].day.spec_bit())
                        == sps[i].day.spec_bit(),
                s.unfilled_orders == s0.unfilled_orders,
                s.score == s0.score + acc,
                acc + multi_remove_delta(*p, s0, o, sps, k as int, sim) == multi_remove_delta(
                    *p,
                    s0,
                    o,
                    sps,
                    0,
                    m0,
                ),
            decreases sps.len() - k,
        {
            let sp = &self.spots[k];
            let ghost scur = *s;
            proof {
                assert(removal_spot_ok(*p, s0, o, sps[k as int]));
                assert(s.truck1.spec_get(sps[k as int].day) == s0.truck1.spec_get(
                    sps[k as int].day,
                ));
                assert(s.truck2.spec_get(sps[k as int].day) == s0.truck2.spec_get(
                    sps[k as int].day,
                ));
                assert(removal_spot_ok(*p, *s, o, sps[k as int]));
                crate::order_day_flags::lemma_clear_bit(sim, sps[k as int].day.spec_bit());
            }
            let rk = s.apply_remove_visit(p, sp.truck1, sp.day, sp.time_of_day, sp.node_index);
            proof {
                let rt0 = s0.spec_truck(sps[k as int].truck1).spec_get(sps[k as int].day).spec_get(
                    sps[k as int].time_of_day,
                );
                let rtc = scur.spec_truck(sps[k as int].truck1).spec_get(
                    sps[k as int].day,
                ).spec_get(sps[k as int].time_of_day);
                assert(rtc == rt0);
                assert(rk as int == remove_delta(*p, rt0.stops(), rt0.pos(sps[k as int].node_index))
                    + (if rt0.stops().len() == 3 { -(HALF_HOUR as int) } else { 0int })
                    + term_m(*p, sim & !sps[k as int].day.spec_bit(), o as int)
                    - term_m(*p, sim, o as int));
                sim = sim & !sps[k as int].day.spec_bit();
                assert(s.order_flags.mask(o as int) == sim);
                assert forall|i: int|
                    k + 1 <= i < sps.len() implies #[trigger] s.truck1.spec_get(sps[i].day)
                    == s0.truck1.spec_get(sps[i].day) && s.truck2.spec_get(sps[i].day)
                    == s0.truck2.spec_get(sps[i].day) by {
                    assert(sps[i].day != sps[k as int].day);
                    lemma_other_days_unchanged(scur, *s, sps[k as int].day, sps[i].day);
                }
                assert forall|i: int|
                    k + 1 <= i < sps.len() implies sim & (#[trigger] sps[i].day.spec_bit())
                    == sps[i].day.spec_bit() by {
                    assert(sps[i].day != sps[k as int].day);
                    lemma_bits_injective(sps[i].day, sps[k as int].day);
                    crate::order_day_flags::lemma_other_bit_clear(
                        clear_fold(sps, k as int, m0),
                        sps[k as int].day.spec_bit(),
                        sps[i].day.spec_bit(),
                    );
                }
                crate::solution::lemma_week_time_bound(*p, s0.truck1);
                crate::solution::lemma_week_time_bound(*p, s0.truck2);
                crate::solution::lemma_week_time_bound(*p, s.truck1);
                crate::solution::lemma_week_time_bound(*p, s.truck2);
                crate::solution::lemma_penalty_bounds(*p, s0.order_flags, 0);
                crate::solution::lemma_penalty_bounds(*p, s.order_flags, 0);
            }
            acc = acc + rk;
            k = k + 1;
        }
        proof {
            crate::order_day_flags::lemma_zero_filled_mask(sim);
        }
        acc
    }
}

/// Search the four routes of one weekday for a visit of `o`.  Finding
/// nothing shows the day is not marked for the order: a marked day carries
/// exactly one visit somewhere in its four routes.
pub fn find_visit_on_day(p: &Problem, s: &Solution, o: OrderIndex, d: DayEnum) -> (r: Option<
    RemovalSpot,
>)
    requires
        p.wf(),
        s.wf(*p),
        (o as int) < p.spec_depot(),
    ensures
        r matches Some(sp) ==> sp.day == d && removal_spot_ok(*p, *s, o, sp),
        r is None ==> !s.order_flags.has_day(o as int, d),
{
    let r1m = s.truck1.get(d).get(TimeOfDay::Morning).find_node_of(p, o);
    if let Some(node) = r1m {
        return Some(RemovalSpot { truck1: true, day: d, time_of_day: TimeOfDay::Morning, node_index: node });
    }
    let r1a = s.truck1.get(d).get(TimeOfDay::Afternoon).find_node_of(p, o);
    if let Some(node) = r1a {
        return Some(RemovalSpot { truck1: true, day: d, time_of_day: TimeOfDay::Afternoon, node_index: node });
    }
    let r2m = s.truck2.get(d).get(TimeOfDay::Morning).find_node_of(p, o);
    if let Some(node) = r2m {
        return Some(RemovalSpot { truck1: false, day: d, time_of_day: TimeOfDay::Morning, node_index: node });
    }
    let r2a = s.truck2.get(d).get(TimeOfDay::Afternoon).find_node_of(p, o);
    if let Some(node) = r2a {
        return Some(RemovalSpot { truck1: false, day: d, time_of_day: TimeOfDay::Afternoon, node_index: node });
    }
    proof {
        crate::solution::lemma_occ_absent(s.truck1.spec_get(d).morning, o);
        crate::solution::lemma_occ_absent(s.truck1.spec_get(d).afternoon, o);
        crate::solution::lemma_occ_absent(s.truck2.spec_get(d).morning, o);
        crate::solution::lemma_occ_absent(s.truck2.spec_get(d).afternoon, o);
        assert(day_occ(*s, d, o) == 0);
    }
    None
}

impl RemoveMultipleOrders {
    /// One removal spot per marked day of the order, found by searching each
    /// marked day's routes; the spots satisfy this move's validity.
    pub fn collect_spots(p: &Problem, s: &Solution, order: OrderIndex) -> (r: Vec<RemovalSpot>)
        requires
            p.wf(),
            s.wf(*p),
            (order as int) < p.spec_depot(),
        ensures
            spec_filled(s.order_flags.mask(order as int)) > 0 ==> (RemoveMultipleOrders {
                spots: r,
                order_index: order,
            }).ok(*p, *s),
            spec_filled(s.order_flags.mask(order as int)) == 0 ==> r@.len() == 0,
    {
        proof {
            s.order_flags.lemma_mask_bound(order as int);
        }
        let m0 = s.order_flags.get_mask(order);
        let mut spots: Vec<RemovalSpot> = Vec::new();
        let mut sim: u8 = m0;
        proof {
            assert forall|b: u8|
                #![trigger sim & b]
                crate::order_day_flags::is_day_bit(b) && sim & b != 0 implies m0 & b == b by {
                crate::order_day_flags::lemma_bit_forms(m0, b);
            }
        }
        let mut di: u64 = 0;
        while di < 5
            invariant
                p.wf(),
                s.wf(*p),
                (order as int) < p.spec_depot(),
                m0 == s.order_flags.mask(order as int),
                m0 < 32,
                di <= 5,
                sim < 32,
                spots@.len() as int == spec_filled(m0) - spec_filled(sim),
                spots@.len() <= 5,
                forall|j: int| 0 <= j < di ==> sim & DayEnum::from_index_spec(j).spec_bit() == 0,
                forall|b: u8|
                    #![trigger sim & b]
                    crate::order_day_flags::is_day_bit(b) && sim & b != 0 ==> m0 & b == b,
                forall|i: int|
                    0 <= i < spots@.len() ==> sim & (#[trigger] spots@[i].day.spec_bit()) == 0,
                forall|i: int|
                    0 <= i < spots@.len() ==> m0 & (#[trigger] spots@[i].day.spec_bit())
                        == spots@[i].day.spec_bit(),
                forall|i: int|
                    0 <= i < spots@.len() ==> removal_spot_ok(*p, *s, order, #[trigger] spots@[i]),
                forall|i: int, j: int|
                    0 <= i < spots@.len() && 0 <= j < spots@.len() && i != j
                        ==> #[trigger] spots@[i].day != #[trigger] spots@[j].day,
            decreases 5 - di,
        {
            let d = DayEnum::from_index(di);
            if sim & d.bit() != 0 {
                proof {
                    assert(sim & d.spec_bit() != 0);
                    assert(m0 & d.spec_bit() == d.spec_bit());
                    crate::order_day_flags::lemma_bit_forms(sim, d.spec_bit());
                    crate::order_day_flags::lemma_clear_bit(sim, d.spec_bit());
                    crate::order_day_flags::lemma_bit_forms(
                        s.order_flags.mask(order as int),
                        d.spec_bit(),
                    );
                }
                let spot = match find_visit_on_day(p, s, order, d) {
                    Some(sp) => sp,
                    None => {
                        // A marked day always carries a visit; this branch
                        // contradicts the plan invariant.
                        proof {
                            assert(s.order_flags.has_day(order as int, d));
                            assert(false);
                        }
                        return spots;
                    },
                };
                let ghost spots0 = spots@;
                let ghost sim0 = sim;
                spots.push(spot);
                sim = sim & !d.bit();
                proof {
                    assert(spots@ == spots0.push(spot));
                    assert forall|i: int|
                        0 <= i < spots@.len() implies sim & (#[trigger] spots@[i].day.spec_bit())
                        == 0 by {
                        if i < spots0.len() {
                            crate::order_day_flags::lemma_clear_monotone(
                                sim0,
                                d.spec_bit(),
                                spots@[i].day.spec_bit(),
                            );
                        } else {
                            crate::order_day_flags::lemma_clear_bit(sim0, d.spec_bit());
                        }
                    }
                    crate::order_day_flags::lemma_clear_monotone(sim0, d.spec_bit(), 0);
                    assert forall|b: u8|
                        #![trigger sim & b]
                        crate::order_day_flags::is_day_bit(b) && sim & b != 0 implies m0 & b
                        == b by {
                        crate::order_day_flags::lemma_clear_monotone(sim0, d.spec_bit(), b);
                        assert(sim0 & b != 0);
                    }
                    assert forall|i: int, j: int|
                        0 <= i < spots@.len() && 0 <= j < spots@.len() && i
                            != j implies #[trigger] spots@[i].day != #[trigger] spots@[j].day by {
                        if j == spots0.len() as int && i < j {
                            assert(sim0 & spots@[i].day.spec_bit() == 0);
                            assert(sim0 & spots@[j].day.spec_bit() != 0);
                        } else if i == spots0.len() as int && j < i {
                            assert(sim0 & spots@[j].day.spec_bit() == 0);
                            assert(sim0 & spots@[i].day.spec_bit() != 0);
                        }
                    }
                    assert forall|j: int|
                        0 <= j < di + 1 implies sim & DayEnum::from_index_spec(j).spec_bit()
                        == 0 by {
                        if j < di {
                            crate::order_day_flags::lemma_clear_monotone(
                                sim0,
                                d.spec_bit(),
                                DayEnum::from_index_spec(j).spec_bit(),
                            );
                            assert(sim0 & DayEnum::from_index_spec(j).spec_bit() == 0);
                        } else {
                            crate::order_day_flags::lemma_clear_bit(sim0, d.spec_bit());
                        }
                    }
                }
            } else {
                proof {
                    assert forall|j: int|
                        0 <= j < di + 1 implies sim & DayEnum::from_index_spec(j).spec_bit()
                        == 0 by {}
                }
            }
            di = di + 1;
        }
        proof {
            assert(sim & 1 == 0 && sim & 2 == 0 && sim & 4 == 0 && sim & 8 == 0 && sim & 16 == 0)
                by {
                assert(DayEnum::from_index_spec(0).spec_bit() == 1);
                assert(DayEnum::from_index_spec(1).spec_bit() == 2);
                assert(DayEnum::from_index_spec(2).spec_bit() == 4);
                assert(DayEnum::from_index_spec(3).spec_bit() == 8);
                assert(DayEnum::from_index_spec(4).spec_bit() == 16);
            }
            crate::order_day_flags::lemma_zero_filled_mask(sim);
            assert(spec_filled(sim) == 0);
        }
        spots
    }
}

} // verus!
