//! One weekday of one truck: a morning route and an afternoon route.

use vstd::prelude::*;
use rand::rngs::SmallRng;
use crate::rng::rng_below;
use crate::route::Route;
use crate::resource::Problem;
use crate::Time;

verus! {

#[derive(Debug, PartialEq, Eq, Hash, Clone, Copy, Structural)]
pub enum TimeOfDay {
    Morning,
    Afternoon,
}

impl TimeOfDay {
    pub open spec fn spec_other(self) -> TimeOfDay {
        match self {
            TimeOfDay::Morning => TimeOfDay::Afternoon,
            TimeOfDay::Afternoon => TimeOfDay::Morning,
        }
    }

    pub fn other(self) -> (r: TimeOfDay)
        ensures
            r == self.spec_other(),
    {
        match self {
            TimeOfDay::Morning => TimeOfDay::Afternoon,
            TimeOfDay::Afternoon => TimeOfDay::Morning,
        }
    }

    /// A uniformly random shift.
    pub fn sample(rng: &mut SmallRng) -> TimeOfDay {
        if rng_below(rng, 2) == 0 {
            TimeOfDay::Morning
        } else {
            TimeOfDay::Afternoon
        }
    }
}

pub struct Day {
    pub morning: Route,
    pub afternoon: Route,
}

impl Day {
    pub open spec fn spec_get(self, time_of_day: TimeOfDay) -> Route {
        match time_of_day {
            TimeOfDay::Morning => self.morning,
            TimeOfDay::Afternoon => self.afternoon,
        }
    }

    /// Both routes valid and compacted.
    pub open spec fn wf(self, p: Problem) -> bool {
        &&& self.morning.wf(p)
        &&& self.morning.linked_vector.free_len() == 0
        &&& self.afternoon.wf(p)
        &&& self.afternoon.linked_vector.free_len() == 0
    }

    /// The time this day contributes to the score: a route holding only the
    /// sentinel pair contributes nothing, so empty shifts are not charged
    /// the depot overhead.
    pub open spec fn spec_total_time(self) -> int {
        (if self.morning.stops().len() == 2 {
            0int
        } else {
            self.morning.time as int
        }) + (if self.afternoon.stops().len() == 2 {
            0int
        } else {
            self.afternoon.time as int
        })
    }

    pub fn new(p: &Problem) -> (r: Day)
        requires
            p.wf(),
        ensures
            r.wf(*p),
            r.spec_total_time() == 0,
            r.morning.stops() =~= seq![
                (p.spec_depot() as crate::route::OrderIndex),
                (p.spec_depot() as crate::route::OrderIndex),
            ],
            r.afternoon.stops() =~= seq![
                (p.spec_depot() as crate::route::OrderIndex),
                (p.spec_depot() as crate::route::OrderIndex),
            ],
    {
        Day { morning: Route::new(p), afternoon: Route::new(p) }
    }

    pub fn get(&self, time_of_day: TimeOfDay) -> (r: &Route)
        ensures
            *r == self.spec_get(time_of_day),
    {
        match time_of_day {
            TimeOfDay::Morning => &self.morning,
            TimeOfDay::Afternoon => &self.afternoon,
        }
    }

    pub fn get_mut(&mut self, time_of_day: TimeOfDay) -> (r: &mut Route)
        ensures
            *r == old(self).spec_get(time_of_day),
            final(self).spec_get(time_of_day) == *final(r),
            final(self).spec_get(time_of_day.spec_other()) == old(self).spec_get(
                time_of_day.spec_other(),
            ),
    {
        match time_of_day {
            TimeOfDay::Morning => &mut self.morning,
            TimeOfDay::Afternoon => &mut self.afternoon,
        }
    }

    /// A uniformly random shift of this day.
    pub fn get_random(&self, rng: &mut SmallRng) -> (r: (&Route, TimeOfDay))
        ensures
            *r.0 == self.spec_get(r.1),
    {
        let tod = TimeOfDay::sample(rng);
        (self.get(tod), tod)
    }

    /// A structural copy of the day.
    pub fn duplicate(&self, p: &Problem) -> (r: Day)
        requires
            p.wf(),
        ensures
            r.wf(*p) == self.wf(*p),
            r.morning.stops() == self.morning.stops(),
            r.afternoon.stops() == self.afternoon.stops(),
            r.morning.capacity == self.morning.capacity,
            r.afternoon.capacity == self.afternoon.capacity,
            r.morning.time == self.morning.time,
            r.afternoon.time == self.afternoon.time,
            r.spec_total_time() == self.spec_total_time(),
    {
        Day { morning: self.morning.duplicate(p), afternoon: self.afternoon.duplicate(p) }
    }

    /// The day's score contribution, computed from the stored route times.
    pub fn get_total_time(&self, p: &Problem) -> (t: Time)
        requires
            p.wf(),
            self.wf(*p),
        ensures
            t == self.spec_total_time(),
    {
        proof {
            self.morning.linked_vector.lemma_well_formed_facts();
            self.afternoon.linked_vector.lemma_well_formed_facts();
            self.morning.linked_vector.lemma_view();
            self.afternoon.linked_vector.lemma_view();
            crate::route::lemma_time_fits(*p, self.morning.stops());
            crate::route::lemma_time_fits(*p, self.afternoon.stops());
        }
        let m = if self.morning.linked_vector.len() == 2 {
            0
        } else {
            self.morning.time
        };
        let a = if self.afternoon.linked_vector.len() == 2 {
            0
        } else {
            self.afternoon.time
        };
        m + a
    }

    /// Recompute both stored route times from the ground up; the route
    /// invariant makes this a no-op.
    pub fn recalculate_total_time(&mut self, p: &Problem)
        requires
            p.wf(),
            old(self).wf(*p),
        ensures
            *final(self) == *old(self),
    {
        self.morning.recalculate_total_time(p);
        self.afternoon.recalculate_total_time(p);
    }
}

} // verus!
