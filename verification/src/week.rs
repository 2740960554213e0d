//! One truck's five weekdays.

use vstd::prelude::*;
use rand::rngs::SmallRng;
use crate::rng::rng_below;
use crate::day::Day;
use crate::resource::Problem;

verus! {

#[derive(PartialEq, Eq, Debug, Clone, Copy, Hash, Structural)]
pub enum DayEnum {
    Monday,
    Tuesday,
    Wednesday,
    Thursday,
    Friday,
}

impl DayEnum {
    /// The weekday's flag bit in an order's day mask.
    pub open spec fn spec_bit(self) -> u8 {
        match self {
            DayEnum::Monday => 1,
            DayEnum::Tuesday => 2,
            DayEnum::Wednesday => 4,
            DayEnum::Thursday => 8,
            DayEnum::Friday => 16,
        }
    }

    #[verifier::when_used_as_spec(spec_bit)]
    pub fn bit(self) -> (r: u8)
        ensures
            r == self.spec_bit(),
    {
        match self {
            DayEnum::Monday => 1,
            DayEnum::Tuesday => 2,
            DayEnum::Wednesday => 4,
            DayEnum::Thursday => 8,
            DayEnum::Friday => 16,
        }
    }

    /// The weekday for an index below five.
    pub fn from_index(i: u64) -> (r: DayEnum)
        requires
            i < 5,
        ensures
            r == DayEnum::from_index_spec(i as int),
    {
        match i {
            0 => DayEnum::Monday,
            1 => DayEnum::Tuesday,
            2 => DayEnum::Wednesday,
            3 => DayEnum::Thursday,
            _ => DayEnum::Friday,
        }
    }

    pub open spec fn from_index_spec(i: int) -> DayEnum {
        if i == 0 {
            DayEnum::Monday
        } else if i == 1 {
            DayEnum::Tuesday
        } else if i == 2 {
            DayEnum::Wednesday
        } else if i == 3 {
            DayEnum::Thursday
        } else {
            DayEnum::Friday
        }
    }

    /// A uniformly random weekday.
    pub fn sample(rng: &mut SmallRng) -> DayEnum {
        DayEnum::from_index(rng_below(rng, 5))
    }
}

pub struct Week {
    pub monday: Day,
    pub tuesday: Day,
    pub wednesday: Day,
    pub thursday: Day,
    pub friday: Day,
}

impl Week {
    pub open spec fn spec_get(self, day: DayEnum) -> Day {
        match day {
            DayEnum::Monday => self.monday,
            DayEnum::Tuesday => self.tuesday,
            DayEnum::Wednesday => self.wednesday,
            DayEnum::Thursday => self.thursday,
            DayEnum::Friday => self.friday,
        }
    }

    pub open spec fn wf(self, p: Problem) -> bool {
        &&& self.monday.wf(p)
        &&& self.tuesday.wf(p)
        &&& self.wednesday.wf(p)
        &&& self.thursday.wf(p)
        &&& self.friday.wf(p)
    }

    /// The week's score contribution.
    pub open spec fn spec_total_time(self) -> int {
        self.monday.spec_total_time() + self.tuesday.spec_total_time()
            + self.wednesday.spec_total_time() + self.thursday.spec_total_time()
            + self.friday.spec_total_time()
    }

    pub fn new(p: &Problem) -> (r: Week)
        requires
            p.wf(),
        ensures
            r.wf(*p),
            r.spec_total_time() == 0,
            forall|d: DayEnum| (#[trigger] r.spec_get(d)).morning.stops() =~= seq![
                (p.spec_depot() as crate::route::OrderIndex),
                (p.spec_depot() as crate::route::OrderIndex),
            ],
            forall|d: DayEnum| (#[trigger] r.spec_get(d)).afternoon.stops() =~= seq![
                (p.spec_depot() as crate::route::OrderIndex),
                (p.spec_depot() as crate::route::OrderIndex),
            ],
    {
        let r = Week {
            monday: Day::new(p),
            tuesday: Day::new(p),
            wednesday: Day::new(p),
            thursday: Day::new(p),
            friday: Day::new(p),
        };
        proof {
            let dd = seq![
                (p.spec_depot() as crate::route::OrderIndex),
                (p.spec_depot() as crate::route::OrderIndex),
            ];
            assert forall|d: DayEnum| (#[trigger] r.spec_get(d)).morning.stops() =~= dd
                && r.spec_get(d).afternoon.stops() =~= dd by {
                match d {
                    DayEnum::Monday => {},
                    DayEnum::Tuesday => {},
                    DayEnum::Wednesday => {},
                    DayEnum::Thursday => {},
                    DayEnum::Friday => {},
                }
            }
        }
        r
    }

    pub fn get(&self, day: DayEnum) -> (r: &Day)
        ensures
            *r == self.spec_get(day),
    {
        match day {
            DayEnum::Monday => &self.monday,
            DayEnum::Tuesday => &self.tuesday,
            DayEnum::Wednesday => &self.wednesday,
            DayEnum::Thursday => &self.thursday,
            DayEnum::Friday => &self.friday,
        }
    }

    pub fn get_mut(&mut self, day: DayEnum) -> (r: &mut Day)
        ensures
            *r == old(self).spec_get(day),
            final(self).spec_get(day) == *final(r),
            forall|d2: DayEnum|
                d2 != day ==> #[trigger] final(self).spec_get(d2) == old(self).spec_get(d2),
    {
        match day {
            DayEnum::Monday => &mut self.monday,
            DayEnum::Tuesday => &mut self.tuesday,
            DayEnum::Wednesday => &mut self.wednesday,
            DayEnum::Thursday => &mut self.thursday,
            DayEnum::Friday => &mut self.friday,
        }
    }

    /// A structural copy of the week.
    pub fn duplicate(&self, p: &Problem) -> (r: Week)
        requires
            p.wf(),
        ensures
            r.wf(*p) == self.wf(*p),
            r.spec_total_time() == self.spec_total_time(),
            forall|d: DayEnum| (#[trigger] r.spec_get(d)).morning.stops() == self.spec_get(
                d,
            ).morning.stops(),
            forall|d: DayEnum| (#[trigger] r.spec_get(d)).afternoon.stops() == self.spec_get(
                d,
            ).afternoon.stops(),
    {
        let r = Week {
            monday: self.monday.duplicate(p),
            tuesday: self.tuesday.duplicate(p),
            wednesday: self.wednesday.duplicate(p),
            thursday: self.thursday.duplicate(p),
            friday: self.friday.duplicate(p),
        };
        proof {
            assert forall|d: DayEnum| (#[trigger] r.spec_get(d)).morning.stops() == self.spec_get(
                d,
            ).morning.stops() && r.spec_get(d).afternoon.stops() == self.spec_get(
                d,
            ).afternoon.stops() by {
                match d {
                    DayEnum::Monday => {},
                    DayEnum::Tuesday => {},
                    DayEnum::Wednesday => {},
                    DayEnum::Thursday => {},
                    DayEnum::Friday => {},
                }
            }
        }
        r
    }

    /// A uniformly random day of the week.
    pub fn get_random(&self, rng: &mut SmallRng) -> (r: (&Day, DayEnum))
        ensures
            *r.0 == self.spec_get(r.1),
    {
        let day = DayEnum::sample(rng);
        (self.get(day), day)
    }

    /// Recompute all stored route times; the route invariant makes this a
    /// no-op.
    pub fn recalculate_total_time(&mut self, p: &Problem)
        requires
            p.wf(),
            old(self).wf(*p),
        ensures
            *final(self) == *old(self),
    {
        self.monday.recalculate_total_time(p);
        self.tuesday.recalculate_total_time(p);
        self.wednesday.recalculate_total_time(p);
        self.thursday.recalculate_total_time(p);
        self.friday.recalculate_total_time(p);
    }
}

} // verus!
