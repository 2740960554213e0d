//! A per-order record of where multi-visit orders currently sit, used by
//! bulk moves to find an order's other visits quickly.

use vstd::prelude::*;
use crate::day::TimeOfDay;
use crate::engine::TruckEnum;
use crate::resource::{Frequency, Problem};
use crate::route::OrderIndex;
use crate::week::DayEnum;

verus! {

/// One concrete placement of a visit.
pub struct ExactLocation {
    pub truck_enum: TruckEnum,
    pub day_enum: DayEnum,
    pub time_of_day: TimeOfDay,
    pub order_index: usize,
}

enum OrderInfo {
    Nothing,
    EmptyTwice,
    Twice(ExactLocation, ExactLocation),
    EmptyFrice,
    Frice(u8),
}

pub struct OrderLocation {
    list: Vec<OrderInfo>,
}

impl OrderLocation {
    pub closed spec fn len(self) -> nat {
        self.list@.len()
    }

    /// Whether the entry of order `o` records a twice-weekly pair.
    pub closed spec fn is_twice(self, o: int) -> bool {
        self.list@[o] is Twice
    }

    /// One empty tracking entry per order: twice-weekly and four-times
    /// orders get dedicated empty slots, all others need none.
    pub fn new(p: &Problem) -> (r: OrderLocation)
        requires
            p.wf(),
        ensures
            r.len() == p.orders@.len(),
            forall|o: int| 0 <= o < p.orders@.len() ==> !#[trigger] r.is_twice(o),
    {
        let mut list: Vec<OrderInfo> = Vec::new();
        let mut i: usize = 0;
        let n = p.order_count();
        while i < n
            invariant
                i <= n,
                n == p.orders@.len(),
                list@.len() == i,
                forall|o: int| 0 <= o < i ==> !(#[trigger] list@[o] is Twice),
            decreases n - i,
        {
            let info = match p.orders[i].frequency {
                Frequency::Twice => OrderInfo::EmptyTwice,
                Frequency::FourTimes => OrderInfo::EmptyFrice,
                _ => OrderInfo::Nothing,
            };
            list.push(info);
            i = i + 1;
        }
        OrderLocation { list }
    }

    /// Record both placements of a twice-weekly order.
    pub fn replace_twice(&mut self, order_index: OrderIndex, one: ExactLocation, two: ExactLocation)
        requires
            (order_index as int) < old(self).len(),
        ensures
            final(self).len() == old(self).len(),
            final(self).is_twice(order_index as int),
            forall|o: int|
                0 <= o < old(self).len() && o != order_index ==> #[trigger] final(self).is_twice(o)
                    == old(self).is_twice(o),
    {
        self.list[order_index] = OrderInfo::Twice(one, two);
    }
}

} // verus!
