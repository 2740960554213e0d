//! The order records and the planning context they form together with the
//! travel-time matrix.

use vstd::prelude::*;
use crate::matrix::{matrix_ok, check_matrix, DistanceMatrix};
use crate::{Time, FULL_DAY};

verus! {

/// How many visits per week an order requires; the depot sentinel requires
/// none.
#[derive(Clone, Copy, PartialEq, Eq, Structural)]
pub enum Frequency {
    Depot,
    Once,
    Twice,
    Thrice,
    FourTimes,
}

impl Frequency {
    /// The weekly visit count as a number.
    pub open spec fn spec_count(self) -> u8 {
        match self {
            Frequency::Depot => 0,
            Frequency::Once => 1,
            Frequency::Twice => 2,
            Frequency::Thrice => 3,
            Frequency::FourTimes => 4,
        }
    }

    #[verifier::when_used_as_spec(spec_count)]
    pub fn count(self) -> (r: u8)
        ensures
            r == self.spec_count(),
    {
        match self {
            Frequency::Depot => 0,
            Frequency::Once => 1,
            Frequency::Twice => 2,
            Frequency::Thrice => 3,
            Frequency::FourTimes => 4,
        }
    }

    /// The frequency for a weekly visit count, if there is one.
    pub fn from_count(count: u8) -> (r: Option<Frequency>)
        ensures
            r matches Some(f) ==> f.spec_count() == count,
            r is Some <==> count <= 4,
    {
        match count {
            0 => Some(Frequency::Depot),
            1 => Some(Frequency::Once),
            2 => Some(Frequency::Twice),
            3 => Some(Frequency::Thrice),
            4 => Some(Frequency::FourTimes),
            _ => None,
        }
    }
}

/// One order: a customer location with its weekly visit requirement, trash
/// volume, service time, and the node id used for travel-time lookups.
#[derive(Clone)]
pub struct Company {
    pub order: u16,
    pub place: String,
    pub frequency: Frequency,
    pub container_count: u8,
    pub container_volume: u16,
    pub emptying_time: Time,
    pub matrix_id: u16,
    pub x_coordinate: u32,
    pub y_coordinate: u32,
    pub total_container_volume: u32,
    pub penalty: Time,
}

impl Company {
    /// The volume this order adds to a route.
    pub fn trash(&self) -> (r: u32)
        ensures
            r == self.total_container_volume,
    {
        self.total_container_volume
    }

    /// The score penalty for leaving this order incompletely scheduled.
    pub fn get_penalty(&self) -> (r: Time)
        ensures
            r == self.penalty,
    {
        self.penalty
    }
}

/// One entry of the travel-time matrix.
#[derive(Clone)]
pub struct Distance {
    pub absolute_distance: u16,
    pub travel_time: Time,
}

/// Caps that the planning context enforces so that all time arithmetic stays
/// well inside `i64`.
pub const MAX_TRAVEL: Time = 4320000;

pub const MAX_SERVICE: Time = 4320000;

pub const MAX_ORDERS: usize = 1048576;

/// The read-only planning context: the parsed order list (the last entry is
/// the depot sentinel) and the travel-time matrix covering every order's
/// node id.
pub struct Problem {
    pub orders: Vec<Company>,
    pub matrix: DistanceMatrix,
    pub n_nodes: u16,
}

impl Problem {
    /// Index of the depot sentinel.
    pub open spec fn spec_depot(self) -> int {
        self.orders@.len() - 1
    }

    pub fn depot(&self) -> (r: usize)
        requires
            self.wf(),
        ensures
            r == self.spec_depot(),
    {
        self.orders.len() - 1
    }

    pub fn order_count(&self) -> (r: usize)
        ensures
            r == self.orders@.len(),
    {
        self.orders.len()
    }

    /// The service time of order `o`.
    pub open spec fn service(self, o: int) -> int {
        self.orders@[o].emptying_time as int
    }

    /// The matrix node id of order `o`.
    pub open spec fn mid(self, o: int) -> u16 {
        self.orders@[o].matrix_id
    }

    /// The trash volume of order `o`.
    pub open spec fn volume(self, o: int) -> int {
        self.orders@[o].total_container_volume as int
    }

    /// The required weekly visit count of order `o`.
    pub open spec fn freq(self, o: int) -> int {
        self.orders@[o].frequency.spec_count() as int
    }

    /// Travel time between the node ids of orders `a` and `b`.
    pub open spec fn travel(self, a: int, b: int) -> int {
        crate::matrix::tt(self.matrix, self.mid(a), self.mid(b))
    }

    /// Usability of parsed inputs: a depot sentinel at the end, bounded
    /// order data, and a matrix that covers every node id below `n_nodes`.
    pub open spec fn inputs_ok(orders: Seq<Company>, matrix: DistanceMatrix, n_nodes: u16) -> bool {
        &&& 1 <= orders.len() <= MAX_ORDERS
        &&& orders[orders.len() - 1].frequency == Frequency::Depot
        &&& orders[orders.len() - 1].total_container_volume == 0
        &&& orders[orders.len() - 1].emptying_time == 0
        &&& forall|o: int|
            0 <= o < orders.len() ==> 0 <= #[trigger] orders[o].emptying_time <= MAX_SERVICE
        &&& forall|o: int|
            0 <= o < orders.len() ==> (#[trigger] orders[o].matrix_id as int) < (n_nodes as int)
        &&& forall|o: int|
            0 <= o < orders.len() ==> #[trigger] orders[o].penalty == 3
                * orders[o].frequency.spec_count() * orders[o].emptying_time
        &&& matrix_ok(matrix, n_nodes as int, MAX_TRAVEL as int)
    }

    /// Validity of the context: exactly the usability of its parts.
    pub open spec fn wf(self) -> bool {
        Problem::inputs_ok(self.orders@, self.matrix, self.n_nodes)
    }

    /// Travel times between covered orders are in range.
    pub proof fn lemma_travel_bounds(self, a: int, b: int)
        requires
            self.wf(),
            0 <= a < self.orders@.len(),
            0 <= b < self.orders@.len(),
        ensures
            0 <= self.travel(a, b) <= MAX_TRAVEL,
    {
        assert((self.orders@[a].matrix_id as int) < (self.n_nodes as int));
        assert((self.orders@[b].matrix_id as int) < (self.n_nodes as int));
        if self.mid(a) != self.mid(b) {
            assert(crate::matrix::has_time(self.matrix, self.mid(a), self.mid(b)));
        }
    }

    /// Validate a parsed order list and matrix and form the context.
    /// Succeeds exactly when the inputs are usable.
    pub fn new(orders: Vec<Company>, matrix: DistanceMatrix, n_nodes: u16) -> (r: Option<Problem>)
        ensures
            r matches Some(p) ==> p.wf() && p.orders@ == orders@ && p.matrix == matrix
                && p.n_nodes == n_nodes,
            r is Some <==> Problem::inputs_ok(orders@, matrix, n_nodes),
    {
        if orders.len() < 1 || orders.len() > MAX_ORDERS {
            return None;
        }
        let depot = &orders[orders.len() - 1];
        if !(matches!(depot.frequency, Frequency::Depot) && depot.total_container_volume == 0
            && depot.emptying_time == 0) {
            return None;
        }
        let mut o: usize = 0;
        while o < orders.len()
            invariant
                orders@.len() >= 1,
                o <= orders@.len(),
                forall|j: int|
                    0 <= j < o ==> 0 <= #[trigger] orders@[j].emptying_time <= MAX_SERVICE,
                forall|j: int|
                    0 <= j < o ==> (#[trigger] orders@[j].matrix_id as int) < (n_nodes as int),
                forall|j: int|
                    0 <= j < o ==> #[trigger] orders@[j].penalty == 3
                        * orders@[j].frequency.spec_count() * orders@[j].emptying_time,
            decreases orders@.len() - o,
        {
            let c = &orders[o];
            if c.emptying_time < 0 || c.emptying_time > MAX_SERVICE {
                proof {
                    assert(!(0 <= orders@[o as int].emptying_time <= MAX_SERVICE));
                }
                return None;
            }
            if c.matrix_id >= n_nodes {
                proof {
                    assert(!((orders@[o as int].matrix_id as int) < (n_nodes as int)));
                }
                return None;
            }
            let f = c.frequency.count();
            proof {
                assert(0 <= 3 * (f as int) * (c.emptying_time as int) <= 51840000int)
                    by (nonlinear_arith)
                    requires
                        f <= 4,
                        0 <= c.emptying_time <= 4320000,
                ;
            }
            if c.penalty != 3 * (f as Time) * c.emptying_time {
                proof {
                    assert(orders@[o as int].penalty != 3
                        * orders@[o as int].frequency.spec_count()
                        * orders@[o as int].emptying_time);
                }
                return None;
            }
            o = o + 1;
        }
        if !check_matrix(&matrix, n_nodes, MAX_TRAVEL) {
            return None;
        }
        Some(Problem { orders, matrix, n_nodes })
    }
}

} // verus!
