//! One truck's stop sequence for one shift, held in an arena list of order
//! indices bounded by depot sentinels, with its running volume and time.

use vstd::prelude::*;
use crate::arena::CompactLinkedVector;
use crate::matrix::{time_between_two_nodes, time_between_three_nodes};
use crate::resource::{Problem, MAX_TRAVEL, MAX_SERVICE};
use crate::{Time, HALF_HOUR};

verus! {

pub type OrderIndex = usize;

/// Routes are kept short enough that every time sum stays far from the `i64`
/// bounds.
pub const MAX_ROUTE_LEN: usize = 16777216;

/// The time a stop sequence takes: for every stop but the last, the travel
/// to the next stop plus the stop's own service time; plus the fixed
/// half-hour depot overhead that every stored route time carries.
pub open spec fn spec_route_time(p: Problem, vals: Seq<OrderIndex>) -> int
    decreases vals.len(),
{
    if vals.len() <= 1 {
        HALF_HOUR as int
    } else {
        p.travel(vals[0] as int, vals[1] as int) + p.service(vals[0] as int) + spec_route_time(
            p,
            vals.drop_first(),
        )
    }
}

/// The trash volume a stop sequence collects.
pub open spec fn spec_route_volume(p: Problem, vals: Seq<OrderIndex>) -> int
    decreases vals.len(),
{
    if vals.len() == 0 {
        0
    } else {
        p.volume(vals[0] as int) + spec_route_volume(p, vals.drop_first())
    }
}

/// Time change of inserting order `x` at position `j` of the stop sequence
/// (between the stops now at `j - 1` and `j`).
pub open spec fn add_delta(p: Problem, vals: Seq<OrderIndex>, j: int, x: OrderIndex) -> int {
    p.travel(vals[j - 1] as int, x as int) + p.travel(x as int, vals[j] as int) - p.travel(
        vals[j - 1] as int,
        vals[j] as int,
    ) + p.service(x as int)
}

/// Time change of removing the stop at position `j` of the stop sequence.
pub open spec fn remove_delta(p: Problem, vals: Seq<OrderIndex>, j: int) -> int {
    p.travel(vals[j - 1] as int, vals[j + 1] as int) - p.travel(
        vals[j - 1] as int,
        vals[j] as int,
    ) - p.travel(vals[j] as int, vals[j + 1] as int) - p.service(vals[j] as int)
}

/// Inserting a stop at an interior position changes the route time by
/// exactly `add_delta`.
pub proof fn lemma_time_insert(p: Problem, vals: Seq<OrderIndex>, j: int, x: OrderIndex)
    requires
        vals.len() >= 2,
        1 <= j <= vals.len() - 1,
    ensures
        spec_route_time(p, vals.insert(j, x)) == spec_route_time(p, vals) + add_delta(
            p,
            vals,
            j,
            x,
        ),
    decreases j,
{
    let w = vals.insert(j, x);
    vals.insert_ensures(j, x);
    if j == 1 {
        assert(w.drop_first() =~= vals.drop_first().insert(0, x));
        let u = vals.drop_first().insert(0, x);
        assert(u[0] == x);
        assert(u.drop_first() =~= vals.drop_first());
        assert(spec_route_time(p, w) == p.travel(vals[0] as int, x as int) + p.service(
            vals[0] as int,
        ) + spec_route_time(p, u));
        assert(spec_route_time(p, u) == p.travel(x as int, vals[1] as int) + p.service(x as int)
            + spec_route_time(p, vals.drop_first()));
    } else {
        assert(w.drop_first() =~= vals.drop_first().insert(j - 1, x));
        lemma_time_insert(p, vals.drop_first(), j - 1, x);
        assert(vals.drop_first()[j - 2] == vals[j - 1]);
        assert(vals.drop_first()[j - 1] == vals[j]);
        assert(w[0] == vals[0]);
        assert(w[1] == vals[1]);
    }
}

/// Removing an interior stop changes the route time by exactly
/// `remove_delta`.
pub proof fn lemma_time_remove(p: Problem, vals: Seq<OrderIndex>, j: int)
    requires
        vals.len() >= 3,
        1 <= j <= vals.len() - 2,
    ensures
        spec_route_time(p, vals.remove(j)) == spec_route_time(p, vals) + remove_delta(p, vals, j),
{
    let w = vals.remove(j);
    vals.remove_ensures(j);
    assert(vals =~= w.insert(j, vals[j]));
    lemma_time_insert(p, w, j, vals[j]);
    assert(w[j - 1] == vals[j - 1]);
    assert(w[j] == vals[j + 1]);
}

/// Removing the stop just inserted undoes the insertion's time change: the
/// round trip of inserting an order and removing it again returns the
/// route's time to its original value.
pub proof fn lemma_add_remove_round_trip(p: Problem, vals: Seq<OrderIndex>, j: int, x: OrderIndex)
    requires
        vals.len() >= 2,
        1 <= j <= vals.len() - 1,
    ensures
        remove_delta(p, vals.insert(j, x), j) == -add_delta(p, vals, j, x),
        vals.insert(j, x).remove(j) =~= vals,
        spec_route_time(p, vals.insert(j, x).remove(j)) == spec_route_time(p, vals),
        spec_route_volume(p, vals.insert(j, x).remove(j)) == spec_route_volume(p, vals),
{
    lemma_volume_insert(p, vals, j, x);
    lemma_volume_remove(p, vals.insert(j, x), j);
    vals.insert_ensures(j, x);
    let w = vals.insert(j, x);
    assert(w[j - 1] == vals[j - 1]);
    assert(w[j] == x);
    assert(w[j + 1] == vals[j]);
    assert(w.remove(j) =~= vals) by {
        w.remove_ensures(j);
    }
    lemma_time_insert(p, vals, j, x);
    lemma_time_remove(p, w, j);
}

/// The legs of a stop sequence from position `i` on: travel to the next
/// stop plus own service time, for every stop but the last.
pub open spec fn leg_sum(p: Problem, vals: Seq<OrderIndex>, i: int) -> int
    decreases vals.len() - i,
{
    if i < 0 || i >= vals.len() - 1 {
        0
    } else {
        p.travel(vals[i] as int, vals[i + 1] as int) + p.service(vals[i] as int) + leg_sum(
            p,
            vals,
            i + 1,
        )
    }
}

/// Suffix leg sums shift under dropping the first stop.
proof fn lemma_leg_shift(p: Problem, vals: Seq<OrderIndex>, i: int)
    requires
        vals.len() >= 1,
        0 <= i,
    ensures
        leg_sum(p, vals, i + 1) == leg_sum(p, vals.drop_first(), i),
    decreases vals.len() - i,
{
    if i + 1 >= vals.len() - 1 {
    } else {
        lemma_leg_shift(p, vals, i + 1);
        assert(vals.drop_first()[i] == vals[i + 1]);
        assert(vals.drop_first()[i + 1] == vals[i + 2]);
    }
}

/// The recursive route time equals the leg sum plus the fixed overhead.
pub proof fn lemma_time_is_leg_sum(p: Problem, vals: Seq<OrderIndex>)
    ensures
        spec_route_time(p, vals) == leg_sum(p, vals, 0) + HALF_HOUR,
    decreases vals.len(),
{
    if vals.len() <= 1 {
    } else {
        lemma_time_is_leg_sum(p, vals.drop_first());
        lemma_leg_shift(p, vals, 0);
    }
}

/// Suffix leg sums are bounded by the legs that remain.
proof fn lemma_leg_sum_bounds(p: Problem, vals: Seq<OrderIndex>, i: int)
    requires
        p.wf(),
        forall|k: int| 0 <= k < vals.len() ==> (#[trigger] vals[k] as int) < p.orders@.len(),
        0 <= i,
    ensures
        0 <= leg_sum(p, vals, i) <= (MAX_TRAVEL + MAX_SERVICE) * (if i >= vals.len() - 1 {
            0int
        } else {
            vals.len() - 1 - i
        }),
    decreases vals.len() - i,
{
    if i >= vals.len() - 1 {
    } else {
        lemma_leg_sum_bounds(p, vals, i + 1);
        p.lemma_travel_bounds(vals[i] as int, vals[i + 1] as int);
        assert((MAX_TRAVEL + MAX_SERVICE) * (vals.len() - 1 - i) == (MAX_TRAVEL + MAX_SERVICE) + (
        MAX_TRAVEL + MAX_SERVICE) * (vals.len() - 1 - (i + 1))) by (nonlinear_arith);
    }
}

/// Inserting a stop adds exactly its volume.
pub proof fn lemma_volume_insert(p: Problem, vals: Seq<OrderIndex>, j: int, x: OrderIndex)
    requires
        0 <= j <= vals.len(),
    ensures
        spec_route_volume(p, vals.insert(j, x)) == spec_route_volume(p, vals) + p.volume(x as int),
    decreases j,
{
    let w = vals.insert(j, x);
    vals.insert_ensures(j, x);
    if j == 0 {
        assert(w[0] == x);
        assert(w.drop_first() =~= vals);
    } else {
        assert(w[0] == vals[0]);
        assert(w.drop_first() =~= vals.drop_first().insert(j - 1, x));
        lemma_volume_insert(p, vals.drop_first(), j - 1, x);
    }
}

/// Removing a stop subtracts exactly its volume.
pub proof fn lemma_volume_remove(p: Problem, vals: Seq<OrderIndex>, j: int)
    requires
        0 <= j < vals.len(),
    ensures
        spec_route_volume(p, vals.remove(j)) == spec_route_volume(p, vals) - p.volume(
            vals[j] as int,
        ),
{
    let w = vals.remove(j);
    vals.remove_ensures(j);
    assert(vals =~= w.insert(j, vals[j]));
    lemma_volume_insert(p, w, j, vals[j]);
}

/// Volumes never go negative.
pub proof fn lemma_volume_nonneg(p: Problem, vals: Seq<OrderIndex>)
    requires
        p.wf(),
        forall|k: int| 0 <= k < vals.len() ==> (#[trigger] vals[k] as int) < p.orders@.len(),
    ensures
        spec_route_volume(p, vals) >= 0,
    decreases vals.len(),
{
    if vals.len() > 0 {
        assert(forall|k: int|
            0 <= k < vals.drop_first().len() ==> (#[trigger] vals.drop_first()[k] as int)
                < p.orders@.len());
        lemma_volume_nonneg(p, vals.drop_first());
    }
}

/// Route times stay within linear bounds of the length.
pub proof fn lemma_time_bounds(p: Problem, vals: Seq<OrderIndex>)
    requires
        p.wf(),
        forall|k: int| 0 <= k < vals.len() ==> (#[trigger] vals[k] as int) < p.orders@.len(),
    ensures
        HALF_HOUR <= spec_route_time(p, vals) <= HALF_HOUR + (MAX_TRAVEL + MAX_SERVICE)
            * vals.len(),
    decreases vals.len(),
{
    if vals.len() <= 1 {
    } else {
        assert(forall|k: int|
            0 <= k < vals.drop_first().len() ==> (#[trigger] vals.drop_first()[k] as int)
                < p.orders@.len());
        lemma_time_bounds(p, vals.drop_first());
        p.lemma_travel_bounds(vals[0] as int, vals[1] as int);
        assert((MAX_TRAVEL + MAX_SERVICE) * vals.len() == (MAX_TRAVEL + MAX_SERVICE) + (MAX_TRAVEL
            + MAX_SERVICE) * (vals.len() - 1)) by (nonlinear_arith);
    }
}

/// Route times fit comfortably in a 64-bit time: with bounded legs and a
/// bounded length the total stays below three quadrillion centiseconds.
pub proof fn lemma_time_fits(p: Problem, vals: Seq<OrderIndex>)
    requires
        p.wf(),
        forall|k: int| 0 <= k < vals.len() ==> (#[trigger] vals[k] as int) < p.orders@.len(),
        vals.len() <= MAX_ROUTE_LEN,
    ensures
        HALF_HOUR <= spec_route_time(p, vals) <= 3000000000000000,
{
    lemma_time_bounds(p, vals);
    assert((MAX_TRAVEL + MAX_SERVICE) * vals.len() <= (MAX_TRAVEL + MAX_SERVICE) * (
    MAX_ROUTE_LEN as int)) by (nonlinear_arith)
        requires
            vals.len() <= MAX_ROUTE_LEN as int,
    ;
}

/// One shift-route: the stop list, its running volume, and its running time.
pub struct Route {
    pub linked_vector: CompactLinkedVector<OrderIndex>,
    pub capacity: u32,
    pub time: Time,
}

impl Route {
    /// The stop sequence, depot sentinels included.
    pub open spec fn stops(self) -> Seq<OrderIndex> {
        self.linked_vector@
    }

    /// Route validity: a well-formed arena bounded by depot sentinels, all
    /// stops naming real orders, and the running totals exactly matching the
    /// stop sequence.
    pub open spec fn wf(self, p: Problem) -> bool {
        &&& self.linked_vector.well_formed()
        &&& 2 <= self.stops().len()
        &&& self.linked_vector.n_slots() <= MAX_ROUTE_LEN
        &&& (self.stops()[0] as int) == p.spec_depot()
        &&& (self.stops().last() as int) == p.spec_depot()
        &&& forall|k: int|
            0 <= k < self.stops().len() ==> (#[trigger] self.stops()[k] as int) < p.orders@.len()
        &&& forall|k: int|
            0 < k < self.stops().len() - 1 ==> (#[trigger] self.stops()[k] as int)
                < p.spec_depot()
        &&& self.capacity as int == spec_route_volume(p, self.stops())
        &&& self.capacity <= 100000
        &&& self.time as int == spec_route_time(p, self.stops())
    }

    /// An empty route: the depot sentinel twice, no volume, and the fixed
    /// half-hour overhead.
    pub fn new(p: &Problem) -> (r: Route)
        requires
            p.wf(),
        ensures
            r.wf(*p),
            r.stops() =~= seq![(p.spec_depot() as OrderIndex), (p.spec_depot() as OrderIndex)],
            r.capacity == 0,
            r.time == HALF_HOUR,
            r.linked_vector.free_len() == 0,
    {
        let depot = p.depot();
        let mut lv: CompactLinkedVector<OrderIndex> = CompactLinkedVector::new();
        lv.push_back(depot);
        lv.push_back(depot);
        let r = Route { linked_vector: lv, capacity: 0, time: HALF_HOUR };
        proof {
            let s2 = seq![depot, depot];
            let s1 = seq![depot];
            assert(r.stops() =~= s2);
            assert(s2.drop_first() =~= s1);
            assert(s1.drop_first() =~= Seq::<OrderIndex>::empty());
            assert(spec_route_time(*p, s1) == HALF_HOUR as int);
            assert(spec_route_time(*p, s2) == p.travel(depot as int, depot as int) + p.service(
                depot as int,
            ) + spec_route_time(*p, s1));
            assert(p.travel(depot as int, depot as int) == 0);
            assert(p.service(depot as int) == 0);
            assert(spec_route_volume(*p, Seq::<OrderIndex>::empty()) == 0);
            assert(spec_route_volume(*p, s1) == p.volume(depot as int));
            assert(spec_route_volume(*p, s2) == p.volume(depot as int) + spec_route_volume(
                *p,
                s1,
            ));
            assert(p.volume(depot as int) == 0);
        }
        r
    }

    /// A structural copy of the route, preserving every contract-visible
    /// property.
    pub fn duplicate(&self, p: &Problem) -> (r: Route)
        requires
            p.wf(),
        ensures
            r.stops() == self.stops(),
            r.capacity == self.capacity,
            r.time == self.time,
            r.wf(*p) == self.wf(*p),
            r.linked_vector.free_len() == self.linked_vector.free_len(),
    {
        let r = Route {
            linked_vector: self.linked_vector.duplicate(),
            capacity: self.capacity,
            time: self.time,
        };
        proof {
            assert(r.stops() == self.stops());
        }
        r
    }

    /// Chain position of an occupied arena slot.
    pub open spec fn pos(self, slot: usize) -> int {
        self.linked_vector.pos_of(slot)
    }

    /// Price inserting `order_to_insert` right after the stop in arena slot
    /// `insert_after_this`, which must not be the tail sentinel.
    pub fn calculate_add_order(
        &self,
        p: &Problem,
        insert_after_this: usize,
        order_to_insert: OrderIndex,
    ) -> (t: Time)
        requires
            p.wf(),
            self.wf(*p),
            self.linked_vector.occupied(insert_after_this),
            self.pos(insert_after_this) < self.stops().len() - 1,
            (order_to_insert as int) < p.orders@.len(),
        ensures
            t == add_delta(*p, self.stops(), self.pos(insert_after_this) + 1, order_to_insert),
            -MAX_TRAVEL <= t <= 2 * MAX_TRAVEL + MAX_SERVICE,
    {
        let ghost pos = self.pos(insert_after_this);
        proof {
            self.linked_vector.lemma_pos_of(insert_after_this);
            self.linked_vector.lemma_view();
        }
        let prev_order = self.linked_vector.get_value(insert_after_this).unwrap();
        let next_order = self.linked_vector.get_next_value(insert_after_this).unwrap();
        proof {
            assert(prev_order == self.stops()[pos]);
            assert(next_order == self.stops()[pos + 1]);
            assert((prev_order as int) < p.orders@.len());
            assert((next_order as int) < p.orders@.len());
        }
        let order = &p.orders[order_to_insert];
        let prev = p.orders[prev_order].matrix_id;
        let middle = order.matrix_id;
        let next = p.orders[next_order].matrix_id;
        let t3 = time_between_three_nodes(
            &p.matrix,
            prev,
            middle,
            next,
            Ghost(p.n_nodes as int),
            Ghost(MAX_TRAVEL as int),
        );
        let t2 = time_between_two_nodes(
            &p.matrix,
            prev,
            next,
            Ghost(p.n_nodes as int),
            Ghost(MAX_TRAVEL as int),
        );
        t3 - t2 + order.emptying_time
    }

    /// Price splicing out the stop in arena slot `node`, which must be an
    /// interior stop (never a sentinel).
    pub fn calculate_remove_node(&self, p: &Problem, node: usize) -> (t: Time)
        requires
            p.wf(),
            self.wf(*p),
            self.linked_vector.occupied(node),
            0 < self.pos(node) < self.stops().len() - 1,
        ensures
            t == remove_delta(*p, self.stops(), self.pos(node)),
            -2 * MAX_TRAVEL - MAX_SERVICE <= t <= MAX_TRAVEL,
    {
        let ghost pos = self.pos(node);
        proof {
            self.linked_vector.lemma_pos_of(node);
            self.linked_vector.lemma_view();
        }
        let mid_order = self.linked_vector.get_value(node).unwrap();
        let prev_order = self.linked_vector.get_prev_value(node).unwrap();
        let next_order = self.linked_vector.get_next_value(node).unwrap();
        proof {
            assert(mid_order == self.stops()[pos]);
            assert(prev_order == self.stops()[pos - 1]);
            assert(next_order == self.stops()[pos + 1]);
            assert((mid_order as int) < p.orders@.len());
            assert((prev_order as int) < p.orders@.len());
            assert((next_order as int) < p.orders@.len());
        }
        let order = &p.orders[mid_order];
        let prev = p.orders[prev_order].matrix_id;
        let middle = order.matrix_id;
        let next = p.orders[next_order].matrix_id;
        let t3 = time_between_three_nodes(
            &p.matrix,
            prev,
            middle,
            next,
            Ghost(p.n_nodes as int),
            Ghost(MAX_TRAVEL as int),
        );
        let t2 = time_between_two_nodes(
            &p.matrix,
            prev,
            next,
            Ghost(p.n_nodes as int),
            Ghost(MAX_TRAVEL as int),
        );
        -t3 + t2 - order.emptying_time
    }

    /// Insert `order_index` right after the stop in slot `insert_after_this`,
    /// updating the running time and volume, and return the time change.
    pub fn apply_add_order(
        &mut self,
        p: &Problem,
        insert_after_this: usize,
        order_index: OrderIndex,
    ) -> (t: Time)
        requires
            p.wf(),
            old(self).wf(*p),
            old(self).linked_vector.occupied(insert_after_this),
            old(self).pos(insert_after_this) < old(self).stops().len() - 1,
            (order_index as int) < p.spec_depot(),
            old(self).capacity + p.volume(order_index as int) <= 100000,
            old(self).linked_vector.n_slots() < MAX_ROUTE_LEN || old(
                self,
            ).linked_vector.free_len() > 0,
        ensures
            final(self).wf(*p),
            t == add_delta(
                *p,
                old(self).stops(),
                old(self).pos(insert_after_this) + 1,
                order_index,
            ),
            -MAX_TRAVEL <= t <= 2 * MAX_TRAVEL + MAX_SERVICE,
            final(self).stops() =~= old(self).stops().insert(
                old(self).pos(insert_after_this) + 1,
                order_index,
            ),
            final(self).time == old(self).time + t,
            final(self).capacity == old(self).capacity + p.volume(order_index as int),
            final(self).stops().len() == old(self).stops().len() + 1,
            final(self).linked_vector.free_len() == (if old(self).linked_vector.free_len() == 0 {
                0int
            } else {
                old(self).linked_vector.free_len() - 1
            }),
    {
        let ghost pos = self.pos(insert_after_this);
        let ghost vals = self.stops();
        let diff = self.calculate_add_order(p, insert_after_this, order_index);
        proof {
            self.linked_vector.lemma_pos_of(insert_after_this);
            self.linked_vector.lemma_view();
            self.linked_vector.lemma_well_formed_facts();
            lemma_time_insert(*p, vals, pos + 1, order_index);
            lemma_volume_insert(*p, vals, pos + 1, order_index);
            assert(forall|k: int|
                0 <= k < vals.insert(pos + 1, order_index).len() ==> (#[trigger] vals.insert(
                    pos + 1,
                    order_index,
                )[k] as int) < p.orders@.len()) by {
                vals.insert_ensures(pos + 1, order_index);
            }
            lemma_time_fits(*p, vals);
            lemma_time_fits(*p, vals.insert(pos + 1, order_index));
            lemma_volume_nonneg(*p, vals.insert(pos + 1, order_index));
        }
        self.time = self.time + diff;
        let volume = p.orders[order_index].trash();
        self.capacity = self.capacity + volume;
        self.linked_vector.insert_after(insert_after_this, order_index);
        proof {
            vals.insert_ensures(pos + 1, order_index);
            assert(self.stops() =~= vals.insert(pos + 1, order_index));
            assert(self.stops()[0] == vals[0]);
            assert(self.stops().last() == vals.last());
        }
        diff
    }

    /// Splice out the stop in slot `node`, update the running totals, and
    /// compact the arena; returns the time change.  Slot indices taken
    /// before this call are invalid afterwards.
    pub fn apply_remove_node(&mut self, p: &Problem, node: usize) -> (t: Time)
        requires
            p.wf(),
            old(self).wf(*p),
            old(self).linked_vector.occupied(node),
            0 < old(self).pos(node) < old(self).stops().len() - 1,
        ensures
            final(self).wf(*p),
            t == remove_delta(*p, old(self).stops(), old(self).pos(node)),
            -2 * MAX_TRAVEL - MAX_SERVICE <= t <= MAX_TRAVEL,
            final(self).stops() =~= old(self).stops().remove(old(self).pos(node)),
            final(self).time == old(self).time + t,
            final(self).capacity == old(self).capacity - p.volume(
                old(self).stops()[old(self).pos(node)] as int,
            ),
            final(self).stops().len() == old(self).stops().len() - 1,
            final(self).linked_vector.free_len() == 0,
    {
        let t = self.apply_remove_node_without_compact(p, node);
        proof {
            self.linked_vector.lemma_well_formed_facts();
            self.linked_vector.lemma_view();
        }
        self.linked_vector.compact();
        proof {
            self.linked_vector.lemma_view();
        }
        t
    }

    /// As `apply_remove_node`, but leaves the freed slot unreclaimed so that
    /// other slot indices stay valid.
    pub fn apply_remove_node_without_compact(&mut self, p: &Problem, node: usize) -> (t: Time)
        requires
            p.wf(),
            old(self).wf(*p),
            old(self).linked_vector.occupied(node),
            0 < old(self).pos(node) < old(self).stops().len() - 1,
        ensures
            final(self).wf(*p),
            t == remove_delta(*p, old(self).stops(), old(self).pos(node)),
            -2 * MAX_TRAVEL - MAX_SERVICE <= t <= MAX_TRAVEL,
            final(self).stops() =~= old(self).stops().remove(old(self).pos(node)),
            final(self).time == old(self).time + t,
            final(self).capacity == old(self).capacity - p.volume(
                old(self).stops()[old(self).pos(node)] as int,
            ),
            final(self).stops().len() == old(self).stops().len() - 1,
            final(self).linked_vector.n_slots() == old(self).linked_vector.n_slots(),
            forall|j: usize|
                j != node && old(self).linked_vector.occupied(j)
                    ==> (#[trigger] final(self).linked_vector.occupied(j))
                    && final(self).linked_vector.slot_value(j)
                    == old(self).linked_vector.slot_value(j),
            final(self).linked_vector.spec_chain() =~= old(self).linked_vector.spec_chain().remove(
                old(self).pos(node),
            ),
    {
        let ghost pos = self.pos(node);
        let ghost vals = self.stops();
        let diff = self.calculate_remove_node(p, node);
        proof {
            self.linked_vector.lemma_pos_of(node);
            self.linked_vector.lemma_view();
            lemma_time_remove(*p, vals, pos);
            assert(forall|k: int|
                0 <= k < vals.remove(pos).len() ==> (#[trigger] vals.remove(pos)[k] as int)
                    < p.orders@.len()) by {
                vals.remove_ensures(pos);
            }
            lemma_time_fits(*p, vals);
            lemma_time_fits(*p, vals.remove(pos));
            lemma_volume_remove(*p, vals, pos);
            lemma_volume_nonneg(*p, vals.remove(pos));
        }
        self.time = self.time + diff;
        let mid_order = self.linked_vector.get_value(node).unwrap();
        proof {
            assert(mid_order == vals[pos]);
        }
        let volume = p.orders[mid_order].trash();
        proof {
            assert(self.capacity >= volume) by {
                assert(spec_route_volume(*p, vals.remove(pos)) >= 0);
            }
        }
        self.capacity = self.capacity - volume;
        self.linked_vector.remove(node);
        proof {
            vals.remove_ensures(pos);
            assert(self.stops() =~= vals.remove(pos));
            assert(self.stops()[0] == vals[0]);
            assert(self.stops().last() == vals.last());
        }
        diff
    }

    /// The arena slot of the first stop carrying order `o`, walking from the
    /// head; none when the route does not visit `o`.  A found stop is always
    /// interior, since the sentinels are the depot.
    pub fn find_node_of(&self, p: &Problem, o: OrderIndex) -> (r: Option<usize>)
        requires
            p.wf(),
            self.wf(*p),
            (o as int) < p.spec_depot(),
        ensures
            r matches Some(i) ==> self.linked_vector.occupied(i) && 0 < self.pos(i)
                < self.stops().len() - 1 && self.stops()[self.pos(i)] == o,
            r is None ==> !self.stops().contains(o),
    {
        let ghost vals = self.stops();
        let ghost c = self.linked_vector.spec_chain();
        proof {
            self.linked_vector.lemma_well_formed_facts();
            self.linked_vector.lemma_view();
        }
        let mut cur_opt = self.linked_vector.get_head_index();
        let ghost mut k: int = 0;
        while cur_opt.is_some()
            invariant
                p.wf(),
                self.wf(*p),
                (o as int) < p.spec_depot(),
                vals == self.stops(),
                c == self.linked_vector.spec_chain(),
                0 <= k <= vals.len(),
                cur_opt == (if k < vals.len() {
                    Some(c[k])
                } else {
                    None::<usize>
                }),
                forall|m: int| 0 <= m < k ==> vals[m] != o,
            decreases vals.len() - k,
        {
            let cur = cur_opt.unwrap();
            proof {
                self.linked_vector.lemma_well_formed_facts();
                self.linked_vector.lemma_view();
                assert(self.linked_vector.occupied(c[k]));
                self.linked_vector.lemma_pos_of(cur);
                self.linked_vector.lemma_index_of_unique(cur, k);
            }
            let v = self.linked_vector.get_value(cur).unwrap();
            if v == o {
                proof {
                    assert(vals[k] == o);
                    assert((vals[0] as int) == p.spec_depot());
                    assert((vals[vals.len() - 1] as int) == p.spec_depot());
                }
                return Some(cur);
            }
            cur_opt = self.linked_vector.get_next(cur);
            proof {
                k = k + 1;
            }
        }
        proof {
            assert(forall|m: int| 0 <= m < vals.len() ==> vals[m] != o);
        }
        None
    }

    /// Recompute the route time from the ground up, walking every leg.
    pub fn calculate_time(&self, p: &Problem) -> (t: Time)
        requires
            p.wf(),
            self.wf(*p),
        ensures
            t == spec_route_time(*p, self.stops()),
            t == self.time,
    {
        let ghost vals = self.stops();
        let ghost c = self.linked_vector.spec_chain();
        proof {
            self.linked_vector.lemma_well_formed_facts();
            self.linked_vector.lemma_view();
            lemma_time_is_leg_sum(*p, vals);
            lemma_leg_sum_bounds(*p, vals, 0);
        }
        let mut acc: Time = 0;
        let mut cur_opt = self.linked_vector.get_head_index();
        let ghost mut k: int = 0;
        while cur_opt.is_some()
            invariant
                p.wf(),
                self.wf(*p),
                vals == self.stops(),
                c == self.linked_vector.spec_chain(),
                0 <= k <= vals.len(),
                cur_opt == (if k < vals.len() {
                    Some(c[k])
                } else {
                    None::<usize>
                }),
                acc == leg_sum(*p, vals, 0) - leg_sum(*p, vals, k),
                0 <= leg_sum(*p, vals, 0) <= 3000000000000000,
                0 <= leg_sum(*p, vals, k) <= leg_sum(*p, vals, 0),
            decreases vals.len() - k,
        {
            let cur = cur_opt.unwrap();
            proof {
                self.linked_vector.lemma_well_formed_facts();
                self.linked_vector.lemma_view();
                assert(self.linked_vector.occupied(c[k]));
                self.linked_vector.lemma_pos_of(cur);
                self.linked_vector.lemma_index_of_unique(cur, k);
            }
            let next_opt = self.linked_vector.get_next(cur);
            if let Some(nxt) = next_opt {
                proof {
                    assert(k < vals.len() - 1);
                    assert(nxt == c[k + 1]);
                    assert(self.linked_vector.occupied(nxt));
                    self.linked_vector.lemma_pos_of(nxt);
                }
                let cur_order = self.linked_vector.get_value(cur).unwrap();
                let nxt_order = self.linked_vector.get_value(nxt).unwrap();
                proof {
                    assert(cur_order == vals[k]);
                    assert(nxt_order == vals[k + 1]);
                    assert((cur_order as int) < p.orders@.len());
                    assert((nxt_order as int) < p.orders@.len());
                    lemma_leg_sum_bounds(*p, vals, k);
                    lemma_leg_sum_bounds(*p, vals, k + 1);
                    p.lemma_travel_bounds(cur_order as int, nxt_order as int);
                }
                let travel = time_between_two_nodes(
                    &p.matrix,
                    p.orders[cur_order].matrix_id,
                    p.orders[nxt_order].matrix_id,
                    Ghost(p.n_nodes as int),
                    Ghost(MAX_TRAVEL as int),
                );
                acc = acc + travel + p.orders[cur_order].emptying_time;
            }
            cur_opt = next_opt;
            proof {
                k = k + 1;
                if k >= vals.len() - 1 {
                    assert(leg_sum(*p, vals, k) == 0);
                }
            }
        }
        proof {
            assert(k == vals.len());
            assert(leg_sum(*p, vals, k) == 0);
        }
        acc + HALF_HOUR
    }

    /// Overwrite the running time with the ground-truth recomputation.  With
    /// the route invariant the stored time already equals the ground truth,
    /// so this provably changes nothing.
    pub fn recalculate_total_time(&mut self, p: &Problem)
        requires
            p.wf(),
            old(self).wf(*p),
        ensures
            *final(self) == *old(self),
            final(self).time == spec_route_time(*p, old(self).stops()),
    {
        self.time = self.calculate_time(p);
    }

    /// Compare the stored time against the ground-truth recomputation.  The
    /// route invariant makes drift impossible, so this provably holds.
    pub fn check_correctness_time(&self, p: &Problem) -> (r: bool)
        requires
            p.wf(),
            self.wf(*p),
        ensures
            r,
    {
        let calculated = self.calculate_time(p);
        self.time == calculated
    }
}

} // verus!
