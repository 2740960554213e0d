//! The per-order weekday mask: which days currently carry a visit of each
//! order, and the business rules that say which day a next visit may take.

use vstd::prelude::*;
use rand::rngs::SmallRng;
use crate::rng::rng_below;
use crate::route::OrderIndex;
use crate::week::DayEnum;
use crate::resource::Problem;

verus! {

/// How many of the five day bits are set.
pub open spec fn spec_filled(m: u8) -> int {
    (if m & 1 != 0 {
        1int
    } else {
        0int
    }) + (if m & 2 != 0 {
        1int
    } else {
        0int
    }) + (if m & 4 != 0 {
        1int
    } else {
        0int
    }) + (if m & 8 != 0 {
        1int
    } else {
        0int
    }) + (if m & 16 != 0 {
        1int
    } else {
        0int
    })
}

/// Whether `b` is one of the five weekday bits.
pub open spec fn is_day_bit(b: u8) -> bool {
    b == 1 || b == 2 || b == 4 || b == 8 || b == 16
}

/// Setting an unset day bit raises the filled count by one.
pub proof fn lemma_set_bit(m: u8, b: u8)
    requires
        is_day_bit(b),
        m & b == 0,
    ensures
        spec_filled(m | b) == spec_filled(m) + 1,
        (m | b) & b == b,
        m < 32 ==> (m | b) < 32,
{
    if b == 1 {
        assert((m | 1) & 1 == 1 && (m | 1) & 2 == m & 2 && (m | 1) & 4 == m & 4 && (m | 1) & 8 == m
            & 8 && (m | 1) & 16 == m & 16 && m & 1 == 0 ==> true) by (bit_vector);
        assert((m | 1) & 1 == 1 && (m | 1) & 2 == m & 2 && (m | 1) & 4 == m & 4 && (m | 1) & 8 == m
            & 8 && (m | 1) & 16 == m & 16 && (m < 32 ==> (m | 1) < 32) && (m | 1) & 1 == 1)
            by (bit_vector)
            requires
                m & 1 == 0,
        ;
    } else if b == 2 {
        assert((m | 2) & 2 == 2 && (m | 2) & 1 == m & 1 && (m | 2) & 4 == m & 4 && (m | 2) & 8 == m
            & 8 && (m | 2) & 16 == m & 16 && (m < 32 ==> (m | 2) < 32)) by (bit_vector)
            requires
                m & 2 == 0,
        ;
    } else if b == 4 {
        assert((m | 4) & 4 == 4 && (m | 4) & 1 == m & 1 && (m | 4) & 2 == m & 2 && (m | 4) & 8 == m
            & 8 && (m | 4) & 16 == m & 16 && (m < 32 ==> (m | 4) < 32)) by (bit_vector)
            requires
                m & 4 == 0,
        ;
    } else if b == 8 {
        assert((m | 8) & 8 == 8 && (m | 8) & 1 == m & 1 && (m | 8) & 2 == m & 2 && (m | 8) & 4 == m
            & 4 && (m | 8) & 16 == m & 16 && (m < 32 ==> (m | 8) < 32)) by (bit_vector)
            requires
                m & 8 == 0,
        ;
    } else {
        assert((m | 16) & 16 == 16 && (m | 16) & 1 == m & 1 && (m | 16) & 2 == m & 2 && (m | 16) & 4
            == m & 4 && (m | 16) & 8 == m & 8 && (m < 32 ==> (m | 16) < 32)) by (bit_vector)
            requires
                m & 16 == 0,
        ;
    }
}

/// Clearing a set day bit lowers the filled count by one.
pub proof fn lemma_clear_bit(m: u8, b: u8)
    requires
        is_day_bit(b),
        m & b == b,
    ensures
        spec_filled(m & !b) == spec_filled(m) - 1,
        (m & !b) & b == 0,
        m < 32 ==> (m & !b) < 32,
{
    if b == 1 {
        assert((m & !1) & 1 == 0 && (m & !1) & 2 == m & 2 && (m & !1) & 4 == m & 4 && (m & !1) & 8
            == m & 8 && (m & !1) & 16 == m & 16 && (m < 32 ==> (m & !1) < 32) && m & 1 == 1)
            by (bit_vector)
            requires
                m & 1 == 1,
        ;
    } else if b == 2 {
        assert((m & !2) & 2 == 0 && (m & !2) & 1 == m & 1 && (m & !2) & 4 == m & 4 && (m & !2) & 8
            == m & 8 && (m & !2) & 16 == m & 16 && (m < 32 ==> (m & !2) < 32) && m & 2 == 2)
            by (bit_vector)
            requires
                m & 2 == 2,
        ;
    } else if b == 4 {
        assert((m & !4) & 4 == 0 && (m & !4) & 1 == m & 1 && (m & !4) & 2 == m & 2 && (m & !4) & 8
            == m & 8 && (m & !4) & 16 == m & 16 && (m < 32 ==> (m & !4) < 32) && m & 4 == 4)
            by (bit_vector)
            requires
                m & 4 == 4,
        ;
    } else if b == 8 {
        assert((m & !8) & 8 == 0 && (m & !8) & 1 == m & 1 && (m & !8) & 2 == m & 2 && (m & !8) & 4
            == m & 4 && (m & !8) & 16 == m & 16 && (m < 32 ==> (m & !8) < 32) && m & 8 == 8)
            by (bit_vector)
            requires
                m & 8 == 8,
        ;
    } else {
        assert((m & !16) & 16 == 0 && (m & !16) & 1 == m & 1 && (m & !16) & 2 == m & 2 && (m & !16)
            & 4 == m & 4 && (m & !16) & 8 == m & 8 && (m < 32 ==> (m & !16) < 32) && m & 16 == 16)
            by (bit_vector)
            requires
                m & 16 == 16,
        ;
    }
}

/// A day bit present in a mask is present in full.
pub proof fn lemma_bit_forms(m: u8, b: u8)
    requires
        is_day_bit(b),
        m & b != 0,
    ensures
        m & b == b,
{
    assert(((b == 1 || b == 2 || b == 4 || b == 8 || b == 16) && m & b != 0) ==> m & b == b)
        by (bit_vector);
}

/// Setting one day bit leaves every other day bit as it was.
pub proof fn lemma_other_bit(m: u8, b: u8, b2: u8)
    requires
        is_day_bit(b),
        is_day_bit(b2),
        b != b2,
    ensures
        (m | b) & b2 == m & b2,
{
    assert(((b == 1 || b == 2 || b == 4 || b == 8 || b == 16) && (b2 == 1 || b2 == 2 || b2 == 4
        || b2 == 8 || b2 == 16) && b != b2) ==> (m | b) & b2 == m & b2) by (bit_vector);
}

/// Clearing one day bit leaves every other day bit as it was.
pub proof fn lemma_other_bit_clear(m: u8, b: u8, b2: u8)
    requires
        is_day_bit(b),
        is_day_bit(b2),
        b != b2,
    ensures
        (m & !b) & b2 == m & b2,
{
    assert(((b == 1 || b == 2 || b == 4 || b == 8 || b == 16) && (b2 == 1 || b2 == 2 || b2 == 4
        || b2 == 8 || b2 == 16) && b != b2) ==> (m & !b) & b2 == m & b2) by (bit_vector);
}

/// A five-bit mask with no set day bit is zero.
pub proof fn lemma_zero_filled_mask(m: u8)
    requires
        m < 32,
        spec_filled(m) == 0,
    ensures
        m == 0,
{
    assert((m < 32 && m & 1 == 0 && m & 2 == 0 && m & 4 == 0 && m & 8 == 0 && m & 16 == 0) ==> m
        == 0) by (bit_vector);
}

/// Clearing bits never sets one, and keeps a five-bit mask five-bit.
pub proof fn lemma_clear_monotone(m: u8, c: u8, b: u8)
    ensures
        m & b == 0 ==> (m & !c) & b == 0,
        (m & !c) & b != 0 ==> m & b != 0,
        m < 32 ==> (m & !c) < 32,
{
    assert((m & b == 0 ==> (m & !c) & b == 0) && (((m & !c) & b != 0) ==> m & b != 0) && (m < 32
        ==> (m & !c) < 32)) by (bit_vector);
}

/// The weekday-legality table.  Given an order's required frequency and its
/// current day mask, says whether a next visit may be placed on day `d`:
/// frequency one allows any day of an empty mask; frequency two pairs Monday
/// with Thursday and Tuesday with Friday, never Wednesday; frequency three
/// uses exactly Monday, Wednesday and Friday; frequency four takes any four
/// distinct days.
pub open spec fn allowed_day(freq: int, m: u8, d: DayEnum) -> bool {
    if freq == 1 {
        m == 0
    } else if freq == 2 {
        if m == 0 {
            d != DayEnum::Wednesday
        } else if m == DayEnum::Monday.spec_bit() {
            d == DayEnum::Thursday
        } else if m == DayEnum::Thursday.spec_bit() {
            d == DayEnum::Monday
        } else if m == DayEnum::Tuesday.spec_bit() {
            d == DayEnum::Friday
        } else if m == DayEnum::Friday.spec_bit() {
            d == DayEnum::Tuesday
        } else {
            false
        }
    } else if freq == 3 {
        &&& (d == DayEnum::Monday || d == DayEnum::Wednesday || d == DayEnum::Friday)
        &&& m & d.spec_bit() == 0
        &&& m & 10 == 0
    } else if freq == 4 {
        m & d.spec_bit() == 0 && spec_filled(m) < 4
    } else {
        false
    }
}

/// Whether day `d` may receive a visit of the order, per the legality table.
pub fn is_allowed_day(freq: u8, m: u8, d: DayEnum) -> (r: bool)
    ensures
        r == allowed_day(freq as int, m, d),
{
    if freq == 1 {
        m == 0
    } else if freq == 2 {
        if m == 0 {
            !matches!(d, DayEnum::Wednesday)
        } else if m == 1 {
            matches!(d, DayEnum::Thursday)
        } else if m == 8 {
            matches!(d, DayEnum::Monday)
        } else if m == 2 {
            matches!(d, DayEnum::Friday)
        } else if m == 16 {
            matches!(d, DayEnum::Tuesday)
        } else {
            false
        }
    } else if freq == 3 {
        let on_schedule = matches!(d, DayEnum::Monday | DayEnum::Wednesday | DayEnum::Friday);
        on_schedule && m & d.bit() == 0 && m & 10 == 0
    } else if freq == 4 {
        let mut filled: u32 = 0;
        if m & 1 != 0 {
            filled = filled + 1;
        }
        if m & 2 != 0 {
            filled = filled + 1;
        }
        if m & 4 != 0 {
            filled = filled + 1;
        }
        if m & 8 != 0 {
            filled = filled + 1;
        }
        if m & 16 != 0 {
            filled = filled + 1;
        }
        m & d.bit() == 0 && filled < 4
    } else {
        false
    }
}

/// Appending to a sequence adds exactly the new element to what it contains.
proof fn lemma_push_contains<A>(s: Seq<A>, a: A)
    ensures
        forall|x: A| #[trigger] s.push(a).contains(x) <==> (s.contains(x) || x == a),
{
    assert forall|x: A| #[trigger] s.push(a).contains(x) <==> (s.contains(x) || x == a) by {
        if s.push(a).contains(x) {
            let k = choose|k: int| 0 <= k < s.push(a).len() && s.push(a)[k] == x;
            if k < s.len() {
                assert(s[k] == x);
            }
        }
        if s.contains(x) {
            let k = choose|k: int| 0 <= k < s.len() && s[k] == x;
            assert(s.push(a)[k] == x);
        }
        assert(s.push(a)[s.len() as int] == a);
    }
}

/// One five-bit weekday mask per order.
pub struct OrderFlags {
    orders: Vec<u8>,
}

impl OrderFlags {
    /// The mask of order `o`.
    pub closed spec fn mask(self, o: int) -> u8 {
        self.orders@[o]
    }

    pub closed spec fn len(self) -> nat {
        self.orders@.len()
    }

    /// All masks use only the five day bits.
    pub closed spec fn wf(self) -> bool {
        forall|o: int| 0 <= o < self.orders@.len() ==> #[trigger] self.orders@[o] < 32
    }

    /// Whether the mask of order `o` has the bit of day `d`.
    pub open spec fn has_day(self, o: int, d: DayEnum) -> bool {
        self.mask(o) & d.spec_bit() != 0
    }

    /// Masks use only the five day bits.
    pub proof fn lemma_mask_bound(&self, o: int)
        requires
            self.wf(),
            0 <= o < self.len(),
        ensures
            self.mask(o) < 32,
    {
    }

    pub fn new(size: usize) -> (r: OrderFlags)
        ensures
            r.wf(),
            r.len() == size,
            forall|o: int| 0 <= o < size ==> #[trigger] r.mask(o) == 0,
    {
        let mut orders: Vec<u8> = Vec::new();
        let mut i: usize = 0;
        while i < size
            invariant
                i <= size,
                orders@.len() == i,
                forall|o: int| 0 <= o < i ==> #[trigger] orders@[o] == 0,
            decreases size - i,
        {
            orders.push(0);
            i = i + 1;
        }
        OrderFlags { orders }
    }

    /// A structural copy of the tracker.
    pub fn duplicate(&self) -> (r: OrderFlags)
        ensures
            r.wf() == self.wf(),
            r.len() == self.len(),
            forall|o: int| 0 <= o < self.len() ==> #[trigger] r.mask(o) == self.mask(o),
    {
        let mut orders: Vec<u8> = Vec::new();
        let mut i: usize = 0;
        while i < self.orders.len()
            invariant
                i <= self.orders@.len(),
                orders@.len() == i,
                forall|j: int| 0 <= j < i ==> #[trigger] orders@[j] == self.orders@[j],
            decreases self.orders@.len() - i,
        {
            orders.push(self.orders[i]);
            i = i + 1;
        }
        let r = OrderFlags { orders };
        proof {
            assert(r.orders@ =~= self.orders@);
        }
        r
    }

    pub fn get_mask(&self, order: OrderIndex) -> (m: u8)
        requires
            (order as int) < self.len(),
        ensures
            m == self.mask(order as int),
    {
        self.orders[order]
    }

    /// Record a visit of `order` on `day`; the day must not already carry
    /// one.
    pub fn add_order(&mut self, order: OrderIndex, day: DayEnum)
        requires
            old(self).wf(),
            (order as int) < old(self).len(),
            old(self).mask(order as int) & day.spec_bit() == 0,
        ensures
            final(self).wf(),
            final(self).len() == old(self).len(),
            final(self).mask(order as int) == old(self).mask(order as int) | day.spec_bit(),
            forall|o: int|
                0 <= o < old(self).len() && o != order ==> #[trigger] final(self).mask(o) == old(
                    self,
                ).mask(o),
            spec_filled(final(self).mask(order as int)) == spec_filled(
                old(self).mask(order as int),
            ) + 1,
            final(self).has_day(order as int, day),
    {
        proof {
            lemma_set_bit(self.orders@[order as int], day.spec_bit());
        }
        let b = day.bit();
        let m = self.orders[order];
        self.orders[order] = m | b;
    }

    /// Take back the visit of `order` on `day`; the day must carry one.
    pub fn remove_order(&mut self, order: OrderIndex, day: DayEnum)
        requires
            old(self).wf(),
            (order as int) < old(self).len(),
            old(self).mask(order as int) & day.spec_bit() == day.spec_bit(),
        ensures
            final(self).wf(),
            final(self).len() == old(self).len(),
            final(self).mask(order as int) == old(self).mask(order as int) & !day.spec_bit(),
            forall|o: int|
                0 <= o < old(self).len() && o != order ==> #[trigger] final(self).mask(o) == old(
                    self,
                ).mask(o),
            spec_filled(final(self).mask(order as int)) == spec_filled(
                old(self).mask(order as int),
            ) - 1,
            !final(self).has_day(order as int, day),
    {
        proof {
            lemma_clear_bit(self.orders@[order as int], day.spec_bit());
        }
        let b = day.bit();
        let m = self.orders[order];
        self.orders[order] = m & !b;
    }

    /// Forget every visit of `order`.
    pub fn clear(&mut self, order: OrderIndex)
        requires
            old(self).wf(),
            (order as int) < old(self).len(),
        ensures
            final(self).wf(),
            final(self).len() == old(self).len(),
            final(self).mask(order as int) == 0,
            forall|o: int|
                0 <= o < old(self).len() && o != order ==> #[trigger] final(self).mask(o) == old(
                    self,
                ).mask(o),
    {
        self.orders[order] = 0;
    }

    /// How many weekdays currently carry a visit of `order`.
    pub fn get_filled_count(&self, order: OrderIndex) -> (c: u32)
        requires
            (order as int) < self.len(),
        ensures
            c == spec_filled(self.mask(order as int)),
    {
        let m = self.orders[order];
        let mut c: u32 = 0;
        if m & 1 != 0 {
            c = c + 1;
        }
        if m & 2 != 0 {
            c = c + 1;
        }
        if m & 4 != 0 {
            c = c + 1;
        }
        if m & 8 != 0 {
            c = c + 1;
        }
        if m & 16 != 0 {
            c = c + 1;
        }
        c
    }

    /// A uniformly random weekday that may still receive a visit of `order`
    /// under the legality table, or none when no day remains.
    /// A frequency-two order carrying a Wednesday visit is a corrupted
    /// tracker state; continuing from it would spread the corruption, so it
    /// is excluded outright.
    pub fn get_random_allowed_day(&self, p: &Problem, order_index: OrderIndex, rng: &mut SmallRng)
        -> (r: Option<DayEnum>)
        requires
            p.wf(),
            (order_index as int) < self.len(),
            (order_index as int) < p.orders@.len(),
            !(p.freq(order_index as int) == 2 && self.mask(order_index as int)
                & DayEnum::Wednesday.spec_bit() != 0),
        ensures
            r matches Some(d) ==> allowed_day(
                p.freq(order_index as int),
                self.mask(order_index as int),
                d,
            ),
            r is None <==> (forall|d: DayEnum|
                !allowed_day(p.freq(order_index as int), self.mask(order_index as int), d)),
    {
        let m = self.orders[order_index];
        let freq = p.orders[order_index].frequency.count();
        let r = pick_allowed_day(freq, m, rng);
        proof {
            let fq = p.freq(order_index as int);
            let mk = self.mask(order_index as int);
            assert(freq as int == fq && m == mk);
            if r is None {
                assert forall|d: DayEnum| !allowed_day(fq, mk, d) by {
                    assert(!allowed_day(freq as int, m, d));
                }
            } else {
                let d0 = r->0;
                assert(allowed_day(fq, mk, d0));
            }
        }
        r
    }

    /// A uniformly random weekday, other than `excluding_day`, that could
    /// receive the visit now on `excluding_day` if it moved: legality is
    /// judged against the mask without that visit.
    pub fn get_random_day_to_shift_to(
        &self,
        p: &Problem,
        order_index: OrderIndex,
        excluding_day: DayEnum,
        rng: &mut SmallRng,
    ) -> (r: Option<DayEnum>)
        requires
            p.wf(),
            (order_index as int) < self.len(),
            (order_index as int) < p.orders@.len(),
        ensures
            r matches Some(d) ==> d != excluding_day && allowed_day(
                p.freq(order_index as int),
                self.mask(order_index as int) & !excluding_day.spec_bit(),
                d,
            ),
            r is None <==> (forall|d: DayEnum|
                !(d != excluding_day && allowed_day(
                    p.freq(order_index as int),
                    self.mask(order_index as int) & !excluding_day.spec_bit(),
                    d,
                ))),
    {
        let m = self.orders[order_index] & !excluding_day.bit();
        let freq = p.orders[order_index].frequency.count();
        let mut days: Vec<DayEnum> = Vec::new();
        let mut i: u64 = 0;
        while i < 5
            invariant
                i <= 5,
                forall|k: int| 0 <= k < days@.len() ==> #[trigger] days@[k] != excluding_day,
                forall|k: int|
                    0 <= k < days@.len() ==> allowed_day(freq as int, m, #[trigger] days@[k]),
                forall|j: int|
                    0 <= j < i ==> (DayEnum::from_index_spec(j) != excluding_day && allowed_day(
                        freq as int,
                        m,
                        DayEnum::from_index_spec(j),
                    )) == days@.contains(DayEnum::from_index_spec(j)),
            decreases 5 - i,
        {
            let d = DayEnum::from_index(i);
            let ghost days0 = days@;
            if d != excluding_day && is_allowed_day(freq, m, d) {
                days.push(d);
                proof {
                    lemma_push_contains(days0, d);
                    assert(days@ == days0.push(d));
                }
            }
            proof {
                assert forall|j: int| 0 <= j < 5 implies DayEnum::from_index_spec(j)
                    == DayEnum::from_index_spec(i as int) ==> j == i by {}
            }
            i = i + 1;
        }
        let ghost fq = p.freq(order_index as int);
        let ghost mk = self.mask(order_index as int) & !excluding_day.spec_bit();
        proof {
            assert(freq as int == fq && m == mk);
        }
        if days.len() == 0 {
            proof {
                assert forall|d: DayEnum| !(d != excluding_day && allowed_day(fq, mk, d)) by {
                    let j: int = match d {
                        DayEnum::Monday => 0,
                        DayEnum::Tuesday => 1,
                        DayEnum::Wednesday => 2,
                        DayEnum::Thursday => 3,
                        DayEnum::Friday => 4,
                    };
                    assert(DayEnum::from_index_spec(j) == d);
                    assert(!days@.contains(d));
                    assert(!(d != excluding_day && allowed_day(freq as int, m, d)));
                }
            }
            None
        } else {
            proof {
                assert(days@[0] != excluding_day && allowed_day(fq, mk, days@[0]));
            }
            let k = rng_below(rng, days.len() as u64) as usize;
            Some(days[k])
        }
    }
}

/// Pick uniformly among the days the legality table still allows.
pub fn pick_allowed_day(freq: u8, m: u8, rng: &mut SmallRng) -> (r: Option<DayEnum>)
    ensures
        r matches Some(d) ==> allowed_day(freq as int, m, d),
        r is None <==> (forall|d: DayEnum| !allowed_day(freq as int, m, d)),
{
    let mut days: Vec<DayEnum> = Vec::new();
    let mut i: u64 = 0;
    while i < 5
        invariant
            i <= 5,
            forall|k: int| 0 <= k < days@.len() ==> allowed_day(freq as int, m, #[trigger] days@[k]),
            forall|j: int|
                0 <= j < i ==> allowed_day(freq as int, m, DayEnum::from_index_spec(j))
                    == days@.contains(DayEnum::from_index_spec(j)),
        decreases 5 - i,
    {
        let d = DayEnum::from_index(i);
        let ghost days0 = days@;
        if is_allowed_day(freq, m, d) {
            days.push(d);
            proof {
                lemma_push_contains(days0, d);
                assert(days@ == days0.push(d));
            }
        }
        i = i + 1;
    }
    if days.len() == 0 {
        proof {
            assert forall|d: DayEnum| !allowed_day(freq as int, m, d) by {
                let j: int = match d {
                    DayEnum::Monday => 0,
                    DayEnum::Tuesday => 1,
                    DayEnum::Wednesday => 2,
                    DayEnum::Thursday => 3,
                    DayEnum::Friday => 4,
                };
                assert(DayEnum::from_index_spec(j) == d);
                assert(!days@.contains(d));
            }
        }
        None
    } else {
        proof {
            assert(allowed_day(freq as int, m, days@[0]));
        }
        let k = rng_below(rng, days.len() as u64) as usize;
        Some(days[k])
    }
}

} // verus!
