//! An arena-backed compact doubly-linked list.
//!
//! Values live in a dense vector of slots; each occupied slot carries the
//! indices of its predecessor and successor.  Removal only marks a slot free
//! and records its index; `compact` reclaims all free slots by relocating
//! live slots from the back of the vector into the holes, so that the
//! occupied slots once again form a gap-free prefix.

use vstd::prelude::*;
use rand::rngs::SmallRng;
use crate::rng::rng_below;

verus! {

/// One arena slot.  A slot that is not `occupied` is waiting for reuse and
/// carries no links.
pub struct Node<V> {
    pub value: V,
    pub prev: Option<usize>,
    pub next: Option<usize>,
    pub occupied: bool,
}

/// The arena list.  The ghost `chain` records the occupied slot indices in
/// list order, from head to tail; it is the mathematical model that all
/// contracts speak of.
pub struct CompactLinkedVector<V> {
    slots: Vec<Node<V>>,
    head: Option<usize>,
    tail: Option<usize>,
    empty_indices: Vec<usize>,
    chain: Ghost<Seq<usize>>,
}

impl<V> CompactLinkedVector<V> {
    /// The occupied slot indices in list order, head first.
    pub closed spec fn spec_chain(&self) -> Seq<usize> {
        self.chain@
    }

    /// Total number of slots, free ones included.
    pub closed spec fn n_slots(&self) -> nat {
        self.slots@.len()
    }

    /// Number of slots currently free.
    pub closed spec fn free_len(&self) -> nat {
        self.empty_indices@.len()
    }

    /// Whether slot `i` holds a live element.
    pub closed spec fn occupied(&self, i: usize) -> bool {
        i < self.slots@.len() && self.slots@[i as int].occupied
    }

    pub closed spec fn slot_value(&self, i: usize) -> V {
        self.slots@[i as int].value
    }

    pub closed spec fn slot_prev(&self, i: usize) -> Option<usize> {
        self.slots@[i as int].prev
    }

    pub closed spec fn slot_next(&self, i: usize) -> Option<usize> {
        self.slots@[i as int].next
    }

    pub closed spec fn spec_head(&self) -> Option<usize> {
        self.head
    }

    pub closed spec fn spec_tail(&self) -> Option<usize> {
        self.tail
    }

    /// The values of the live elements, in list order.
    pub closed spec fn view(&self) -> Seq<V> {
        Seq::new(self.spec_chain().len(), |k: int| self.slot_value(self.spec_chain()[k]))
    }

    /// Position of the occupied slot `i` in the chain.
    pub open spec fn pos_of(&self, i: usize) -> int {
        self.spec_chain().index_of(i)
    }

    /// The structural invariant: the chain lists exactly the occupied slots,
    /// whose links spell out the chain; the free list holds exactly the
    /// unoccupied slots; head and tail are the chain's endpoints.
    pub closed spec fn well_formed(&self) -> bool {
        let c = self.chain@;
        let s = self.slots@;
        let f = self.empty_indices@;
        &&& c.no_duplicates()
        &&& forall|k: int|
            #![trigger c[k]]
            0 <= k < c.len() ==> {
                &&& (c[k] as int) < s.len()
                &&& s[c[k] as int].occupied
                &&& s[c[k] as int].prev == (if k == 0 {
                    None::<usize>
                } else {
                    Some(c[k - 1])
                })
                &&& s[c[k] as int].next == (if k == c.len() - 1 {
                    None::<usize>
                } else {
                    Some(c[k + 1])
                })
            }
        &&& self.head == (if c.len() == 0 {
            None::<usize>
        } else {
            Some(c[0])
        })
        &&& self.tail == (if c.len() == 0 {
            None::<usize>
        } else {
            Some(c[c.len() - 1])
        })
        &&& f.no_duplicates()
        &&& forall|k: int|
            #![trigger f[k]]
            0 <= k < f.len() ==> (f[k] as int) < s.len() && !s[f[k] as int].occupied
        &&& forall|i: int|
            #![trigger s[i].occupied]
            0 <= i < s.len() ==> (if s[i].occupied {
                c.contains(i as usize)
            } else {
                &&& f.contains(i as usize)
                &&& s[i].prev == None::<usize>
                &&& s[i].next == None::<usize>
            })
        &&& s.len() == c.len() + f.len()
    }

    /// Facts that follow from the invariant, for callers that cannot see its
    /// body: endpoints come from the chain, occupancy matches membership, and
    /// the slot count splits into live and free slots.
    pub proof fn lemma_well_formed_facts(&self)
        requires
            self.well_formed(),
        ensures
            self.spec_head() == (if self.spec_chain().len() == 0 {
                None::<usize>
            } else {
                Some(self.spec_chain()[0])
            }),
            self.spec_tail() == (if self.spec_chain().len() == 0 {
                None::<usize>
            } else {
                Some(self.spec_chain().last())
            }),
            forall|i: usize| #[trigger]
                self.occupied(i) <==> self.spec_chain().contains(i),
            self.n_slots() == self.spec_chain().len() + self.free_len(),
            self.spec_chain().no_duplicates(),
            forall|k: int|
                0 <= k < self.spec_chain().len() ==> #[trigger] self.occupied(
                    self.spec_chain()[k],
                ),
            forall|k: int|
                0 <= k < self.spec_chain().len() ==> #[trigger] self.slot_prev(
                    self.spec_chain()[k],
                ) == (if k == 0 {
                    None::<usize>
                } else {
                    Some(self.spec_chain()[k - 1])
                }),
            forall|k: int|
                0 <= k < self.spec_chain().len() ==> #[trigger] self.slot_next(
                    self.spec_chain()[k],
                ) == (if k == self.spec_chain().len() - 1 {
                    None::<usize>
                } else {
                    Some(self.spec_chain()[k + 1])
                }),
    {
        assert forall|i: usize| #[trigger] self.occupied(i) <==> self.spec_chain().contains(
            i,
        ) by {
            if self.spec_chain().contains(i) {
                let k = choose|k: int|
                    0 <= k < self.chain@.len() && self.chain@[k] == i;
                assert(self.slots@[self.chain@[k] as int].occupied);
            }
        }
    }

    /// The view lists the slot values along the chain.
    pub proof fn lemma_view(&self)
        ensures
            self@.len() == self.spec_chain().len(),
            forall|k: int|
                0 <= k < self.spec_chain().len() ==> #[trigger] self@[k] == self.slot_value(
                    self.spec_chain()[k],
                ),
    {
    }

    /// The chain position of an occupied slot is a real position and maps
    /// back to the slot.
    pub proof fn lemma_pos_of(&self, i: usize)
        requires
            self.well_formed(),
            self.occupied(i),
        ensures
            0 <= self.pos_of(i) < self.spec_chain().len(),
            self.spec_chain()[self.pos_of(i)] == i,
            (i as int) < self.n_slots(),
            self.spec_chain().len() <= self.n_slots(),
    {
        assert(self.spec_chain().contains(i));
    }

    pub fn new() -> (r: Self)
        ensures
            r.well_formed(),
            r.spec_chain() =~= Seq::<usize>::empty(),
            r@ =~= Seq::<V>::empty(),
            r.n_slots() == 0,
            r.free_len() == 0,
            r.spec_head() == None::<usize>,
            r.spec_tail() == None::<usize>,
    {
        CompactLinkedVector {
            slots: Vec::new(),
            head: None,
            tail: None,
            empty_indices: Vec::new(),
            chain: Ghost(Seq::empty()),
        }
    }

    /// Total slot count, free slots included.
    pub fn len(&self) -> (r: usize)
        ensures
            r == self.n_slots(),
    {
        self.slots.len()
    }

    /// Whether slot `i` currently holds a live element.
    pub fn is_occupied(&self, i: usize) -> (r: bool)
        ensures
            r == self.occupied(i),
    {
        i < self.slots.len() && self.slots[i].occupied
    }

    /// Number of free slots awaiting reuse.
    pub fn free_count(&self) -> (r: usize)
        ensures
            r == self.free_len(),
    {
        self.empty_indices.len()
    }

    pub fn get_head_index(&self) -> (r: Option<usize>)
        ensures
            r == self.spec_head(),
    {
        self.head
    }

    pub fn get_tail_index(&self) -> (r: Option<usize>)
        ensures
            r == self.spec_tail(),
    {
        self.tail
    }

    /// Pop a reusable free index, or hand out the next fresh one.
    fn get_valid_empty_index(&mut self) -> (r: usize)
        ensures
            final(self).slots@ == old(self).slots@,
            final(self).head == old(self).head,
            final(self).tail == old(self).tail,
            final(self).chain@ == old(self).chain@,
            if old(self).empty_indices@.len() > 0 {
                &&& r == old(self).empty_indices@.last()
                &&& final(self).empty_indices@ == old(self).empty_indices@.drop_last()
            } else {
                &&& r == old(self).slots@.len()
                &&& final(self).empty_indices@ == old(self).empty_indices@
            },
    {
        if let Some(index) = self.empty_indices.pop() {
            index
        } else {
            self.slots.len()
        }
    }

    /// The fresh index handed out by `get_valid_empty_index` was not occupied
    /// and is not on the chain.
    proof fn lemma_fresh_index(olds: Self, news: Self, new_index: usize)
        requires
            olds.well_formed(),
            news.slots@ == olds.slots@,
            news.chain@ == olds.chain@,
            if olds.empty_indices@.len() > 0 {
                &&& new_index == olds.empty_indices@.last()
                &&& news.empty_indices@ == olds.empty_indices@.drop_last()
            } else {
                &&& new_index == olds.slots@.len()
                &&& news.empty_indices@ == olds.empty_indices@
            },
        ensures
            !olds.occupied(new_index),
            !olds.chain@.contains(new_index),
            new_index <= olds.slots@.len(),
            !news.empty_indices@.contains(new_index),
            news.empty_indices@.no_duplicates(),
            forall|i: int|
                0 <= i < olds.slots@.len() && !olds.slots@[i].occupied && i != new_index
                    ==> news.empty_indices@.contains(i as usize),
            forall|k: int|
                0 <= k < news.empty_indices@.len() ==> (#[trigger] news.empty_indices@[k] as int)
                    < olds.slots@.len() && !olds.slots@[news.empty_indices@[k] as int].occupied,
    {
        let c = olds.chain@;
        let f = olds.empty_indices@;
        assert(olds.slots.len() == olds.slots@.len());
        if f.len() > 0 {
            assert(f[f.len() - 1] == new_index);
            assert(!olds.slots@[new_index as int].occupied);
            if c.contains(new_index) {
                let k = choose|k: int| 0 <= k < c.len() && c[k] == new_index;
                assert(olds.slots@[c[k] as int].occupied);
            }
            if news.empty_indices@.contains(new_index) {
                let k = choose|k: int|
                    0 <= k < news.empty_indices@.len() && news.empty_indices@[k] == new_index;
                assert(f[k] == new_index);
            }
            assert forall|i: int|
                0 <= i < olds.slots@.len() && !olds.slots@[i].occupied && i
                    != new_index implies news.empty_indices@.contains(i as usize) by {
                assert(f.contains(i as usize));
                let k = choose|k: int| 0 <= k < f.len() && f[k] == i as usize;
                assert(i as usize != new_index);
                assert(f[f.len() - 1] == new_index);
                assert(k < f.len() - 1);
                assert(f.subrange(0, f.len() - 1)[k] == i as usize);
            }
        } else {
            if c.contains(new_index) {
                let k = choose|k: int| 0 <= k < c.len() && c[k] == new_index;
                assert((c[k] as int) < olds.slots@.len());
            }
        }
    }

    /// Write `node` into slot `new_index`, growing the vector when the index
    /// is fresh.
    fn place_node(&mut self, new_index: usize, node: Node<V>)
        requires
            new_index <= old(self).slots@.len(),
            old(self).slots@.len() < usize::MAX,
        ensures
            final(self).slots@ == (if new_index == old(self).slots@.len() {
                old(self).slots@.push(node)
            } else {
                old(self).slots@.update(new_index as int, node)
            }),
            final(self).head == old(self).head,
            final(self).tail == old(self).tail,
            final(self).empty_indices@ == old(self).empty_indices@,
            final(self).chain@ == old(self).chain@,
    {
        if new_index == self.slots.len() {
            self.slots.push(node);
        } else {
            self.slots[new_index] = node;
        }
    }

    /// Insert into an empty chain.
    fn insert_when_empty(&mut self, value: V) -> (r: usize)
        requires
            old(self).well_formed(),
            old(self).spec_chain().len() == 0,
            old(self).n_slots() < usize::MAX,
        ensures
            final(self).well_formed(),
            final(self).spec_chain() =~= seq![r],
            final(self).slot_value(r) == value,
            final(self)@ =~= seq![value],
            final(self).n_slots() == old(self).n_slots() + (if old(self).free_len() == 0 {
                1int
            } else {
                0int
            }),
            final(self).free_len() == (if old(self).free_len() == 0 {
                0int
            } else {
                old(self).free_len() - 1
            }),
    {
        let ghost olds = *old(self);
        let new_index = self.get_valid_empty_index();
        proof {
            Self::lemma_fresh_index(olds, *self, new_index);
        }
        self.head = Some(new_index);
        self.tail = Some(new_index);
        let ghost mids = *self;
        self.place_node(new_index, Node { value, prev: None, next: None, occupied: true });
        proof {
            self.chain@ = seq![new_index];
            assert forall|i: int| 0 <= i < self.slots@.len() implies (if self.slots@[i].occupied {
                self.chain@.contains(i as usize)
            } else {
                &&& self.empty_indices@.contains(i as usize)
                &&& self.slots@[i].prev == None::<usize>
                &&& self.slots@[i].next == None::<usize>
            }) by {
                if i == new_index {
                    assert(self.chain@[0] == new_index);
                } else {
                    assert(self.slots@[i] == olds.slots@[i]);
                    assert(!olds.slots@[i].occupied);
                }
            }
            assert(self.well_formed());
            assert(self@ =~= seq![value]);
        }
        new_index
    }

    /// Splice `value` in just before the occupied slot `t`.
    #[verifier::rlimit(100)]
    #[verifier::spinoff_prover]
    fn insert_before_internal(&mut self, t: usize, value: V) -> (r: usize)
        requires
            old(self).well_formed(),
            old(self).occupied(t),
            old(self).n_slots() < usize::MAX,
        ensures
            final(self).well_formed(),
            !old(self).occupied(r),
            final(self).occupied(r),
            final(self).spec_chain() =~= old(self).spec_chain().insert(old(self).pos_of(t), r),
            final(self).slot_value(r) == value,
            forall|j: usize|
                old(self).occupied(j) ==> #[trigger] final(self).slot_value(j) == old(
                    self,
                ).slot_value(j) && final(self).occupied(j),
            final(self)@ =~= old(self)@.insert(old(self).pos_of(t), value),
            final(self).n_slots() == old(self).n_slots() + (if old(self).free_len() == 0 {
                1int
            } else {
                0int
            }),
            final(self).free_len() == (if old(self).free_len() == 0 {
                0int
            } else {
                old(self).free_len() - 1
            }),
    {
        let ghost olds = *old(self);
        let ghost c = olds.chain@;
        let ghost ipos = olds.pos_of(t);
        proof {
            olds.lemma_pos_of(t);
        }
        let new_index = self.get_valid_empty_index();
        proof {
            Self::lemma_fresh_index(olds, *self, new_index);
        }
        let prev = self.slots[t].prev;
        self.slots[t].prev = Some(new_index);
        if let Some(prev_index) = prev {
            proof {
                assert(ipos > 0 && c[ipos - 1] == prev_index);
                assert(olds.occupied(prev_index));
                assert(prev_index != t);
            }
            self.slots[prev_index].next = Some(new_index);
        } else {
            proof {
                assert(ipos == 0);
            }
            self.head = Some(new_index);
        }
        self.place_node(new_index, Node { value, prev, next: Some(t), occupied: true });
        proof {
            self.chain@ = c.insert(ipos, new_index);
            c.insert_ensures(ipos, new_index);
            lemma_insert_no_dup(c, ipos, new_index);
            let c2 = self.chain@;
            let s2 = self.slots@;
            assert(t != new_index);
            assert forall|k: int| 0 <= k < c2.len() implies {
                &&& (c2[k] as int) < s2.len()
                &&& s2[c2[k] as int].occupied
                &&& s2[c2[k] as int].prev == (if k == 0 {
                    None::<usize>
                } else {
                    Some(c2[k - 1])
                })
                &&& s2[c2[k] as int].next == (if k == c2.len() - 1 {
                    None::<usize>
                } else {
                    Some(c2[k + 1])
                })
            } by {
                if k < ipos {
                    assert(c2[k] == c[k]);
                    assert(c[k] != new_index);
                    if k != ipos - 1 && c[k] != t {
                        assert(s2[c2[k] as int] == olds.slots@[c[k] as int]);
                    }
                } else if k > ipos {
                    assert(c2[k] == c[k - 1]);
                    assert(c[k - 1] != new_index);
                    if k != ipos + 1 && k - 1 != ipos - 1 {
                        assert(c[k - 1] != t);
                    }
                }
            }
            assert forall|i: int| 0 <= i < s2.len() implies (if s2[i].occupied {
                c2.contains(i as usize)
            } else {
                &&& self.empty_indices@.contains(i as usize)
                &&& s2[i].prev == None::<usize>
                &&& s2[i].next == None::<usize>
            }) by {
                if i == new_index {
                    assert(c2[ipos] == new_index);
                } else {
                    assert(s2[i].occupied == olds.slots@[i].occupied);
                    if s2[i].occupied {
                        assert(olds.slots@[i].occupied);
                        assert(c.contains(i as usize));
                        let k = choose|k: int| 0 <= k < c.len() && c[k] == i as usize;
                        if k < ipos {
                            assert(c2[k] == i as usize);
                        } else {
                            assert(c2[k + 1] == i as usize);
                        }
                    }
                }
            }
            assert(self.well_formed());
            assert forall|k: int| 0 <= k < self@.len() implies self@[k] == olds@.insert(
                ipos,
                value,
            )[k] by {
                olds@.insert_ensures(ipos, value);
                if k < ipos {
                    assert(c2[k] == c[k]);
                    assert(c[k] != new_index);
                } else if k > ipos {
                    assert(c2[k] == c[k - 1]);
                    assert(c[k - 1] != new_index);
                }
            }
        }
        new_index
    }

    /// Append `value` after the current tail of a nonempty chain.
    #[verifier::spinoff_prover]
    fn append_internal(&mut self, value: V) -> (r: usize)
        requires
            old(self).well_formed(),
            old(self).spec_chain().len() > 0,
            old(self).n_slots() < usize::MAX,
        ensures
            final(self).well_formed(),
            !old(self).occupied(r),
            final(self).occupied(r),
            final(self).spec_chain() =~= old(self).spec_chain().push(r),
            final(self).slot_value(r) == value,
            forall|j: usize|
                old(self).occupied(j) ==> #[trigger] final(self).slot_value(j) == old(
                    self,
                ).slot_value(j) && final(self).occupied(j),
            final(self)@ =~= old(self)@.push(value),
            final(self).n_slots() == old(self).n_slots() + (if old(self).free_len() == 0 {
                1int
            } else {
                0int
            }),
            final(self).free_len() == (if old(self).free_len() == 0 {
                0int
            } else {
                old(self).free_len() - 1
            }),
    {
        let ghost olds = *old(self);
        let ghost c = olds.chain@;
        let new_index = self.get_valid_empty_index();
        proof {
            Self::lemma_fresh_index(olds, *self, new_index);
        }
        let t = self.tail.unwrap();
        proof {
            assert(t == c[c.len() - 1]);
            assert(olds.occupied(t));
            assert(t != new_index);
        }
        self.slots[t].next = Some(new_index);
        self.tail = Some(new_index);
        self.place_node(new_index, Node { value, prev: Some(t), next: None, occupied: true });
        proof {
            self.chain@ = c.push(new_index);
            let c2 = self.chain@;
            let s2 = self.slots@;
            assert(c2 =~= c.insert(c.len() as int, new_index));
            lemma_insert_no_dup(c, c.len() as int, new_index);
            assert forall|k: int| 0 <= k < c2.len() implies {
                &&& (c2[k] as int) < s2.len()
                &&& s2[c2[k] as int].occupied
                &&& s2[c2[k] as int].prev == (if k == 0 {
                    None::<usize>
                } else {
                    Some(c2[k - 1])
                })
                &&& s2[c2[k] as int].next == (if k == c2.len() - 1 {
                    None::<usize>
                } else {
                    Some(c2[k + 1])
                })
            } by {
                if k < c.len() {
                    assert(c2[k] == c[k]);
                    assert(c[k] != new_index);
                    if c[k] != t {
                        assert(s2[c2[k] as int] == olds.slots@[c[k] as int]);
                    }
                }
            }
            assert forall|i: int| 0 <= i < s2.len() implies (if s2[i].occupied {
                c2.contains(i as usize)
            } else {
                &&& self.empty_indices@.contains(i as usize)
                &&& s2[i].prev == None::<usize>
                &&& s2[i].next == None::<usize>
            }) by {
                if i == new_index {
                    assert(c2[c.len() as int] == new_index);
                } else {
                    assert(s2[i].occupied == olds.slots@[i].occupied);
                    if s2[i].occupied {
                        assert(c.contains(i as usize));
                        let k = choose|k: int| 0 <= k < c.len() && c[k] == i as usize;
                        assert(c2[k] == i as usize);
                    }
                }
            }
            assert(self.well_formed());
            assert(self@ =~= olds@.push(value));
        }
        new_index
    }
}

impl<V> CompactLinkedVector<V> {
    /// With no duplicates, a slot's chain position is unique.
    pub proof fn lemma_index_of_unique(&self, i: usize, k: int)
        requires
            self.well_formed(),
            0 <= k < self.spec_chain().len(),
            self.spec_chain()[k] == i,
        ensures
            self.pos_of(i) == k,
    {
        assert(self.spec_chain().contains(i));
        let k2 = self.pos_of(i);
        assert(self.spec_chain()[k2] == i);
    }

    /// Next and previous slot index, as the raw link fields.
    pub fn get_next(&self, index: usize) -> (r: Option<usize>)
        requires
            index < self.n_slots(),
        ensures
            r == self.slot_next(index),
            self.well_formed() && self.occupied(index) ==> r == (if self.pos_of(index)
                == self.spec_chain().len() - 1 {
                None::<usize>
            } else {
                Some(self.spec_chain()[self.pos_of(index) + 1])
            }),
    {
        proof {
            if self.well_formed() && self.occupied(index) {
                self.lemma_pos_of(index);
            }
        }
        self.slots[index].next
    }

    pub fn get_prev(&self, index: usize) -> (r: Option<usize>)
        requires
            index < self.n_slots(),
        ensures
            r == self.slot_prev(index),
            self.well_formed() && self.occupied(index) ==> r == (if self.pos_of(index) == 0 {
                None::<usize>
            } else {
                Some(self.spec_chain()[self.pos_of(index) - 1])
            }),
    {
        proof {
            if self.well_formed() && self.occupied(index) {
                self.lemma_pos_of(index);
            }
        }
        self.slots[index].prev
    }

    /// Insert `value` right after the occupied slot `index`.
    pub fn insert_after(&mut self, index: usize, value: V) -> (r: usize)
        requires
            old(self).well_formed(),
            old(self).occupied(index),
            old(self).n_slots() < usize::MAX,
        ensures
            final(self).well_formed(),
            !old(self).occupied(r),
            final(self).occupied(r),
            final(self).spec_chain() =~= old(self).spec_chain().insert(
                old(self).pos_of(index) + 1,
                r,
            ),
            final(self).slot_value(r) == value,
            forall|j: usize|
                old(self).occupied(j) ==> #[trigger] final(self).slot_value(j) == old(
                    self,
                ).slot_value(j) && final(self).occupied(j),
            final(self)@ =~= old(self)@.insert(old(self).pos_of(index) + 1, value),
            final(self).n_slots() == old(self).n_slots() + (if old(self).free_len() == 0 {
                1int
            } else {
                0int
            }),
            final(self).free_len() == (if old(self).free_len() == 0 {
                0int
            } else {
                old(self).free_len() - 1
            }),
    {
        let ghost olds = *old(self);
        let ghost p = olds.pos_of(index);
        proof {
            self.lemma_pos_of(index);
        }
        let next = self.slots[index].next;
        if let Some(n) = next {
            proof {
                assert(p < olds.spec_chain().len() - 1 && olds.spec_chain()[p + 1] == n);
                assert(olds.occupied(n));
                olds.lemma_index_of_unique(n, p + 1);
            }
            self.insert_before_internal(n, value)
        } else {
            proof {
                assert(p == olds.spec_chain().len() - 1);
            }
            let r = self.append_internal(value);
            proof {
                assert(olds.spec_chain().push(r) =~= olds.spec_chain().insert(p + 1, r));
                assert(olds@.push(value) =~= olds@.insert(p + 1, value));
            }
            r
        }
    }

    /// Insert `value` right before the occupied slot `index`.
    pub fn insert_before(&mut self, index: usize, value: V) -> (r: usize)
        requires
            old(self).well_formed(),
            old(self).occupied(index),
            old(self).n_slots() < usize::MAX,
        ensures
            final(self).well_formed(),
            !old(self).occupied(r),
            final(self).occupied(r),
            final(self).spec_chain() =~= old(self).spec_chain().insert(old(self).pos_of(index), r),
            final(self).slot_value(r) == value,
            forall|j: usize|
                old(self).occupied(j) ==> #[trigger] final(self).slot_value(j) == old(
                    self,
                ).slot_value(j) && final(self).occupied(j),
            final(self)@ =~= old(self)@.insert(old(self).pos_of(index), value),
            final(self).n_slots() == old(self).n_slots() + (if old(self).free_len() == 0 {
                1int
            } else {
                0int
            }),
            final(self).free_len() == (if old(self).free_len() == 0 {
                0int
            } else {
                old(self).free_len() - 1
            }),
    {
        self.insert_before_internal(index, value)
    }

    /// Insert `value` at the front of the list.
    pub fn push_front(&mut self, value: V) -> (r: usize)
        requires
            old(self).well_formed(),
            old(self).n_slots() < usize::MAX,
        ensures
            final(self).well_formed(),
            !old(self).occupied(r),
            final(self).occupied(r),
            final(self).spec_chain() =~= old(self).spec_chain().insert(0, r),
            final(self).slot_value(r) == value,
            forall|j: usize|
                old(self).occupied(j) ==> #[trigger] final(self).slot_value(j) == old(
                    self,
                ).slot_value(j) && final(self).occupied(j),
            final(self)@ =~= old(self)@.insert(0, value),
            final(self).n_slots() == old(self).n_slots() + (if old(self).free_len() == 0 {
                1int
            } else {
                0int
            }),
            final(self).free_len() == (if old(self).free_len() == 0 {
                0int
            } else {
                old(self).free_len() - 1
            }),
    {
        let ghost olds = *old(self);
        if self.head.is_none() {
            let r = self.insert_when_empty(value);
            proof {
                assert(olds.spec_chain() =~= Seq::<usize>::empty());
                assert(seq![r] =~= olds.spec_chain().insert(0, r));
                assert(olds@ =~= Seq::<V>::empty());
                assert(seq![value] =~= olds@.insert(0, value));
            }
            r
        } else {
            let h = self.head.unwrap();
            proof {
                assert(h == olds.spec_chain()[0]);
                assert(olds.occupied(h));
                olds.lemma_index_of_unique(h, 0);
            }
            self.insert_before_internal(h, value)
        }
    }

    /// Insert `value` at the back of the list.
    pub fn push_back(&mut self, value: V) -> (r: usize)
        requires
            old(self).well_formed(),
            old(self).n_slots() < usize::MAX,
        ensures
            final(self).well_formed(),
            !old(self).occupied(r),
            final(self).occupied(r),
            final(self).spec_chain() =~= old(self).spec_chain().push(r),
            final(self).slot_value(r) == value,
            forall|j: usize|
                old(self).occupied(j) ==> #[trigger] final(self).slot_value(j) == old(
                    self,
                ).slot_value(j) && final(self).occupied(j),
            final(self)@ =~= old(self)@.push(value),
            final(self).n_slots() == old(self).n_slots() + (if old(self).free_len() == 0 {
                1int
            } else {
                0int
            }),
            final(self).free_len() == (if old(self).free_len() == 0 {
                0int
            } else {
                old(self).free_len() - 1
            }),
    {
        let ghost olds = *old(self);
        if self.head.is_none() {
            let r = self.insert_when_empty(value);
            proof {
                assert(olds.spec_chain() =~= Seq::<usize>::empty());
                assert(seq![r] =~= olds.spec_chain().push(r));
                assert(olds@ =~= Seq::<V>::empty());
                assert(seq![value] =~= olds@.push(value));
            }
            r
        } else {
            self.append_internal(value)
        }
    }

    /// Splice the occupied slot `index` out of the chain and mark it free.
    /// The arena keeps the slot for reuse; `compact` reclaims it.
    #[verifier::rlimit(100)]
    #[verifier::spinoff_prover]
    pub fn remove(&mut self, index: usize)
        requires
            old(self).well_formed(),
            old(self).occupied(index),
        ensures
            final(self).well_formed(),
            final(self).spec_chain() =~= old(self).spec_chain().remove(old(self).pos_of(index)),
            final(self)@ =~= old(self)@.remove(old(self).pos_of(index)),
            final(self).n_slots() == old(self).n_slots(),
            final(self).free_len() == old(self).free_len() + 1,
            !final(self).occupied(index),
            forall|j: usize|
                j != index && old(self).occupied(j) ==> (#[trigger] final(self).occupied(j))
                    && final(self).slot_value(j) == old(self).slot_value(j),
    {
        let ghost olds = *old(self);
        let ghost c = olds.chain@;
        let ghost p = olds.pos_of(index);
        proof {
            olds.lemma_pos_of(index);
            assert(olds.slots.len() == olds.slots@.len());
        }
        let node_prev = self.slots[index].prev;
        let node_next = self.slots[index].next;
        proof {
            if p > 0 {
                assert(node_prev == Some(c[p - 1]));
                assert(olds.occupied(c[p - 1]));
                assert(c[p - 1] != index);
            }
            if p < c.len() - 1 {
                assert(node_next == Some(c[p + 1]));
                assert(olds.occupied(c[p + 1]));
                assert(c[p + 1] != index);
            }
        }
        if let Some(pr) = node_prev {
            self.slots[pr].next = node_next;
        } else {
            self.head = node_next;
        }
        if let Some(nx) = node_next {
            self.slots[nx].prev = node_prev;
        } else {
            self.tail = node_prev;
        }
        self.slots[index].next = None;
        self.slots[index].prev = None;
        self.slots[index].occupied = false;
        self.empty_indices.push(index);
        proof {
            self.chain@ = c.remove(p);
            c.remove_ensures(p);
            lemma_remove_no_dup(c, p);
            let c2 = self.chain@;
            let s2 = self.slots@;
            let f2 = self.empty_indices@;
            assert forall|k: int| 0 <= k < c2.len() implies {
                &&& (c2[k] as int) < s2.len()
                &&& s2[c2[k] as int].occupied
                &&& s2[c2[k] as int].prev == (if k == 0 {
                    None::<usize>
                } else {
                    Some(c2[k - 1])
                })
                &&& s2[c2[k] as int].next == (if k == c2.len() - 1 {
                    None::<usize>
                } else {
                    Some(c2[k + 1])
                })
            } by {
                if k < p {
                    assert(c2[k] == c[k]);
                } else {
                    assert(c2[k] == c[k + 1]);
                }
                assert(c2[k] != index);
                if c2[k] != (if p > 0 {
                    c[p - 1]
                } else {
                    c2[k]
                }) && c2[k] != (if p < c.len() - 1 {
                    c[p + 1]
                } else {
                    c2[k]
                }) {
                    assert(s2[c2[k] as int] == olds.slots@[c2[k] as int]);
                }
            }
            assert(f2.no_duplicates()) by {
                assert(forall|k: int|
                    0 <= k < olds.empty_indices@.len() ==> olds.empty_indices@[k] != index);
            }
            assert forall|i: int| 0 <= i < s2.len() implies (if s2[i].occupied {
                c2.contains(i as usize)
            } else {
                &&& f2.contains(i as usize)
                &&& s2[i].prev == None::<usize>
                &&& s2[i].next == None::<usize>
            }) by {
                if i == index {
                    assert(f2[f2.len() - 1] == index);
                    assert(f2.contains(index));
                } else if s2[i].occupied {
                    assert(olds.slots@[i].occupied);
                    assert(c.contains(i as usize));
                    let k = choose|k: int| 0 <= k < c.len() && c[k] == i as usize;
                    assert(k != p);
                    if k < p {
                        assert(c2[k] == i as usize);
                    } else {
                        assert(c2[k - 1] == i as usize);
                    }
                } else {
                    assert(!olds.slots@[i].occupied);
                    assert(olds.empty_indices@.contains(i as usize));
                    let k = choose|k: int|
                        0 <= k < olds.empty_indices@.len() && olds.empty_indices@[k] == i as usize;
                    assert(f2[k] == i as usize);
                }
            }
            assert(self.well_formed());
            assert forall|k: int| 0 <= k < self@.len() implies self@[k] == olds@.remove(p)[k] by {
                olds@.remove_ensures(p);
                if k < p {
                    assert(c2[k] == c[k]);
                } else {
                    assert(c2[k] == c[k + 1]);
                }
                assert(c2[k] != index);
            }
        }
    }
}

impl<V> CompactLinkedVector<V> {
    /// The state in the middle of reclaiming: slot `x` is a hole — free but
    /// no longer on the free list — and every free-list entry lies below `x`.
    spec fn hole_state(self, x: usize) -> bool {
        let c = self.chain@;
        let s = self.slots@;
        let f = self.empty_indices@;
        &&& c.no_duplicates()
        &&& forall|k: int|
            #![trigger c[k]]
            0 <= k < c.len() ==> {
                &&& (c[k] as int) < s.len()
                &&& s[c[k] as int].occupied
                &&& s[c[k] as int].prev == (if k == 0 {
                    None::<usize>
                } else {
                    Some(c[k - 1])
                })
                &&& s[c[k] as int].next == (if k == c.len() - 1 {
                    None::<usize>
                } else {
                    Some(c[k + 1])
                })
            }
        &&& self.head == (if c.len() == 0 {
            None::<usize>
        } else {
            Some(c[0])
        })
        &&& self.tail == (if c.len() == 0 {
            None::<usize>
        } else {
            Some(c[c.len() - 1])
        })
        &&& f.no_duplicates()
        &&& forall|k: int| #![trigger f[k]] 0 <= k < f.len() ==> f[k] < x && !s[f[k] as int].occupied
        &&& (x as int) < s.len()
        &&& !s[x as int].occupied
        &&& !c.contains(x)
        &&& forall|i: int|
            #![trigger s[i].occupied]
            0 <= i < s.len() ==> (if s[i].occupied {
                c.contains(i as usize)
            } else {
                &&& (i == x as int || f.contains(i as usize))
                &&& s[i].prev == None::<usize>
                &&& s[i].next == None::<usize>
            })
        &&& s.len() == c.len() + f.len() + 1
    }

    /// Remove the largest free index from the free list and return it,
    /// leaving the arena in the hole state for that index.
    fn extract_max_free(&mut self) -> (x: usize)
        requires
            old(self).well_formed(),
            old(self).free_len() > 0,
        ensures
            final(self).hole_state(x),
            final(self).slots@ == old(self).slots@,
            final(self).chain@ == old(self).chain@,
            final(self).head == old(self).head,
            final(self).tail == old(self).tail,
            final(self).empty_indices@.len() == old(self).empty_indices@.len() - 1,
            (x as int) < old(self).slots@.len(),
            forall|i: int| x < i < old(self).slots@.len() ==> old(self).slots@[i].occupied,
    {
        let ghost olds = *old(self);
        let ghost c = olds.chain@;
        let ghost f = olds.empty_indices@;
        proof {
            assert(olds.slots.len() == olds.slots@.len());
        }
        let mi = max_pos(&self.empty_indices);
        let x = self.empty_indices[mi];
        let last_free = self.empty_indices[self.empty_indices.len() - 1];
        self.empty_indices[mi] = last_free;
        self.empty_indices.pop();
        proof {
            lemma_extract_pos(f, mi as int);
            assert(self.empty_indices@ =~= f.update(mi as int, f.last()).drop_last());
            assert(!c.contains(x));
            let f2 = self.empty_indices@;
            assert forall|k: int| 0 <= k < f2.len() implies f2[k] < x by {
                assert(f2.contains(f2[k]));
                assert(f.contains(f2[k]) && f2[k] != x);
                let j = choose|j: int| 0 <= j < f.len() && f[j] == f2[k];
                assert(f[j] <= f[mi as int]);
            }
            assert forall|i: int| x < i < olds.slots@.len() implies olds.slots@[i].occupied by {
                if !olds.slots@[i].occupied {
                    assert(f.contains(i as usize));
                    let k = choose|k: int| 0 <= k < f.len() && f[k] == i as usize;
                    assert(f[k] <= f[mi as int]);
                }
            }
            assert forall|i: int|
                0 <= i < self.slots@.len() && !self.slots@[i].occupied implies (i == x as int
                || f2.contains(i as usize)) by {
                assert(f.contains(i as usize));
                if i != x as int {
                    assert(i as usize != x);
                }
            }
            assert(self.hole_state(x));
        }
        x
    }

    /// Reclaim the highest free slot index: either trim it from the back of
    /// the arena, or move the last slot of the arena into the hole, fixing
    /// the moved slot's neighbours and the endpoints.
    fn reclaim_max(&mut self)
        requires
            old(self).well_formed(),
            old(self).free_len() > 0,
        ensures
            final(self).well_formed(),
            final(self).free_len() == old(self).free_len() - 1,
            final(self).n_slots() == old(self).n_slots() - 1,
            final(self)@ =~= old(self)@,
    {
        let ghost olds = *old(self);
        let x = self.extract_max_free();
        let ghost c = self.chain@;
        let ghost f = self.empty_indices@;
        let last_i = self.slots.len() - 1;
        if x == last_i {
            // The hole is the last slot: trim it.
            self.slots.pop();
            proof {
                assert forall|k: int| 0 <= k < c.len() implies (c[k] as int) < self.slots@.len() by {
                    assert(c[k] != x);
                }
                assert forall|k: int| 0 <= k < f.len() implies (f[k] as int) < self.slots@.len()
                    && !self.slots@[f[k] as int].occupied by {
                    assert(f[k] < x);
                }
                assert(self.well_formed());
                assert(self@ =~= olds@);
            }
        } else {
            self.move_last_into(x);
            proof {
                assert(self@ =~= olds@);
            }
        }
    }

    /// Move the last (live) slot of the arena into the hole `x`.
    #[verifier::rlimit(100)]
    #[verifier::spinoff_prover]
    fn move_last_into(&mut self, x: usize)
        requires
            old(self).hole_state(x),
            (x as int) < old(self).slots@.len() - 1,
        ensures
            final(self).well_formed(),
            final(self).free_len() == old(self).free_len(),
            final(self).n_slots() == old(self).n_slots() - 1,
            final(self)@ =~= old(self)@,
            final(self).spec_chain().len() == old(self).spec_chain().len(),
    {
        let ghost olds = *old(self);
        let ghost c = olds.chain@;
        proof {
            assert(olds.slots.len() == olds.slots@.len());
        }
        let last_i = self.slots.len() - 1;
        proof {
            assert(olds.slots@[last_i as int].occupied) by {
                if !olds.slots@[last_i as int].occupied {
                    assert(last_i == x || olds.empty_indices@.contains(last_i));
                    if olds.empty_indices@.contains(last_i) {
                        let k = choose|k: int|
                            0 <= k < olds.empty_indices@.len() && olds.empty_indices@[k] == last_i;
                        assert(olds.empty_indices@[k] < x);
                    }
                }
            }
            assert(c.contains(last_i));
        }
        let ghost q = c.index_of(last_i);
        proof {
            assert(0 <= q < c.len() && c[q] == last_i);
        }
        let node = self.slots.pop().unwrap();
        proof {
            if q > 0 {
                assert(node.prev == Some(c[q - 1]));
                assert(c[q - 1] != last_i);
                assert((c[q - 1] as int) < last_i);
                assert(c[q - 1] != x);
            }
            if q < c.len() - 1 {
                assert(node.next == Some(c[q + 1]));
                assert(c[q + 1] != last_i);
                assert((c[q + 1] as int) < last_i);
                assert(c[q + 1] != x);
            }
        }
        match self.head {
            Some(h) if h == last_i => {
                self.head = Some(x);
            },
            _ => {},
        }
        match self.tail {
            Some(t) if t == last_i => {
                self.tail = Some(x);
            },
            _ => {},
        }
        proof {
            assert(self.head == (if q == 0 {
                Some(x)
            } else {
                olds.head
            })) by {
                if q != 0 && c[0] == last_i {
                    assert(c[0] == c[q]);
                }
            }
            assert(self.tail == (if q == c.len() - 1 {
                Some(x)
            } else {
                olds.tail
            })) by {
                if q != c.len() - 1 && c[c.len() - 1] == last_i {
                    assert(c[c.len() - 1] == c[q]);
                }
            }
        }
        self.write_moved_node(x, node);
        proof {
            self.chain@ = c.update(q, x);
            Self::lemma_move_restores(olds, *self, x, last_i, q, node);
        }
    }

    /// Write the moved node into slot `x` and point its neighbours at `x`.
    fn write_moved_node(&mut self, x: usize, node: Node<V>)
        requires
            (x as int) < old(self).slots@.len(),
            node.prev matches Some(pr) ==> (pr as int) < old(self).slots@.len() && pr != x,
            node.next matches Some(nx) ==> (nx as int) < old(self).slots@.len() && nx != x && (
            node.prev matches Some(pr) ==> nx != pr),
        ensures
            final(self).slots@.len() == old(self).slots@.len(),
            final(self).head == old(self).head,
            final(self).tail == old(self).tail,
            final(self).chain@ == old(self).chain@,
            final(self).empty_indices@ == old(self).empty_indices@,
            final(self).slots@[x as int] == (Node {
                value: node.value,
                prev: node.prev,
                next: node.next,
                occupied: true,
            }),
            node.prev matches Some(pr) ==> {
                &&& final(self).slots@[pr as int].next == Some(x)
                &&& final(self).slots@[pr as int].prev == old(self).slots@[pr as int].prev
                &&& final(self).slots@[pr as int].occupied == old(self).slots@[pr as int].occupied
                &&& final(self).slots@[pr as int].value == old(self).slots@[pr as int].value
            },
            node.next matches Some(nx) ==> {
                &&& final(self).slots@[nx as int].prev == Some(x)
                &&& final(self).slots@[nx as int].next == old(self).slots@[nx as int].next
                &&& final(self).slots@[nx as int].occupied == old(self).slots@[nx as int].occupied
                &&& final(self).slots@[nx as int].value == old(self).slots@[nx as int].value
            },
            forall|i: int|
                0 <= i < old(self).slots@.len() && i != x && (node.prev matches Some(pr) ==> i
                    != pr) && (node.next matches Some(nx) ==> i != nx) ==> final(self).slots@[i]
                    == old(self).slots@[i],
    {
        if let Some(pr) = node.prev {
            self.slots[pr].next = Some(x);
        }
        if let Some(nx) = node.next {
            self.slots[nx].prev = Some(x);
        }
        self.slots[x] = Node { value: node.value, prev: node.prev, next: node.next, occupied: true };
    }

    /// After the last slot's contents move into the hole `x`, with the moved
    /// slot's neighbours and the endpoints redirected, the invariant holds
    /// again and the value sequence is unchanged.
    #[verifier::rlimit(100)]
    #[verifier::spinoff_prover]
    proof fn lemma_move_restores(olds: Self, news: Self, x: usize, last_i: usize, q: int, node: Node<V>)
        requires
            olds.hole_state(x),
            (x as int) < olds.slots@.len() - 1,
            last_i as int == olds.slots@.len() - 1,
            0 <= q < olds.chain@.len(),
            olds.chain@[q] == last_i,
            node == olds.slots@[last_i as int],
            news.chain@ == olds.chain@.update(q, x),
            news.empty_indices@ == olds.empty_indices@,
            news.head == (if q == 0 {
                Some(x)
            } else {
                olds.head
            }),
            news.tail == (if q == olds.chain@.len() - 1 {
                Some(x)
            } else {
                olds.tail
            }),
            news.slots@.len() == olds.slots@.len() - 1,
            forall|i: int|
                0 <= i < news.slots@.len() && i != x && (q <= 0 || i != olds.chain@[q - 1]) && (q
                    >= olds.chain@.len() - 1 || i != olds.chain@[q + 1]) ==> news.slots@[i]
                    == olds.slots@[i],
            news.slots@[x as int] == (Node {
                value: node.value,
                prev: node.prev,
                next: node.next,
                occupied: true,
            }),
            q > 0 ==> {
                let pr = olds.chain@[q - 1] as int;
                &&& news.slots@[pr].next == Some(x)
                &&& news.slots@[pr].prev == olds.slots@[pr].prev
                &&& news.slots@[pr].occupied == olds.slots@[pr].occupied
                &&& news.slots@[pr].value == olds.slots@[pr].value
            },
            q < olds.chain@.len() - 1 ==> {
                let nx = olds.chain@[q + 1] as int;
                &&& news.slots@[nx].prev == Some(x)
                &&& news.slots@[nx].next == olds.slots@[nx].next
                &&& news.slots@[nx].occupied == olds.slots@[nx].occupied
                &&& news.slots@[nx].value == olds.slots@[nx].value
            },
        ensures
            news.well_formed(),
            news@ =~= olds@,
    {
        let c = olds.chain@;
        let f = olds.empty_indices@;
        lemma_update_no_dup(c, q, x);
        let c2 = news.chain@;
        let s2 = news.slots@;
        let f2 = news.empty_indices@;
        assert(c[q] != x);
        if q > 0 {
            assert(c[q - 1] != last_i);
            assert((c[q - 1] as int) < last_i);
            assert(c[q - 1] != x);
        }
        if q < c.len() - 1 {
            assert(c[q + 1] != last_i);
            assert((c[q + 1] as int) < last_i);
            assert(c[q + 1] != x);
        }
        assert forall|i: int| 0 <= i < s2.len() && i != x implies s2[i].occupied
            == olds.slots@[i].occupied && s2[i].value == olds.slots@[i].value by {}
        assert forall|k: int| 0 <= k < c2.len() implies (c2[k] as int) < s2.len()
            && s2[c2[k] as int].occupied by {
            if k != q {
                assert(c2[k] == c[k]);
                assert(c[k] != last_i && c[k] != x);
                assert((c[k] as int) < last_i);
            }
        }
        assert forall|k: int| 0 <= k < c2.len() implies s2[c2[k] as int].prev == (if k == 0 {
            None::<usize>
        } else {
            Some(c2[k - 1])
        }) by {
            if k == q {
                assert(s2[x as int].prev == node.prev);
            } else {
                assert(c2[k] == c[k]);
                assert(c[k] != last_i && c[k] != x);
                if q > 0 && c[k] == c[q - 1] {
                    assert(k == q - 1);
                    assert(s2[c[k] as int].prev == olds.slots@[c[k] as int].prev);
                } else if q < c.len() - 1 && c[k] == c[q + 1] {
                    assert(k == q + 1);
                    assert(s2[c[k] as int].prev == Some(x));
                    assert(c2[k - 1] == x);
                } else {
                    assert(s2[c[k] as int] == olds.slots@[c[k] as int]);
                }
            }
        }
        assert forall|k: int| 0 <= k < c2.len() implies s2[c2[k] as int].next == (if k == c2.len()
            - 1 {
            None::<usize>
        } else {
            Some(c2[k + 1])
        }) by {
            if k == q {
                assert(s2[x as int].next == node.next);
            } else {
                assert(c2[k] == c[k]);
                assert(c[k] != last_i && c[k] != x);
                if q > 0 && c[k] == c[q - 1] {
                    assert(k == q - 1);
                    assert(s2[c[k] as int].next == Some(x));
                    assert(c2[k + 1] == x);
                } else if q < c.len() - 1 && c[k] == c[q + 1] {
                    assert(k == q + 1);
                    assert(s2[c[k] as int].next == olds.slots@[c[k] as int].next);
                } else {
                    assert(s2[c[k] as int] == olds.slots@[c[k] as int]);
                }
            }
        }
        assert forall|i: int| 0 <= i < s2.len() implies (if s2[i].occupied {
            c2.contains(i as usize)
        } else {
            &&& f2.contains(i as usize)
            &&& s2[i].prev == None::<usize>
            &&& s2[i].next == None::<usize>
        }) by {
            if i == x {
                assert(c2[q] == x);
                assert(c2.contains(x));
            } else {
                if s2[i].occupied {
                    assert(olds.slots@[i].occupied);
                    assert(c.contains(i as usize));
                    let k = choose|k: int| 0 <= k < c.len() && c[k] == i as usize;
                    assert(k != q);
                    assert(c2[k] == i as usize);
                } else {
                    assert(!olds.slots@[i].occupied);
                    assert(f.contains(i as usize));
                }
            }
        }
        assert forall|k: int| 0 <= k < f2.len() implies (f2[k] as int) < s2.len()
            && !s2[f2[k] as int].occupied by {
            assert(f2[k] < x);
        }
        assert(news.head == (if c2.len() == 0 {
            None::<usize>
        } else {
            Some(c2[0])
        }));
        assert(news.well_formed());
        assert forall|k: int| 0 <= k < news@.len() implies news@[k] == olds@[k] by {
            if k == q {
                assert(c2[k] == x);
                assert(s2[x as int].value == node.value);
            } else {
                assert(c2[k] == c[k]);
                assert(c[k] != x && c[k] != last_i);
            }
        }
    }

    /// Reclaim every free slot.  Afterwards the live slots are exactly the
    /// indices `0 .. len`, in some order; slot identities are not preserved,
    /// but the sequence of values is.
    pub fn compact(&mut self)
        requires
            old(self).well_formed(),
        ensures
            final(self).well_formed(),
            final(self).free_len() == 0,
            final(self).n_slots() == final(self).spec_chain().len(),
            final(self).spec_chain().len() == old(self).spec_chain().len(),
            final(self)@ =~= old(self)@,
    {
        while self.empty_indices.len() > 0
            invariant
                self.well_formed(),
                self@ =~= old(self)@,
            decreases self.free_len(),
        {
            self.reclaim_max();
        }
    }
}

impl<V: Copy> CompactLinkedVector<V> {
    /// The value behind the `next` link of slot `index`.
    pub fn get_next_value(&self, index: usize) -> (r: Option<V>)
        requires
            self.well_formed(),
            self.occupied(index),
        ensures
            r == (if self.pos_of(index) == self.spec_chain().len() - 1 {
                None::<V>
            } else {
                Some(self.slot_value(self.spec_chain()[self.pos_of(index) + 1]))
            }),
    {
        proof {
            self.lemma_pos_of(index);
        }
        if let Some(next_index) = self.slots[index].next {
            Some(self.slots[next_index].value)
        } else {
            None
        }
    }

    /// The value behind the `prev` link of slot `index`.
    pub fn get_prev_value(&self, index: usize) -> (r: Option<V>)
        requires
            self.well_formed(),
            self.occupied(index),
        ensures
            r == (if self.pos_of(index) == 0 {
                None::<V>
            } else {
                Some(self.slot_value(self.spec_chain()[self.pos_of(index) - 1]))
            }),
    {
        proof {
            self.lemma_pos_of(index);
        }
        if let Some(prev_index) = self.slots[index].prev {
            Some(self.slots[prev_index].value)
        } else {
            None
        }
    }

    /// A uniformly random live slot.  Sampling is only uniform over live
    /// elements when there are no free slots, so compaction is a
    /// precondition.
    pub fn get_random(&self, rng: &mut SmallRng) -> (r: Option<(usize, V)>)
        requires
            self.well_formed(),
            self.free_len() == 0,
        ensures
            r is Some <==> self.spec_chain().len() > 0,
            r matches Some(p) ==> self.occupied(p.0) && p.1 == self.slot_value(p.0),
    {
        proof {
            self.lemma_compact_dense();
        }
        if self.slots.len() == 0 {
            return None;
        }
        let i = rng_below(rng, self.slots.len() as u64) as usize;
        Some((i, self.slots[i].value))
    }

    /// A structural copy: same slots, links, endpoints and free list, so
    /// every contract-visible property carries over.
    pub fn duplicate(&self) -> (r: Self)
        ensures
            r.well_formed() == self.well_formed(),
            r.spec_chain() == self.spec_chain(),
            r@ =~= self@,
            r.n_slots() == self.n_slots(),
            r.free_len() == self.free_len(),
            r.spec_head() == self.spec_head(),
            r.spec_tail() == self.spec_tail(),
            forall|i: usize| #[trigger] r.occupied(i) == self.occupied(i),
            forall|i: usize|
                i < self.n_slots() ==> #[trigger] r.slot_value(i) == self.slot_value(i),
    {
        let mut slots: Vec<Node<V>> = Vec::new();
        let mut i: usize = 0;
        while i < self.slots.len()
            invariant
                i <= self.slots@.len(),
                slots@.len() == i,
                forall|j: int| 0 <= j < i ==> #[trigger] slots@[j] == self.slots@[j],
            decreases self.slots@.len() - i,
        {
            let n = &self.slots[i];
            slots.push(Node { value: n.value, prev: n.prev, next: n.next, occupied: n.occupied });
            i = i + 1;
        }
        let mut empty_indices: Vec<usize> = Vec::new();
        let mut k: usize = 0;
        while k < self.empty_indices.len()
            invariant
                k <= self.empty_indices@.len(),
                empty_indices@.len() == k,
                forall|j: int|
                    0 <= j < k ==> #[trigger] empty_indices@[j] == self.empty_indices@[j],
            decreases self.empty_indices@.len() - k,
        {
            empty_indices.push(self.empty_indices[k]);
            k = k + 1;
        }
        let r = CompactLinkedVector {
            slots,
            head: self.head,
            tail: self.tail,
            empty_indices,
            chain: Ghost(self.chain@),
        };
        proof {
            assert(r.slots@ =~= self.slots@);
            assert(r.empty_indices@ =~= self.empty_indices@);
            assert(r@ =~= self@);
            assert forall|i2: usize| #[trigger] r.occupied(i2) == self.occupied(i2) by {}
        }
        r
    }

    /// An iterator over the live `(slot index, value)` pairs in list order.
    /// It captures a snapshot, so the list may be mutated afterwards.
    pub fn iter(&self) -> (r: Iter<V>)
        requires
            self.well_formed(),
        ensures
            r@ =~= self.pairs(),
    {
        let mut items: Vec<(usize, V)> = Vec::new();
        let ghost c = self.spec_chain();
        let mut cur = self.head;
        proof {
            self.lemma_well_formed_facts();
        }
        while cur.is_some()
            invariant
                self.well_formed(),
                items@.len() <= c.len(),
                c == self.spec_chain(),
                forall|m: int|
                    0 <= m < items@.len() ==> items@[m] == (c[m], self.slot_value(c[m])),
                cur == (if items@.len() < c.len() {
                    Some(c[items@.len() as int])
                } else {
                    None::<usize>
                }),
            decreases c.len() - items@.len(),
        {
            let i = cur.unwrap();
            proof {
                assert(c[items@.len() as int] == i);
                assert(self.occupied(i));
            }
            items.push((i, self.slots[i].value));
            cur = self.slots[i].next;
        }
        let r = Iter { items, pos: 0 };
        proof {
            assert(r@ =~= self.pairs());
        }
        r
    }

    /// The `(slot index, value)` pairs in list order.
    pub closed spec fn pairs(&self) -> Seq<(usize, V)> {
        Seq::new(
            self.spec_chain().len(),
            |k: int| (self.spec_chain()[k], self.slot_value(self.spec_chain()[k])),
        )
    }

    /// What the pairs are: the chain's slot indices, each with its value.
    pub proof fn lemma_pairs(&self)
        ensures
            self.pairs().len() == self.spec_chain().len(),
            forall|k: int|
                0 <= k < self.spec_chain().len() ==> #[trigger] self.pairs()[k] == (
                self.spec_chain()[k],
                self.slot_value(self.spec_chain()[k]),
            ),
    {
    }
}

/// A snapshot iterator over an arena list.
pub struct Iter<V> {
    items: Vec<(usize, V)>,
    pos: usize,
}

impl<V: Copy> Iter<V> {
    /// The pairs not yet handed out.
    pub closed spec fn view(&self) -> Seq<(usize, V)> {
        if self.pos <= self.items@.len() {
            self.items@.skip(self.pos as int)
        } else {
            Seq::empty()
        }
    }

    pub fn next(&mut self) -> (r: Option<(usize, V)>)
        ensures
            old(self)@.len() == 0 ==> r is None && final(self)@ == old(self)@,
            old(self)@.len() > 0 ==> r == Some(old(self)@[0]) && final(self)@ =~= old(
                self,
            )@.drop_first(),
    {
        if self.pos < self.items.len() {
            let item = self.items[self.pos];
            self.pos = self.pos + 1;
            Some(item)
        } else {
            None
        }
    }
}

impl<V> CompactLinkedVector<V> {
    /// The slot indices met when walking forward from the head along `next`.
    pub fn collect_forward(&self) -> (r: Vec<usize>)
        requires
            self.well_formed(),
        ensures
            r@ == self.spec_chain(),
    {
        let ghost c = self.spec_chain();
        let mut r: Vec<usize> = Vec::new();
        let mut cur = self.head;
        while cur.is_some()
            invariant
                self.well_formed(),
                r@.len() <= c.len(),
                c == self.spec_chain(),
                forall|m: int| 0 <= m < r@.len() ==> r@[m] == c[m],
                cur == (if r@.len() < c.len() {
                    Some(c[r@.len() as int])
                } else {
                    None::<usize>
                }),
            decreases c.len() - r@.len(),
        {
            let i = cur.unwrap();
            proof {
                assert(c[r@.len() as int] == i);
                assert(self.occupied(i));
            }
            r.push(i);
            cur = self.slots[i].next;
        }
        proof {
            assert(r@ =~= c);
        }
        r
    }

    /// The slot indices met when walking backward from the tail along `prev`.
    pub fn collect_backward(&self) -> (r: Vec<usize>)
        requires
            self.well_formed(),
        ensures
            r@ == self.spec_chain().reverse(),
    {
        let ghost c = self.spec_chain();
        let mut r: Vec<usize> = Vec::new();
        let mut cur = self.tail;
        while cur.is_some()
            invariant
                self.well_formed(),
                r@.len() <= c.len(),
                c == self.spec_chain(),
                forall|m: int| 0 <= m < r@.len() ==> r@[m] == c[c.len() - 1 - m],
                cur == (if r@.len() < c.len() {
                    Some(c[c.len() - 1 - r@.len()])
                } else {
                    None::<usize>
                }),
            decreases c.len() - r@.len(),
        {
            let i = cur.unwrap();
            proof {
                assert(c[c.len() - 1 - r@.len() as int] == i);
                assert(self.occupied(i));
            }
            r.push(i);
            cur = self.slots[i].prev;
        }
        proof {
            assert(r@ =~= c.reverse());
        }
        r
    }

    /// Walking forward from the head and backward from the tail visits the
    /// same set of slots, in opposite orders, and the two walks agree on the
    /// length.  The walks themselves are `collect_forward` (which returns the
    /// chain) and `collect_backward` (which returns its reverse).
    pub proof fn lemma_walks_agree(&self)
        requires
            self.well_formed(),
        ensures
            self.spec_chain().reverse().len() == self.spec_chain().len(),
            forall|k: int|
                0 <= k < self.spec_chain().len() ==> self.spec_chain().reverse()[k]
                    == self.spec_chain()[self.spec_chain().len() - 1 - k],
            self.spec_chain().reverse().to_set() =~= self.spec_chain().to_set(),
    {
        let c = self.spec_chain();
        assert forall|z: usize| c.reverse().to_set().contains(z) implies c.to_set().contains(
            z,
        ) by {
            let k = choose|k: int| 0 <= k < c.reverse().len() && c.reverse()[k] == z;
            assert(c[c.len() - 1 - k] == z);
        }
        assert forall|z: usize| c.to_set().contains(z) implies c.reverse().to_set().contains(
            z,
        ) by {
            let k = choose|k: int| 0 <= k < c.len() && c[k] == z;
            assert(c.reverse()[c.len() - 1 - k] == z);
        }
    }

    /// After `compact` (no free slots) the arena is dense: every slot below
    /// the length is occupied, and no two distinct slots point their `next`
    /// or `prev` links at the same slot.
    pub proof fn lemma_compact_dense(&self)
        requires
            self.well_formed(),
            self.free_len() == 0,
        ensures
            self.n_slots() == self.spec_chain().len(),
            forall|i: usize| (i as nat) < self.n_slots() ==> #[trigger] self.occupied(i),
            forall|i: usize, j: usize|
                #![trigger self.slot_next(i), self.slot_next(j)]
                self.occupied(i) && self.occupied(j) && i != j && self.slot_next(i) is Some
                    ==> self.slot_next(i) != self.slot_next(j),
            forall|i: usize, j: usize|
                #![trigger self.slot_prev(i), self.slot_prev(j)]
                self.occupied(i) && self.occupied(j) && i != j && self.slot_prev(i) is Some
                    ==> self.slot_prev(i) != self.slot_prev(j),
    {
        let c = self.spec_chain();
        assert forall|i: usize| (i as nat) < self.n_slots() implies #[trigger] self.occupied(i) by {
            if !self.slots@[i as int].occupied {
                assert(self.empty_indices@.contains(i));
            }
        }
        assert forall|i: usize, j: usize|
            #![trigger self.slot_next(i), self.slot_next(j)]
            self.occupied(i) && self.occupied(j) && i != j && self.slot_next(i)
                is Some implies self.slot_next(i) != self.slot_next(j) by {
            self.lemma_pos_of(i);
            self.lemma_pos_of(j);
            let ki = self.pos_of(i);
            let kj = self.pos_of(j);
            if self.slot_next(i) == self.slot_next(j) {
                assert(ki < c.len() - 1);
                assert(kj < c.len() - 1);
                assert(c[ki + 1] == c[kj + 1]);
            }
        }
        assert forall|i: usize, j: usize|
            #![trigger self.slot_prev(i), self.slot_prev(j)]
            self.occupied(i) && self.occupied(j) && i != j && self.slot_prev(i)
                is Some implies self.slot_prev(i) != self.slot_prev(j) by {
            self.lemma_pos_of(i);
            self.lemma_pos_of(j);
            let ki = self.pos_of(i);
            let kj = self.pos_of(j);
            if self.slot_prev(i) == self.slot_prev(j) {
                assert(ki > 0);
                assert(kj > 0);
                assert(c[ki - 1] == c[kj - 1]);
            }
        }
    }

    /// No live slot's `next` or `prev` link points at the slot itself.
    pub proof fn lemma_no_self_loops(&self)
        requires
            self.well_formed(),
        ensures
            forall|i: usize| #[trigger]
                self.occupied(i) ==> self.slot_next(i) != Some(i) && self.slot_prev(i) != Some(i),
    {
        assert forall|i: usize| #[trigger] self.occupied(i) implies self.slot_next(i) != Some(i)
            && self.slot_prev(i) != Some(i) by {
            self.lemma_pos_of(i);
            let k = self.pos_of(i);
            let c = self.spec_chain();
            if k < c.len() - 1 {
                assert(c[k + 1] != c[k]);
            }
            if k > 0 {
                assert(c[k - 1] != c[k]);
            }
        }
    }
}

/// Position of a maximal element of a nonempty vector.
fn max_pos(v: &Vec<usize>) -> (mi: usize)
    requires
        v@.len() > 0,
    ensures
        mi < v@.len(),
        forall|j: int| 0 <= j < v@.len() ==> v@[j] <= v@[mi as int],
{
    let mut mi: usize = 0;
    let mut k: usize = 1;
    while k < v.len()
        invariant
            0 < v@.len(),
            mi < k,
            k <= v@.len(),
            forall|j: int| 0 <= j < k ==> v@[j] <= v@[mi as int],
        decreases v@.len() - k,
    {
        if v[k] > v[mi] {
            mi = k;
        }
        k = k + 1;
    }
    mi
}

/// Overwriting position `mi` with the last element and dropping the last
/// entry removes exactly the value at `mi` from a duplicate-free sequence.
proof fn lemma_extract_pos(f: Seq<usize>, mi: int)
    requires
        0 <= mi < f.len(),
        f.no_duplicates(),
    ensures
        ({
            let f2 = f.update(mi, f.last()).drop_last();
            &&& f2.len() == f.len() - 1
            &&& f2.no_duplicates()
            &&& forall|z: usize| f2.contains(z) <==> (f.contains(z) && z != f[mi])
        }),
{
    let f2 = f.update(mi, f.last()).drop_last();
    assert(f2.len() == f.len() - 1);
    assert forall|k: int| 0 <= k < f2.len() implies f2[k] == (if k == mi {
        f.last()
    } else {
        f[k]
    }) by {}
    assert forall|x: int, y: int|
        0 <= x < f2.len() && 0 <= y < f2.len() && x != y implies f2[x] != f2[y] by {
        let a = if x == mi {
            f.len() - 1
        } else {
            x
        };
        let b = if y == mi {
            f.len() - 1
        } else {
            y
        };
        assert(f2[x] == f[a]);
        assert(f2[y] == f[b]);
        assert(a != b);
    }
    assert forall|z: usize| f2.contains(z) implies (f.contains(z) && z != f[mi]) by {
        let k = choose|k: int| 0 <= k < f2.len() && f2[k] == z;
        let a = if k == mi {
            f.len() - 1
        } else {
            k
        };
        assert(f[a] == z);
        assert(a != mi);
    }
    assert forall|z: usize| f.contains(z) && z != f[mi] implies f2.contains(z) by {
        let a = choose|a: int| 0 <= a < f.len() && f[a] == z;
        assert(a != mi);
        if a < f.len() - 1 {
            assert(f2[a] == z);
        } else {
            assert(mi < f.len() - 1);
            assert(f2[mi] == f.last());
        }
    }
}

/// Renaming one chain entry to a fresh index keeps the chain duplicate-free.
proof fn lemma_update_no_dup(s: Seq<usize>, i: int, a: usize)
    requires
        0 <= i < s.len(),
        s.no_duplicates(),
        !s.contains(a),
    ensures
        s.update(i, a).no_duplicates(),
        forall|z: usize| s.update(i, a).contains(z) <==> ((s.contains(z) && z != s[i]) || z == a),
{
    let t = s.update(i, a);
    assert forall|x: int, y: int|
        0 <= x < t.len() && 0 <= y < t.len() && x != y implies t[x] != t[y] by {
        if x != i && y != i {
        } else if x == i {
            assert(t[y] == s[y]);
            assert(s.contains(s[y]));
        } else {
            assert(t[x] == s[x]);
            assert(s.contains(s[x]));
        }
    }
    assert forall|z: usize| t.contains(z) implies ((s.contains(z) && z != s[i]) || z == a) by {
        let k = choose|k: int| 0 <= k < t.len() && t[k] == z;
        if k != i {
            assert(s[k] == z);
            assert(z != s[i] || k == s.index_of(z));
            if z == s[i] {
                assert(s[i] == s[k]);
            }
        }
    }
    assert forall|z: usize| ((s.contains(z) && z != s[i]) || z == a) implies t.contains(z) by {
        if z == a {
            assert(t[i] == a);
        } else {
            let k = choose|k: int| 0 <= k < s.len() && s[k] == z;
            assert(k != i);
            assert(t[k] == z);
        }
    }
}

/// Inserting a fresh element keeps a duplicate-free sequence duplicate-free.
proof fn lemma_insert_no_dup<A>(s: Seq<A>, i: int, a: A)
    requires
        0 <= i <= s.len(),
        s.no_duplicates(),
        !s.contains(a),
    ensures
        s.insert(i, a).no_duplicates(),
{
    s.insert_ensures(i, a);
    let t = s.insert(i, a);
    assert forall|x: int, y: int|
        0 <= x < t.len() && 0 <= y < t.len() && x != y implies t[x] != t[y] by {
        if x != i && y != i {
            let sx = if x < i {
                x
            } else {
                x - 1
            };
            let sy = if y < i {
                y
            } else {
                y - 1
            };
            assert(t[x] == s[sx]);
            assert(t[y] == s[sy]);
        } else if x == i {
            let sy = if y < i {
                y
            } else {
                y - 1
            };
            assert(t[y] == s[sy]);
            assert(s.contains(s[sy]));
        } else {
            let sx = if x < i {
                x
            } else {
                x - 1
            };
            assert(t[x] == s[sx]);
            assert(s.contains(s[sx]));
        }
    }
}

/// Removing an element keeps a duplicate-free sequence duplicate-free.
proof fn lemma_remove_no_dup<A>(s: Seq<A>, i: int)
    requires
        0 <= i < s.len(),
        s.no_duplicates(),
    ensures
        s.remove(i).no_duplicates(),
        forall|a: A| s.remove(i).contains(a) ==> s.contains(a),
{
    s.remove_ensures(i);
    let t = s.remove(i);
    assert forall|x: int, y: int|
        0 <= x < t.len() && 0 <= y < t.len() && x != y implies t[x] != t[y] by {
        let sx = if x < i {
            x
        } else {
            x + 1
        };
        let sy = if y < i {
            y
        } else {
            y + 1
        };
        assert(t[x] == s[sx]);
        assert(t[y] == s[sy]);
    }
    assert forall|a: A| t.contains(a) implies s.contains(a) by {
        if t.contains(a) {
            let x = choose|x: int| 0 <= x < t.len() && t[x] == a;
            let sx = if x < i {
                x
            } else {
                x + 1
            };
            assert(t[x] == s[sx]);
        }
    }
}

impl<V: Copy> CompactLinkedVector<V> {
    /// The value in slot `i`, if `i` is in range.
    pub fn get_value(&self, index: usize) -> (r: Option<V>)
        ensures
            r == (if index < self.n_slots() {
                Some(self.slot_value(index))
            } else {
                None::<V>
            }),
    {
        if index < self.slots.len() {
            Some(self.slots[index].value)
        } else {
            None
        }
    }

    /// Overwrite the value in the occupied slot `index`; links, occupancy and
    /// the chain are untouched.
    pub fn set_value_at_index(&mut self, index: usize, value: V)
        requires
            old(self).well_formed(),
            old(self).occupied(index),
        ensures
            final(self).well_formed(),
            final(self).spec_chain() == old(self).spec_chain(),
            final(self).n_slots() == old(self).n_slots(),
            final(self).free_len() == old(self).free_len(),
            final(self).spec_head() == old(self).spec_head(),
            final(self).spec_tail() == old(self).spec_tail(),
            forall|j: usize|
                j < old(self).n_slots() && j != index ==> #[trigger] final(self).slot_value(j)
                    == old(self).slot_value(j),
            final(self).slot_value(index) == value,
            final(self)@ =~= old(self)@.update(old(self).pos_of(index), value),
    {
        proof {
            self.lemma_pos_of(index);
        }
        let ghost olds = *self;
        self.slots[index].value = value;
        proof {
            let p = olds.pos_of(index);
            assert(self.well_formed());
            assert forall|k: int| 0 <= k < self@.len() implies self@[k] == olds@.update(p, value)[k] by {
                if k != p {
                    assert(olds.chain@[k] != index);
                }
            }
        }
    }
}

} // verus!
