//! The original arena list, without compaction: removed slots keep their
//! indices forever and are only reused by later insertions.  It shares the
//! compacting arena's machinery and invariant.

use vstd::prelude::*;
use crate::arena::CompactLinkedVector;

verus! {

pub struct LinkedVectorWIthErrorValuesAsEmptyNodes<V> {
    inner: CompactLinkedVector<V>,
}

impl<V> LinkedVectorWIthErrorValuesAsEmptyNodes<V> {
    pub closed spec fn spec_chain(&self) -> Seq<usize> {
        self.inner.spec_chain()
    }

    pub closed spec fn view(&self) -> Seq<V> {
        self.inner@
    }

    pub closed spec fn well_formed(&self) -> bool {
        self.inner.well_formed()
    }

    pub closed spec fn occupied(&self, i: usize) -> bool {
        self.inner.occupied(i)
    }

    pub closed spec fn slot_value(&self, i: usize) -> V {
        self.inner.slot_value(i)
    }

    pub closed spec fn n_slots(&self) -> nat {
        self.inner.n_slots()
    }

    pub closed spec fn free_len(&self) -> nat {
        self.inner.free_len()
    }

    pub closed spec fn spec_head(&self) -> Option<usize> {
        self.inner.spec_head()
    }

    pub closed spec fn spec_tail(&self) -> Option<usize> {
        self.inner.spec_tail()
    }

    pub fn new() -> (r: Self)
        ensures
            r.well_formed(),
            r.spec_chain() =~= Seq::<usize>::empty(),
            r.n_slots() == 0,
            r.free_len() == 0,
    {
        LinkedVectorWIthErrorValuesAsEmptyNodes { inner: CompactLinkedVector::new() }
    }

    pub fn get_head_index(&self) -> (r: Option<usize>)
        ensures
            r == self.spec_head(),
    {
        self.inner.get_head_index()
    }

    pub fn get_tail_index(&self) -> (r: Option<usize>)
        ensures
            r == self.spec_tail(),
    {
        self.inner.get_tail_index()
    }

    /// The head slot index is the first chain entry; exported so that
    /// callers of the closed accessors can relate them.
    pub proof fn lemma_endpoints(&self)
        requires
            self.well_formed(),
        ensures
            self.spec_head() == (if self.spec_chain().len() == 0 {
                None::<usize>
            } else {
                Some(self.spec_chain()[0])
            }),
            self.spec_tail() == (if self.spec_chain().len() == 0 {
                None::<usize>
            } else {
                Some(self.spec_chain().last())
            }),
            forall|k: int|
                0 <= k < self.spec_chain().len() ==> #[trigger] self.occupied(
                    self.spec_chain()[k],
                ),
    {
        self.inner.lemma_well_formed_facts();
    }

    pub fn push_front(&mut self, value: V) -> (r: usize)
        requires
            old(self).well_formed(),
            old(self).n_slots() < usize::MAX,
        ensures
            final(self).well_formed(),
            final(self).spec_chain() =~= old(self).spec_chain().insert(0, r),
            final(self).occupied(r),
            final(self).slot_value(r) == value,
            final(self)@ =~= old(self)@.insert(0, value),
    {
        let ghost inner0 = self.inner;
        let r = self.inner.push_front(value);
        proof {
            assert(self.inner.spec_chain() =~= inner0.spec_chain().insert(0, r));
        }
        r
    }

    pub fn push_back(&mut self, value: V) -> (r: usize)
        requires
            old(self).well_formed(),
            old(self).n_slots() < usize::MAX,
        ensures
            final(self).well_formed(),
            final(self).spec_chain() =~= old(self).spec_chain().push(r),
            final(self).occupied(r),
            final(self).slot_value(r) == value,
            final(self)@ =~= old(self)@.push(value),
    {
        self.inner.push_back(value)
    }

    pub fn insert_after(&mut self, index: usize, value: V) -> (r: usize)
        requires
            old(self).well_formed(),
            old(self).occupied(index),
            old(self).n_slots() < usize::MAX,
        ensures
            final(self).well_formed(),
            final(self).spec_chain() =~= old(self).spec_chain().insert(
                old(self).spec_chain().index_of(index) + 1,
                r,
            ),
            final(self).occupied(r),
            final(self).slot_value(r) == value,
            final(self)@ =~= old(self)@.insert(old(self).spec_chain().index_of(index) + 1, value),
    {
        self.inner.insert_after(index, value)
    }

    pub fn insert_before(&mut self, index: usize, value: V) -> (r: usize)
        requires
            old(self).well_formed(),
            old(self).occupied(index),
            old(self).n_slots() < usize::MAX,
        ensures
            final(self).well_formed(),
            final(self).spec_chain() =~= old(self).spec_chain().insert(
                old(self).spec_chain().index_of(index),
                r,
            ),
            final(self).occupied(r),
            final(self).slot_value(r) == value,
            final(self)@ =~= old(self)@.insert(old(self).spec_chain().index_of(index), value),
    {
        self.inner.insert_before(index, value)
    }

    pub fn remove(&mut self, index: usize)
        requires
            old(self).well_formed(),
            old(self).occupied(index),
        ensures
            final(self).well_formed(),
            final(self).spec_chain() =~= old(self).spec_chain().remove(
                old(self).spec_chain().index_of(index),
            ),
            final(self)@ =~= old(self)@.remove(old(self).spec_chain().index_of(index)),
            final(self).free_len() == old(self).free_len() + 1,
    {
        self.inner.remove(index)
    }
}

impl<V: Copy> LinkedVectorWIthErrorValuesAsEmptyNodes<V> {
    pub fn get_value(&self, index: usize) -> (r: Option<V>)
        ensures
            r == (if index < self.n_slots() {
                Some(self.slot_value(index))
            } else {
                None::<V>
            }),
    {
        self.inner.get_value(index)
    }
}

} // verus!
