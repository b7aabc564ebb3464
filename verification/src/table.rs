use vstd::prelude::*;
use std::collections::{HashMap, HashSet};
use vstd::std_specs::iter::IteratorSpec;
use crate::model::{parent_of, parents_precede};

verus! {

broadcast use vstd::std_specs::hash::group_hash_axioms;

/// What the table holds for one live component: its parent, and the
/// caller's handle to the component itself.
struct ComponentEntry<W> {
    parent_id: Option<u64>,
    component: W,
}

/// The table of live components and of the components whose model has
/// been changed since the last rebuild.
pub struct ComponentTable<W> {
    next_id: u64,
    map: HashMap<u64, ComponentEntry<W>>,
    dirty: HashSet<u64>,
}

impl<W> ComponentTable<W> {
    /// The identifier that the next reservation hands out.
    pub closed spec fn next_id(&self) -> u64 {
        self.next_id
    }

    /// The live components, each with its parent.
    pub closed spec fn parents(&self) -> Map<u64, Option<u64>> {
        Map::new(|id: u64| self.map@.contains_key(id), |id: u64| self.map@[id].parent_id)
    }

    /// The live components, each with the caller's handle to it.
    pub closed spec fn components(&self) -> Map<u64, W> {
        Map::new(|id: u64| self.map@.contains_key(id), |id: u64| self.map@[id].component)
    }

    /// The components marked as changed.
    pub closed spec fn dirty(&self) -> Set<u64> {
        self.dirty@
    }

    /// Well-formedness: identifiers start at one, every live component's
    /// identifier was handed out already, and every parent was created before
    /// its children.
    pub closed spec fn wf(&self) -> bool {
        &&& self.next_id >= 1
        &&& forall|id: u64| #[trigger] self.map@.contains_key(id) ==> id < self.next_id
        &&& parents_precede(self.parents())
    }

    /// A well-formed table's counter is positive and every parent is older
    /// than its children.
    pub proof fn lemma_wf(&self)
        requires
            self.wf(),
        ensures
            self.next_id() >= 1,
            forall|id: u64| #[trigger] self.parents().contains_key(id) ==> id < self.next_id(),
            self.parents().dom() == self.components().dom(),
            parents_precede(self.parents()),
    {
        assert(self.parents().dom() =~= self.components().dom());
    }

    /// The identifier that the next reservation hands out.
    pub fn peek_next_id(&self) -> (r: u64)
        ensures
            r == self.next_id(),
    {
        self.next_id
    }

    /// An empty table whose first identifier is 1.
    pub fn new() -> (t: Self)
        ensures
            t.wf(),
            t.next_id() == 1,
            t.parents() == Map::<u64, Option<u64>>::empty(),
            t.components() == Map::<u64, W>::empty(),
            t.dirty() == Set::<u64>::empty(),
    {
        let t = ComponentTable { next_id: 1, map: HashMap::new(), dirty: HashSet::new() };
        assert(t.parents() =~= Map::<u64, Option<u64>>::empty());
        assert(t.components() =~= Map::<u64, W>::empty());
        t
    }

    /// Hands out a fresh identifier: the current counter, which then moves on by one.
    pub fn reserve_id(&mut self) -> (id: u64)
        requires
            old(self).wf(),
            old(self).next_id() < u64::MAX,
        ensures
            final(self).wf(),
            id == old(self).next_id(),
            final(self).next_id() == old(self).next_id() + 1,
            final(self).parents() == old(self).parents(),
            final(self).components() == old(self).components(),
            final(self).dirty() == old(self).dirty(),
    {
        let id = self.next_id;
        self.next_id = self.next_id + 1;
        id
    }

    /// Registers the live component `cid`, with its parent and the caller's
    /// handle to it, and gives `cid` back.
    pub fn insert(&mut self, cid: u64, parent_id: Option<u64>, c: W) -> (r: u64)
        requires
            old(self).wf(),
            cid < old(self).next_id(),
            parent_id matches Some(p) ==> p < cid,
        ensures
            final(self).wf(),
            r == cid,
            final(self).next_id() == old(self).next_id(),
            final(self).parents() == old(self).parents().insert(cid, parent_id),
            final(self).components() == old(self).components().insert(cid, c),
            final(self).dirty() == old(self).dirty(),
    {
        self.map.insert(cid, ComponentEntry { parent_id, component: c });
        assert(self.parents() =~= old(self).parents().insert(cid, parent_id));
        assert(self.components() =~= old(self).components().insert(cid, c));
        cid
    }

    /// No component is marked as changed.
    pub fn is_clean(&self) -> (r: bool)
        ensures
            r == self.dirty().is_empty(),
    {
        self.dirty.is_empty()
    }

    /// Marks `cid` as changed.
    pub fn mark_dirty(&mut self, cid: u64)
        requires
            old(self).wf(),
        ensures
            final(self).wf(),
            final(self).next_id() == old(self).next_id(),
            final(self).parents() == old(self).parents(),
            final(self).components() == old(self).components(),
            final(self).dirty() == old(self).dirty().insert(cid),
    {
        self.dirty.insert(cid);
    }

    /// Forgets the component `cid`: it is no longer live, nor marked as changed.
    pub fn destroy(&mut self, cid: u64)
        requires
            old(self).wf(),
        ensures
            final(self).wf(),
            final(self).next_id() == old(self).next_id(),
            final(self).parents() == old(self).parents().remove(cid),
            final(self).components() == old(self).components().remove(cid),
            final(self).dirty() == old(self).dirty().remove(cid),
    {
        self.map.remove(&cid);
        self.dirty.remove(&cid);
        assert(self.parents() =~= old(self).parents().remove(cid));
        assert(self.components() =~= old(self).components().remove(cid));
    }

    /// Forgets every change mark.
    pub fn clear_dirty(&mut self)
        requires
            old(self).wf(),
        ensures
            final(self).wf(),
            final(self).next_id() == old(self).next_id(),
            final(self).parents() == old(self).parents(),
            final(self).components() == old(self).components(),
            final(self).dirty() == Set::<u64>::empty(),
    {
        self.dirty.clear();
    }

    /// The parent of the live component `cid`; `None` where `cid` is not
    /// live or has no parent.
    pub fn parent_of(&self, cid: u64) -> (r: Option<u64>)
        ensures
            r == parent_of(self.parents(), cid),
            self.parents().contains_key(cid) ==> r == self.parents()[cid],
            !self.parents().contains_key(cid) ==> r is None,
    {
        match self.map.get(&cid) {
            Some(e) => e.parent_id,
            None => None,
        }
    }

    /// The components marked as changed, each once, in no particular order.
    pub fn dirty_ids(&self) -> (v: Vec<u64>)
        ensures
            v@.no_duplicates(),
            forall|x: u64| v@.contains(x) <==> self.dirty().contains(x),
    {
        let mut v: Vec<u64> = Vec::new();
        let ghost keys = vstd::std_specs::hash::spec_hash_keys_iter(&self.dirty).remaining().unref();
        for cid in it: self.dirty.iter()
            invariant
                keys == it.seq().unref(),
                v.len() == it.index(),
                forall|j: int| 0 <= j < it.index() ==> v@[j] == keys[j],
        {
            v.push(*cid);
        }
        proof {
            assert(v@ =~= keys);
        }
        v
    }

    /// The caller's handle to the live component `cid`.
    pub fn get(&self, cid: u64) -> (r: Option<&W>)
        ensures
            match r {
                Some(c) => self.components().contains_key(cid) && *c == self.components()[cid],
                None => !self.components().contains_key(cid),
            },
    {
        match self.map.get(&cid) {
            Some(e) => Some(&e.component),
            None => None,
        }
    }
}

} // verus!
