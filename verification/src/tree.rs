use vstd::prelude::*;
use crate::model::{
    in_below, in_level, is_dirty_or_ancestor, lemma_parent_of_reads_stored_parent, lemma_rebuild_order, lemma_below_is_all, lemma_level_zero, lemma_next_below, lemma_next_level,
    parent_of, parents_precede, rebuild_set, strictly_ascending,
};
use crate::order::ascending_ids;
use std::collections::BTreeSet;
use crate::table::ComponentTable;

verus! {

/// The identity of one component: its own identifier and that of its
/// parent, which is always the older of the two.
#[derive(Clone, Copy, Debug)]
pub struct ComponentCtx {
    id: u64,
    parent_id: Option<u64>,
}

impl ComponentCtx {
    #[verifier::type_invariant]
    spec fn parent_is_older(self) -> bool {
        self.parent_id matches Some(p) ==> p < self.id
    }

    /// The component's identifier.
    pub closed spec fn cid(self) -> u64 {
        self.id
    }

    /// The identifier of the component's parent, if it has one.
    pub closed spec fn parent(self) -> Option<u64> {
        self.parent_id
    }

    /// The component's identifier.
    pub fn id(&self) -> (r: u64)
        ensures
            r == self.cid(),
    {
        self.id
    }

    /// The identifier of the component's parent, if it has one.
    pub fn parent_id(&self) -> (r: Option<u64>)
        ensures
            r == self.parent(),
            r matches Some(p) ==> p < self.cid(),
    {
        proof {
            use_type_invariant(self);
        }
        self.parent_id
    }
}

/// The bookkeeping of a component tree: the table of live components and
/// change marks, and the callbacks to run when the tree turns dirty.
pub struct ComponentTree<W, CB> {
    comp_table: ComponentTable<W>,
    change_cbs: Vec<CB>,
}

impl<W, CB> ComponentTree<W, CB> {
    /// The identifier that the next component created gets.
    pub closed spec fn next_id(&self) -> u64 {
        self.comp_table.next_id()
    }

    /// The live components, each with its parent.
    pub closed spec fn parents(&self) -> Map<u64, Option<u64>> {
        self.comp_table.parents()
    }

    /// The live components, each with the caller's handle to it.
    pub closed spec fn components(&self) -> Map<u64, W> {
        self.comp_table.components()
    }

    /// The components whose model was changed since the last rebuild.
    pub closed spec fn dirty(&self) -> Set<u64> {
        self.comp_table.dirty()
    }

    /// The registered change callbacks, in the order of registration.
    pub closed spec fn callbacks(&self) -> Seq<CB> {
        self.change_cbs@
    }

    /// Well-formedness of the tree.
    pub closed spec fn wf(&self) -> bool {
        self.comp_table.wf()
    }

    /// A well-formed tree's counter is positive and every parent is older
    /// than its children.
    pub proof fn lemma_wf(&self)
        requires
            self.wf(),
        ensures
            self.next_id() >= 1,
            forall|id: u64| #[trigger] self.parents().contains_key(id) ==> id < self.next_id(),
            self.parents().dom() == self.components().dom(),
            parents_precede(self.parents()),
    {
        self.comp_table.lemma_wf();
    }

    /// A tree with no component, no change mark and no callback; the first
    /// component created gets identifier 1.
    pub fn new() -> (t: Self)
        ensures
            t.wf(),
            t.next_id() == 1,
            t.parents() == Map::<u64, Option<u64>>::empty(),
            t.components() == Map::<u64, W>::empty(),
            t.dirty() == Set::<u64>::empty(),
            t.callbacks() == Seq::<CB>::empty(),
    {
        ComponentTree { comp_table: ComponentTable::new(), change_cbs: Vec::new() }
    }

    /// Registers a callback to run each time the tree goes from clean to dirty.
    pub fn on_first_change(&mut self, f: CB)
        ensures
            final(self).wf() == old(self).wf(),
            final(self).callbacks() == old(self).callbacks().push(f),
            final(self).next_id() == old(self).next_id(),
            final(self).parents() == old(self).parents(),
            final(self).components() == old(self).components(),
            final(self).dirty() == old(self).dirty(),
    {
        self.change_cbs.push(f);
    }

    /// The registered change callbacks, in the order of registration.
    pub fn change_callbacks(&self) -> (r: &[CB])
        ensures
            r@ == self.callbacks(),
    {
        self.change_cbs.as_slice()
    }

    /// The identifier that the next component created gets.
    pub fn peek_next_id(&self) -> (r: u64)
        ensures
            r == self.next_id(),
    {
        self.comp_table.peek_next_id()
    }

    /// Starts a new root component: reserves its identifier.
    pub fn new_component(&mut self) -> (ctx: ComponentCtx)
        requires
            old(self).wf(),
            old(self).next_id() < u64::MAX,
        ensures
            final(self).wf(),
            ctx.cid() == old(self).next_id(),
            !old(self).parents().contains_key(ctx.cid()),
            ctx.parent() == None::<u64>,
            final(self).next_id() == old(self).next_id() + 1,
            final(self).parents() == old(self).parents(),
            final(self).components() == old(self).components(),
            final(self).dirty() == old(self).dirty(),
            final(self).callbacks() == old(self).callbacks(),
    {
        proof {
            self.comp_table.lemma_wf();
        }
        let id = self.comp_table.reserve_id();
        ComponentCtx { id, parent_id: None }
    }

    /// Registers the built component of `ctx` as live, with the caller's
    /// handle to it; gives back its identifier.
    pub fn insert(&mut self, ctx: &ComponentCtx, c: W) -> (r: u64)
        requires
            old(self).wf(),
            ctx.cid() < old(self).next_id(),
        ensures
            final(self).wf(),
            r == ctx.cid(),
            final(self).next_id() == old(self).next_id(),
            final(self).parents() == old(self).parents().insert(ctx.cid(), ctx.parent()),
            final(self).components() == old(self).components().insert(ctx.cid(), c),
            final(self).dirty() == old(self).dirty(),
            final(self).callbacks() == old(self).callbacks(),
    {
        proof {
            use_type_invariant(ctx);
        }
        self.comp_table.insert(ctx.id, ctx.parent_id, c)
    }

    /// Forgets the component `cid`, which has gone away.
    pub fn destroy(&mut self, cid: u64)
        requires
            old(self).wf(),
        ensures
            final(self).wf(),
            final(self).next_id() == old(self).next_id(),
            final(self).parents() == old(self).parents().remove(cid),
            final(self).components() == old(self).components().remove(cid),
            final(self).dirty() == old(self).dirty().remove(cid),
            final(self).callbacks() == old(self).callbacks(),
    {
        self.comp_table.destroy(cid)
    }

    /// The caller's handle to the live component `cid`.
    pub fn get(&self, cid: u64) -> (r: Option<&W>)
        ensures
            match r {
                Some(c) => self.components().contains_key(cid) && *c == self.components()[cid],
                None => !self.components().contains_key(cid),
            },
    {
        self.comp_table.get(cid)
    }

    /// No component is marked as changed.
    pub fn is_clean(&self) -> (r: bool)
        ensures
            r == self.dirty().is_empty(),
    {
        self.comp_table.is_clean()
    }

    /// Starts a round of rebuilds: takes every change mark and gives back the
    /// components to rebuild, in the order to rebuild them. These are every
    /// component that was marked as changed and every ancestor of one, each
    /// once, oldest first (so every parent comes before its children). The
    /// tree is clean afterwards, so a change made while the components are
    /// being rebuilt is kept for the next round.
    pub fn exec_rebuilds(&mut self) -> (order: Vec<u64>)
        requires
            old(self).wf(),
        ensures
            final(self).wf(),
            strictly_ascending(order@),
            forall|i: int, j: int| 0 <= i < j < order@.len() ==> order@[i] < order@[j],
            forall|x: u64| order@.contains(x) <==> rebuild_set(old(self).parents(), old(self).dirty()).contains(x),
            forall|x: u64| old(self).dirty().contains(x) ==> order@.contains(x),
            forall|i: int| 0 <= i < order@.len() ==> match parent_of(old(self).parents(), #[trigger] order@[i]) {
                Some(p) => exists|j: int| 0 <= j < i && order@[j] == p,
                None => true,
            },
            forall|i: int| 0 <= i < order@.len() && old(self).parents().contains_key(#[trigger] order@[i])
                && old(self).parents()[order@[i]] is Some
                ==> exists|j: int| 0 <= j < i && order@[j] == old(self).parents()[order@[i]].unwrap(),
            final(self).dirty() == Set::<u64>::empty(),
            final(self).next_id() == old(self).next_id(),
            final(self).parents() == old(self).parents(),
            final(self).components() == old(self).components(),
            final(self).callbacks() == old(self).callbacks(),
    {
        let ghost parents = self.parents();
        let ghost dirty = self.dirty();
        proof {
            self.lemma_wf();
            lemma_level_zero(parents, dirty);
        }
        let mut all_dirty: BTreeSet<u64> = BTreeSet::new();
        let mut new_dirty: Vec<u64> = self.comp_table.dirty_ids();
        let ghost mut k: nat = 0;
        let ghost mut bound: int = u64::MAX + 1;
        while new_dirty.len() > 0
            invariant
                self.wf(),
                parents == self.parents(),
                dirty == self.dirty(),
                parents_precede(parents),
                forall|x: u64| new_dirty@.contains(x) <==> in_level(parents, dirty, k, x),
                forall|x: u64| all_dirty@.contains(x) <==> in_below(parents, dirty, k, x),
                forall|t: int| 0 <= t < new_dirty@.len() ==> new_dirty@[t] < bound,
                bound >= 0,
            decreases bound,
        {
            assert(new_dirty@[0] < bound);
            let mut dirty_parents: Vec<u64> = Vec::new();
            let mut i: usize = 0;
            while i < new_dirty.len()
                invariant
                    parents == self.parents(),
                    parents_precede(parents),
                    0 <= i <= new_dirty.len(),
                    forall|x: u64| dirty_parents@.contains(x) <==> exists|j: int|
                        0 <= j < i && parent_of(parents, #[trigger] new_dirty@[j]) == Some(x),
                    forall|x: u64| all_dirty@.contains(x) <==> (in_below(parents, dirty, k, x) || exists|j: int|
                        0 <= j < i && #[trigger] new_dirty@[j] == x),
                    forall|t: int| 0 <= t < new_dirty@.len() ==> new_dirty@[t] < bound,
                    forall|t: int| 0 <= t < dirty_parents@.len() ==> dirty_parents@[t] < bound - 1,
                decreases new_dirty.len() - i,
            {
                let cid = new_dirty[i];
                let ghost old_parents = dirty_parents@;
                let ghost old_all = all_dirty@;
                match self.comp_table.parent_of(cid) {
                    Some(p) => {
                        dirty_parents.push(p);
                    },
                    None => {},
                }
                all_dirty.insert(cid);
                proof {
                    let pc = parent_of(parents, new_dirty@[i as int]);
                    assert(dirty_parents@ == match pc {
                        Some(p) => old_parents.push(p),
                        None => old_parents,
                    });
                    assert forall|x: u64| dirty_parents@.contains(x) <==> exists|j: int|
                        0 <= j < i + 1 && parent_of(parents, #[trigger] new_dirty@[j]) == Some(x) by {
                        if dirty_parents@.contains(x) {
                            if !old_parents.contains(x) {
                                let t = choose|t: int| 0 <= t < dirty_parents@.len() && dirty_parents@[t] == x;
                                assert(t == old_parents.len());
                                assert(parent_of(parents, new_dirty@[i as int]) == Some(x));
                            } else {
                                let j = choose|j: int| 0 <= j < i && parent_of(parents, #[trigger] new_dirty@[j]) == Some(x);
                                assert(0 <= j < i + 1);
                            }
                        }
                        if exists|j: int| 0 <= j < i + 1 && parent_of(parents, #[trigger] new_dirty@[j]) == Some(x) {
                            let j = choose|j: int| 0 <= j < i + 1 && parent_of(parents, #[trigger] new_dirty@[j]) == Some(x);
                            if j < i {
                                assert(old_parents.contains(x));
                                let t = choose|t: int| 0 <= t < old_parents.len() && old_parents[t] == x;
                                assert(dirty_parents@[t] == x);
                            } else {
                                assert(dirty_parents@[dirty_parents@.len() - 1] == x);
                            }
                        }
                    }
                    assert forall|x: u64| all_dirty@.contains(x) <==> (in_below(parents, dirty, k, x) || exists|j: int|
                        0 <= j < i + 1 && #[trigger] new_dirty@[j] == x) by {
                        if exists|j: int| 0 <= j < i + 1 && #[trigger] new_dirty@[j] == x {
                            let j = choose|j: int| 0 <= j < i + 1 && #[trigger] new_dirty@[j] == x;
                            if j < i {
                                assert(old_all.contains(x));
                            }
                        }
                    }
                }
                i = i + 1;
            }
            proof {
                lemma_next_level(parents, dirty, k, k + 1);
                lemma_next_below(parents, dirty, k, k + 1);
                assert forall|x: u64| dirty_parents@.contains(x) <==> in_level(parents, dirty, k + 1, x) by {
                    if dirty_parents@.contains(x) {
                        let j = choose|j: int| 0 <= j < i && parent_of(parents, #[trigger] new_dirty@[j]) == Some(x);
                        assert(new_dirty@.contains(new_dirty@[j]));
                        assert(in_level(parents, dirty, k, new_dirty@[j]));
                    }
                    if in_level(parents, dirty, k + 1, x) {
                        let c = choose|c: u64| #![trigger parent_of(parents, c)] in_level(parents, dirty, k, c) && parent_of(parents, c) == Some(x);
                        assert(new_dirty@.contains(c));
                        let j = choose|j: int| 0 <= j < new_dirty@.len() && new_dirty@[j] == c;
                        assert(parent_of(parents, new_dirty@[j]) == Some(x));
                    }
                }
                assert forall|x: u64| all_dirty@.contains(x) <==> in_below(parents, dirty, k + 1, x) by {
                    if in_level(parents, dirty, k, x) {
                        assert(new_dirty@.contains(x));
                        let j = choose|j: int| 0 <= j < new_dirty@.len() && new_dirty@[j] == x;
                        assert(new_dirty@[j] == x);
                    }
                    if exists|j: int| 0 <= j < i && #[trigger] new_dirty@[j] == x {
                        let j = choose|j: int| 0 <= j < i && #[trigger] new_dirty@[j] == x;
                        assert(new_dirty@.contains(x));
                    }
                }
            }
            new_dirty = dirty_parents;
            proof {
                k = k + 1;
                bound = bound - 1;
            }
        }
        proof {
            assert forall|x: u64| !in_level(parents, dirty, k, x) by {
                if in_level(parents, dirty, k, x) {
                    assert(new_dirty@.contains(x));
                }
            }
            lemma_below_is_all(parents, dirty, k);
        }
        let order = ascending_ids(&all_dirty);
        proof {
            assert forall|x: u64| order@.contains(x) <==> rebuild_set(parents, dirty).contains(x) by {
                if order@.contains(x) {
                    assert(is_dirty_or_ancestor(parents, dirty, x));
                }
            }
            lemma_rebuild_order(parents, dirty, order@);
            assert forall|i: int| 0 <= i < order@.len() && parents.contains_key(#[trigger] order@[i])
                && parents[order@[i]] is Some
                implies exists|j: int| 0 <= j < i && order@[j] == parents[order@[i]].unwrap() by {
                lemma_parent_of_reads_stored_parent(parents, order@[i]);
            }
        }
        self.comp_table.clear_dirty();
        order
    }
}

impl ComponentCtx {
    /// Starts a new component, child of this one: reserves its identifier.
    pub fn create_child<W, CB>(&self, tree: &mut ComponentTree<W, CB>) -> (ctx: ComponentCtx)
        requires
            old(tree).wf(),
            self.cid() < old(tree).next_id(),
            old(tree).next_id() < u64::MAX,
        ensures
            final(tree).wf(),
            ctx.cid() == old(tree).next_id(),
            !old(tree).parents().contains_key(ctx.cid()),
            ctx.parent() == Some(self.cid()),
            final(tree).next_id() == old(tree).next_id() + 1,
            final(tree).parents() == old(tree).parents(),
            final(tree).components() == old(tree).components(),
            final(tree).dirty() == old(tree).dirty(),
            final(tree).callbacks() == old(tree).callbacks(),
    {
        proof {
            tree.comp_table.lemma_wf();
        }
        let id = tree.comp_table.reserve_id();
        ComponentCtx { id, parent_id: Some(self.id) }
    }

    /// Records that this component's model is about to be changed: marks it
    /// as changed, and answers whether the tree was clean before, that is,
    /// whether the change callbacks are due.
    pub fn with_model_mut<W, CB>(&self, tree: &mut ComponentTree<W, CB>) -> (was_clean: bool)
        requires
            old(tree).wf(),
        ensures
            final(tree).wf(),
            was_clean == old(tree).dirty().is_empty(),
            final(tree).dirty() == old(tree).dirty().insert(self.cid()),
            !final(tree).dirty().is_empty(),
            final(tree).next_id() == old(tree).next_id(),
            final(tree).parents() == old(tree).parents(),
            final(tree).components() == old(tree).components(),
            final(tree).callbacks() == old(tree).callbacks(),
    {
        let was_clean = tree.comp_table.is_clean();
        tree.comp_table.mark_dirty(self.id);
        assert(final(tree).dirty().contains(self.cid()));
        was_clean
    }
}

} // verus!
