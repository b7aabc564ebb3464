use vstd::prelude::*;

verus! {

/// The parent of `id` in the parent relation `parents`, if `id` is
/// registered there and has a parent.
pub open spec fn parent_of(parents: Map<u64, Option<u64>>, id: u64) -> Option<u64> {
    if parents.contains_key(id) {
        parents[id]
    } else {
        None
    }
}

/// The `n`-th ancestor of `id` (`id` itself for `n == 0`), if the chain of
/// parents is that long.
pub open spec fn ancestor_at(parents: Map<u64, Option<u64>>, id: u64, n: nat) -> Option<u64>
    decreases n,
{
    if n == 0 {
        Some(id)
    } else {
        match ancestor_at(parents, id, (n - 1) as nat) {
            Some(x) => parent_of(parents, x),
            None => None,
        }
    }
}

/// `x` is one of the components in `dirty` or an ancestor of one of them.
pub open spec fn is_dirty_or_ancestor(parents: Map<u64, Option<u64>>, dirty: Set<u64>, x: u64) -> bool {
    exists|d: u64, n: nat| dirty.contains(d) && #[trigger] ancestor_at(parents, d, n) == Some(x)
}

/// Every component that has to be rebuilt: the dirty components and all
/// their ancestors.
pub open spec fn rebuild_set(parents: Map<u64, Option<u64>>, dirty: Set<u64>) -> Set<u64> {
    Set::new(|x: u64| is_dirty_or_ancestor(parents, dirty, x))
}

/// Every registered component's parent has a smaller identifier.
pub open spec fn parents_precede(parents: Map<u64, Option<u64>>) -> bool {
    forall|id: u64| #[trigger] parents.contains_key(id) ==> match parents[id] {
        Some(p) => p < id,
        None => true,
    }
}

/// The sequence is strictly increasing.
pub open spec fn strictly_ascending(s: Seq<u64>) -> bool {
    forall|i: int, j: int| 0 <= i < j < s.len() ==> s[i] < s[j]
}

} // verus!

verus! {

/// `x` is reached from a dirty component by exactly `k` parent steps.
pub open spec fn in_level(parents: Map<u64, Option<u64>>, dirty: Set<u64>, k: nat, x: u64) -> bool {
    exists|d: u64| dirty.contains(d) && #[trigger] ancestor_at(parents, d, k) == Some(x)
}

/// `x` is reached from a dirty component by fewer than `k` parent steps.
pub open spec fn in_below(parents: Map<u64, Option<u64>>, dirty: Set<u64>, k: nat, x: u64) -> bool {
    exists|d: u64, j: nat| dirty.contains(d) && j < k && #[trigger] ancestor_at(parents, d, j) == Some(x)
}

/// Once the chain of parents has ended, it stays ended.
pub(crate) proof fn lemma_ancestor_none_stays(parents: Map<u64, Option<u64>>, d: u64, k: nat, n: nat)
    requires
        k <= n,
        ancestor_at(parents, d, k) is None,
    ensures
        ancestor_at(parents, d, n) is None,
    decreases n - k,
{
    if n > k {
        lemma_ancestor_none_stays(parents, d, k, (n - 1) as nat);
    }
}

/// Level 0 is the set of dirty components.
pub(crate) proof fn lemma_level_zero(parents: Map<u64, Option<u64>>, dirty: Set<u64>)
    ensures
        forall|x: u64| in_level(parents, dirty, 0, x) <==> dirty.contains(x),
        forall|x: u64| !in_below(parents, dirty, 0, x),
{
    assert forall|x: u64| dirty.contains(x) implies in_level(parents, dirty, 0, x) by {
        assert(ancestor_at(parents, x, 0) == Some(x));
    }
}

/// Level `k + 1` is the set of parents of level `k`.
pub(crate) proof fn lemma_next_level(parents: Map<u64, Option<u64>>, dirty: Set<u64>, k: nat, k1: nat)
    requires
        k1 == k + 1,
    ensures
        forall|x: u64| in_level(parents, dirty, k1, x) <==> exists|c: u64|
            #![trigger parent_of(parents, c)]
            in_level(parents, dirty, k, c) && parent_of(parents, c) == Some(x),
{
    assert forall|x: u64| in_level(parents, dirty, k1, x) implies exists|c: u64|
        #![trigger parent_of(parents, c)]
        in_level(parents, dirty, k, c) && parent_of(parents, c) == Some(x) by {
        let d = choose|d: u64| dirty.contains(d) && #[trigger] ancestor_at(parents, d, k1) == Some(x);
        let c = ancestor_at(parents, d, k).unwrap();
        assert(in_level(parents, dirty, k, c));
        assert(parent_of(parents, c) == Some(x));
    }
    assert forall|x: u64| (exists|c: u64|
        #![trigger parent_of(parents, c)]
        in_level(parents, dirty, k, c) && parent_of(parents, c) == Some(x)) implies in_level(parents, dirty, k1, x) by {
        let c = choose|c: u64| #![trigger parent_of(parents, c)] in_level(parents, dirty, k, c) && parent_of(parents, c) == Some(x);
        let d = choose|d: u64| dirty.contains(d) && #[trigger] ancestor_at(parents, d, k) == Some(c);
        assert(ancestor_at(parents, d, k1) == Some(x));
    }
}

/// Fewer than `k1` steps: fewer than `k`, or exactly `k`.
pub(crate) proof fn lemma_next_below(parents: Map<u64, Option<u64>>, dirty: Set<u64>, k: nat, k1: nat)
    requires
        k1 == k + 1,
    ensures
        forall|x: u64| in_below(parents, dirty, k1, x) <==> (in_below(parents, dirty, k, x) || in_level(parents, dirty, k, x)),
{
    assert forall|x: u64| in_below(parents, dirty, k1, x) implies (in_below(parents, dirty, k, x) || in_level(parents, dirty, k, x)) by {
        let (d, j) = choose|d: u64, j: nat| dirty.contains(d) && j < k1 && #[trigger] ancestor_at(parents, d, j) == Some(x);
        if j < k {
            assert(in_below(parents, dirty, k, x));
        } else {
            assert(in_level(parents, dirty, k, x));
        }
    }
    assert forall|x: u64| (in_below(parents, dirty, k, x) || in_level(parents, dirty, k, x)) implies in_below(parents, dirty, k1, x) by {
        if in_below(parents, dirty, k, x) {
            let (d, j) = choose|d: u64, j: nat| dirty.contains(d) && j < k && #[trigger] ancestor_at(parents, d, j) == Some(x);
            assert(ancestor_at(parents, d, j) == Some(x));
        } else {
            let d = choose|d: u64| dirty.contains(d) && #[trigger] ancestor_at(parents, d, k) == Some(x);
            assert(ancestor_at(parents, d, k) == Some(x));
        }
    }
}

/// When level `k` is empty, fewer than `k` steps reach every ancestor.
pub(crate) proof fn lemma_below_is_all(parents: Map<u64, Option<u64>>, dirty: Set<u64>, k: nat)
    requires
        forall|x: u64| !in_level(parents, dirty, k, x),
    ensures
        forall|x: u64| in_below(parents, dirty, k, x) <==> is_dirty_or_ancestor(parents, dirty, x),
{
    assert forall|x: u64| is_dirty_or_ancestor(parents, dirty, x) implies in_below(parents, dirty, k, x) by {
        let (d, n) = choose|d: u64, n: nat| dirty.contains(d) && #[trigger] ancestor_at(parents, d, n) == Some(x);
        if n >= k {
            match ancestor_at(parents, d, k) {
                Some(y) => {
                    assert(in_level(parents, dirty, k, y));
                },
                None => {
                    lemma_ancestor_none_stays(parents, d, k, n);
                },
            }
        }
        assert(ancestor_at(parents, d, n) == Some(x));
    }
    assert forall|x: u64| in_below(parents, dirty, k, x) implies is_dirty_or_ancestor(parents, dirty, x) by {
        let (d, j) = choose|d: u64, j: nat| dirty.contains(d) && j < k && #[trigger] ancestor_at(parents, d, j) == Some(x);
        assert(ancestor_at(parents, d, j) == Some(x));
    }
}


/// In an order that lists the components to rebuild oldest first, every
/// dirty component is listed, and every listed component's parent is
/// listed before it.
pub proof fn lemma_rebuild_order(parents: Map<u64, Option<u64>>, dirty: Set<u64>, order: Seq<u64>)
    requires
        parents_precede(parents),
        strictly_ascending(order),
        forall|x: u64| order.contains(x) <==> rebuild_set(parents, dirty).contains(x),
    ensures
        forall|x: u64| dirty.contains(x) ==> order.contains(x),
        forall|i: int| 0 <= i < order.len() ==> match parent_of(parents, #[trigger] order[i]) {
            Some(p) => exists|j: int| 0 <= j < i && order[j] == p,
            None => true,
        },
{
    assert forall|x: u64| dirty.contains(x) implies order.contains(x) by {
        assert(ancestor_at(parents, x, 0) == Some(x));
        assert(rebuild_set(parents, dirty).contains(x));
    }
    assert forall|i: int| 0 <= i < order.len() && parent_of(parents, #[trigger] order[i]) is Some
        implies exists|j: int| 0 <= j < i && order[j] == parent_of(parents, order[i]).unwrap() by {
        let c = order[i];
        let p = parent_of(parents, c).unwrap();
        assert(order.contains(c));
        assert(rebuild_set(parents, dirty).contains(c));
        let (d, n) = choose|d: u64, n: nat| dirty.contains(d) && #[trigger] ancestor_at(parents, d, n) == Some(c);
        assert(ancestor_at(parents, d, n + 1) == Some(p));
        assert(rebuild_set(parents, dirty).contains(p));
        assert(order.contains(p));
        let j = choose|j: int| 0 <= j < order.len() && order[j] == p;
        assert(parents.contains_key(c));
        assert(p < c);
        assert(j < i);
    }
}


/// A changed component is rebuilt, and so is every one of its ancestors.
pub proof fn lemma_changed_is_rebuilt(parents: Map<u64, Option<u64>>, dirty: Set<u64>, id: u64, n: nat)
    requires
        dirty.contains(id),
    ensures
        rebuild_set(parents, dirty).contains(id),
        ancestor_at(parents, id, n) matches Some(a) ==> rebuild_set(parents, dirty).contains(a),
{
    assert(ancestor_at(parents, id, 0) == Some(id));
    assert(is_dirty_or_ancestor(parents, dirty, id));
    if let Some(a) = ancestor_at(parents, id, n) {
        assert(is_dirty_or_ancestor(parents, dirty, a));
    }
}


/// The parent lookup gives exactly the parent recorded for a registered
/// component, and nothing for an unregistered one.
pub proof fn lemma_parent_of_reads_stored_parent(parents: Map<u64, Option<u64>>, id: u64)
    ensures
        parents.contains_key(id) ==> parent_of(parents, id) == parents[id],
        !parents.contains_key(id) ==> parent_of(parents, id) is None,
{
}

/// The components to rebuild are closed under the recorded parent: the
/// recorded parent of a component to rebuild is rebuilt too.
pub proof fn lemma_rebuild_set_closed(parents: Map<u64, Option<u64>>, dirty: Set<u64>, x: u64)
    requires
        rebuild_set(parents, dirty).contains(x),
        parents.contains_key(x),
        parents[x] is Some,
    ensures
        rebuild_set(parents, dirty).contains(parents[x].unwrap()),
{
    let (d, n) = choose|d: u64, n: nat| dirty.contains(d) && #[trigger] ancestor_at(parents, d, n) == Some(x);
    assert(ancestor_at(parents, d, n + 1) == parents[x]);
    assert(is_dirty_or_ancestor(parents, dirty, parents[x].unwrap()));
}

/// Every ancestor of a member of a set that holds its members' recorded
/// parents is in that set.
proof fn lemma_closed_set_holds_ancestors(parents: Map<u64, Option<u64>>, s: Set<u64>, d: u64, n: nat)
    requires
        s.contains(d),
        forall|x: u64| #![trigger s.contains(x), parents.contains_key(x)]
            s.contains(x) && parents.contains_key(x) && parents[x] is Some ==> s.contains(parents[x].unwrap()),
    ensures
        ancestor_at(parents, d, n) matches Some(a) ==> s.contains(a),
    decreases n,
{
    if n > 0 {
        lemma_closed_set_holds_ancestors(parents, s, d, (n - 1) as nat);
    }
}

/// The components to rebuild form the least set that holds every changed
/// component and the recorded parent of each of its members.
pub proof fn lemma_rebuild_set_least(parents: Map<u64, Option<u64>>, dirty: Set<u64>, s: Set<u64>)
    requires
        forall|d: u64| dirty.contains(d) ==> s.contains(d),
        forall|x: u64| #![trigger s.contains(x), parents.contains_key(x)]
            s.contains(x) && parents.contains_key(x) && parents[x] is Some ==> s.contains(parents[x].unwrap()),
    ensures
        forall|x: u64| rebuild_set(parents, dirty).contains(x) ==> s.contains(x),
{
    assert forall|x: u64| rebuild_set(parents, dirty).contains(x) implies s.contains(x) by {
        let (d, n) = choose|d: u64, n: nat| dirty.contains(d) && #[trigger] ancestor_at(parents, d, n) == Some(x);
        lemma_closed_set_holds_ancestors(parents, s, d, n);
    }
}

} // verus!
