use vstd::prelude::*;
use std::collections::BTreeSet;
use vstd::std_specs::iter::IteratorSpec;
use vstd::std_specs::cmp::OrdSpec;
use crate::model::strictly_ascending;

verus! {

broadcast use {vstd::std_specs::btree::group_btree_axioms, vstd::laws_cmp::group_laws_cmp};

/// A sequence that the ordered iteration of a set gives is in increasing order.
proof fn lemma_increasing_keys<K: Ord>(s: Seq<K>)
    requires
        vstd::laws_cmp::obeys_cmp::<K>(),
        vstd::std_specs::btree::increasing_seq(s),
    ensures
        forall|i: int, j: int| #![trigger s[i], s[j]] 0 <= i < j < s.len() ==> s[i].cmp_spec(&s[j]) is Less,
{
}

/// The identifiers of `ids`, each once, in increasing order.
pub fn ascending_ids(ids: &BTreeSet<u64>) -> (v: Vec<u64>)
    ensures
        strictly_ascending(v@),
        forall|i: int, j: int| 0 <= i < j < v@.len() ==> v@[i] < v@[j],
        forall|x: u64| v@.contains(x) <==> ids@.contains(x),
{
    let mut v: Vec<u64> = Vec::new();
    let ghost keys = vstd::std_specs::btree::spec_btree_keys_iter(ids).remaining().unref();
    proof {
        assert(keys.to_set() == ids@);
        assert forall|i: int, j: int| 0 <= i < j < keys.len() implies keys[i] < keys[j] by {
            let s = vstd::std_specs::btree::spec_btree_keys_iter(ids).remaining();
            lemma_increasing_keys(s);
            assert(*s[i] < *s[j]);
        }
    }
    for id in it: ids.iter()
        invariant
            keys == it.seq().unref(),
            v.len() == it.index(),
            forall|j: int| 0 <= j < it.index() ==> v@[j] == keys[j],
    {
        v.push(*id);
    }
    proof {
        assert(v@ =~= keys);
        assert forall|x: u64| v@.contains(x) <==> ids@.contains(x) by {
            if ids@.contains(x) {
                assert(keys.to_set().contains(x));
            }
        }
    }
    v
}

} // verus!
