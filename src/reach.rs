//! Reachability in a store of objects: ancestry through commit parents,
//! and containment through tree entries.
use vstd::prelude::*;
use crate::object::{Object, ObjectId, TreeEntry};

verus! {

/// The parents of a commit; nothing for any other object.
pub open spec fn parent_ids(o: Object) -> Seq<ObjectId> {
    match o {
        Object::Commit { parents, .. } => parents@,
        _ => Seq::empty(),
    }
}

/// `x` is `base`, or an ancestor of it at most `n` parent links away, each
/// link read from a commit held in `store`.
pub open spec fn within(store: Map<ObjectId, Object>, base: ObjectId, x: ObjectId, n: nat) -> bool
    decreases n,
{
    x == base || (n > 0 && exists|c: ObjectId|
        #[trigger] store.contains_key(c) && parent_ids(store[c]).contains(x) && within(store, base, c, (n - 1) as nat))
}

/// The ids in `store` that are `base` or its ancestors within `depth` generations.
pub open spec fn ancestors(store: Map<ObjectId, Object>, base: ObjectId, depth: nat) -> Set<ObjectId> {
    store.dom().filter(|x: ObjectId| within(store, base, x, depth))
}

/// Reachability survives adding objects to the store.
pub proof fn lemma_within_grows(m1: Map<ObjectId, Object>, m2: Map<ObjectId, Object>, base: ObjectId, x: ObjectId, n: nat)
    requires
        m1.submap_of(m2),
        within(m1, base, x, n),
    ensures
        within(m2, base, x, n),
    decreases n,
{
    if x != base {
        let c = choose|c: ObjectId|
            #[trigger] m1.contains_key(c) && parent_ids(m1[c]).contains(x) && within(m1, base, c, (n - 1) as nat);
        lemma_within_grows(m1, m2, base, c, (n - 1) as nat);
        assert(m2.contains_key(c) && parent_ids(m2[c]).contains(x));
    }
}

/// Reachability within `n` links implies reachability within any `k >= n`.
pub proof fn lemma_within_deeper(m: Map<ObjectId, Object>, base: ObjectId, x: ObjectId, n: nat, k: nat)
    requires
        within(m, base, x, n),
        n <= k,
    ensures
        within(m, base, x, k),
    decreases n,
{
    if x != base {
        let c = choose|c: ObjectId|
            #[trigger] m.contains_key(c) && parent_ids(m[c]).contains(x) && within(m, base, c, (n - 1) as nat);
        lemma_within_deeper(m, base, c, (n - 1) as nat, (k - 1) as nat);
        assert(m.contains_key(c) && parent_ids(m[c]).contains(x) && within(m, base, c, (k - 1) as nat));
    }
}

/// The ids a tree's entries point at, in declared order; nothing for any
/// other object.
pub open spec fn entry_ids(o: Object) -> Seq<ObjectId> {
    match o {
        Object::Tree { entries } => entries@.map_values(|e: TreeEntry| e.id),
        _ => Seq::empty(),
    }
}

/// `x` is `base`, or is reached from it through at most `n` tree entries,
/// each read from a tree held in `store`.
pub open spec fn tree_reach(store: Map<ObjectId, Object>, base: ObjectId, x: ObjectId, n: nat) -> bool
    decreases n,
{
    x == base || (n > 0 && exists|t: ObjectId|
        #[trigger] store.contains_key(t) && entry_ids(store[t]).contains(x) && tree_reach(store, base, t, (n - 1) as nat))
}

/// `x` is `base` or lies somewhere beneath it in the trees of `store`.
pub open spec fn peeled_from(store: Map<ObjectId, Object>, base: ObjectId, x: ObjectId) -> bool {
    exists|n: nat| tree_reach(store, base, x, n)
}

/// Tree reachability survives adding objects to the store.
pub proof fn lemma_tree_reach_grows(m1: Map<ObjectId, Object>, m2: Map<ObjectId, Object>, base: ObjectId, x: ObjectId, n: nat)
    requires
        m1.submap_of(m2),
        tree_reach(m1, base, x, n),
    ensures
        tree_reach(m2, base, x, n),
    decreases n,
{
    if x != base {
        let t = choose|t: ObjectId|
            #[trigger] m1.contains_key(t) && entry_ids(m1[t]).contains(x) && tree_reach(m1, base, t, (n - 1) as nat);
        lemma_tree_reach_grows(m1, m2, base, t, (n - 1) as nat);
        assert(m2.contains_key(t) && entry_ids(m2[t]).contains(x));
    }
}

/// Lying beneath the base survives adding objects to the store.
pub proof fn lemma_peeled_grows(m1: Map<ObjectId, Object>, m2: Map<ObjectId, Object>, base: ObjectId, x: ObjectId)
    requires
        m1.submap_of(m2),
        peeled_from(m1, base, x),
    ensures
        peeled_from(m2, base, x),
{
    let n = choose|n: nat| tree_reach(m1, base, x, n);
    lemma_tree_reach_grows(m1, m2, base, x, n);
}

} // verus!
