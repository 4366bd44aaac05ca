use crate::node::{bst, is_red, keys, lemma_keys, mset, rb, sorted, Link};
use crate::repair::{added_tree, lemma_inserted};
use crate::rb_tree::RbTree;
use vstd::multiset::Multiset;
use vstd::prelude::*;

verus! {

/// The keys held after adding the keys of `s` to `m`, first to last.
pub open spec fn added(m: Multiset<i32>, s: Seq<i32>) -> Multiset<i32>
    decreases s.len(),
{
    if s.len() == 0 {
        m
    } else {
        added(m.insert(s[0]), s.drop_first())
    }
}

/// The keys held after removing the keys of `s` from `m`, first to last.
pub open spec fn removed(m: Multiset<i32>, s: Seq<i32>) -> Multiset<i32>
    decreases s.len(),
{
    if s.len() == 0 {
        m
    } else {
        removed(m.remove(s[0]), s.drop_first())
    }
}

/// Whether each removal of a key of `s` from `m`, first to last, finds it.
pub open spec fn all_found(m: Multiset<i32>, s: Seq<i32>) -> bool
    decreases s.len(),
{
    s.len() == 0 || (m.contains(s[0]) && all_found(m.remove(s[0]), s.drop_first()))
}

proof fn lemma_added(m: Multiset<i32>, s: Seq<i32>)
    ensures
        added(m, s) =~= m.add(s.to_multiset()),
    decreases s.len(),
{
    broadcast use vstd::seq_lib::group_to_multiset_ensures;

    if s.len() > 0 {
        lemma_added(m.insert(s[0]), s.drop_first());
        assert(s =~= seq![s[0]] + s.drop_first());
        vstd::seq_lib::lemma_multiset_commutative(seq![s[0]], s.drop_first());
        assert(seq![s[0]] =~= Seq::<i32>::empty().push(s[0]));
    }
}

proof fn lemma_removed(m: Multiset<i32>, s: Seq<i32>)
    requires
        s.to_multiset().subset_of(m),
    ensures
        all_found(m, s),
        removed(m, s) =~= m.sub(s.to_multiset()),
    decreases s.len(),
{
    broadcast use vstd::seq_lib::group_to_multiset_ensures;

    if s.len() > 0 {
        let t = s.drop_first();
        assert(s =~= seq![s[0]] + t);
        vstd::seq_lib::lemma_multiset_commutative(seq![s[0]], t);
        assert(seq![s[0]] =~= Seq::<i32>::empty().push(s[0]));
        assert(s.to_multiset() =~= t.to_multiset().insert(s[0]));
        assert(m.contains(s[0]));
        assert(t.to_multiset().subset_of(m.remove(s[0])));
        lemma_removed(m.remove(s[0]), t);
    }
}

/// Adding the keys of `ins` to an empty tree and then removing the keys of
/// `rem`, which holds the same keys in any order, finds every key and
/// leaves the tree empty.
pub proof fn lemma_round_trip(ins: Seq<i32>, rem: Seq<i32>)
    requires
        rem.to_multiset() == ins.to_multiset(),
    ensures
        all_found(added(Multiset::empty(), ins), rem),
        removed(added(Multiset::empty(), ins), rem).len() == 0,
{
    lemma_added(Multiset::empty(), ins);
    lemma_removed(added(Multiset::empty(), ins), rem);
}

/// Inserting into a tree with a black root, both red-black rules and search
/// order gives a non-empty tree that keeps all three, whose in-order keys
/// ascend, and which holds one more copy of the key.
pub proof fn lemma_insert_keeps_invariants(t: Link, val: i32)
    requires
        !is_red(t),
        rb(t),
        bst(t),
    ensures
        added_tree(t, val) is Some,
        !is_red(added_tree(t, val)),
        rb(added_tree(t, val)),
        bst(added_tree(t, val)),
        sorted(keys(added_tree(t, val))),
        mset(added_tree(t, val)) =~= mset(t).insert(val),
{
    if let Some(n) = t {
        lemma_inserted(*n, val);
    }
    lemma_keys(added_tree(t, val));
}

/// In a well-formed tree the in-order keys ascend and are the keys held.
pub proof fn lemma_in_order_sorted(t: RbTree)
    requires
        t.wf(),
    ensures
        sorted(keys(t.tree())),
        keys(t.tree()).to_multiset() == t@,
{
    lemma_keys(t.tree());
}

} // verus!
