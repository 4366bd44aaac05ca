use vstd::multiset::Multiset;
use vstd::prelude::*;

verus! {

#[derive(Debug, PartialEq, Eq, Structural, Clone, Copy)]
pub enum Color {
    Red,
    Black,
}

/// A tree node: a key, a color and two owned child slots.
pub struct RbTreeNode {
    pub val: i32,
    pub color: Color,
    pub left: Option<Box<RbTreeNode>>,
    pub right: Option<Box<RbTreeNode>>,
}

/// A child slot: empty, or owning a subtree.
pub type Link = Option<Box<RbTreeNode>>;

/// The keys of a subtree, counted with multiplicity.
pub open spec fn mset(t: Link) -> Multiset<i32>
    decreases t,
{
    match t {
        None => Multiset::empty(),
        Some(n) => mset(n.left).add(mset(n.right)).insert(n.val),
    }
}

/// The keys of a subtree in in-order.
pub open spec fn keys(t: Link) -> Seq<i32>
    decreases t,
{
    match t {
        None => Seq::empty(),
        Some(n) => keys(n.left) + seq![n.val] + keys(n.right),
    }
}

/// Search-tree order: left keys are at most the node's key, right keys at least.
pub open spec fn bst(t: Link) -> bool
    decreases t,
{
    match t {
        None => true,
        Some(n) => {
            &&& bst(n.left)
            &&& bst(n.right)
            &&& forall|k: i32| #[trigger] mset(n.left).contains(k) ==> k <= n.val
            &&& forall|k: i32| #[trigger] mset(n.right).contains(k) ==> n.val <= k
        },
    }
}

/// An empty slot counts as black.
pub open spec fn is_red(t: Link) -> bool {
    match t {
        None => false,
        Some(n) => n.color == Color::Red,
    }
}

pub open spec fn black_count(c: Color) -> nat {
    if c == Color::Black {
        1
    } else {
        0
    }
}

/// Black nodes on the leftmost path below the root, the root included.
pub open spec fn bh(t: Link) -> nat
    decreases t,
{
    match t {
        None => 0,
        Some(n) => bh(n.left) + black_count(n.color),
    }
}

/// No red node has a red child, and both sides of every node hold the
/// same number of black nodes on every path.
pub open spec fn rb(t: Link) -> bool
    decreases t,
{
    match t {
        None => true,
        Some(n) => {
            &&& rb(n.left)
            &&& rb(n.right)
            &&& bh(n.left) == bh(n.right)
            &&& (n.color == Color::Red ==> !is_red(n.left) && !is_red(n.right))
        },
    }
}

/// Left rotation around `p`: its right child rises into its place.
pub open spec fn rotl(p: RbTreeNode) -> RbTreeNode
    recommends
        p.right is Some,
{
    let q = p.right.unwrap();
    RbTreeNode {
        val: q.val,
        color: q.color,
        left: Some(Box::new(RbTreeNode { val: p.val, color: p.color, left: p.left, right: q.left })),
        right: q.right,
    }
}

/// Right rotation around `p`: its left child rises into its place.
pub open spec fn rotr(p: RbTreeNode) -> RbTreeNode
    recommends
        p.left is Some,
{
    let q = p.left.unwrap();
    RbTreeNode {
        val: q.val,
        color: q.color,
        left: q.left,
        right: Some(Box::new(RbTreeNode { val: p.val, color: p.color, left: q.right, right: p.right })),
    }
}

pub proof fn lemma_rotl(p: RbTreeNode)
    requires
        p.right is Some,
    ensures
        mset(Some(Box::new(rotl(p)))) =~= mset(Some(Box::new(p))),
        bst(Some(Box::new(p))) ==> bst(Some(Box::new(rotl(p)))),
{
    let q = p.right.unwrap();
    let l = RbTreeNode { val: p.val, color: p.color, left: p.left, right: q.left };
    assert(mset(Some(Box::new(l))) == mset(p.left).add(mset(q.left)).insert(p.val));
    assert(mset(p.right) == mset(q.left).add(mset(q.right)).insert(q.val));
    if bst(Some(Box::new(p))) {
        assert(bst(p.right));
        assert(p.val <= q.val) by {
            assert(mset(p.right).contains(q.val));
        }
        assert forall|k: i32| #[trigger] mset(Some(Box::new(l))).contains(k) implies k <= q.val by {
            if mset(p.left).contains(k) {
            } else if mset(q.left).contains(k) {
            }
        }
        assert forall|k: i32| #[trigger] mset(q.left).contains(k) implies p.val <= k by {
            assert(mset(p.right).contains(k));
        }
        assert(bst(Some(Box::new(l))));
    }
}

pub proof fn lemma_rotr(p: RbTreeNode)
    requires
        p.left is Some,
    ensures
        mset(Some(Box::new(rotr(p)))) =~= mset(Some(Box::new(p))),
        bst(Some(Box::new(p))) ==> bst(Some(Box::new(rotr(p)))),
{
    let q = p.left.unwrap();
    let r = RbTreeNode { val: p.val, color: p.color, left: q.right, right: p.right };
    assert(mset(Some(Box::new(r))) == mset(q.right).add(mset(p.right)).insert(p.val));
    assert(mset(p.left) == mset(q.left).add(mset(q.right)).insert(q.val));
    if bst(Some(Box::new(p))) {
        assert(bst(p.left));
        assert(q.val <= p.val) by {
            assert(mset(p.left).contains(q.val));
        }
        assert forall|k: i32| #[trigger] mset(Some(Box::new(r))).contains(k) implies q.val <= k by {
            if mset(p.right).contains(k) {
            } else if mset(q.right).contains(k) {
            }
        }
        assert forall|k: i32| #[trigger] mset(q.right).contains(k) implies k <= p.val by {
            assert(mset(p.left).contains(k));
        }
        assert(bst(Some(Box::new(r))));
    }
}

/// The node `n` with its color set to `c`.
pub open spec fn recolored(n: RbTreeNode, c: Color) -> RbTreeNode {
    RbTreeNode { color: c, ..n }
}

pub proof fn lemma_recolor(n: RbTreeNode, c: Color)
    ensures
        mset(Some(Box::new(recolored(n, c)))) == mset(Some(Box::new(n))),
        bst(Some(Box::new(recolored(n, c)))) == bst(Some(Box::new(n))),
        rb_below(recolored(n, c)) == rb_below(n),
{
}

/// Both children are valid and hold the same number of black nodes; the
/// node's own color is not looked at.
pub open spec fn rb_below(n: RbTreeNode) -> bool {
    &&& rb(n.left)
    &&& rb(n.right)
    &&& bh(n.left) == bh(n.right)
}

pub proof fn lemma_bh_le_size(t: Link)
    ensures
        bh(t) <= mset(t).len(),
    decreases t,
{
    if let Some(n) = t {
        lemma_bh_le_size(n.left);
    }
}

/// Ascending order, equal neighbours allowed.
pub open spec fn sorted(s: Seq<i32>) -> bool {
    forall|i: int, j: int| 0 <= i < j < s.len() ==> s[i] <= s[j]
}

/// The in-order keys are the subtree's keys; under search order they ascend.
pub proof fn lemma_keys(t: Link)
    ensures
        keys(t).to_multiset() =~= mset(t),
        bst(t) ==> sorted(keys(t)),
    decreases t,
{
    broadcast use vstd::seq_lib::group_to_multiset_ensures;

    match t {
        None => {
            assert(keys(t).to_multiset().len() == 0);
        },
        Some(n) => {
            lemma_keys(n.left);
            lemma_keys(n.right);
            let a = keys(n.left);
            let b = keys(n.right);
            let s = keys(t);
            vstd::seq_lib::lemma_multiset_commutative(a + seq![n.val], b);
            assert(a + seq![n.val] == a.push(n.val));
            if bst(t) {
                assert forall|i: int, j: int| 0 <= i < j < s.len() implies s[i] <= s[j] by {
                    if i < a.len() {
                        assert(a.contains(a[i]));
                        assert(mset(n.left).contains(a[i]));
                    }
                    if j > a.len() {
                        let jj = j - a.len() - 1;
                        assert(b.contains(b[jj]));
                        assert(mset(n.right).contains(b[jj]));
                    }
                }
            }
        },
    }
}

impl RbTreeNode {
    pub fn new_node(val: i32, color: Color) -> (r: Box<RbTreeNode>)
        ensures
            r.val == val,
            r.color == color,
            r.left is None,
            r.right is None,
    {
        Box::new(RbTreeNode { val, color, left: None, right: None })
    }

    pub fn rotate_left(mut p: Box<RbTreeNode>) -> (r: Box<RbTreeNode>)
        requires
            p.right is Some,
        ensures
            *r == rotl(*p),
    {
        let mut q = p.right.take().unwrap();
        p.right = q.left.take();
        q.left = Some(p);
        q
    }

    pub fn rotate_right(mut p: Box<RbTreeNode>) -> (r: Box<RbTreeNode>)
        requires
            p.left is Some,
        ensures
            *r == rotr(*p),
    {
        let mut q = p.left.take().unwrap();
        p.left = q.right.take();
        q.right = Some(p);
        q
    }
}

} // verus!
