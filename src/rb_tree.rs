use crate::node::{
    bh, bst, is_red, keys, lemma_bh_le_size, lemma_keys, lemma_recolor, mset, rb, recolored, sorted, Color,
    Link, RbTreeNode,
};
use crate::pos::Pos;
use crate::repair::{
    child, del_ok, fix_insert_pre, fix_remove_post, fix_remove_pre, ins_ok,
    lemma_fix_ins, lemma_inserted, lemma_rm_black_nephews, lemma_rm_inner_left, lemma_rm_inner_right,
    lemma_rm_outer_left, lemma_rm_outer_right, lemma_rm_red_sibling_left_post,
    lemma_rm_red_sibling_left_pre, lemma_rm_red_sibling_right_post,
    lemma_rm_red_sibling_right_pre, other, added_tree, fix_ins, inserted, rm_black_nephews, rm_inner_left,
    rm_inner_right, rm_outer_left, rm_outer_right,
};
use vstd::multiset::Multiset;
use vstd::prelude::*;

verus! {

fn link_is_red(t: &Link) -> (r: bool)
    ensures
        r == is_red(*t),
{
    match t {
        None => false,
        Some(n) => n.color == Color::Red,
    }
}

/// The first broken rule that the validator meets, with the key of the node
/// where it shows. A double red gives that node's depth (the root at 0); a
/// black-height mismatch gives the depth of the two subtrees compared, one
/// more than the node's, with their black heights.
#[derive(Debug, PartialEq, Eq, Structural, Clone, Copy)]
pub enum Violation {
    RedRoot,
    DoubleRed { key: i32, level: usize },
    BlackHeight { key: i32, level: usize, left: usize, right: usize },
}

/// The first broken rule that a check meets when it looks at a node before
/// its children and at the left child before the right; `level` is the
/// depth of the subtree's root.
pub open spec fn first_violation(t: Link, level: nat) -> Option<Violation>
    decreases t,
{
    match t {
        None => None,
        Some(n) => if n.color == Color::Red && (is_red(n.left) || is_red(n.right)) {
            Some(Violation::DoubleRed { key: n.val, level: level as usize })
        } else if first_violation(n.left, level + 1) is Some {
            first_violation(n.left, level + 1)
        } else if first_violation(n.right, level + 1) is Some {
            first_violation(n.right, level + 1)
        } else if bh(n.left) != bh(n.right) {
            Some(
                Violation::BlackHeight {
                    key: n.val,
                    level: (level + 1) as usize,
                    left: bh(n.left) as usize,
                    right: bh(n.right) as usize,
                },
            )
        } else {
            None
        },
    }
}

/// A subtree breaks no rule exactly when its first broken rule is missing;
/// that rule is never a red root.
pub proof fn lemma_first_violation(t: Link, level: nat)
    ensures
        first_violation(t, level) is None <==> rb(t),
        first_violation(t, level) != Some(Violation::RedRoot),
    decreases t,
{
    if let Some(n) = t {
        lemma_first_violation(n.left, level + 1);
        lemma_first_violation(n.right, level + 1);
    }
}

/// A red-black tree of `i32` keys; equal keys are kept side by side.
pub struct RbTree {
    root: Link,
    len: usize,
}

impl View for RbTree {
    type V = Multiset<i32>;

    /// The keys held, with multiplicity.
    open spec fn view(&self) -> Multiset<i32> {
        mset(self.tree())
    }
}

impl RbTree {
    pub closed spec fn tree(self) -> Link {
        self.root
    }

    pub closed spec fn count(self) -> usize {
        self.len
    }

    /// The red-black invariants, search order, and a count that matches.
    pub open spec fn wf(self) -> bool {
        &&& !is_red(self.tree())
        &&& rb(self.tree())
        &&& bst(self.tree())
        &&& self.count() == mset(self.tree()).len()
    }

    pub fn new() -> (r: Self)
        ensures
            r.wf(),
            r@ == Multiset::<i32>::empty(),
    {
        RbTree { root: None, len: 0 }
    }

    pub fn len(&self) -> (r: usize)
        requires
            self.wf(),
        ensures
            r == self@.len(),
    {
        self.len
    }

    /// Inserts `val`; an equal key already present is kept.
    pub fn add(&mut self, val: i32)
        requires
            old(self).wf(),
            old(self)@.len() < usize::MAX,
        ensures
            final(self).wf(),
            final(self)@ == old(self)@.insert(val),
            final(self).tree() == added_tree(old(self).tree(), val),
    {
        match self.root.take() {
            None => {
                self.root = Some(RbTreeNode::new_node(val, Color::Black));
            },
            Some(r) => {
                let mut r = Self::add_and_fix(r, val);
                r.color = Color::Black;
                self.root = Some(r);
            },
        }
        self.len = self.len + 1;
    }

    /// Inserts `val` below `n`, repairing on the way back up.
    fn add_and_fix(mut n: Box<RbTreeNode>, val: i32) -> (r: Box<RbTreeNode>)
        requires
            rb(Some(n)),
            bst(Some(n)),
        ensures
            *r == inserted(*n, val),
            mset(Some(r)) =~= mset(Some(n)).insert(val),
            bst(Some(r)),
            ins_ok(*n, *r),
        decreases n,
    {
        proof {
            lemma_inserted(*n, val);
            assert(bst(n.left) && bst(n.right));
        }
        if val <= n.val {
            match n.left.take() {
                None => {
                    n.left = Some(RbTreeNode::new_node(val, Color::Red));
                },
                Some(c) => {
                    assert(rb(Some(c)));
                    n.left = Some(Self::add_and_fix(c, val));
                },
            }
            Self::fix_insert(n, Pos::LEFT)
        } else {
            match n.right.take() {
                None => {
                    n.right = Some(RbTreeNode::new_node(val, Color::Red));
                },
                Some(c) => {
                    assert(rb(Some(c)));
                    n.right = Some(Self::add_and_fix(c, val));
                },
            }
            Self::fix_insert(n, Pos::RIGHT)
        }
    }

    /// Repairs a red child on `side` of `g` that has a red child of its own.
    fn fix_insert(mut g: Box<RbTreeNode>, side: usize) -> (r: Box<RbTreeNode>)
        requires
            side == Pos::LEFT || side == Pos::RIGHT,
            child(*g, side) is Some,
        ensures
            *r == fix_ins(*g, side),
            fix_insert_pre(*g, side) && bst(Some(g)) ==> {
                &&& mset(Some(r)) =~= mset(Some(g))
                &&& bst(Some(r))
                &&& ins_ok(*g, *r)
            },
    {
        proof {
            if fix_insert_pre(*g, side) && bst(Some(g)) {
                lemma_fix_ins(*g, side);
            }
        }
        if side == Pos::LEFT {
            let mut p = g.left.take().unwrap();
            if !(p.color == Color::Red && (link_is_red(&p.left) || link_is_red(&p.right))) {
                g.left = Some(p);
                return g;
            }
            if link_is_red(&g.right) {
                let mut u = g.right.take().unwrap();
                u.color = Color::Black;
                p.color = Color::Black;
                g.color = Color::Red;
                g.right = Some(u);
                g.left = Some(p);
                return g;
            }
            if link_is_red(&p.left) {
                p.color = Color::Black;
                g.color = Color::Red;
                g.left = Some(p);
                RbTreeNode::rotate_right(g)
            } else {
                let mut x = p.right.take().unwrap();
                x.color = Color::Black;
                p.right = Some(x);
                g.color = Color::Red;
                let p = RbTreeNode::rotate_left(p);
                g.left = Some(p);
                RbTreeNode::rotate_right(g)
            }
        } else {
            let mut p = g.right.take().unwrap();
            if !(p.color == Color::Red && (link_is_red(&p.left) || link_is_red(&p.right))) {
                g.right = Some(p);
                return g;
            }
            if link_is_red(&g.left) {
                let mut u = g.left.take().unwrap();
                u.color = Color::Black;
                p.color = Color::Black;
                g.color = Color::Red;
                g.left = Some(u);
                g.right = Some(p);
                return g;
            }
            if link_is_red(&p.right) {
                p.color = Color::Black;
                g.color = Color::Red;
                g.right = Some(p);
                RbTreeNode::rotate_left(g)
            } else {
                let mut x = p.left.take().unwrap();
                x.color = Color::Black;
                p.left = Some(x);
                g.color = Color::Red;
                let p = RbTreeNode::rotate_right(p);
                g.right = Some(p);
                RbTreeNode::rotate_left(g)
            }
        }
    }

    /// Which children of `n` are red: 2 for the left, plus 1 for the right.
    fn red_children(n: &RbTreeNode) -> (mask: u8)
        ensures
            mask == (if is_red(n.left) { 2u8 } else { 0u8 }) + (if is_red(n.right) { 1u8 } else { 0u8 }),
    {
        let mut mask: u8 = 0;
        if link_is_red(&n.left) {
            mask = mask + 1;
        }
        mask = mask * 2;
        if link_is_red(&n.right) {
            mask = mask + 1;
        }
        mask
    }

    /// Restores the black count under `p`, whose child opposite `sibling_pos`
    /// lost one black node on every path. Returns the repaired subtree and
    /// whether the loss passes on to the parent.
    fn fix_remove(mut p: Box<RbTreeNode>, sibling_pos: usize) -> (res: (Box<RbTreeNode>, bool))
        requires
            fix_remove_pre(*p, sibling_pos),
        ensures
            fix_remove_post(*p, sibling_pos, *res.0, res.1),
            is_red(child(*p, sibling_pos)) ==> !res.1 && res.0.color == Color::Black
                && res.0.val == child(*p, sibling_pos).unwrap().val
                && child(*res.0, sibling_pos) == child(*child(*p, sibling_pos).unwrap(), sibling_pos),
            child(*p, sibling_pos) is Some && !is_red(child(*p, sibling_pos)) ==> ({
                let s = *child(*p, sibling_pos).unwrap();
                if !is_red(s.left) && !is_red(s.right) {
                    &&& res.1 == (p.color == Color::Black)
                    &&& *res.0 == rm_black_nephews(*p, sibling_pos)
                } else if sibling_pos == Pos::LEFT {
                    &&& !res.1
                    &&& *res.0 == if is_red(s.left) {
                        rm_outer_left(*p)
                    } else {
                        rm_inner_left(*p)
                    }
                } else {
                    &&& !res.1
                    &&& *res.0 == if is_red(s.right) {
                        rm_outer_right(*p)
                    } else {
                        rm_inner_right(*p)
                    }
                }
            }),
        decreases (if is_red(child(*p, sibling_pos)) { 1nat } else { 0nat }),
    {
        let ghost p0 = *p;
        let sibling = if sibling_pos == Pos::LEFT {
            p.left.take()
        } else {
            p.right.take()
        };
        match sibling {
            None => {
                // an empty slot holds no black node, so a sibling is always there
                (p, true)
            },
            Some(mut sb) => {
                if sb.color == Color::Black {
                    let mask = Self::red_children(&sb);
                    if mask == 0 {
                        proof {
                            lemma_rm_black_nephews(p0, sibling_pos);
                        }
                        sb.color = Color::Red;
                        if sibling_pos == Pos::LEFT {
                            p.left = Some(sb);
                        } else {
                            p.right = Some(sb);
                        }
                        if p.color == Color::Black {
                            (p, true)
                        } else {
                            p.color = Color::Black;
                            (p, false)
                        }
                    } else if sibling_pos == Pos::LEFT {
                        if mask == 0b11 || mask == 0b10 {
                            proof {
                                lemma_rm_outer_left(p0);
                            }
                            sb.color = p.color;
                            let mut nephew = sb.left.take().unwrap();
                            nephew.color = Color::Black;
                            sb.left = Some(nephew);
                            p.color = Color::Black;
                            p.left = Some(sb);
                            (RbTreeNode::rotate_right(p), false)
                        } else {
                            proof {
                                lemma_rm_inner_left(p0);
                            }
                            let mut nephew = sb.right.take().unwrap();
                            nephew.color = p.color;
                            sb.right = Some(nephew);
                            p.color = Color::Black;
                            let sb = RbTreeNode::rotate_left(sb);
                            p.left = Some(sb);
                            (RbTreeNode::rotate_right(p), false)
                        }
                    } else {
                        if mask == 0b11 || mask == 0b01 {
                            proof {
                                lemma_rm_outer_right(p0);
                            }
                            sb.color = p.color;
                            let mut nephew = sb.right.take().unwrap();
                            nephew.color = Color::Black;
                            sb.right = Some(nephew);
                            p.color = Color::Black;
                            p.right = Some(sb);
                            (RbTreeNode::rotate_left(p), false)
                        } else {
                            proof {
                                lemma_rm_inner_right(p0);
                            }
                            let mut nephew = sb.left.take().unwrap();
                            nephew.color = p.color;
                            sb.left = Some(nephew);
                            p.color = Color::Black;
                            let sb = RbTreeNode::rotate_right(sb);
                            p.right = Some(sb);
                            (RbTreeNode::rotate_left(p), false)
                        }
                    }
                } else {
                    p.color = Color::Red;
                    sb.color = Color::Black;
                    if sibling_pos == Pos::LEFT {
                        proof {
                            lemma_rm_red_sibling_left_pre(p0);
                        }
                        p.left = Some(sb);
                        let mut q = RbTreeNode::rotate_right(p);
                        let p2 = q.right.take().unwrap();
                        let (p3, short) = Self::fix_remove(p2, sibling_pos);
                        proof {
                            lemma_rm_red_sibling_left_post(p0, *p3, short);
                        }
                        q.right = Some(p3);
                        (q, false)
                    } else {
                        proof {
                            lemma_rm_red_sibling_right_pre(p0);
                        }
                        p.right = Some(sb);
                        let mut q = RbTreeNode::rotate_left(p);
                        let p2 = q.left.take().unwrap();
                        let (p3, short) = Self::fix_remove(p2, sibling_pos);
                        proof {
                            lemma_rm_red_sibling_right_post(p0, *p3, short);
                        }
                        q.left = Some(p3);
                        (q, false)
                    }
                }
            },
        }
    }

    /// Splices out `n`, whose slot opposite `child_pos` is empty: its child
    /// on `child_pos`, if any, takes its place. Returns the new subtree, the
    /// detached node, and whether one black node was lost on every path.
    fn extract_node(mut n: Box<RbTreeNode>, child_pos: usize) -> (res: (Link, Box<RbTreeNode>, bool))
        requires
            child_pos == Pos::LEFT || child_pos == Pos::RIGHT,
            child(*n, other(child_pos)) is None,
            rb(Some(n)),
            bst(Some(n)),
        ensures
            mset(res.0).insert(n.val) =~= mset(Some(n)),
            res.1.val == n.val,
            del_ok(Some(n), res.0, res.2),
            res.0 == match child(*n, child_pos) {
                None => None,
                Some(c) => Some(
                    Box::new(
                        recolored(
                            *c,
                            if n.color == Color::Red || c.color == Color::Red {
                                Color::Black
                            } else {
                                c.color
                            },
                        ),
                    ),
                ),
            },
            res.2 == (n.color == Color::Black && !is_red(child(*n, child_pos))),
    {
        let ghost n0 = *n;
        let c = if child_pos == Pos::LEFT {
            n.left.take()
        } else {
            n.right.take()
        };
        proof {
            if child_pos == Pos::LEFT {
                assert(n0.right is None);
                assert(mset(Some(Box::new(n0))) == mset(c).add(mset(n0.right)).insert(n0.val));
            } else {
                assert(n0.left is None);
                assert(mset(Some(Box::new(n0))) == mset(n0.left).add(mset(c)).insert(n0.val));
            }
            assert(mset(Some(Box::new(n0))) =~= mset(c).insert(n0.val));
            assert(bst(c));
        }
        match c {
            Some(mut cn) => {
                proof {
                    assert(rb(Some(cn)));
                }
                if n.color == Color::Red || cn.color == Color::Red {
                    let ghost c0 = *cn;
                    cn.color = Color::Black;
                    proof {
                        lemma_recolor(c0, Color::Black);
                    }
                    (Some(cn), n, false)
                } else {
                    // a black node with one black child breaks the black count
                    (Some(cn), n, true)
                }
            },
            None => {
                if n.color == Color::Black {
                    (None, n, true)
                } else {
                    (None, n, false)
                }
            },
        }
    }

    /// Detaches the node with the least key below `n`, repairing on the way
    /// back up. Returns what is left, the detached node, and whether one
    /// black node was lost on every path.
    fn find_min_node(mut n: Box<RbTreeNode>) -> (res: (Link, Box<RbTreeNode>, bool))
        requires
            rb(Some(n)),
            bst(Some(n)),
        ensures
            mset(res.0).insert(res.1.val) =~= mset(Some(n)),
            forall|k: i32| #[trigger] mset(Some(n)).contains(k) ==> res.1.val <= k,
            del_ok(Some(n), res.0, res.2),
        decreases n,
    {
        let ghost n0 = *n;
        proof {
            assert(bst(n0.left) && bst(n0.right));
        }
        match n.left.take() {
            None => {
                let res = Self::extract_node(n, Pos::RIGHT);
                proof {
                    assert(mset(Some(Box::new(n0))) == mset(n0.left).add(mset(n0.right)).insert(n0.val));
                    assert forall|k: i32| #[trigger] mset(Some(Box::new(n0))).contains(k) implies n0.val <= k by {
                        if k != n0.val {
                            assert(mset(n0.right).contains(k));
                        }
                    }
                }
                res
            },
            Some(l) => {
                let (l2, m, short) = Self::find_min_node(l);
                n.left = l2;
                proof {
                    assert(mset(Some(n)).insert(m.val) =~= mset(Some(Box::new(n0))));
                    assert(mset(n0.left).contains(m.val));
                    assert forall|k: i32| #[trigger] mset(Some(Box::new(n0))).contains(k) implies m.val <= k by {
                        if mset(n0.right).contains(k) {
                        } else if mset(n0.left).contains(k) {
                        }
                    }
                    assert forall|k: i32| #[trigger] mset(n.left).contains(k) implies k <= n.val by {
                        assert(mset(n0.left).contains(k));
                    }
                    assert(bst(Some(n)));
                }
                if short {
                    let (r, short2) = Self::fix_remove(n, Pos::RIGHT);
                    (Some(r), m, short2)
                } else {
                    (Some(n), m, false)
                }
            },
        }
    }

    /// Removes the root of `n`. With two children, the successor (the least
    /// key on the right) is detached and takes over the place, the color and
    /// the children of `n`.
    fn remove_last(mut n: Box<RbTreeNode>) -> (res: (Link, bool))
        requires
            rb(Some(n)),
            bst(Some(n)),
        ensures
            mset(res.0) =~= mset(Some(n)).remove(n.val),
            del_ok(Some(n), res.0, res.1),
    {
        let ghost n0 = *n;
        if n.left.is_some() {
            if n.right.is_some() {
                let r = n.right.take().unwrap();
                let (rest, mut m, short) = Self::find_min_node(r);
                m.left = n.left.take();
                m.right = rest;
                m.color = n.color;
                proof {
                    assert(bst(n0.left) && bst(n0.right));
                    assert(mset(n0.right).contains(m.val));
                    assert(mset(Some(m)) =~= mset(Some(Box::new(n0))).remove(n0.val));
                    assert forall|k: i32| #[trigger] mset(m.left).contains(k) implies k <= m.val by {
                    }
                    assert forall|k: i32| #[trigger] mset(m.right).contains(k) implies m.val <= k by {
                        assert(mset(n0.right).contains(k));
                    }
                    assert(bst(Some(m)));
                }
                if short {
                    let (t, short2) = Self::fix_remove(m, Pos::LEFT);
                    (Some(t), short2)
                } else {
                    (Some(m), false)
                }
            } else {
                let (t, _, short) = Self::extract_node(n, Pos::LEFT);
                (t, short)
            }
        } else if n.right.is_some() {
            let (t, _, short) = Self::extract_node(n, Pos::RIGHT);
            (t, short)
        } else {
            let (t, _, short) = Self::extract_node(n, Pos::LEFT);
            (t, short)
        }
    }

    /// Looks for `val` below `n` and removes one node holding it, repairing
    /// on the way back up. Returns the new subtree, whether one black node
    /// was lost on every path, and whether `val` was found; when it was not,
    /// the subtree comes back as it was.
    fn find_and_remove(mut n: Box<RbTreeNode>, val: i32) -> (res: (Link, bool, bool))
        requires
            rb(Some(n)),
            bst(Some(n)),
        ensures
            res.2 == mset(Some(n)).contains(val),
            res.2 ==> mset(res.0) =~= mset(Some(n)).remove(val),
            res.2 ==> del_ok(Some(n), res.0, res.1),
            !res.2 ==> res.0 == Some(n) && !res.1,
        decreases n,
    {
        let ghost n0 = *n;
        proof {
            assert(bst(n0.left) && bst(n0.right));
            assert(mset(Some(Box::new(n0))) == mset(n0.left).add(mset(n0.right)).insert(n0.val));
        }
        if val == n.val {
            let (t, short) = Self::remove_last(n);
            (t, short, true)
        } else if val < n.val {
            proof {
                if mset(n0.right).contains(val) {
                    assert(n0.val <= val);
                }
            }
            match n.left.take() {
                None => (Some(n), false, false),
                Some(l) => {
                    let (l2, short, found) = Self::find_and_remove(l, val);
                    n.left = l2;
                    if !found {
                        (Some(n), false, false)
                    } else {
                        proof {
                            assert(mset(Some(n)) =~= mset(Some(Box::new(n0))).remove(val));
                            assert forall|k: i32| #[trigger] mset(n.left).contains(k) implies k <= n.val by {
                                assert(mset(n0.left).contains(k));
                            }
                            assert(bst(Some(n)));
                        }
                        if short {
                            let (t, short2) = Self::fix_remove(n, Pos::RIGHT);
                            (Some(t), short2, true)
                        } else {
                            (Some(n), false, true)
                        }
                    }
                },
            }
        } else {
            proof {
                if mset(n0.left).contains(val) {
                    assert(val <= n0.val);
                }
            }
            match n.right.take() {
                None => (Some(n), false, false),
                Some(r) => {
                    let (r2, short, found) = Self::find_and_remove(r, val);
                    n.right = r2;
                    if !found {
                        (Some(n), false, false)
                    } else {
                        proof {
                            assert(mset(Some(n)) =~= mset(Some(Box::new(n0))).remove(val));
                            assert forall|k: i32| #[trigger] mset(n.right).contains(k) implies n.val <= k by {
                                assert(mset(n0.right).contains(k));
                            }
                            assert(bst(Some(n)));
                        }
                        if short {
                            let (t, short2) = Self::fix_remove(n, Pos::LEFT);
                            (Some(t), short2, true)
                        } else {
                            (Some(n), false, true)
                        }
                    }
                },
            }
        }
    }

    /// Removes one occurrence of `val`; returns whether there was one. When
    /// there was none the tree is left as it was.
    pub fn remove(&mut self, val: &i32) -> (found: bool)
        requires
            old(self).wf(),
        ensures
            final(self).wf(),
            found == old(self)@.contains(*val),
            found ==> final(self)@ == old(self)@.remove(*val),
            !found ==> *final(self) == *old(self),
    {
        match self.root.take() {
            None => false,
            Some(r) => {
                let (t, _, found) = Self::find_and_remove(r, *val);
                self.root = t;
                if found {
                    self.len = self.len - 1;
                }
                found
            },
        }
    }

    /// The subtree's black count, or the first rule it breaks; `level` is
    /// the depth of the subtree's root.
    pub fn black_height(t: &Link, level: usize) -> (r: Result<usize, Violation>)
        requires
            level + mset(*t).len() <= usize::MAX,
        ensures
            r is Ok <==> rb(*t),
            match r {
                Ok(h) => h == bh(*t),
                Err(e) => first_violation(*t, level as nat) == Some(e),
            },
        decreases t,
    {
        proof {
            lemma_first_violation(*t, level as nat);
        }
        match t {
            None => Ok(0),
            Some(n) => {
                if n.color == Color::Red && (link_is_red(&n.left) || link_is_red(&n.right)) {
                    return Err(Violation::DoubleRed { key: n.val, level });
                }
                proof {
                    lemma_bh_le_size(*t);
                    assert(mset(*t) == mset(n.left).add(mset(n.right)).insert(n.val));
                }
                let l = match Self::black_height(&n.left, level + 1) {
                    Ok(h) => h,
                    Err(e) => {
                        assert(first_violation(*t, level as nat) == Some(e));
                        return Err(e);
                    },
                };
                let r = match Self::black_height(&n.right, level + 1) {
                    Ok(h) => h,
                    Err(e) => {
                        proof {
                            lemma_first_violation(n.left, (level + 1) as nat);
                        }
                        assert(first_violation(*t, level as nat) == Some(e));
                        return Err(e);
                    },
                };
                proof {
                    lemma_first_violation(n.left, (level + 1) as nat);
                    lemma_first_violation(n.right, (level + 1) as nat);
                }
                if l != r {
                    return Err(Violation::BlackHeight { key: n.val, level: level + 1, left: l, right: r });
                }
                if n.color == Color::Black {
                    Ok(l + 1)
                } else {
                    Ok(l)
                }
            },
        }
    }

    /// The first rule that the tree breaks, if any: a red root, or one found
    /// by `black_height`.
    pub fn validate(&self) -> (r: Result<(), Violation>)
        requires
            mset(self.tree()).len() <= usize::MAX,
        ensures
            r is Ok <==> !is_red(self.tree()) && rb(self.tree()),
            is_red(self.tree()) <==> r == Err::<(), Violation>(Violation::RedRoot),
            !is_red(self.tree()) ==> r == match first_violation(self.tree(), 0) {
                None => Ok::<(), Violation>(()),
                Some(e) => Err(e),
            },
    {
        proof {
            lemma_first_violation(self.tree(), 0);
        }
        if link_is_red(&self.root) {
            return Err(Violation::RedRoot);
        }
        match Self::black_height(&self.root, 0) {
            Ok(_) => Ok(()),
            Err(e) => Err(e),
        }
    }

    pub fn is_valid(&self) -> (r: bool)
        requires
            mset(self.tree()).len() <= usize::MAX,
        ensures
            r == (!is_red(self.tree()) && rb(self.tree())),
    {
        self.validate().is_ok()
    }

    /// The root slot, for reading the structure.
    pub fn root(&self) -> (r: &Link)
        ensures
            *r == self.tree(),
    {
        &self.root
    }

    fn collect(t: &Link, out: &mut Vec<i32>)
        ensures
            final(out)@ == old(out)@ + keys(*t),
        decreases t,
    {
        match t {
            None => {
                assert(old(out)@ + keys(*t) =~= old(out)@);
            },
            Some(n) => {
                Self::collect(&n.left, out);
                out.push(n.val);
                Self::collect(&n.right, out);
                assert(out@ =~= old(out)@ + keys(*t));
            },
        }
    }

    /// The keys in in-order: ascending, each as often as it is held.
    pub fn in_order(&self) -> (r: Vec<i32>)
        requires
            self.wf(),
        ensures
            r@ == keys(self.tree()),
            sorted(r@),
            r@.to_multiset() == self@,
            r@.len() == self@.len(),
    {
        let mut out: Vec<i32> = Vec::new();
        Self::collect(&self.root, &mut out);
        proof {
            assert(out@ =~= keys(self.tree()));
            lemma_keys(self.tree());
            out@.to_multiset_ensures();
        }
        out
    }
}

} // verus!
