//! The case analysis behind the two repairs: each lemma takes a subtree in
//! the state that one case of insertion or removal meets, and shows what
//! the recoloring and rotations of that case leave.
use crate::node::{
    bh, black_count, bst, is_red, lemma_recolor, lemma_rotl, lemma_rotr, mset, rb, rb_below,
    recolored, rotl, rotr, Color, Link, RbTreeNode,
};
use crate::pos::Pos;
use vstd::prelude::*;

verus! {

/// The child of `n` on `side`.
pub open spec fn child(n: RbTreeNode, side: usize) -> Link {
    if side == Pos::LEFT {
        n.left
    } else {
        n.right
    }
}

pub open spec fn other(side: usize) -> usize {
    if side == Pos::LEFT {
        Pos::RIGHT
    } else {
        Pos::LEFT
    }
}

/// What an insertion into the subtree `before` leaves: the black count is
/// kept; a black root leaves a valid subtree; a red root stays red and may
/// have at most one red child, which its parent then repairs.
pub open spec fn ins_ok(before: RbTreeNode, after: RbTreeNode) -> bool {
    &&& rb_below(after)
    &&& bh(Some(Box::new(after))) == bh(Some(Box::new(before)))
    &&& before.color == Color::Black ==> rb(Some(Box::new(after)))
    &&& before.color == Color::Red ==> after.color == Color::Red && !(is_red(after.left) && is_red(
        after.right,
    ))
}

/// The state of `g` after an insertion into its child on `side`.
pub open spec fn fix_insert_pre(g: RbTreeNode, side: usize) -> bool {
    let c = child(g, side).unwrap();
    let u = child(g, other(side));
    &&& side == Pos::LEFT || side == Pos::RIGHT
    &&& child(g, side) is Some
    &&& rb_below(*c)
    &&& rb(u)
    &&& bh(Some(c)) == bh(u)
    &&& g.color == Color::Red ==> !is_red(u)
    &&& if c.color == Color::Red && (is_red(c.left) || is_red(c.right)) {
        g.color == Color::Black && !(is_red(c.left) && is_red(c.right))
    } else {
        rb(Some(c))
    }
}

/// `g` with color `c` and `l` as its left child.
pub open spec fn with_left(g: RbTreeNode, c: Color, l: RbTreeNode) -> RbTreeNode {
    RbTreeNode { color: c, left: Some(Box::new(l)), ..g }
}

/// `g` with color `c` and `r` as its right child.
pub open spec fn with_right(g: RbTreeNode, c: Color, r: RbTreeNode) -> RbTreeNode {
    RbTreeNode { color: c, right: Some(Box::new(r)), ..g }
}

/// A red node with a red child: the violation that insertion repairs one
/// level further up.
pub open spec fn needs_fix(p: RbTreeNode) -> bool {
    p.color == Color::Red && (is_red(p.left) || is_red(p.right))
}

/// Red uncle: parent and uncle turn black, the grandparent `g` red.
pub open spec fn ins_red_uncle(g: RbTreeNode, side: usize) -> RbTreeNode {
    let p = recolored(*child(g, side).unwrap(), Color::Black);
    let u = recolored(*child(g, other(side)).unwrap(), Color::Black);
    if side == Pos::LEFT {
        with_right(with_left(g, Color::Red, p), Color::Red, u)
    } else {
        with_left(with_right(g, Color::Red, p), Color::Red, u)
    }
}

/// Left-left: the parent turns black, `g` red, and `g` rotates right.
pub open spec fn ins_outer_left(g: RbTreeNode) -> RbTreeNode {
    rotr(with_left(g, Color::Red, recolored(*g.left.unwrap(), Color::Black)))
}

/// Left-right: the new node turns black, `g` red; rotate left at the
/// parent, then right at `g`.
pub open spec fn ins_inner_left(g: RbTreeNode) -> RbTreeNode {
    let p = *g.left.unwrap();
    rotr(with_left(g, Color::Red, rotl(with_right(p, p.color, recolored(*p.right.unwrap(), Color::Black)))))
}

/// Right-right: the parent turns black, `g` red, and `g` rotates left.
pub open spec fn ins_outer_right(g: RbTreeNode) -> RbTreeNode {
    rotl(with_right(g, Color::Red, recolored(*g.right.unwrap(), Color::Black)))
}

/// Right-left: the new node turns black, `g` red; rotate right at the
/// parent, then left at `g`.
pub open spec fn ins_inner_right(g: RbTreeNode) -> RbTreeNode {
    let p = *g.right.unwrap();
    rotl(with_right(g, Color::Red, rotr(with_left(p, p.color, recolored(*p.left.unwrap(), Color::Black)))))
}

/// The repair at `g` after an insertion into its child on `side`: nothing
/// when that child is not a red node with a red child; else by the color
/// of the uncle and the sides taken.
pub open spec fn fix_ins(g: RbTreeNode, side: usize) -> RbTreeNode {
    let p = *child(g, side).unwrap();
    if !needs_fix(p) {
        g
    } else if is_red(child(g, other(side))) {
        ins_red_uncle(g, side)
    } else if side == Pos::LEFT {
        if is_red(p.left) {
            ins_outer_left(g)
        } else {
            ins_inner_left(g)
        }
    } else {
        if is_red(p.right) {
            ins_outer_right(g)
        } else {
            ins_inner_right(g)
        }
    }
}

pub open spec fn leaf(val: i32, c: Color) -> RbTreeNode {
    RbTreeNode { val, color: c, left: None, right: None }
}

/// The subtree `n` after inserting `val`: keys at most a node's key go
/// left, greater ones right; the new red leaf fills the first empty slot,
/// and each level is repaired on the way back up.
pub open spec fn inserted(n: RbTreeNode, val: i32) -> RbTreeNode
    decreases n,
{
    if val <= n.val {
        let c = match n.left {
            None => leaf(val, Color::Red),
            Some(l) => inserted(*l, val),
        };
        fix_ins(with_left(n, n.color, c), Pos::LEFT)
    } else {
        let c = match n.right {
            None => leaf(val, Color::Red),
            Some(r) => inserted(*r, val),
        };
        fix_ins(with_right(n, n.color, c), Pos::RIGHT)
    }
}

proof fn lemma_ins_red_uncle(g: RbTreeNode, side: usize)
    requires
        fix_insert_pre(g, side),
        bst(Some(Box::new(g))),
        is_red(child(g, side)),
        is_red(child(g, other(side))),
    ensures
        ({
            let p = recolored(*child(g, side).unwrap(), Color::Black);
            let u = recolored(*child(g, other(side)).unwrap(), Color::Black);
            let r = if side == Pos::LEFT {
                with_right(with_left(g, Color::Red, p), Color::Red, u)
            } else {
                with_left(with_right(g, Color::Red, p), Color::Red, u)
            };
            &&& mset(Some(Box::new(r))) =~= mset(Some(Box::new(g)))
            &&& bst(Some(Box::new(r)))
            &&& ins_ok(g, r)
        }),
{
    let p0 = *child(g, side).unwrap();
    let u0 = *child(g, other(side)).unwrap();
    let p = recolored(p0, Color::Black);
    let u = recolored(u0, Color::Black);
    lemma_recolor(p0, Color::Black);
    lemma_recolor(u0, Color::Black);
    assert(rb(Some(Box::new(p))));
    assert(rb(Some(Box::new(u))));
    assert(bh(Some(Box::new(p))) == bh(Some(Box::new(p0))) + 1);
    assert(bh(Some(Box::new(u))) == bh(Some(Box::new(u0))) + 1);
    if side == Pos::LEFT {
        let r = with_right(with_left(g, Color::Red, p), Color::Red, u);
        assert(mset(Some(Box::new(r))) == mset(Some(Box::new(p))).add(mset(Some(Box::new(u)))).insert(g.val));
        assert(mset(Some(Box::new(g))) == mset(Some(Box::new(p0))).add(mset(Some(Box::new(u0)))).insert(g.val));
        assert(bst(Some(Box::new(r))));
    } else {
        let r = with_left(with_right(g, Color::Red, p), Color::Red, u);
        assert(mset(Some(Box::new(r))) == mset(Some(Box::new(u))).add(mset(Some(Box::new(p)))).insert(g.val));
        assert(mset(Some(Box::new(g))) == mset(Some(Box::new(u0))).add(mset(Some(Box::new(p0)))).insert(g.val));
        assert(bst(Some(Box::new(r))));
    }
}

proof fn lemma_ins_outer_left(g: RbTreeNode)
    requires
        fix_insert_pre(g, Pos::LEFT),
        bst(Some(Box::new(g))),
        is_red(g.left),
        is_red(g.left.unwrap().left),
        !is_red(g.right),
    ensures
        ({
            let r = rotr(with_left(g, Color::Red, recolored(*g.left.unwrap(), Color::Black)));
            &&& mset(Some(Box::new(r))) =~= mset(Some(Box::new(g)))
            &&& bst(Some(Box::new(r)))
            &&& ins_ok(g, r)
        }),
{
    let p0 = *g.left.unwrap();
    let p1 = recolored(p0, Color::Black);
    let g1 = with_left(g, Color::Red, p1);
    lemma_recolor(p0, Color::Black);
    lemma_rotr(g1);
    assert(mset(Some(Box::new(g1))) == mset(Some(Box::new(p1))).add(mset(g.right)).insert(g.val));
    assert(mset(Some(Box::new(g))) == mset(Some(Box::new(p0))).add(mset(g.right)).insert(g.val));
    assert(bst(Some(Box::new(g1))));
    let r = rotr(g1);
    let g2 = *r.right.unwrap();
    assert(bh(p0.left) == bh(Some(Box::new(p0))));
    assert(rb(Some(Box::new(g2))));
    assert(bh(Some(Box::new(g2))) == bh(p0.right));
    assert(rb_below(r));
    assert(bh(Some(Box::new(r))) == bh(Some(Box::new(g))));
}

proof fn lemma_ins_inner_left(g: RbTreeNode)
    requires
        fix_insert_pre(g, Pos::LEFT),
        bst(Some(Box::new(g))),
        is_red(g.left),
        !is_red(g.left.unwrap().left),
        is_red(g.left.unwrap().right),
        !is_red(g.right),
    ensures
        ({
            let p = *g.left.unwrap();
            let p1 = with_right(p, p.color, recolored(*p.right.unwrap(), Color::Black));
            let r = rotr(with_left(g, Color::Red, rotl(p1)));
            &&& mset(Some(Box::new(r))) =~= mset(Some(Box::new(g)))
            &&& bst(Some(Box::new(r)))
            &&& ins_ok(g, r)
        }),
{
    let p0 = *g.left.unwrap();
    assert(bst(g.left));
    let x0 = *p0.right.unwrap();
    let x1 = recolored(x0, Color::Black);
    lemma_recolor(x0, Color::Black);
    let p1 = with_right(p0, p0.color, x1);
    assert(mset(Some(Box::new(p1))) == mset(p0.left).add(mset(Some(Box::new(x1)))).insert(p0.val));
    assert(mset(Some(Box::new(p0))) == mset(p0.left).add(mset(Some(Box::new(x0)))).insert(p0.val));
    assert(bst(Some(Box::new(p1))));
    lemma_rotl(p1);
    let p2 = rotl(p1);
    let g1 = with_left(g, Color::Red, p2);
    lemma_rotr(g1);
    assert(mset(Some(Box::new(g1))) == mset(Some(Box::new(p2))).add(mset(g.right)).insert(g.val));
    assert(mset(Some(Box::new(g))) == mset(Some(Box::new(p0))).add(mset(g.right)).insert(g.val));
    assert(bst(Some(Box::new(g1))));
    let r = rotr(g1);
    let a = *r.left.unwrap();
    let b = *r.right.unwrap();
    assert(bh(Some(Box::new(x0))) == bh(x0.left));
    assert(bh(Some(Box::new(p0))) == bh(p0.left));
    assert(rb(Some(Box::new(a))));
    assert(rb(Some(Box::new(b))));
    assert(bh(Some(Box::new(a))) == bh(Some(Box::new(b))));
    assert(rb_below(r));
    assert(bh(Some(Box::new(r))) == bh(Some(Box::new(g))));
}

proof fn lemma_ins_outer_right(g: RbTreeNode)
    requires
        fix_insert_pre(g, Pos::RIGHT),
        bst(Some(Box::new(g))),
        is_red(g.right),
        is_red(g.right.unwrap().right),
        !is_red(g.left),
    ensures
        ({
            let r = rotl(with_right(g, Color::Red, recolored(*g.right.unwrap(), Color::Black)));
            &&& mset(Some(Box::new(r))) =~= mset(Some(Box::new(g)))
            &&& bst(Some(Box::new(r)))
            &&& ins_ok(g, r)
        }),
{
    let p0 = *g.right.unwrap();
    let p1 = recolored(p0, Color::Black);
    let g1 = with_right(g, Color::Red, p1);
    lemma_recolor(p0, Color::Black);
    lemma_rotl(g1);
    assert(mset(Some(Box::new(g1))) == mset(g.left).add(mset(Some(Box::new(p1)))).insert(g.val));
    assert(mset(Some(Box::new(g))) == mset(g.left).add(mset(Some(Box::new(p0)))).insert(g.val));
    assert(bst(Some(Box::new(g1))));
    let r = rotl(g1);
    let g2 = *r.left.unwrap();
    assert(bh(p0.left) == bh(Some(Box::new(p0))));
    assert(rb(Some(Box::new(g2))));
    assert(bh(Some(Box::new(g2))) == bh(p0.left));
    assert(rb_below(r));
    assert(bh(Some(Box::new(r))) == bh(Some(Box::new(g))));
}

proof fn lemma_ins_inner_right(g: RbTreeNode)
    requires
        fix_insert_pre(g, Pos::RIGHT),
        bst(Some(Box::new(g))),
        is_red(g.right),
        !is_red(g.right.unwrap().right),
        is_red(g.right.unwrap().left),
        !is_red(g.left),
    ensures
        ({
            let p = *g.right.unwrap();
            let p1 = with_left(p, p.color, recolored(*p.left.unwrap(), Color::Black));
            let r = rotl(with_right(g, Color::Red, rotr(p1)));
            &&& mset(Some(Box::new(r))) =~= mset(Some(Box::new(g)))
            &&& bst(Some(Box::new(r)))
            &&& ins_ok(g, r)
        }),
{
    let p0 = *g.right.unwrap();
    assert(bst(g.right));
    let x0 = *p0.left.unwrap();
    let x1 = recolored(x0, Color::Black);
    lemma_recolor(x0, Color::Black);
    let p1 = with_left(p0, p0.color, x1);
    assert(mset(Some(Box::new(p1))) == mset(Some(Box::new(x1))).add(mset(p0.right)).insert(p0.val));
    assert(mset(Some(Box::new(p0))) == mset(Some(Box::new(x0))).add(mset(p0.right)).insert(p0.val));
    assert(bst(Some(Box::new(p1))));
    lemma_rotr(p1);
    let p2 = rotr(p1);
    let g1 = with_right(g, Color::Red, p2);
    lemma_rotl(g1);
    assert(mset(Some(Box::new(g1))) == mset(g.left).add(mset(Some(Box::new(p2)))).insert(g.val));
    assert(mset(Some(Box::new(g))) == mset(g.left).add(mset(Some(Box::new(p0)))).insert(g.val));
    assert(bst(Some(Box::new(g1))));
    let r = rotl(g1);
    let a = *r.left.unwrap();
    let b = *r.right.unwrap();
    assert(bh(Some(Box::new(x0))) == bh(x0.left));
    assert(bh(Some(Box::new(p0))) == bh(p0.left));
    assert(rb(Some(Box::new(a))));
    assert(rb(Some(Box::new(b))));
    assert(bh(Some(Box::new(a))) == bh(Some(Box::new(b))));
    assert(rb_below(r));
    assert(bh(Some(Box::new(r))) == bh(Some(Box::new(g))));
}

/// The subtree a tree becomes after inserting `val`, its root made black.
pub open spec fn added_tree(t: Link, val: i32) -> Link {
    Some(
        Box::new(
            match t {
                None => leaf(val, Color::Black),
                Some(r) => recolored(inserted(*r, val), Color::Black),
            },
        ),
    )
}

/// The repair at `g` keeps its keys and search order, and leaves what
/// `ins_ok` describes.
pub proof fn lemma_fix_ins(g: RbTreeNode, side: usize)
    requires
        fix_insert_pre(g, side),
        bst(Some(Box::new(g))),
    ensures
        mset(Some(Box::new(fix_ins(g, side)))) =~= mset(Some(Box::new(g))),
        bst(Some(Box::new(fix_ins(g, side)))),
        ins_ok(g, fix_ins(g, side)),
{
    let p = *child(g, side).unwrap();
    if !needs_fix(p) {
        assert(rb(Some(Box::new(p))));
    } else if is_red(child(g, other(side))) {
        lemma_ins_red_uncle(g, side);
    } else if side == Pos::LEFT {
        if is_red(p.left) {
            lemma_ins_outer_left(g);
        } else {
            lemma_ins_inner_left(g);
        }
    } else {
        if is_red(p.right) {
            lemma_ins_outer_right(g);
        } else {
            lemma_ins_inner_right(g);
        }
    }
}

/// Inserting into a valid subtree adds one copy of the key, keeps search
/// order, and leaves what `ins_ok` describes.
pub proof fn lemma_inserted(n: RbTreeNode, val: i32)
    requires
        rb(Some(Box::new(n))),
        bst(Some(Box::new(n))),
    ensures
        mset(Some(Box::new(inserted(n, val)))) =~= mset(Some(Box::new(n))).insert(val),
        bst(Some(Box::new(inserted(n, val)))),
        ins_ok(n, inserted(n, val)),
    decreases n,
{
    assert(bst(n.left) && bst(n.right));
    if val <= n.val {
        let c = match n.left {
            None => leaf(val, Color::Red),
            Some(l) => {
                lemma_inserted(*l, val);
                assert(rb(Some(l)));
                inserted(*l, val)
            },
        };
        let g = with_left(n, n.color, c);
        assert(mset(g.left) =~= mset(n.left).insert(val));
        assert(mset(Some(Box::new(g))) =~= mset(Some(Box::new(n))).insert(val));
        assert forall|k: i32| #[trigger] mset(g.left).contains(k) implies k <= g.val by {
            if k != val {
                assert(mset(n.left).contains(k));
            }
        }
        assert(bst(g.left));
        assert(bst(Some(Box::new(g))));
        assert(rb_below(c));
        assert(fix_insert_pre(g, Pos::LEFT));
        lemma_fix_ins(g, Pos::LEFT);
    } else {
        let c = match n.right {
            None => leaf(val, Color::Red),
            Some(r) => {
                lemma_inserted(*r, val);
                assert(rb(Some(r)));
                inserted(*r, val)
            },
        };
        let g = with_right(n, n.color, c);
        assert(mset(g.right) =~= mset(n.right).insert(val));
        assert(mset(Some(Box::new(g))) =~= mset(Some(Box::new(n))).insert(val));
        assert forall|k: i32| #[trigger] mset(g.right).contains(k) implies g.val <= k by {
            if k != val {
                assert(mset(n.right).contains(k));
            }
        }
        assert(bst(g.right));
        assert(bst(Some(Box::new(g))));
        assert(rb_below(c));
        assert(fix_insert_pre(g, Pos::RIGHT));
        lemma_fix_ins(g, Pos::RIGHT);
    }
}

/// The state of `p` when its child opposite `ss` lost one black node on
/// every path, `ss` being the side of the sibling.
pub open spec fn fix_remove_pre(p: RbTreeNode, ss: usize) -> bool {
    let x = child(p, other(ss));
    let s = child(p, ss);
    &&& ss == Pos::LEFT || ss == Pos::RIGHT
    &&& rb(x)
    &&& rb(s)
    &&& bh(x) + 1 == bh(s)
    &&& !is_red(x)
    &&& p.color == Color::Red ==> !is_red(s)
    &&& bst(Some(Box::new(p)))
}

/// What the repair of `p` leaves in `r`; `short` tells whether the loss of
/// one black node still stands and passes to the parent.
pub open spec fn fix_remove_post(p: RbTreeNode, ss: usize, r: RbTreeNode, short: bool) -> bool {
    let rl = Some(Box::new(r));
    let pl = Some(Box::new(p));
    &&& mset(rl) =~= mset(pl)
    &&& bst(rl)
    &&& rb(rl)
    &&& bh(rl) == if short {
        bh(child(p, other(ss))) + black_count(p.color)
    } else {
        bh(child(p, ss)) + black_count(p.color)
    }
    &&& p.color == Color::Black ==> r.color == Color::Black
    &&& short ==> r.color == Color::Black
    &&& p.color == Color::Red ==> !short
}

/// What a removal from the subtree `before` leaves in `after`; `short`
/// tells whether every path lost one black node.
pub open spec fn del_ok(before: Link, after: Link, short: bool) -> bool {
    &&& rb(after)
    &&& bst(after)
    &&& bh(after) + (if short { 1nat } else { 0nat }) == bh(before)
    &&& !is_red(before) ==> !is_red(after)
    &&& short ==> !is_red(after)
}

/// Black sibling with black children: the sibling turns red and `p`
/// black; a `p` that was red ends the repair there.
pub open spec fn rm_black_nephews(p: RbTreeNode, ss: usize) -> RbTreeNode {
    let s1 = recolored(*child(p, ss).unwrap(), Color::Red);
    let r1 = if ss == Pos::LEFT {
        with_left(p, p.color, s1)
    } else {
        with_right(p, p.color, s1)
    };
    recolored(r1, Color::Black)
}

/// Black left sibling with a red outer child: the sibling takes the color
/// of `p`, that child and `p` turn black, and `p` rotates right.
pub open spec fn rm_outer_left(p: RbTreeNode) -> RbTreeNode {
    let s = *p.left.unwrap();
    rotr(with_left(p, Color::Black, with_left(s, p.color, recolored(*s.left.unwrap(), Color::Black))))
}

/// Black left sibling whose only red child is the inner one: that child
/// takes the color of `p`, `p` turns black; rotate left at the sibling,
/// then right at `p`.
pub open spec fn rm_inner_left(p: RbTreeNode) -> RbTreeNode {
    let s = *p.left.unwrap();
    rotr(with_left(p, Color::Black, rotl(with_right(s, s.color, recolored(*s.right.unwrap(), p.color)))))
}

/// Black right sibling with a red outer child: the sibling takes the color
/// of `p`, that child and `p` turn black, and `p` rotates left.
pub open spec fn rm_outer_right(p: RbTreeNode) -> RbTreeNode {
    let s = *p.right.unwrap();
    rotl(with_right(p, Color::Black, with_right(s, p.color, recolored(*s.right.unwrap(), Color::Black))))
}

/// Black right sibling whose only red child is the inner one: that child
/// takes the color of `p`, `p` turns black; rotate right at the sibling,
/// then left at `p`.
pub open spec fn rm_inner_right(p: RbTreeNode) -> RbTreeNode {
    let s = *p.right.unwrap();
    rotl(with_right(p, Color::Black, rotr(with_left(s, s.color, recolored(*s.left.unwrap(), p.color)))))
}

pub(crate) proof fn lemma_rm_black_nephews(p: RbTreeNode, ss: usize)
    requires
        fix_remove_pre(p, ss),
        child(p, ss) is Some,
        !is_red(child(p, ss)),
        !is_red(child(p, ss).unwrap().left),
        !is_red(child(p, ss).unwrap().right),
    ensures
        ({
            let s1 = recolored(*child(p, ss).unwrap(), Color::Red);
            let r1 = if ss == Pos::LEFT {
                with_left(p, p.color, s1)
            } else {
                with_right(p, p.color, s1)
            };
            if p.color == Color::Black {
                fix_remove_post(p, ss, r1, true)
            } else {
                fix_remove_post(p, ss, recolored(r1, Color::Black), false)
            }
        }),
{
    let s0 = *child(p, ss).unwrap();
    let s1 = recolored(s0, Color::Red);
    lemma_recolor(s0, Color::Red);
    assert(rb(Some(Box::new(s1))));
    assert(bh(Some(Box::new(s1))) + 1 == bh(Some(Box::new(s0))));
    let r1 = if ss == Pos::LEFT {
        with_left(p, p.color, s1)
    } else {
        with_right(p, p.color, s1)
    };
    lemma_recolor(r1, Color::Black);
    if ss == Pos::LEFT {
        assert(mset(Some(Box::new(r1))) == mset(Some(Box::new(s1))).add(mset(p.right)).insert(p.val));
        assert(mset(Some(Box::new(p))) == mset(Some(Box::new(s0))).add(mset(p.right)).insert(p.val));
    } else {
        assert(mset(Some(Box::new(r1))) == mset(p.left).add(mset(Some(Box::new(s1)))).insert(p.val));
        assert(mset(Some(Box::new(p))) == mset(p.left).add(mset(Some(Box::new(s0)))).insert(p.val));
    }
    assert(bst(Some(Box::new(r1))));
    if p.color == Color::Black {
        assert(rb(Some(Box::new(r1))));
    } else {
        assert(rb(Some(Box::new(recolored(r1, Color::Black)))));
    }
}

pub(crate) proof fn lemma_rm_outer_left(p: RbTreeNode)
    requires
        fix_remove_pre(p, Pos::LEFT),
        p.left is Some,
        !is_red(p.left),
        is_red(p.left.unwrap().left),
    ensures
        ({
            let s = *p.left.unwrap();
            let s1 = with_left(s, p.color, recolored(*s.left.unwrap(), Color::Black));
            fix_remove_post(p, Pos::LEFT, rotr(with_left(p, Color::Black, s1)), false)
        }),
{
    let s0 = *p.left.unwrap();
    let a0 = *s0.left.unwrap();
    let a1 = recolored(a0, Color::Black);
    lemma_recolor(a0, Color::Black);
    assert(rb(Some(Box::new(s0))));
    assert(rb(Some(Box::new(a0))));
    let s1 = with_left(s0, p.color, a1);
    assert(bst(p.left));
    assert(mset(Some(Box::new(s1))) == mset(Some(Box::new(a1))).add(mset(s0.right)).insert(s0.val));
    assert(mset(Some(Box::new(s0))) == mset(Some(Box::new(a0))).add(mset(s0.right)).insert(s0.val));
    assert(bst(Some(Box::new(s1))));
    let p1 = with_left(p, Color::Black, s1);
    assert(mset(Some(Box::new(p1))) == mset(Some(Box::new(s1))).add(mset(p.right)).insert(p.val));
    assert(mset(Some(Box::new(p))) == mset(Some(Box::new(s0))).add(mset(p.right)).insert(p.val));
    assert(bst(Some(Box::new(p1))));
    lemma_rotr(p1);
    let r = rotr(p1);
    let b = *r.right.unwrap();
    assert(bh(Some(Box::new(s0))) == bh(s0.left) + 1);
    assert(bh(Some(Box::new(a0))) == bh(a0.left));
    assert(rb(Some(Box::new(a1))));
    assert(rb(Some(Box::new(b))));
    assert(bh(Some(Box::new(b))) == bh(s0.right) + 1);
    assert(rb(Some(Box::new(r))));
}

pub(crate) proof fn lemma_rm_inner_left(p: RbTreeNode)
    requires
        fix_remove_pre(p, Pos::LEFT),
        p.left is Some,
        !is_red(p.left),
        !is_red(p.left.unwrap().left),
        is_red(p.left.unwrap().right),
    ensures
        ({
            let s = *p.left.unwrap();
            let s1 = with_right(s, s.color, recolored(*s.right.unwrap(), p.color));
            fix_remove_post(p, Pos::LEFT, rotr(with_left(p, Color::Black, rotl(s1))), false)
        }),
{
    let s0 = *p.left.unwrap();
    let b0 = *s0.right.unwrap();
    let b1 = recolored(b0, p.color);
    lemma_recolor(b0, p.color);
    assert(rb(Some(Box::new(s0))));
    assert(rb(Some(Box::new(b0))));
    let s1 = with_right(s0, s0.color, b1);
    assert(bst(p.left));
    assert(mset(Some(Box::new(s1))) == mset(s0.left).add(mset(Some(Box::new(b1)))).insert(s0.val));
    assert(mset(Some(Box::new(s0))) == mset(s0.left).add(mset(Some(Box::new(b0)))).insert(s0.val));
    assert(bst(Some(Box::new(s1))));
    lemma_rotl(s1);
    let s2 = rotl(s1);
    let p1 = with_left(p, Color::Black, s2);
    assert(mset(Some(Box::new(p1))) == mset(Some(Box::new(s2))).add(mset(p.right)).insert(p.val));
    assert(mset(Some(Box::new(p))) == mset(Some(Box::new(s0))).add(mset(p.right)).insert(p.val));
    assert(bst(Some(Box::new(p1))));
    lemma_rotr(p1);
    let r = rotr(p1);
    let a = *r.left.unwrap();
    let c = *r.right.unwrap();
    assert(bh(Some(Box::new(s0))) == bh(s0.left) + 1);
    assert(bh(Some(Box::new(b0))) == bh(b0.left));
    assert(rb(Some(Box::new(a))));
    assert(bh(Some(Box::new(a))) == bh(s0.left) + 1);
    assert(rb(Some(Box::new(c))));
    assert(bh(Some(Box::new(c))) == bh(b0.right) + 1);
    assert(rb(Some(Box::new(r))));
}

pub(crate) proof fn lemma_rm_outer_right(p: RbTreeNode)
    requires
        fix_remove_pre(p, Pos::RIGHT),
        p.right is Some,
        !is_red(p.right),
        is_red(p.right.unwrap().right),
    ensures
        ({
            let s = *p.right.unwrap();
            let s1 = with_right(s, p.color, recolored(*s.right.unwrap(), Color::Black));
            fix_remove_post(p, Pos::RIGHT, rotl(with_right(p, Color::Black, s1)), false)
        }),
{
    let s0 = *p.right.unwrap();
    let a0 = *s0.right.unwrap();
    let a1 = recolored(a0, Color::Black);
    lemma_recolor(a0, Color::Black);
    assert(rb(Some(Box::new(s0))));
    assert(rb(Some(Box::new(a0))));
    let s1 = with_right(s0, p.color, a1);
    assert(bst(p.right));
    assert(mset(Some(Box::new(s1))) == mset(s0.left).add(mset(Some(Box::new(a1)))).insert(s0.val));
    assert(mset(Some(Box::new(s0))) == mset(s0.left).add(mset(Some(Box::new(a0)))).insert(s0.val));
    assert(bst(Some(Box::new(s1))));
    let p1 = with_right(p, Color::Black, s1);
    assert(mset(Some(Box::new(p1))) == mset(p.left).add(mset(Some(Box::new(s1)))).insert(p.val));
    assert(mset(Some(Box::new(p))) == mset(p.left).add(mset(Some(Box::new(s0)))).insert(p.val));
    assert(bst(Some(Box::new(p1))));
    lemma_rotl(p1);
    let r = rotl(p1);
    let b = *r.left.unwrap();
    assert(bh(Some(Box::new(s0))) == bh(s0.right) + 1);
    assert(bh(Some(Box::new(a0))) == bh(a0.right));
    assert(rb(Some(Box::new(a1))));
    assert(rb(Some(Box::new(b))));
    assert(bh(Some(Box::new(b))) == bh(s0.left) + 1);
    assert(rb(Some(Box::new(r))));
}

pub(crate) proof fn lemma_rm_inner_right(p: RbTreeNode)
    requires
        fix_remove_pre(p, Pos::RIGHT),
        p.right is Some,
        !is_red(p.right),
        !is_red(p.right.unwrap().right),
        is_red(p.right.unwrap().left),
    ensures
        ({
            let s = *p.right.unwrap();
            let s1 = with_left(s, s.color, recolored(*s.left.unwrap(), p.color));
            fix_remove_post(p, Pos::RIGHT, rotl(with_right(p, Color::Black, rotr(s1))), false)
        }),
{
    let s0 = *p.right.unwrap();
    let b0 = *s0.left.unwrap();
    let b1 = recolored(b0, p.color);
    lemma_recolor(b0, p.color);
    assert(rb(Some(Box::new(s0))));
    assert(rb(Some(Box::new(b0))));
    let s1 = with_left(s0, s0.color, b1);
    assert(bst(p.right));
    assert(mset(Some(Box::new(s1))) == mset(Some(Box::new(b1))).add(mset(s0.right)).insert(s0.val));
    assert(mset(Some(Box::new(s0))) == mset(Some(Box::new(b0))).add(mset(s0.right)).insert(s0.val));
    assert(bst(Some(Box::new(s1))));
    lemma_rotr(s1);
    let s2 = rotr(s1);
    let p1 = with_right(p, Color::Black, s2);
    assert(mset(Some(Box::new(p1))) == mset(p.left).add(mset(Some(Box::new(s2)))).insert(p.val));
    assert(mset(Some(Box::new(p))) == mset(p.left).add(mset(Some(Box::new(s0)))).insert(p.val));
    assert(bst(Some(Box::new(p1))));
    lemma_rotl(p1);
    let r = rotl(p1);
    let a = *r.right.unwrap();
    let c = *r.left.unwrap();
    assert(bh(Some(Box::new(s0))) == bh(s0.right) + 1);
    assert(bh(Some(Box::new(b0))) == bh(b0.right));
    assert(rb(Some(Box::new(a))));
    assert(bh(Some(Box::new(a))) == bh(s0.right) + 1);
    assert(rb(Some(Box::new(c))));
    assert(bh(Some(Box::new(c))) == bh(b0.left) + 1);
    assert(rb(Some(Box::new(r))));
}

/// The subtree after recoloring a red left sibling and rotating right at `p`.
pub open spec fn red_sibling_left(p: RbTreeNode) -> RbTreeNode {
    rotr(with_left(p, Color::Red, recolored(*p.left.unwrap(), Color::Black)))
}

pub(crate) proof fn lemma_rm_red_sibling_left_pre(p: RbTreeNode)
    requires
        fix_remove_pre(p, Pos::LEFT),
        is_red(p.left),
    ensures
        ({
            let q = red_sibling_left(p);
            let p2 = *q.right.unwrap();
            &&& fix_remove_pre(p2, Pos::LEFT)
            &&& !is_red(p2.left)
            &&& p2.color == Color::Red
            &&& mset(Some(Box::new(q))) =~= mset(Some(Box::new(p)))
            &&& bst(Some(Box::new(q)))
        }),
{
    let s0 = *p.left.unwrap();
    let s1 = recolored(s0, Color::Black);
    lemma_recolor(s0, Color::Black);
    let p1 = with_left(p, Color::Red, s1);
    assert(bst(p.left));
    assert(mset(Some(Box::new(p1))) == mset(Some(Box::new(s1))).add(mset(p.right)).insert(p.val));
    assert(mset(Some(Box::new(p))) == mset(Some(Box::new(s0))).add(mset(p.right)).insert(p.val));
    assert(bst(Some(Box::new(p1))));
    lemma_rotr(p1);
    let q = rotr(p1);
    let p2 = *q.right.unwrap();
    assert(bst(q.right));
    assert(rb(Some(Box::new(s0))));
    assert(bh(Some(Box::new(s0))) == bh(s0.left));
}

pub(crate) proof fn lemma_rm_red_sibling_left_post(p: RbTreeNode, r3: RbTreeNode, d3: bool)
    requires
        fix_remove_pre(p, Pos::LEFT),
        is_red(p.left),
        fix_remove_post(*red_sibling_left(p).right.unwrap(), Pos::LEFT, r3, d3),
    ensures
        !d3,
        fix_remove_post(p, Pos::LEFT, with_right(red_sibling_left(p), Color::Black, r3), false),
{
    lemma_rm_red_sibling_left_pre(p);
    let s0 = *p.left.unwrap();
    let q = red_sibling_left(p);
    let p2 = *q.right.unwrap();
    let r = with_right(q, Color::Black, r3);
    assert(rb(Some(Box::new(s0))));
    assert(mset(Some(Box::new(r))) == mset(q.left).add(mset(Some(Box::new(r3)))).insert(q.val));
    assert(mset(Some(Box::new(q))) == mset(q.left).add(mset(Some(Box::new(p2)))).insert(q.val));
    assert forall|k: i32| #[trigger] mset(r.right).contains(k) implies r.val <= k by {
        assert(mset(q.right).contains(k));
    }
    assert(bst(q.left));
    assert(bst(Some(Box::new(r))));
    assert(rb(Some(Box::new(r))));
}

/// The subtree after recoloring a red right sibling and rotating left at `p`.
pub open spec fn red_sibling_right(p: RbTreeNode) -> RbTreeNode {
    rotl(with_right(p, Color::Red, recolored(*p.right.unwrap(), Color::Black)))
}

pub(crate) proof fn lemma_rm_red_sibling_right_pre(p: RbTreeNode)
    requires
        fix_remove_pre(p, Pos::RIGHT),
        is_red(p.right),
    ensures
        ({
            let q = red_sibling_right(p);
            let p2 = *q.left.unwrap();
            &&& fix_remove_pre(p2, Pos::RIGHT)
            &&& !is_red(p2.right)
            &&& p2.color == Color::Red
            &&& mset(Some(Box::new(q))) =~= mset(Some(Box::new(p)))
            &&& bst(Some(Box::new(q)))
        }),
{
    let s0 = *p.right.unwrap();
    let s1 = recolored(s0, Color::Black);
    lemma_recolor(s0, Color::Black);
    let p1 = with_right(p, Color::Red, s1);
    assert(bst(p.right));
    assert(mset(Some(Box::new(p1))) == mset(p.left).add(mset(Some(Box::new(s1)))).insert(p.val));
    assert(mset(Some(Box::new(p))) == mset(p.left).add(mset(Some(Box::new(s0)))).insert(p.val));
    assert(bst(Some(Box::new(p1))));
    lemma_rotl(p1);
    let q = rotl(p1);
    let p2 = *q.left.unwrap();
    assert(bst(q.left));
    assert(rb(Some(Box::new(s0))));
    assert(bh(Some(Box::new(s0))) == bh(s0.right));
}

pub(crate) proof fn lemma_rm_red_sibling_right_post(p: RbTreeNode, r3: RbTreeNode, d3: bool)
    requires
        fix_remove_pre(p, Pos::RIGHT),
        is_red(p.right),
        fix_remove_post(*red_sibling_right(p).left.unwrap(), Pos::RIGHT, r3, d3),
    ensures
        !d3,
        fix_remove_post(p, Pos::RIGHT, with_left(red_sibling_right(p), Color::Black, r3), false),
{
    lemma_rm_red_sibling_right_pre(p);
    let s0 = *p.right.unwrap();
    let q = red_sibling_right(p);
    let p2 = *q.left.unwrap();
    let r = with_left(q, Color::Black, r3);
    assert(rb(Some(Box::new(s0))));
    assert(mset(Some(Box::new(r))) == mset(Some(Box::new(r3))).add(mset(q.right)).insert(q.val));
    assert(mset(Some(Box::new(q))) == mset(Some(Box::new(p2))).add(mset(q.right)).insert(q.val));
    assert forall|k: i32| #[trigger] mset(r.left).contains(k) implies k <= r.val by {
        assert(mset(q.left).contains(k));
    }
    assert(bst(q.right));
    assert(bst(Some(Box::new(r))));
    assert(rb(Some(Box::new(r))));
}

} // verus!
