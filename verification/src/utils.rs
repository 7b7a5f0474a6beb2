//! Utility functions mainly for working with tree-like structures.
use vstd::prelude::*;
use vstd::pervasive::cloned;
use crate::ast::{
    clamps_have_sels, evaluates_to_dice, ops_view, tree_of, tree_wf, Dice, DiceExpr, Node, OpView,
    SetOp, SetSel, Tree,
};
use crate::ast::HasChildren;
use crate::expr::{Number, NumberKind};
use crate::kinds::{Advantage, DieSides, SelCat, SetOpKind};

verus! {

/// The first (leftmost) child of a tree, if any.
pub open spec fn first_child(t: Tree) -> Option<Tree> {
    match t {
        Tree::Expression { roll, .. } => Some(*roll),
        Tree::Literal(_) => None,
        Tree::Parenthetical(v) => Some(*v),
        Tree::Annotated { value, .. } => Some(*value),
        Tree::UnOp { value, .. } => Some(*value),
        Tree::BinOp { left, .. } => Some(*left),
        Tree::SetExpr(values) => if values.len() > 0 {
            Some(values[0])
        } else {
            None
        },
        Tree::DiceExpr { .. } => None,
        Tree::SetWithOps { value, .. } => Some(*value),
        Tree::Dice { value, .. } => Some(*value),
    }
}

/// Whether a tree has no children.
pub open spec fn is_leaf(t: Tree) -> bool {
    first_child(t) is None
}

/// The node that advantage applies to: going down the leftmost children, the
/// last node that has a child (the tree itself if it has none).
pub open spec fn adv_target(t: Tree) -> Tree
    decreases t,
{
    match t {
        Tree::Expression { roll, .. } => if is_leaf(*roll) {
            t
        } else {
            adv_target(*roll)
        },
        Tree::Parenthetical(v) => if is_leaf(*v) {
            t
        } else {
            adv_target(*v)
        },
        Tree::Annotated { value, .. } => if is_leaf(*value) {
            t
        } else {
            adv_target(*value)
        },
        Tree::UnOp { value, .. } => if is_leaf(*value) {
            t
        } else {
            adv_target(*value)
        },
        Tree::BinOp { left, .. } => if is_leaf(*left) {
            t
        } else {
            adv_target(*left)
        },
        Tree::SetExpr(values) => if values.len() == 0 || is_leaf(values[0]) {
            t
        } else {
            adv_target(values[0])
        },
        Tree::SetWithOps { value, .. } => if is_leaf(*value) {
            t
        } else {
            adv_target(*value)
        },
        Tree::Dice { value, .. } => if is_leaf(*value) {
            t
        } else {
            adv_target(*value)
        },
        _ => t,
    }
}

/// Whether advantage can be applied: the node it applies to, if dice, holds
/// a dice expression.
pub open spec fn adv_applies(t: Tree) -> bool {
    adv_target(t) matches Tree::Dice { value, .. } ==> (*value) is DiceExpr
}

/// The dice with advantage applied: a single d20 becomes two, the higher
/// (advantage) or the lower (disadvantage) kept.
pub open spec fn apply_adv(t: Tree, adv: Advantage) -> Tree {
    match t {
        Tree::Dice { value, ops } => if *value == (Tree::DiceExpr { num: 1, sides: DieSides::Literal(20) })
            && adv != Advantage::Normal {
            let cat = if adv == Advantage::Advantage {
                SelCat::Hi
            } else {
                SelCat::Lo
            };
            Tree::Dice {
                value: Box::new(Tree::DiceExpr { num: 2, sides: DieSides::Literal(20) }),
                ops: seq![OpView { op: SetOpKind::Keep, sels: seq![SetSel { cat, num: 1 }] }] + ops,
            }
        } else {
            t
        },
        _ => t,
    }
}

/// The tree with advantage applied to the node it applies to.
pub open spec fn adv_spec(t: Tree, adv: Advantage) -> Tree
    decreases t,
{
    match t {
        Tree::Expression { roll, comment } => if is_leaf(*roll) {
            t
        } else {
            Tree::Expression { roll: Box::new(adv_spec(*roll, adv)), comment }
        },
        Tree::Parenthetical(v) => if is_leaf(*v) {
            t
        } else {
            Tree::Parenthetical(Box::new(adv_spec(*v, adv)))
        },
        Tree::Annotated { value, annotations } => if is_leaf(*value) {
            t
        } else {
            Tree::Annotated { value: Box::new(adv_spec(*value, adv)), annotations }
        },
        Tree::UnOp { op, value } => if is_leaf(*value) {
            t
        } else {
            Tree::UnOp { op, value: Box::new(adv_spec(*value, adv)) }
        },
        Tree::BinOp { op, left, right } => if is_leaf(*left) {
            t
        } else {
            Tree::BinOp { op, left: Box::new(adv_spec(*left, adv)), right }
        },
        Tree::SetExpr(values) => if values.len() == 0 || is_leaf(values[0]) {
            t
        } else {
            Tree::SetExpr(values.update(0, adv_spec(values[0], adv)))
        },
        Tree::SetWithOps { value, ops } => if is_leaf(*value) {
            t
        } else {
            Tree::SetWithOps { value: Box::new(adv_spec(*value, adv)), ops }
        },
        Tree::Dice { value, ops } => if is_leaf(*value) {
            apply_adv(t, adv)
        } else {
            Tree::Dice { value: Box::new(adv_spec(*value, adv)), ops }
        },
        _ => t,
    }
}

/// Whether a node has no children.
pub fn is_leaf_exec(n: &Node) -> (r: bool)
    ensures
        r == is_leaf(tree_of(*n)),
{
    match n {
        Node::Literal(_) | Node::DiceExpr(_) => true,
        Node::SetExpr(st) => {
            proof {
                crate::ast::lemma_trees_of(st.values@);
            }
            st.values.len() == 0
        },
        _ => false,
    }
}

/// Applies advantage to dice, or below them, in place.
pub fn adv_dice(d: &mut Dice, adv: Advantage)
    requires
        adv_applies(tree_of(Node::Dice(*old(d)))),
    ensures
        tree_of(Node::Dice(*final(d))) == adv_spec(tree_of(Node::Dice(*old(d))), adv),
    decreases *old(d),
{
    let ghost v0 = tree_of(*d.value);
    let ghost o0 = ops_view(d.ops@);
    assert(tree_of(Node::Dice(*d)) == Tree::Dice { value: Box::new(v0), ops: o0 });
    if !is_leaf_exec(&d.value) {
        adv_in_place(&mut d.value, adv);
    } else {
        let single_d20 = match &*d.value {
            Node::DiceExpr(x) => x.num == 1 && x.sides.is(20),
            _ => false,
        };
        let hilo = match adv {
            Advantage::Advantage => Some(SelCat::Hi),
            Advantage::Disadvantage => Some(SelCat::Lo),
            Advantage::Normal => None,
        };
        if single_d20 {
            if let Some(cat) = hilo {
                let ghost ops0 = d.ops@;
                d.value = Box::new(Node::DiceExpr(DiceExpr { num: 2, sides: DieSides::Literal(20) }));
                let op = SetOp::new(SetOpKind::Keep, SetSel::new(cat, 1));
                d.ops.insert(0, op);
                assert(ops_view(d.ops@) =~= seq![op@] + ops_view(ops0));
                assert(op@ == OpView { op: SetOpKind::Keep, sels: seq![SetSel { cat, num: 1 }] });
                assert(tree_of(*d.value) == Tree::DiceExpr { num: 2, sides: DieSides::Literal(20) });
            }
        }
    }
}

/// Applies advantage to the node it applies to, in place.
pub fn adv_in_place(t: &mut Node, adv: Advantage)
    requires
        adv_applies(tree_of(*old(t))),
    ensures
        tree_of(*final(t)) == adv_spec(tree_of(*old(t)), adv),
    decreases *old(t),
{
    let ghost t0 = tree_of(*t);
    match t {
        Node::Expression(e) => {
            let ghost c0 = tree_of(*e.roll);
            let ghost cm = crate::ast::comment_view(e.comment);
            assert(t0 == Tree::Expression { roll: Box::new(c0), comment: cm });
            if !is_leaf_exec(&e.roll) {
                adv_in_place(&mut e.roll, adv);
            }
            assert(tree_of(*e.roll) == if is_leaf(c0) {
                c0
            } else {
                adv_spec(c0, adv)
            });
        },
        Node::Parenthetical(p) => {
            if !is_leaf_exec(&p.value) {
                adv_in_place(&mut p.value, adv);
            }
        },
        Node::Annotated(a) => {
            if !is_leaf_exec(&a.value) {
                adv_in_place(&mut a.value, adv);
            }
        },
        Node::UnOp(u) => {
            if !is_leaf_exec(&u.value) {
                adv_in_place(&mut u.value, adv);
            }
        },
        Node::BinOp(b) => {
            if !is_leaf_exec(&b.left) {
                adv_in_place(&mut b.left, adv);
            }
        },
        Node::SetExpr(st) => {
            proof {
                crate::ast::lemma_trees_of(st.values@);
            }
            if st.values.len() > 0 && !is_leaf_exec(&st.values[0]) {
                let ghost v0 = st.values@;
                adv_in_place(&mut st.values[0], adv);
                proof {
                    assert(st.values@ == v0.update(0, st.values@[0]));
                    crate::ast::lemma_trees_of(st.values@);
                    assert(crate::ast::trees_of(st.values@) =~= crate::ast::trees_of(v0).update(
                        0,
                        tree_of(st.values@[0]),
                    ));
                }
            }
        },
        Node::SetWithOps(st) => {
            if !is_leaf_exec(&st.value) {
                adv_in_place(&mut st.value, adv);
            }
        },
        Node::Dice(d) => adv_dice(d, adv),
        _ => {},
    }
}

/// Returns the tree with the given [`Advantage`] applied, if applicable: if
/// the node found by going down the leftmost children is a single d20, it
/// becomes two d20s of which the higher (or the lower) is kept.
pub fn ast_with_adv(root: Node, adv: Advantage) -> (r: Node)
    requires
        adv_applies(tree_of(root)),
    ensures
        tree_of(r) == adv_spec(tree_of(root), adv),
{
    let mut r = root;
    adv_in_place(&mut r, adv);
    r
}

/// Advantage applies to every tree the parser gives.
pub proof fn lemma_parsed_adv_applies(t: Tree)
    requires
        crate::ast::dice_hold_exprs(t),
    ensures
        adv_applies(t),
    decreases t,
{
    match t {
        Tree::Expression { roll, .. } => if !is_leaf(*roll) {
            lemma_parsed_adv_applies(*roll);
        },
        Tree::Parenthetical(v) => if !is_leaf(*v) {
            lemma_parsed_adv_applies(*v);
        },
        Tree::Annotated { value, .. } => if !is_leaf(*value) {
            lemma_parsed_adv_applies(*value);
        },
        Tree::UnOp { value, .. } => if !is_leaf(*value) {
            lemma_parsed_adv_applies(*value);
        },
        Tree::BinOp { left, .. } => if !is_leaf(*left) {
            lemma_parsed_adv_applies(*left);
        },
        Tree::SetExpr(values) => if values.len() > 0 && !is_leaf(values[0]) {
            assert(crate::ast::dice_hold_exprs(values[0]));
            lemma_parsed_adv_applies(values[0]);
        },
        Tree::SetWithOps { value, .. } => if !is_leaf(*value) {
            lemma_parsed_adv_applies(*value);
        },
        Tree::Dice { value, .. } => {},
        _ => {},
    }
}

/// Applying advantage keeps a tree fit to be rolled, and keeps what it
/// evaluates to dice or not.
pub proof fn lemma_adv_wf(t: Tree, adv: Advantage)
    requires
        tree_wf(t),
    ensures
        tree_wf(adv_spec(t, adv)),
        evaluates_to_dice(adv_spec(t, adv)) == evaluates_to_dice(t),
        crate::ast::dice_hold_exprs(t) ==> crate::ast::dice_hold_exprs(adv_spec(t, adv)),
    decreases t,
{
    match t {
        Tree::Expression { roll, .. } => {
            if !is_leaf(*roll) {
                lemma_adv_wf(*roll, adv);
            }
            assert(tree_wf(adv_spec(t, adv)));
        },
        Tree::Parenthetical(v) => if !is_leaf(*v) {
            lemma_adv_wf(*v, adv);
        },
        Tree::Annotated { value, .. } => if !is_leaf(*value) {
            lemma_adv_wf(*value, adv);
        },
        Tree::UnOp { value, .. } => if !is_leaf(*value) {
            lemma_adv_wf(*value, adv);
        },
        Tree::BinOp { left, .. } => if !is_leaf(*left) {
            lemma_adv_wf(*left, adv);
        },
        Tree::SetExpr(values) => if values.len() > 0 && !is_leaf(values[0]) {
            crate::eval::lemma_set_members_wf(t);
            lemma_adv_wf(values[0], adv);
            let nv = values.update(0, adv_spec(values[0], adv));
            assert forall|i: int| 0 <= i < nv.len() implies tree_wf(#[trigger] nv[i]) by {
                if i > 0 {
                    assert(nv[i] == values[i]);
                }
            }
            if crate::ast::dice_hold_exprs(t) {
                assert forall|i: int| 0 <= i < nv.len() implies crate::ast::dice_hold_exprs(#[trigger] nv[i]) by {
                    assert(crate::ast::dice_hold_exprs(values[i]));
                }
            }
        },
        Tree::SetWithOps { value, .. } => if !is_leaf(*value) {
            lemma_adv_wf(*value, adv);
        },
        Tree::Dice { value, ops } => if !is_leaf(*value) {
            lemma_adv_wf(*value, adv);
            assert(tree_wf(adv_spec(t, adv)));
        } else {
            let r = apply_adv(t, adv);
            if r != t {
                let cat = if adv == Advantage::Advantage {
                    SelCat::Hi
                } else {
                    SelCat::Lo
                };
                let nops = seq![OpView { op: SetOpKind::Keep, sels: seq![SetSel { cat, num: 1 }] }] + ops;
                assert(r == Tree::Dice {
                    value: Box::new(Tree::DiceExpr { num: 2, sides: DieSides::Literal(20) }),
                    ops: nops,
                });
                assert forall|i: int|
                    0 <= i < nops.len() && ((#[trigger] nops[i]).op == SetOpKind::Min || nops[i].op
                        == SetOpKind::Max) implies nops[i].sels.len() > 0 by {
                    if i > 0 {
                        assert(nops[i] == ops[i - 1]);
                    }
                }
                assert(clamps_have_sels(ops));
                assert(clamps_have_sels(nops));
                assert(evaluates_to_dice(Tree::DiceExpr { num: 2, sides: DieSides::Literal(20) }));
                assert(tree_wf(Tree::DiceExpr { num: 2, sides: DieSides::Literal(20) }));
                assert(tree_wf(r));
                assert(*value == Tree::DiceExpr { num: 1, sides: DieSides::Literal(20) });
                assert(evaluates_to_dice(*value));
                assert(evaluates_to_dice(t));
                assert(evaluates_to_dice(r));
            }
            assert(tree_wf(adv_spec(t, adv)));
        },
        _ => {},
    }
}

/// The leftmost node of a tree: the left children followed down to a leaf.
pub open spec fn leftmost_of<T: HasChildren>(t: T) -> T
    decreases t.height(),
{
    if t.kids().len() > 0 {
        proof {
            t.lemma_kids_lower();
        }
        leftmost_of(t.kids()[0])
    } else {
        t
    }
}

/// The rightmost node of a tree: the right children followed down to a leaf.
pub open spec fn rightmost_of<T: HasChildren>(t: T) -> T
    decreases t.height(),
{
    if t.kids().len() > 0 {
        proof {
            t.lemma_kids_lower();
        }
        rightmost_of(t.kids().last())
    } else {
        t
    }
}

/// The node reached by following the first child `k` times.
pub open spec fn left_path<T: HasChildren>(t: T, k: nat) -> T
    decreases k,
{
    if k == 0 {
        t
    } else {
        left_path(t.kids()[0], (k - 1) as nat)
    }
}

/// The node reached by following the last child `k` times.
pub open spec fn right_path<T: HasChildren>(t: T, k: nat) -> T
    decreases k,
{
    if k == 0 {
        t
    } else {
        right_path(t.kids().last(), (k - 1) as nat)
    }
}

/// The leftmost node is reached by following first children from the root,
/// each step from a node that has children, and it has no children itself.
pub proof fn law_leftmost_follows_left_children<T: HasChildren>(t: T)
    ensures
        leftmost_of(t).kids().len() == 0,
        exists|k: nat|
            #[trigger] left_path(t, k) == leftmost_of(t) && forall|j: nat| j < k ==> (#[trigger] left_path(t, j)).kids().len() > 0,
    decreases t.height(),
{
    if t.kids().len() > 0 {
        t.lemma_kids_lower();
        let c = t.kids()[0];
        law_leftmost_follows_left_children(c);
        let k = choose|k: nat|
            #[trigger] left_path(c, k) == leftmost_of(c) && forall|j: nat| j < k ==> (#[trigger] left_path(c, j)).kids().len() > 0;
        assert forall|j: nat| j <= k implies #[trigger] left_path(t, j + 1) == left_path(c, j) by {}
        assert(left_path(t, k + 1) == leftmost_of(t));
        assert forall|j: nat| j < k + 1 implies (#[trigger] left_path(t, j)).kids().len() > 0 by {
            if j > 0 {
                assert(left_path(t, ((j - 1) as nat) + 1) == left_path(c, (j - 1) as nat));
            }
        }
    } else {
        assert(left_path(t, 0) == leftmost_of(t));
    }
}

/// The rightmost node is reached by following last children from the root,
/// each step from a node that has children, and it has no children itself.
pub proof fn law_rightmost_follows_right_children<T: HasChildren>(t: T)
    ensures
        rightmost_of(t).kids().len() == 0,
        exists|k: nat|
            #[trigger] right_path(t, k) == rightmost_of(t) && forall|j: nat| j < k ==> (#[trigger] right_path(t, j)).kids().len() > 0,
    decreases t.height(),
{
    if t.kids().len() > 0 {
        t.lemma_kids_lower();
        let c = t.kids().last();
        assert(c == t.kids()[t.kids().len() - 1]);
        law_rightmost_follows_right_children(c);
        let k = choose|k: nat|
            #[trigger] right_path(c, k) == rightmost_of(c) && forall|j: nat| j < k ==> (#[trigger] right_path(c, j)).kids().len() > 0;
        assert forall|j: nat| j <= k implies #[trigger] right_path(t, j + 1) == right_path(c, j) by {}
        assert(right_path(t, k + 1) == rightmost_of(t));
        assert forall|j: nat| j < k + 1 implies (#[trigger] right_path(t, j)).kids().len() > 0 by {
            if j > 0 {
                assert(right_path(t, ((j - 1) as nat) + 1) == right_path(c, (j - 1) as nat));
            }
        }
    } else {
        assert(right_path(t, 0) == rightmost_of(t));
    }
}

/// Returns the leftmost node in the tree.
pub fn leftmost<T: HasChildren>(tree: &T) -> (r: &T)
    ensures
        *r == leftmost_of(*tree),
{
    let mut cur = tree;
    loop
        invariant
            leftmost_of(*cur) == leftmost_of(*tree),
        decreases cur.height(),
    {
        match cur.left() {
            Some(l) => {
                proof {
                    cur.lemma_kids_lower();
                }
                cur = l;
            },
            None => {
                return cur;
            },
        }
    }
}

/// Returns the rightmost node in the tree.
pub fn rightmost<T: HasChildren>(tree: &T) -> (r: &T)
    ensures
        *r == rightmost_of(*tree),
{
    let mut cur = tree;
    loop
        invariant
            rightmost_of(*cur) == rightmost_of(*tree),
        decreases cur.height(),
    {
        match cur.right() {
            Some(l) => {
                proof {
                    cur.lemma_kids_lower();
                    assert(cur.kids().last() == cur.kids()[cur.kids().len() - 1]);
                }
                cur = l;
            },
            None => {
                return cur;
            },
        }
    }
}

/// The nodes of a tree in depth-first order, left to right: the node, then
/// the nodes of each child's tree.
pub open spec fn preorder<T: HasChildren>(t: T) -> Seq<T>
    decreases t.height(), 1int, 0int,
{
    seq![t] + preorder_kids(t, t.kids().len() as int)
}

/// The nodes of the trees of the first `k` children, in depth-first order.
pub open spec fn preorder_kids<T: HasChildren>(t: T, k: int) -> Seq<T>
    decreases t.height(), 0int, k,
{
    if k <= 0 || k > t.kids().len() {
        Seq::empty()
    } else {
        proof {
            t.lemma_kids_lower();
        }
        preorder_kids(t, k - 1) + preorder(t.kids()[k - 1])
    }
}

/// The trees of the first `i` children come first among those of the first
/// `m` children.
pub proof fn lemma_preorder_kids_prefix<T: HasChildren>(t: T, i: int, m: int)
    requires
        0 <= i <= m <= t.kids().len(),
    ensures
        preorder_kids(t, i).len() <= preorder_kids(t, m).len(),
        preorder_kids(t, m).subrange(0, preorder_kids(t, i).len() as int) == preorder_kids(t, i),
    decreases m - i,
{
    if i < m {
        lemma_preorder_kids_prefix(t, i, m - 1);
        let a = preorder_kids(t, m - 1);
        let b = preorder_kids(t, m);
        assert(b.subrange(0, a.len() as int) == a);
        assert(b.subrange(0, preorder_kids(t, i).len() as int) == a.subrange(
            0,
            preorder_kids(t, i).len() as int,
        ));
    }
}

/// Returns the first node in the tree that matches the predicate `f`,
/// searching depth-first, left to right; [`None`] if no node matches.
pub fn dfs<'a, T: HasChildren, F: Fn(&T) -> bool + Copy>(node: &'a T, f: F) -> (r: Option<&'a T>)
    requires
        forall|x: &T| f.requires((x,)),
    ensures
        r matches Some(n) ==> exists|k: int|
            0 <= k < preorder(*node).len() && preorder(*node)[k] == *n && f.ensures((n,), true) && forall|j: int|
                0 <= j < k ==> f.ensures((&preorder(*node)[j],), false),
        r is None ==> forall|j: int| 0 <= j < preorder(*node).len() ==> f.ensures((&preorder(*node)[j],), false),
    decreases node.height(),
{
    let ghost pre = preorder(*node);
    if f(node) {
        assert(pre[0] == *node);
        return Some(node);
    }
    let n = node.child_count();
    let mut i: usize = 0;
    proof {
        node.lemma_kids_lower();
        assert(pre == seq![*node] + preorder_kids(*node, n as int));
    }
    while i < n
        invariant
            i <= n,
            n == node.kids().len(),
            forall|x: &T| f.requires((x,)),
            f.ensures((node,), false),
            pre == preorder(*node),
            pre == seq![*node] + preorder_kids(*node, n as int),
            forall|j: int| 0 <= j < preorder_kids(*node, i as int).len() ==> f.ensures(
                (&preorder_kids(*node, i as int)[j],),
                false,
            ),
            forall|q: int| 0 <= q < node.kids().len() ==> (#[trigger] node.kids()[q]).height() < node.height(),
        decreases n - i,
    {
        let c = node.child(i);
        let res = dfs(c, f);
        let ghost before = preorder_kids(*node, i as int);
        let ghost after = preorder_kids(*node, i + 1);
        proof {
            assert(after == before + preorder(*c));
            lemma_preorder_kids_prefix(*node, i + 1, n as int);
        }
        match res {
            Some(found) => {
                proof {
                    let k0 = choose|k: int|
                        0 <= k < preorder(*c).len() && preorder(*c)[k] == *found && f.ensures((found,), true)
                            && forall|j: int| 0 <= j < k ==> f.ensures((&preorder(*c)[j],), false);
                    let k = 1 + before.len() + k0;
                    let all = preorder_kids(*node, n as int);
                    assert(all.subrange(0, after.len() as int) == after);
                    assert(pre[k] == after[before.len() + k0]);
                    assert forall|j: int| 0 <= j < k implies f.ensures((&pre[j],), false) by {
                        if j == 0 {
                        } else if j - 1 < before.len() {
                            assert(pre[j] == after[j - 1]);
                            assert(after[j - 1] == before[j - 1]);
                        } else {
                            assert(pre[j] == after[j - 1]);
                            assert(after[j - 1] == preorder(*c)[j - 1 - before.len()]);
                        }
                    }
                }
                return Some(found);
            },
            None => {},
        }
        proof {
            assert forall|j: int| 0 <= j < after.len() implies f.ensures((&after[j],), false) by {
                if j < before.len() {
                    assert(after[j] == before[j]);
                } else {
                    assert(after[j] == preorder(*c)[j - before.len()]);
                }
            }
        }
        i = i + 1;
    }
    proof {
        assert forall|j: int| 0 <= j < pre.len() implies f.ensures((&pre[j],), false) by {
            if j > 0 {
                assert(pre[j] == preorder_kids(*node, n as int)[j - 1]);
            }
        }
    }
    None
}

/// Whether `r` is the tree `t` mapped by `f` to the given depth: `f` gave
/// `r` for a node that agrees with `t` on everything but its children, and
/// has as many children, each of them the matching child of `t` mapped the
/// same way one level less deep.
pub open spec fn mapped<T: HasChildren, F: Fn(T) -> T>(t: T, r: T, f: F, depth: nat) -> bool
    decreases depth,
{
    exists|m: T|
        #[trigger] f.ensures((m,), r) && m.same_head(&t) && m.kids().len() == t.kids().len() && (depth > 0
            ==> forall|i: int|
            0 <= i < t.kids().len() ==> mapped(t.kids()[i], m.kids()[i], f, (depth - 1) as nat))
}

/// Returns a new tree with `f` applied to each node, children first: each
/// node is copied, its children replaced by their mapped trees, and `f`
/// applied to the copy.
pub fn map_tree<T: Clone + HasChildren, F: Fn(T) -> T + Copy>(tree: &T, f: F) -> (r: T)
    requires
        forall|x: T| f.requires((x,)),
        forall|a: T, b: T| #[trigger] cloned::<T>(a, b) ==> b.same_head(&a) && b.kids().len() == a.kids().len(),
    ensures
        forall|depth: nat| mapped(*tree, r, f, depth),
    decreases tree.height(),
{
    let mut new = tree.clone();
    let n = tree.child_count();
    let mut i: usize = 0;
    proof {
        assert(cloned::<T>(*tree, new));
        tree.lemma_kids_lower();
        tree.lemma_same_head(&new, &new);
        new.lemma_same_head(tree, tree);
    }
    while i < n
        invariant
            i <= n,
            n == tree.kids().len(),
            n == new.kids().len(),
            new.same_head(tree),
            forall|x: T| f.requires((x,)),
            forall|a: T, b: T| #[trigger] cloned::<T>(a, b) ==> b.same_head(&a) && b.kids().len() == a.kids().len(),
            forall|q: int| 0 <= q < tree.kids().len() ==> (#[trigger] tree.kids()[q]).height() < tree.height(),
            forall|j: int, depth: nat|
                0 <= j < i ==> #[trigger] mapped(tree.kids()[j], new.kids()[j], f, depth),
        decreases n - i,
    {
        let mapped_child = map_tree(tree.child(i), f);
        let ghost before = new;
        proof {
            new.lemma_same_head(tree, tree);
        }
        new.set_child(i, mapped_child);
        proof {
            new.lemma_same_head(&before, tree);
            assert forall|j: int, depth: nat| 0 <= j < i + 1 implies #[trigger] mapped(
                tree.kids()[j],
                new.kids()[j],
                f,
                depth,
            ) by {
                if j < i {
                    assert(new.kids()[j] == before.kids()[j]);
                }
            }
        }
        i = i + 1;
    }
    let r = f(new);
    proof {
        assert forall|depth: nat| mapped(*tree, r, f, depth) by {
            assert(f.ensures((new,), r));
            if depth > 0 {
                assert forall|j: int| 0 <= j < tree.kids().len() implies mapped(
                    tree.kids()[j],
                    new.kids()[j],
                    f,
                    (depth - 1) as nat,
                ) by {
                    assert(mapped(tree.kids()[j], new.kids()[j], f, (depth - 1) as nat));
                }
            }
            assert(new.same_head(tree) && new.kids().len() == tree.kids().len());
        }
    }
    r
}

/// Whether `r` has the shape of `t` to the given depth: it agrees with `t`
/// on everything but its children, has as many, and each of them has the
/// shape of the matching child of `t` one level less deep.
pub open spec fn same_shape<T: HasChildren>(t: T, r: T, depth: nat) -> bool
    decreases depth,
{
    r.same_head(&t) && r.kids().len() == t.kids().len() && (depth > 0 ==> forall|i: int|
        0 <= i < t.kids().len() ==> same_shape(t.kids()[i], r.kids()[i], (depth - 1) as nat))
}

/// Mapping a tree with a function that gives back what it is given leaves a
/// tree of the same shape, to every depth.
pub proof fn law_map_identity<T: HasChildren, F: Fn(T) -> T>(t: T, r: T, f: F, depth: nat)
    requires
        forall|x: T, y: T| #[trigger] f.ensures((x,), y) ==> y == x,
        mapped(t, r, f, depth),
    ensures
        same_shape(t, r, depth),
    decreases depth,
{
    let m = choose|m: T|
        #[trigger] f.ensures((m,), r) && m.same_head(&t) && m.kids().len() == t.kids().len() && (depth > 0
            ==> forall|i: int| 0 <= i < t.kids().len() ==> mapped(t.kids()[i], m.kids()[i], f, (depth - 1) as nat));
    assert(r == m);
    if depth > 0 {
        assert forall|i: int| 0 <= i < t.kids().len() implies same_shape(
            t.kids()[i],
            r.kids()[i],
            (depth - 1) as nat,
        ) by {
            law_map_identity(t.kids()[i], r.kids()[i], f, (depth - 1) as nat);
        }
    }
}

/// Copies of a parsed node agree with it on everything but their children
/// and have as many children, so parsed trees can be mapped.
pub proof fn lemma_node_clones_keep_heads()
    ensures
        forall|a: Node, b: Node| #[trigger] cloned::<Node>(a, b) ==> b.same_head(&a) && b.kids().len() == a.kids().len(),
{
    assert forall|a: Node, b: Node| #[trigger] cloned::<Node>(a, b) implies b.same_head(&a) && b.kids().len()
        == a.kids().len() by {
        if a != b {
            assert(tree_of(b) == tree_of(a));
            match (a, b) {
                (Node::SetExpr(x), Node::SetExpr(y)) => {
                    crate::ast::lemma_trees_of(x.values@);
                    crate::ast::lemma_trees_of(y.values@);
                },
                _ => {},
            }
        }
    }
}

/// Copies of an evaluated number agree with it on everything but their
/// children and have as many children, so evaluated trees can be mapped.
pub proof fn lemma_number_clones_keep_heads()
    ensures
        forall|a: Number, b: Number| #[trigger] cloned::<Number>(a, b) ==> b.same_head(&a) && b.kids().len()
            == a.kids().len(),
{
    assert forall|a: Number, b: Number| #[trigger] cloned::<Number>(a, b) implies b.same_head(&a)
        && b.kids().len() == a.kids().len() by {
        if a != b {
            assert(b@ == a@);
            match (a.kind, b.kind) {
                (NumberKind::NumSet(x), NumberKind::NumSet(y)) => {
                    crate::expr::lemma_nums_view(x.values@);
                    crate::expr::lemma_nums_view(y.values@);
                },
                _ => {},
            }
        }
    }
}

} // verus!
