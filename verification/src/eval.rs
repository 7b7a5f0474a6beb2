//! Evaluation of a parsed tree into an evaluated tree, rolling the dice.
use vstd::prelude::*;
use crate::ast::{
    clamps_have_sels, evaluates_to_dice, join, ops_for_any_set, ops_view, strings_view, tree_of,
    tree_wf, trees_of, lemma_trees_of, Node, OpView, Tree,
};
use crate::errors::Error;
use crate::expr::{
    copy_opt_string, eops_view, lemma_nums_view, lemma_value_wf, lit_num, mk_num, num_wf, nums_view,
    total_of, BinOp, Dice, Expression, KindV, Number, NumberKind, NumSet, NumV, Parenthetical, SetOp, UnOp,
};
use crate::kinds::{DieSides, SetOpKind};
use crate::ops::{
    continues, extends, lemma_nums_view_push, new_literal, num_result, op_applies, operate,
    operate_exec, roll_dice, roll_more, roll_more_exec, Tally, ZERO_SIDED,
};
use rand::rngs::StdRng;

verus! {

/// The number with the operator recorded: parentheticals and sets record
/// their operators, and so do dice where `dice`.
pub open spec fn record(n: NumV, op: OpView, dice: bool) -> NumV {
    match n.kind {
        KindV::Parenthetical { value, ops } => NumV {
            kind: KindV::Parenthetical { value, ops: ops.push(op) },
            ..n
        },
        KindV::NumSet { values, ops } => NumV { kind: KindV::NumSet { values, ops: ops.push(op) }, ..n },
        KindV::Dice { values, ops, num, sides } => if dice {
            NumV { kind: KindV::Dice { values, ops: ops.push(op), num, sides }, ..n }
        } else {
            n
        },
        _ => n,
    }
}

/// Applying the operators from index `k` on, in order, recording each.
pub open spec fn apply_ops(
    n: NumV,
    ops: Seq<OpView>,
    k: int,
    dice: bool,
    c: nat,
    max: nat,
    draws: Seq<u32>,
) -> (Result<NumV, Error>, nat)
    decreases ops.len() - k,
{
    if k < 0 || k >= ops.len() {
        (Ok(n), c)
    } else {
        match operate(n, ops[k], c, max, draws) {
            (Ok(n2), c1) => apply_ops(record(n2, ops[k], dice), ops, k + 1, dice, c1, max, draws),
            (Err(e), c1) => (Err(e), c1),
        }
    }
}

/// Whether the total of a number is zero.
pub open spec fn total_is_zero(n: NumV) -> bool {
    total_of(n) matches Some(d) && d.is_zero_spec()
}

/// Evaluating a tree with `c` rolls counted before: the evaluated number
/// and the count after.
pub open spec fn eval_spec(t: Tree, c: nat, max: nat, draws: Seq<u32>) -> (Result<NumV, Error>, nat)
    decreases t, 0int,
{
    match t {
        Tree::Expression { roll, comment } => match eval_spec(*roll, c, max, draws) {
            (Ok(n), c1) => (Ok(mk_num(KindV::Expression { roll: Box::new(n), comment })), c1),
            (Err(e), c1) => (Err(e), c1),
        },
        Tree::Annotated { value, annotations } => match eval_spec(*value, c, max, draws) {
            (Ok(n), c1) => (Ok(NumV { annotation: Some(join(annotations, Seq::empty())), ..n }), c1),
            (Err(e), c1) => (Err(e), c1),
        },
        Tree::Literal(d) => (Ok(lit_num(d)), c),
        Tree::Parenthetical(v) => match eval_spec(*v, c, max, draws) {
            (Ok(n), c1) => (Ok(mk_num(KindV::Parenthetical { value: Box::new(n), ops: Seq::empty() })), c1),
            (Err(e), c1) => (Err(e), c1),
        },
        Tree::UnOp { op, value } => match eval_spec(*value, c, max, draws) {
            (Ok(n), c1) => (Ok(mk_num(KindV::UnOp { op, value: Box::new(n) })), c1),
            (Err(e), c1) => (Err(e), c1),
        },
        Tree::BinOp { op, left, right } => match eval_spec(*left, c, max, draws) {
            (Ok(l), c1) => match eval_spec(*right, c1, max, draws) {
                (Ok(r), c2) => if op.is_division() && total_is_zero(r) {
                    (Err(Error::ZeroDivision), c2)
                } else {
                    (Ok(mk_num(KindV::BinOp { left: Box::new(l), op, right: Box::new(r) })), c2)
                },
                (Err(e), c2) => (Err(e), c2),
            },
            (Err(e), c1) => (Err(e), c1),
        },
        Tree::SetWithOps { value, ops } => match eval_spec(*value, c, max, draws) {
            (Ok(n), c1) => apply_ops(n, ops, 0, false, c1, max, draws),
            (Err(e), c1) => (Err(e), c1),
        },
        Tree::SetExpr(values) => match eval_all(values, 0, Seq::empty(), c, max, draws) {
            (Ok(vs), c1) => (Ok(mk_num(KindV::NumSet { values: vs, ops: Seq::empty() })), c1),
            (Err(e), c1) => (Err(e), c1),
        },
        Tree::Dice { value, ops } => match eval_spec(*value, c, max, draws) {
            (Ok(n), c1) => apply_ops(n, ops, 0, true, c1, max, draws),
            (Err(e), c1) => (Err(e), c1),
        },
        Tree::DiceExpr { num, sides } => match roll_dice(num as nat, sides, c, max, draws) {
            (Ok(vs), c1) => (Ok(mk_num(KindV::Dice { values: vs, ops: Seq::empty(), num, sides })), c1),
            (Err(e), c1) => (Err(e), c1),
        },
    }
}

/// Evaluating the trees from index `k` on, in order, after the numbers `acc`.
pub open spec fn eval_all(
    values: Seq<Tree>,
    k: int,
    acc: Seq<NumV>,
    c: nat,
    max: nat,
    draws: Seq<u32>,
) -> (Result<Seq<NumV>, Error>, nat)
    decreases values, values.len() - k,
{
    if k < 0 || k >= values.len() {
        (Ok(acc), c)
    } else {
        match eval_spec(values[k], c, max, draws) {
            (Ok(n), c1) => eval_all(values, k + 1, acc.push(n), c1, max, draws),
            (Err(e), c1) => (Err(e), c1),
        }
    }
}

/// Whether evaluating the tree from the count of `t0` gives `r`, leaving the
/// count of `t1` on success, for every sequence of draws that starts with the
/// draws of `t1`.
pub open spec fn eval_matches(tree: Tree, t0: Tally, t1: Tally, r: Result<NumV, Error>) -> bool {
    forall|f: Seq<u32>|
        extends(t1.draws@, f) ==> (#[trigger] eval_spec(tree, t0.count(), t0.max(), f)).0 == r && (r is Ok
            ==> eval_spec(tree, t0.count(), t0.max(), f).1 == t1.count())
}

/// A set operator of the evaluated tree from one of the parsed tree.
pub fn from_ast_op(op: &crate::ast::SetOp) -> (r: SetOp)
    ensures
        r@ == op@,
{
    SetOp { op: op.op, sels: crate::ast::copy_sels(&op.sels) }
}

/// The annotations, one after the other.
pub fn concat_strings(v: &Vec<String>) -> (r: String)
    ensures
        r@ == join(strings_view(v@), Seq::empty()),
{
    let mut r = String::new();
    let mut i: usize = 0;
    while i < v.len()
        invariant
            i <= v.len(),
            r@ == join(strings_view(v@.take(i as int)), Seq::empty()),
        decreases v.len() - i,
    {
        let ghost prev = strings_view(v@.take(i as int));
        r.append(v[i].as_str());
        proof {
            let next = strings_view(v@.take(i + 1));
            assert(next.drop_last() == prev);
            assert(next.last() == v@[i as int]@);
            if prev.len() == 0 {
                assert(next.len() == 1);
                assert(join(next, Seq::empty()) == next[0]);
                assert(r@ == Seq::<char>::empty() + v@[i as int]@);
            }
        }
        i = i + 1;
    }
    assert(v@.take(v.len() as int) == v@);
    r
}

/// Records the operator in the number.
pub fn record_exec(n: &mut Number, op: SetOp, dice: bool)
    ensures
        final(n)@ == record(old(n)@, op@, dice),
{
    let ghost o = op@;
    match &mut n.kind {
        NumberKind::Parenthetical(p) => {
            let ghost before = p.ops@;
            p.ops.push(op);
            assert(eops_view(p.ops@) == eops_view(before).push(o));
        },
        NumberKind::NumSet(st) => {
            let ghost before = st.ops@;
            st.ops.push(op);
            assert(eops_view(st.ops@) == eops_view(before).push(o));
        },
        NumberKind::Dice(d) => {
            if dice {
                let ghost before = d.ops@;
                d.ops.push(op);
                assert(eops_view(d.ops@) == eops_view(before).push(o));
            }
        },
        _ => {},
    }
}

/// Operators keep dice dice.
pub proof fn lemma_operate_dice(n: NumV, op: OpView, c: nat, max: nat, draws: Seq<u32>)
    requires
        n.kind is Dice,
    ensures
        operate(n, op, c, max, draws).0 matches Ok(m) ==> m.kind is Dice,
{
}

/// Applies the operators in order, recording each.
pub fn eval_ops(
    target: &mut Number,
    ops: &Vec<crate::ast::SetOp>,
    dice: bool,
    t: &mut Tally,
    rng: &mut StdRng,
) -> (r: Result<(), Error>)
    requires
        num_wf(old(target)@),
        clamps_have_sels(ops_view(ops@)),
        ops_for_any_set(ops_view(ops@)) || old(target)@.kind is Dice,
        old(t).wf(),
    ensures
        continues(*old(t), *final(t)),
        forall|f: Seq<u32>|
            extends(final(t).draws@, f) ==> (#[trigger] apply_ops(
                old(target)@,
                ops_view(ops@),
                0,
                dice,
                old(t).count(),
                old(t).max(),
                f,
            )).0 == crate::ops::with_ok(r, final(target)@),
        r is Ok ==> final(t).wf() && num_wf(final(target)@) && (old(target)@.kind is Dice
            ==> final(target)@.kind is Dice) && forall|f: Seq<u32>|
            extends(final(t).draws@, f) ==> (#[trigger] apply_ops(
                old(target)@,
                ops_view(ops@),
                0,
                dice,
                old(t).count(),
                old(t).max(),
                f,
            )).1 == final(t).count(),
{
    let ghost n0 = target@;
    let ghost t0 = *t;
    let ghost ov = ops_view(ops@);
    let mut k: usize = 0;
    while k < ops.len()
        invariant
            k <= ops.len(),
            t0 == *old(t),
            n0 == old(target)@,
            ov == ops_view(ops@),
            ov.len() == ops.len(),
            clamps_have_sels(ov),
            ops_for_any_set(ov) || target@.kind is Dice,
            n0.kind is Dice ==> target@.kind is Dice,
            t.wf(),
            t0.wf(),
            continues(t0, *t),
            num_wf(target@),
            forall|f: Seq<u32>|
                extends(t.draws@, f) ==> #[trigger] apply_ops(n0, ov, 0, dice, t0.count(), t0.max(), f)
                    == apply_ops(target@, ov, k as int, dice, t.count(), t.max(), f),
        decreases ops.len() - k,
    {
        let op = from_ast_op(&ops[k]);
        let ghost cur = target@;
        let ghost tb = *t;
        proof {
            assert(op@ == ov[k as int]);
            assert(ov[k as int].op == SetOpKind::Min || ov[k as int].op == SetOpKind::Max ==> ov[k as int].sels.len() > 0);
            if !ov[k as int].op.for_any_set() {
                if !(cur.kind is Dice) {
                    assert(ops_for_any_set(ov));
                    assert(ov[k as int].op.for_any_set());
                }
            }
            assert(op_applies(cur, op@));
        }
        let res = operate_exec(target, &op, t, rng);
        match res {
            Err(e) => {
                proof {
                    assert forall|f: Seq<u32>| extends(t.draws@, f) implies (#[trigger] apply_ops(
                        n0,
                        ov,
                        0,
                        dice,
                        t0.count(),
                        t0.max(),
                        f,
                    )).0 == crate::ops::with_ok(Err::<(), Error>(e), target@) by {
                        assert(extends(tb.draws@, f));
                        assert(operate(cur, ov[k as int], tb.count(), tb.max(), f).0 == Err::<NumV, Error>(e));
                    }
                }
                return Err(e);
            },
            Ok(()) => {},
        }
        let ghost operated = target@;
        proof {
            if cur.kind is Dice {
                let me = t.draws@;
                assert(extends(me, me));
                lemma_operate_dice(cur, op@, tb.count(), tb.max(), me);
            }
        }
        record_exec(target, op, dice);
        proof {
            assert forall|f: Seq<u32>| extends(t.draws@, f) implies #[trigger] apply_ops(
                n0,
                ov,
                0,
                dice,
                t0.count(),
                t0.max(),
                f,
            ) == apply_ops(target@, ov, k + 1, dice, t.count(), t.max(), f) by {
                assert(extends(tb.draws@, f));
                assert(operate(cur, ov[k as int], tb.count(), tb.max(), f) == (
                    Ok::<NumV, Error>(operated),
                    t.count(),
                ));
            }
        }
        k = k + 1;
    }
    Ok(())
}

/// The members of a well formed set expression are well formed.
pub proof fn lemma_set_members_wf(t: Tree)
    requires
        tree_wf(t),
        t is SetExpr,
    ensures
        forall|i: int| 0 <= i < t->SetExpr_0.len() ==> tree_wf(#[trigger] t->SetExpr_0[i]),
{
}

/// Evaluates a parsed tree, rolling its dice.
///
/// # Errors
///
/// If a die without sides is rolled, [`Error::Value`] is returned; if too
/// many dice are rolled, [`Error::RollLimitExceeded`]; if the right hand side
/// of a division (or modulo) is 0, [`Error::ZeroDivision`].
pub fn eval_node(node: &Node, t: &mut Tally, rng: &mut StdRng) -> (r: Result<Number, Error>)
    requires
        tree_wf(tree_of(*node)),
        old(t).wf(),
    ensures
        continues(*old(t), *final(t)),
        eval_matches(tree_of(*node), *old(t), *final(t), num_result(r)),
        r is Ok ==> final(t).wf() && num_wf(r->Ok_0@) && (evaluates_to_dice(tree_of(*node))
            ==> r->Ok_0@.kind is Dice),
    decreases node, 1int,
{
    match node {
        Node::Expression(e) => eval_expression(e, t, rng),
        Node::Annotated(a) => eval_annotated(a, t, rng),
        Node::Literal(l) => Ok(new_literal(l.value)),
        Node::Parenthetical(p) => eval_parenthetical(p, t, rng),
        Node::UnOp(u) => eval_unop(u, t, rng),
        Node::BinOp(b) => eval_binop(b, t, rng),
        Node::SetWithOps(st) => eval_set_with_ops(st, t, rng),
        Node::SetExpr(st) => eval_set_expr(st, t, rng),
        Node::Dice(d) => eval_dice(d, t, rng),
        Node::DiceExpr(d) => eval_dice_expr(d, t, rng),
    }
}

/// Evaluates a roll expression.
pub fn eval_expression(e: &crate::ast::Expression, t: &mut Tally, rng: &mut StdRng) -> (r: Result<Number, Error>)
    requires
        tree_wf(tree_of(Node::Expression(*e))),
        old(t).wf(),
    ensures
        continues(*old(t), *final(t)),
        eval_matches(tree_of(Node::Expression(*e)), *old(t), *final(t), num_result(r)),
        r is Ok ==> final(t).wf() && num_wf(r->Ok_0@) && (evaluates_to_dice(tree_of(Node::Expression(*e)))
            ==> r->Ok_0@.kind is Dice),
    decreases e, 0int,
{
    let ghost tc = *t;
    let n = match eval_node(&e.roll, t, rng) {
        Ok(x) => x,
        Err(err) => {
            proof {
                assert forall|f: Seq<u32>| extends(t.draws@, f) implies (#[trigger] eval_spec(
                    tree_of(Node::Expression(*e)),
                    tc.count(),
                    tc.max(),
                    f,
                )).0 == num_result(Err::<Number, Error>(err)) by {
                    assert(eval_spec(tree_of(*e.roll), tc.count(), tc.max(), f).0 == Err::<NumV, Error>(err));
                }
            }
            return Err(err);
        },
    };
    let ghost t1 = *t;
    let ghost nv = n@;
    let result = Number::new(NumberKind::Expression(Expression { roll: Box::new(n), comment: copy_opt_string(&e.comment) }));
    proof {
        assert forall|f: Seq<u32>| extends(t1.draws@, f) implies (#[trigger] eval_spec(
            tree_of(Node::Expression(*e)),
            tc.count(),
            tc.max(),
            f,
        )) == (num_result(Ok::<Number, Error>(result)), t1.count()) by {
            assert(eval_spec(tree_of(*e.roll), tc.count(), tc.max(), f) == (Ok::<NumV, Error>(nv), t1.count()));
        }
    }
    Ok(result)
}

/// Evaluates an annotated value.
pub fn eval_annotated(a: &crate::ast::Annotated, t: &mut Tally, rng: &mut StdRng) -> (r: Result<Number, Error>)
    requires
        tree_wf(tree_of(Node::Annotated(*a))),
        old(t).wf(),
    ensures
        continues(*old(t), *final(t)),
        eval_matches(tree_of(Node::Annotated(*a)), *old(t), *final(t), num_result(r)),
        r is Ok ==> final(t).wf() && num_wf(r->Ok_0@) && (evaluates_to_dice(tree_of(Node::Annotated(*a)))
            ==> r->Ok_0@.kind is Dice),
    decreases a, 0int,
{
    let ghost tc = *t;
    let mut n = match eval_node(&a.value, t, rng) {
        Ok(x) => x,
        Err(err) => {
            proof {
                assert forall|f: Seq<u32>| extends(t.draws@, f) implies (#[trigger] eval_spec(
                    tree_of(Node::Annotated(*a)),
                    tc.count(),
                    tc.max(),
                    f,
                )).0 == num_result(Err::<Number, Error>(err)) by {
                    assert(eval_spec(tree_of(*a.value), tc.count(), tc.max(), f).0 == Err::<NumV, Error>(err));
                }
            }
            return Err(err);
        },
    };
    let ghost t1 = *t;
    let ghost nv = n@;
    n.annotation = Some(concat_strings(&a.annotations));
    proof {
        assert forall|f: Seq<u32>| extends(t1.draws@, f) implies (#[trigger] eval_spec(
            tree_of(Node::Annotated(*a)),
            tc.count(),
            tc.max(),
            f,
        )) == (num_result(Ok::<Number, Error>(n)), t1.count()) by {
            assert(eval_spec(tree_of(*a.value), tc.count(), tc.max(), f) == (Ok::<NumV, Error>(nv), t1.count()));
        }
    }
    Ok(n)
}

/// Evaluates a parenthetical value.
pub fn eval_parenthetical(p: &crate::ast::Parenthetical, t: &mut Tally, rng: &mut StdRng) -> (r: Result<Number, Error>)
    requires
        tree_wf(tree_of(Node::Parenthetical(*p))),
        old(t).wf(),
    ensures
        continues(*old(t), *final(t)),
        eval_matches(tree_of(Node::Parenthetical(*p)), *old(t), *final(t), num_result(r)),
        r is Ok ==> final(t).wf() && num_wf(r->Ok_0@) && (evaluates_to_dice(tree_of(Node::Parenthetical(*p)))
            ==> r->Ok_0@.kind is Dice),
    decreases p, 0int,
{
    let ghost tc = *t;
    let n = match eval_node(&p.value, t, rng) {
        Ok(x) => x,
        Err(err) => {
            proof {
                assert forall|f: Seq<u32>| extends(t.draws@, f) implies (#[trigger] eval_spec(
                    tree_of(Node::Parenthetical(*p)),
                    tc.count(),
                    tc.max(),
                    f,
                )).0 == num_result(Err::<Number, Error>(err)) by {
                    assert(eval_spec(tree_of(*p.value), tc.count(), tc.max(), f).0 == Err::<NumV, Error>(err));
                }
            }
            return Err(err);
        },
    };
    let ghost t1 = *t;
    let ghost nv = n@;
    let no_ops: Vec<SetOp> = Vec::new();
    assert(eops_view(no_ops@) =~= Seq::<OpView>::empty());
    let result = Number::new(NumberKind::Parenthetical(Parenthetical { value: Box::new(n), ops: no_ops }));
    proof {
        assert forall|f: Seq<u32>| extends(t1.draws@, f) implies (#[trigger] eval_spec(
            tree_of(Node::Parenthetical(*p)),
            tc.count(),
            tc.max(),
            f,
        )) == (num_result(Ok::<Number, Error>(result)), t1.count()) by {
            assert(eval_spec(tree_of(*p.value), tc.count(), tc.max(), f) == (Ok::<NumV, Error>(nv), t1.count()));
        }
    }
    Ok(result)
}

/// Evaluates a unary operation.
pub fn eval_unop(u: &crate::ast::UnOp, t: &mut Tally, rng: &mut StdRng) -> (r: Result<Number, Error>)
    requires
        tree_wf(tree_of(Node::UnOp(*u))),
        old(t).wf(),
    ensures
        continues(*old(t), *final(t)),
        eval_matches(tree_of(Node::UnOp(*u)), *old(t), *final(t), num_result(r)),
        r is Ok ==> final(t).wf() && num_wf(r->Ok_0@) && (evaluates_to_dice(tree_of(Node::UnOp(*u)))
            ==> r->Ok_0@.kind is Dice),
    decreases u, 0int,
{
    let ghost tc = *t;
    let n = match eval_node(&u.value, t, rng) {
        Ok(x) => x,
        Err(err) => {
            proof {
                assert forall|f: Seq<u32>| extends(t.draws@, f) implies (#[trigger] eval_spec(
                    tree_of(Node::UnOp(*u)),
                    tc.count(),
                    tc.max(),
                    f,
                )).0 == num_result(Err::<Number, Error>(err)) by {
                    assert(eval_spec(tree_of(*u.value), tc.count(), tc.max(), f).0 == Err::<NumV, Error>(err));
                }
            }
            return Err(err);
        },
    };
    let ghost t1 = *t;
    let ghost nv = n@;
    let result = Number::new(NumberKind::UnOp(UnOp { op: u.op, value: Box::new(n) }));
    proof {
        assert forall|f: Seq<u32>| extends(t1.draws@, f) implies (#[trigger] eval_spec(
            tree_of(Node::UnOp(*u)),
            tc.count(),
            tc.max(),
            f,
        )) == (num_result(Ok::<Number, Error>(result)), t1.count()) by {
            assert(eval_spec(tree_of(*u.value), tc.count(), tc.max(), f) == (Ok::<NumV, Error>(nv), t1.count()));
        }
    }
    Ok(result)
}

/// Evaluates a binary operation.
///
/// # Errors
///
/// If the operation divides and the total of the right operand is 0,
/// [`Error::ZeroDivision`] is returned.
pub fn eval_binop(b: &crate::ast::BinOp, t: &mut Tally, rng: &mut StdRng) -> (r: Result<Number, Error>)
    requires
        tree_wf(tree_of(Node::BinOp(*b))),
        old(t).wf(),
    ensures
        continues(*old(t), *final(t)),
        eval_matches(tree_of(Node::BinOp(*b)), *old(t), *final(t), num_result(r)),
        r is Ok ==> final(t).wf() && num_wf(r->Ok_0@) && (evaluates_to_dice(tree_of(Node::BinOp(*b)))
            ==> r->Ok_0@.kind is Dice),
    decreases b, 0int,
{
    let ghost node_t = tree_of(Node::BinOp(*b));
    let ghost t0 = *t;
    let ghost tc = *t;
    let l = match eval_node(&b.left, t, rng) {
        Ok(x) => x,
        Err(err) => {
            proof {
                assert forall|f: Seq<u32>| extends(t.draws@, f) implies (#[trigger] eval_spec(
                    node_t,
                    tc.count(),
                    tc.max(),
                    f,
                )).0 == num_result(Err::<Number, Error>(err)) by {
                    assert(eval_spec(tree_of(*b.left), tc.count(), tc.max(), f).0 == Err::<NumV, Error>(err));
                }
            }
            return Err(err);
        },
    };
    let ghost t1 = *t;
    let ghost lv = l@;
    let r = match eval_node(&b.right, t, rng) {
        Ok(x) => x,
        Err(err) => {
            proof {
                assert forall|f: Seq<u32>| extends(t.draws@, f) implies (#[trigger] eval_spec(
                    node_t,
                    t0.count(),
                    t0.max(),
                    f,
                )).0 == num_result(Err::<Number, Error>(err)) by {
                    assert(extends(t1.draws@, f));
                    assert(eval_spec(tree_of(*b.left), t0.count(), t0.max(), f) == (Ok::<NumV, Error>(lv), t1.count()));
                    assert(eval_spec(tree_of(*b.right), t1.count(), t1.max(), f).0 == Err::<NumV, Error>(err));
                }
            }
            return Err(err);
        },
    };
    let ghost t2 = *t;
    proof {
        lemma_value_wf(r@);
    }
    let zero = match r.total() {
        Some(d) => d.is_zero(),
        None => false,
    };
    let division = match b.op {
        crate::kinds::BinOpKind::Div | crate::kinds::BinOpKind::FloorDiv | crate::kinds::BinOpKind::Mod => true,
        _ => false,
    };
    let ghost rv = r@;
    if division && zero {
        proof {
            assert forall|f: Seq<u32>| extends(t2.draws@, f) implies (#[trigger] eval_spec(
                node_t,
                t0.count(),
                t0.max(),
                f,
            )).0 == num_result(Err::<Number, Error>(Error::ZeroDivision)) by {
                assert(extends(t1.draws@, f));
                assert(eval_spec(tree_of(*b.left), t0.count(), t0.max(), f) == (Ok::<NumV, Error>(lv), t1.count()));
                assert(eval_spec(tree_of(*b.right), t1.count(), t1.max(), f) == (Ok::<NumV, Error>(rv), t2.count()));
            }
        }
        return Err(Error::ZeroDivision);
    }
    let n = Number::new(NumberKind::BinOp(BinOp { left: Box::new(l), op: b.op, right: Box::new(r) }));
    proof {
        assert forall|f: Seq<u32>| extends(t2.draws@, f) implies (#[trigger] eval_spec(
            node_t,
            t0.count(),
            t0.max(),
            f,
        )) == (num_result(Ok::<Number, Error>(n)), t2.count()) by {
            assert(extends(t1.draws@, f));
            assert(eval_spec(tree_of(*b.left), t0.count(), t0.max(), f) == (Ok::<NumV, Error>(lv), t1.count()));
            assert(eval_spec(tree_of(*b.right), t1.count(), t1.max(), f) == (Ok::<NumV, Error>(rv), t2.count()));
        }
    }
    Ok(n)
}

/// Evaluates a set expression along with its operators.
pub fn eval_set_with_ops(st: &crate::ast::SetWithOps, t: &mut Tally, rng: &mut StdRng) -> (r: Result<Number, Error>)
    requires
        tree_wf(tree_of(Node::SetWithOps(*st))),
        old(t).wf(),
    ensures
        continues(*old(t), *final(t)),
        eval_matches(tree_of(Node::SetWithOps(*st)), *old(t), *final(t), num_result(r)),
        r is Ok ==> final(t).wf() && num_wf(r->Ok_0@) && (evaluates_to_dice(tree_of(Node::SetWithOps(*st)))
            ==> r->Ok_0@.kind is Dice),
    decreases st, 0int,
{
    let ghost t0 = *t;
    let ghost tc = *t;
    let mut n = match eval_node(&st.value, t, rng) {
        Ok(x) => x,
        Err(err) => {
            proof {
                assert forall|f: Seq<u32>| extends(t.draws@, f) implies (#[trigger] eval_spec(
                    tree_of(Node::SetWithOps(*st)),
                    tc.count(),
                    tc.max(),
                    f,
                )).0 == num_result(Err::<Number, Error>(err)) by {
                    assert(eval_spec(tree_of(*st.value), tc.count(), tc.max(), f).0 == Err::<NumV, Error>(err));
                }
            }
            return Err(err);
        },
    };
    let ghost t1 = *t;
    let ghost nv = n@;
    let res = eval_ops(&mut n, &st.ops, false, t, rng);
    proof {
        assert forall|f: Seq<u32>| extends(t.draws@, f) implies (#[trigger] eval_spec(
            tree_of(Node::SetWithOps(*st)),
            t0.count(),
            t0.max(),
            f,
        )).0 == num_result(crate::ops::with_ok(res, n)) && (res is Ok ==> eval_spec(
            tree_of(Node::SetWithOps(*st)),
            t0.count(),
            t0.max(),
            f,
        ).1 == t.count()) by {
            assert(extends(t1.draws@, f));
            assert(eval_spec(tree_of(*st.value), t0.count(), t0.max(), f) == (Ok::<NumV, Error>(nv), t1.count()));
        }
    }
    match res {
        Ok(()) => Ok(n),
        Err(e) => Err(e),
    }
}

/// Evaluates dice along with their operators.
pub fn eval_dice(d: &crate::ast::Dice, t: &mut Tally, rng: &mut StdRng) -> (r: Result<Number, Error>)
    requires
        tree_wf(tree_of(Node::Dice(*d))),
        old(t).wf(),
    ensures
        continues(*old(t), *final(t)),
        eval_matches(tree_of(Node::Dice(*d)), *old(t), *final(t), num_result(r)),
        r is Ok ==> final(t).wf() && num_wf(r->Ok_0@) && (evaluates_to_dice(tree_of(Node::Dice(*d)))
            ==> r->Ok_0@.kind is Dice),
    decreases d, 0int,
{
    let ghost t0 = *t;
    let ghost tc = *t;
    let mut n = match eval_node(&d.value, t, rng) {
        Ok(x) => x,
        Err(err) => {
            proof {
                assert forall|f: Seq<u32>| extends(t.draws@, f) implies (#[trigger] eval_spec(
                    tree_of(Node::Dice(*d)),
                    tc.count(),
                    tc.max(),
                    f,
                )).0 == num_result(Err::<Number, Error>(err)) by {
                    assert(eval_spec(tree_of(*d.value), tc.count(), tc.max(), f).0 == Err::<NumV, Error>(err));
                }
            }
            return Err(err);
        },
    };
    let ghost t1 = *t;
    let ghost nv = n@;
    let res = eval_ops(&mut n, &d.ops, true, t, rng);
    proof {
        assert forall|f: Seq<u32>| extends(t.draws@, f) implies (#[trigger] eval_spec(
            tree_of(Node::Dice(*d)),
            t0.count(),
            t0.max(),
            f,
        )).0 == num_result(crate::ops::with_ok(res, n)) && (res is Ok ==> eval_spec(
            tree_of(Node::Dice(*d)),
            t0.count(),
            t0.max(),
            f,
        ).1 == t.count()) by {
            assert(extends(t1.draws@, f));
            assert(eval_spec(tree_of(*d.value), t0.count(), t0.max(), f) == (Ok::<NumV, Error>(nv), t1.count()));
        }
    }
    match res {
        Ok(()) => Ok(n),
        Err(e) => Err(e),
    }
}

/// Evaluates a set expression.
pub fn eval_set_expr(st: &crate::ast::SetExpr, t: &mut Tally, rng: &mut StdRng) -> (r: Result<Number, Error>)
    requires
        tree_wf(tree_of(Node::SetExpr(*st))),
        old(t).wf(),
    ensures
        continues(*old(t), *final(t)),
        eval_matches(tree_of(Node::SetExpr(*st)), *old(t), *final(t), num_result(r)),
        r is Ok ==> final(t).wf() && num_wf(r->Ok_0@) && (evaluates_to_dice(tree_of(Node::SetExpr(*st)))
            ==> r->Ok_0@.kind is Dice),
    decreases st, 0int,
{
    let ghost tv = trees_of(st.values@);
    let ghost t0 = *t;
    proof {
        lemma_trees_of(st.values@);
        assert(tree_of(Node::SetExpr(*st)) == Tree::SetExpr(tv));
        lemma_set_members_wf(Tree::SetExpr(tv));
        assert forall|i: int| 0 <= i < st.values.len() implies tree_wf(#[trigger] tree_of(st.values@[i])) by {
            assert(tree_wf(tv[i]));
        }
    }
    let values = match eval_all_exec(&st.values, t, rng) {
        Ok(x) => x,
        Err(e) => {
            proof {
                assert forall|f: Seq<u32>| extends(t.draws@, f) implies (#[trigger] eval_spec(
                    tree_of(Node::SetExpr(*st)),
                    t0.count(),
                    t0.max(),
                    f,
                )).0 == num_result(Err::<Number, Error>(e)) by {
                    assert(eval_all(tv, 0, Seq::empty(), t0.count(), t0.max(), f).0 == Err::<Seq<NumV>, Error>(e));
                }
            }
            return Err(e);
        },
    };
    let ghost vv = nums_view(values@);
    proof {
        lemma_nums_view(values@);
    }
    let no_ops: Vec<SetOp> = Vec::new();
    assert(eops_view(no_ops@) =~= Seq::<OpView>::empty());
    let result = Number::new(NumberKind::NumSet(NumSet { values, ops: no_ops }));
    proof {
        assert forall|f: Seq<u32>| extends(t.draws@, f) implies (#[trigger] eval_spec(
            tree_of(Node::SetExpr(*st)),
            t0.count(),
            t0.max(),
            f,
        )) == (num_result(Ok::<Number, Error>(result)), t.count()) by {
            assert(eval_all(tv, 0, Seq::empty(), t0.count(), t0.max(), f) == (Ok::<Seq<NumV>, Error>(vv), t.count()));
        }
    }
    Ok(result)
}

/// Rolls a dice expression.
pub fn eval_dice_expr(d: &crate::ast::DiceExpr, t: &mut Tally, rng: &mut StdRng) -> (r: Result<Number, Error>)
    requires
        old(t).wf(),
    ensures
        continues(*old(t), *final(t)),
        eval_matches(tree_of(Node::DiceExpr(*d)), *old(t), *final(t), num_result(r)),
        r is Ok ==> final(t).wf() && num_wf(r->Ok_0@) && (evaluates_to_dice(tree_of(Node::DiceExpr(*d)))
            ==> r->Ok_0@.kind is Dice),
{
    let ghost t0 = *t;
    if let DieSides::Literal(0) = d.sides {
        return Err(Error::Value(ZERO_SIDED));
    }
    let mut values: Vec<Number> = Vec::new();
    proof {
        assert(nums_view(values@) == Seq::<NumV>::empty());
    }
    match roll_more_exec(&mut values, d.sides, d.num as usize, t, rng) {
        Ok(()) => {},
        Err(e) => {
            proof {
                assert forall|f: Seq<u32>| extends(t.draws@, f) implies (#[trigger] eval_spec(
                    tree_of(Node::DiceExpr(*d)),
                    t0.count(),
                    t0.max(),
                    f,
                )).0 == num_result(Err::<Number, Error>(e)) by {
                    assert(roll_more(Seq::empty(), d.sides, d.num as nat, t0.count(), t0.max(), f).0
                        == Err::<Seq<NumV>, Error>(e));
                }
            }
            return Err(e);
        },
    }
    let ghost vv = nums_view(values@);
    proof {
        lemma_nums_view(values@);
    }
    let no_ops: Vec<SetOp> = Vec::new();
    assert(eops_view(no_ops@) =~= Seq::<OpView>::empty());
    let result = Number::new(NumberKind::Dice(Dice { values, ops: no_ops, num: d.num, sides: d.sides }));
    proof {
        assert forall|f: Seq<u32>| extends(t.draws@, f) implies (#[trigger] eval_spec(
            tree_of(Node::DiceExpr(*d)),
            t0.count(),
            t0.max(),
            f,
        )) == (num_result(Ok::<Number, Error>(result)), t.count()) by {
            assert(roll_more(Seq::empty(), d.sides, d.num as nat, t0.count(), t0.max(), f) == (
                Ok::<Seq<NumV>, Error>(vv),
                t.count(),
            ));
        }
    }
    Ok(result)
}

/// Evaluates the trees in order.
pub fn eval_all_exec(values: &Vec<Node>, t: &mut Tally, rng: &mut StdRng) -> (r: Result<Vec<Number>, Error>)
    requires
        forall|i: int| 0 <= i < values.len() ==> tree_wf(#[trigger] tree_of(values@[i])),
        old(t).wf(),
    ensures
        continues(*old(t), *final(t)),
        forall|f: Seq<u32>|
            extends(final(t).draws@, f) ==> (#[trigger] eval_all(
                trees_of(values@),
                0,
                Seq::empty(),
                old(t).count(),
                old(t).max(),
                f,
            )).0 == match r {
                Ok(v) => Ok(nums_view(v@)),
                Err(e) => Err(e),
            },
        r is Ok ==> final(t).wf() && (forall|i: int|
            0 <= i < r->Ok_0@.len() ==> num_wf(#[trigger] nums_view(r->Ok_0@)[i])) && forall|f: Seq<u32>|
            extends(final(t).draws@, f) ==> (#[trigger] eval_all(
                trees_of(values@),
                0,
                Seq::empty(),
                old(t).count(),
                old(t).max(),
                f,
            )).1 == final(t).count(),
    decreases values, 0int,
{
    let ghost tv = trees_of(values@);
    let ghost t0 = *t;
    proof {
        lemma_trees_of(values@);
    }
    let mut out: Vec<Number> = Vec::new();
    let mut k: usize = 0;
    while k < values.len()
        invariant
            k <= values.len(),
            t0 == *old(t),
            tv == trees_of(values@),
            tv.len() == values.len(),
            forall|i: int| 0 <= i < values.len() ==> #[trigger] tv[i] == tree_of(values@[i]),
            forall|i: int| 0 <= i < values.len() ==> tree_wf(#[trigger] tree_of(values@[i])),
            t.wf(),
            t0.wf(),
            continues(t0, *t),
            forall|i: int| 0 <= i < out@.len() ==> num_wf(#[trigger] nums_view(out@)[i]),
            forall|f: Seq<u32>|
                extends(t.draws@, f) ==> #[trigger] eval_all(tv, 0, Seq::empty(), t0.count(), t0.max(), f)
                    == eval_all(tv, k as int, nums_view(out@), t.count(), t.max(), f),
        decreases values.len() - k,
    {
        let ghost tb = *t;
        let ghost ob = out@;
        let ghost tk = tv[k as int];
        let res = eval_node(&values[k], t, rng);
        match res {
            Err(e) => {
                proof {
                    assert forall|f: Seq<u32>| extends(t.draws@, f) implies (#[trigger] eval_all(
                        tv,
                        0,
                        Seq::empty(),
                        t0.count(),
                        t0.max(),
                        f,
                    )).0 == Err::<Seq<NumV>, Error>(e) by {
                        assert(extends(tb.draws@, f));
                        assert(eval_spec(tk, tb.count(), tb.max(), f).0 == Err::<NumV, Error>(e));
                    }
                }
                return Err(e);
            },
            Ok(n) => {
                let ghost nv = n@;
                out.push(n);
                proof {
                    lemma_nums_view_push(ob, n);
                    lemma_nums_view(out@);
                    lemma_nums_view(ob);
                    assert forall|f: Seq<u32>| extends(t.draws@, f) implies #[trigger] eval_all(
                        tv,
                        0,
                        Seq::empty(),
                        t0.count(),
                        t0.max(),
                        f,
                    ) == eval_all(tv, k + 1, nums_view(out@), t.count(), t.max(), f) by {
                        assert(extends(tb.draws@, f));
                        assert(eval_spec(tk, tb.count(), tb.max(), f) == (Ok::<NumV, Error>(nv), t.count()));
                    }
                    let w = nums_view(out@);
                    assert forall|i: int| 0 <= i < w.len() implies num_wf(#[trigger] w[i]) by {
                        if i < ob.len() {
                            assert(w[i] == nums_view(ob)[i]);
                        }
                    }
                }
            },
        }
        k = k + 1;
    }
    Ok(out)
}

impl Dice {
    /// Rolls `num` dice with the given number of sides, counting the rolls
    /// with `ctx`.
    ///
    /// # Errors
    ///
    /// If `sides` is 0, [`Error::Value`] is returned and nothing is counted;
    /// if too many dice are rolled, [`Error::RollLimitExceeded`].
    pub fn new(num: u32, sides: crate::kinds::DieSides, ctx: &mut crate::context::ExpressionContext, rng: &mut StdRng) -> (r: Result<Dice, Error>)
        ensures
            final(ctx).max_spec() == old(ctx).max_spec(),
            exists|f: Seq<u32>|
                (#[trigger] roll_dice(num as nat, sides, old(ctx).rolls_spec(), old(ctx).max_spec(), f)).0
                    == match r {
                    Ok(d) => Ok(nums_view(d.values@)),
                    Err(e) => Err(e),
                },
            sides == DieSides::Literal(0) ==> r == Err::<Dice, Error>(Error::Value(ZERO_SIDED)) && *final(ctx)
                == *old(ctx),
            r matches Ok(d) ==> d.num == num && d.sides == sides && d.ops@.len() == 0 && final(ctx).rolls_spec()
                == old(ctx).rolls_spec() + num,
    {
        if let DieSides::Literal(0) = sides {
            proof {
                let f = Seq::<u32>::empty();
                assert(roll_dice(num as nat, sides, ctx.rolls_spec(), ctx.max_spec(), f).0 == Err::<
                    Seq<NumV>,
                    Error,
                >(Error::Value(ZERO_SIDED)));
            }
            return Err(Error::Value(ZERO_SIDED));
        }
        let mut t = Tally { ctx: *ctx, draws: Ghost(Seq::new(ctx.rolls_spec(), |i: int| 0u32)), asked: Ghost(Seq::empty()) };
        let mut values: Vec<Number> = Vec::new();
        proof {
            assert(nums_view(values@) == Seq::<NumV>::empty());
        }
        let ghost t0 = t;
        let res = roll_more_exec(&mut values, sides, num as usize, &mut t, rng);
        *ctx = t.ctx;
        let ghost fin = t.draws@;
        proof {
            assert(extends(fin, fin));
            assert(roll_dice(num as nat, sides, t0.count(), t0.max(), fin).0 == crate::ops::with_ok(
                res,
                nums_view(values@),
            ));
        }
        match res {
            Ok(()) => {
                proof {
                    crate::ops::lemma_roll_more_grows(Seq::empty(), sides, num as nat, t0.count(), t0.max(), fin);
                }
                Ok(Dice { values, ops: Vec::new(), num, sides })
            },
            Err(e) => Err(e),
        }
    }
}

} // verus!
