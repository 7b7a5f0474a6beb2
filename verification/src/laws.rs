//! Properties of rolling that hold for every input.
use vstd::prelude::*;
use crate::ast::{op_text, ops_text, simplify, simplify_step, OpView, SetSel, Tree};
use crate::errors::Error;
use crate::eval::{eval_spec, total_is_zero};
use crate::expr::{
    binop_value, int_dec, lit_num, mk_num, num_wf, total_of, value_of, KindV, NumV,
};
use crate::kinds::{Advantage, Crit, BinOpKind, DieSides, SelCat, SetOpKind, UnOpKind};
use crate::num::lemma_order3;
use crate::num::Decimal;
use crate::ops::{
    dropped, first_mark, ZERO_SIDED,
    any_hit, clamp_set, count_marks, dice_wf, die_wf, explode_loop, explode_marked, face, force_die, force_literal,
    fresh_hits, hits, key_of, keep_drop, keys_of, mark_set, new_die, operate, reroll_die, reroll_loop,
    reroll_pass, roll_more, roll_spec, set_of, top_face, with_set, precedes, count_preceding, sel_hits, rank, lemma_count_marks,
    lemma_reroll_pass_grows, lemma_roll_more_grows, explode_die,
};
use crate::eval::{apply_ops, eval_all, record};
use crate::utils::{adv_spec, is_leaf};

verus! {

/// Every roll shows a face of its die: an integer from 1 to the number of
/// sides (100 for a percentile die).
pub proof fn law_roll_shows_a_face(sides: DieSides, c: nat, max: nat, draws: Seq<u32>)
    ensures
        roll_spec(sides, c, max, draws).0 matches Ok(l) ==> l == lit_num(int_dec(face(sides, draws[c as int]) as int))
            && 1 <= face(sides, draws[c as int]) <= top_face(sides),
{
    if roll_spec(sides, c, max, draws).0 is Ok {
        assert(top_face(sides) >= 1);
        let f = draws[c as int] as nat;
        assert(f % top_face(sides) < top_face(sides)) by {
            vstd::arithmetic::div_mod::lemma_mod_bound(f as int, top_face(sides) as int);
        }
    }
}

/// Rolling one die: a die without sides is refused with a value error and
/// nothing counted; any other die counts one roll, which fails exactly when
/// it goes over the limit and otherwise shows one kept face of the die.
pub proof fn law_one_roll(sides: DieSides, c: nat, max: nat, draws: Seq<u32>)
    ensures
        sides == DieSides::Literal(0) ==> roll_spec(sides, c, max, draws) == (
            Err::<NumV, Error>(Error::Value(ZERO_SIDED)),
            c,
        ),
        sides != DieSides::Literal(0) ==> roll_spec(sides, c, max, draws).1 == c + 1 && (roll_spec(
            sides,
            c,
            max,
            draws,
        ).0 is Err <==> c + 1 > max) && (roll_spec(sides, c, max, draws).0 matches Ok(l) ==> l.kept && 1 <= face(
            sides,
            draws[c as int],
        ) <= top_face(sides) && l == lit_num(int_dec(face(sides, draws[c as int]) as int))),
{
    law_roll_shows_a_face(sides, c, max, draws);
}

/// Rolling no dice of a die with sides rolls nothing, and totals 0.
pub proof fn law_no_dice(sides: DieSides, c: nat, max: nat, draws: Seq<u32>)
    requires
        sides != DieSides::Literal(0),
    ensures
        eval_spec(Tree::DiceExpr { num: 0, sides }, c, max, draws) == (
            Ok::<NumV, Error>(mk_num(KindV::Dice { values: Seq::empty(), ops: Seq::empty(), num: 0, sides })),
            c,
        ),
        total_of(mk_num(KindV::Dice { values: Seq::empty(), ops: Seq::empty(), num: 0, sides })) == Some(
            int_dec(0),
        ),
{
    let d = mk_num(KindV::Dice { values: Seq::empty(), ops: Seq::empty(), num: 0, sides });
    assert(crate::expr::kept_sum(Seq::empty()) == Some(int_dec(0)));
    assert(value_of(d) == Some(int_dec(0)));
}

/// Dice without sides are refused with a value error, however many of them
/// are rolled (none included), and nothing is counted.
pub proof fn law_zero_sided_dice(num: u32, c: nat, max: nat, draws: Seq<u32>)
    ensures
        eval_spec(Tree::DiceExpr { num, sides: DieSides::Literal(0) }, c, max, draws) == (
            Err::<NumV, Error>(Error::Value(ZERO_SIDED)),
            c,
        ),
{
}

/// Dividing by an operand that totals 0 is refused with
/// [`Error::ZeroDivision`], whatever the dice show.
pub proof fn law_zero_division(op: BinOpKind, left: Tree, right: Tree, c: nat, max: nat, draws: Seq<u32>)
    requires
        op.is_division(),
        eval_spec(left, c, max, draws).0 is Ok,
        eval_spec(right, eval_spec(left, c, max, draws).1, max, draws).0 matches Ok(r) && total_is_zero(r),
    ensures
        eval_spec(Tree::BinOp { op, left: Box::new(left), right: Box::new(right) }, c, max, draws).0 == Err::<
            NumV,
            Error,
        >(Error::ZeroDivision),
{
}

/// Comparisons give 1 for true and 0 for false.
pub proof fn law_comparison_is_zero_or_one(op: BinOpKind, l: Decimal, r: Decimal)
    requires
        op == BinOpKind::Lt || op == BinOpKind::Gt || op == BinOpKind::Eq || op == BinOpKind::Ge || op
            == BinOpKind::Le || op == BinOpKind::Ne,
    ensures
        binop_value(op, Some(l), Some(r)) == Some(int_dec(0)) || binop_value(op, Some(l), Some(r)) == Some(
            int_dec(1),
        ),
{
}

/// `+` is a no-op, and negation repeated twice gives back the value.
pub proof fn law_unary_signs(x: NumV)
    requires
        total_of(x) matches Some(d) && d.mantissa != i128::MIN,
    ensures
        value_of(mk_num(KindV::UnOp { op: UnOpKind::Pos, value: Box::new(x) })) == total_of(x),
        value_of(
            mk_num(
                KindV::UnOp {
                    op: UnOpKind::Neg,
                    value: Box::new(mk_num(KindV::UnOp { op: UnOpKind::Neg, value: Box::new(x) })),
                },
            ),
        ) == total_of(x),
{
    let inner = mk_num(KindV::UnOp { op: UnOpKind::Neg, value: Box::new(x) });
    assert(total_of(inner) == value_of(inner));
}

/// Annotations are purely visual: an annotated value evaluates as the value
/// does, with the same total and the same rolls.
pub proof fn law_annotations_are_visual(value: Tree, annotations: Seq<Seq<char>>, c: nat, max: nat, draws: Seq<u32>)
    ensures
        eval_spec(Tree::Annotated { value: Box::new(value), annotations }, c, max, draws).1 == eval_spec(
            value,
            c,
            max,
            draws,
        ).1,
        eval_spec(Tree::Annotated { value: Box::new(value), annotations }, c, max, draws).0 is Ok == eval_spec(
            value,
            c,
            max,
            draws,
        ).0 is Ok,
        eval_spec(Tree::Annotated { value: Box::new(value), annotations }, c, max, draws).0 matches Ok(a)
            ==> eval_spec(value, c, max, draws).0 matches Ok(n) && total_of(a) == total_of(n) && a.kind == n.kind
            && a.kept == n.kept,
        eval_spec(Tree::Annotated { value: Box::new(value), annotations }, c, max, draws).0 matches Err(e)
            ==> eval_spec(value, c, max, draws).0 == Err::<NumV, Error>(e),
{
    match eval_spec(value, c, max, draws).0 {
        Ok(n) => {
            let a = eval_spec(Tree::Annotated { value: Box::new(value), annotations }, c, max, draws).0->Ok_0;
            lemma_total_ignores_annotation(n, a);
        },
        Err(_) => {},
    }
}

/// The total of a number does not depend on its annotation.
pub proof fn lemma_total_ignores_annotation(n: NumV, a: NumV)
    requires
        a.kind == n.kind,
        a.kept == n.kept,
    ensures
        total_of(a) == total_of(n),
        value_of(a) == value_of(n),
{
}

/// Rolling without advantage leaves the tree as it is.
pub proof fn law_no_advantage_is_identity(t: Tree)
    ensures
        adv_spec(t, Advantage::Normal) == t,
    decreases t,
{
    match t {
        Tree::Expression { roll, .. } => if !is_leaf(*roll) {
            law_no_advantage_is_identity(*roll);
        },
        Tree::Parenthetical(v) => if !is_leaf(*v) {
            law_no_advantage_is_identity(*v);
        },
        Tree::Annotated { value, .. } => if !is_leaf(*value) {
            law_no_advantage_is_identity(*value);
        },
        Tree::UnOp { value, .. } => if !is_leaf(*value) {
            law_no_advantage_is_identity(*value);
        },
        Tree::BinOp { left, .. } => if !is_leaf(*left) {
            law_no_advantage_is_identity(*left);
        },
        Tree::SetExpr(values) => if values.len() > 0 && !is_leaf(values[0]) {
            law_no_advantage_is_identity(values[0]);
            assert(values.update(0, adv_spec(values[0], Advantage::Normal)) =~= values);
        },
        Tree::SetWithOps { value, .. } => if !is_leaf(*value) {
            law_no_advantage_is_identity(*value);
        },
        Tree::Dice { value, .. } => if !is_leaf(*value) {
            law_no_advantage_is_identity(*value);
        },
        _ => {},
    }
}

/// The text of one operation with two runs of selectors is the text with
/// each run.
pub proof fn lemma_op_text_concat(op: crate::kinds::SetOpKind, a: Seq<SetSel>, b: Seq<SetSel>)
    ensures
        op_text(op, a + b) == op_text(op, a) + op_text(op, b),
    decreases b.len(),
{
    if b.len() == 0 {
        assert(a + b =~= a);
    } else {
        lemma_op_text_concat(op, a, b.drop_last());
        assert((a + b).drop_last() =~= a + b.drop_last());
        assert((a + b).last() == b.last());
    }
}

/// Combining consecutive operators of the same kind does not change how the
/// operators are written.
pub proof fn law_simplify_keeps_text(ops: Seq<OpView>)
    ensures
        ops_text(simplify(ops)) == ops_text(ops),
    decreases ops.len(),
{
    if ops.len() > 0 {
        let prev = ops.drop_last();
        let op = ops.last();
        law_simplify_keeps_text(prev);
        let sp = simplify(prev);
        let r = simplify_step(sp, op);
        if !op.op.merges() || sp.len() == 0 {
            assert(r.drop_last() == sp);
        } else if sp.last().op == op.op {
            let merged = OpView { op: op.op, sels: sp.last().sels + op.sels };
            assert(r.drop_last() == sp.drop_last());
            assert(r.last() == merged);
            lemma_op_text_concat(op.op, sp.last().sels, op.sels);
            assert(ops_text(sp) == ops_text(sp.drop_last()) + op_text(sp.last().op, sp.last().sels));
        } else {
            assert(r.drop_last() == sp);
        }
    }
}

/// Whether a counted evaluation step that succeeds ends with a count between
/// the count it started with and the limit.
pub open spec fn within_limit<T>(r: (Result<T, Error>, nat), c: nat, max: nat) -> bool {
    r.0 is Ok ==> c <= r.1 <= max
}

/// A roll that succeeds stays within the limit.
pub proof fn lemma_new_die_bounded(sides: DieSides, c: nat, max: nat, draws: Seq<u32>)
    ensures
        within_limit(roll_spec(sides, c, max, draws), c, max),
        within_limit(new_die(sides, c, max, draws), c, max),
{
}

/// Re-rolling a die that succeeds stays within the limit.
pub proof fn lemma_reroll_die_bounded(d: NumV, c: nat, max: nat, draws: Seq<u32>)
    requires
        c <= max,
    ensures
        within_limit(reroll_die(d, c, max, draws), c, max),
{
}

/// A pass of re-rolls that succeeds stays within the limit.
pub proof fn lemma_reroll_pass_bounded(vals: Seq<NumV>, marks: Seq<bool>, k: int, c: nat, max: nat, draws: Seq<u32>)
    requires
        c <= max,
    ensures
        within_limit(reroll_pass(vals, marks, k, c, max, draws), c, max),
    decreases vals.len() - k,
{
    if 0 <= k < vals.len() {
        if marks[k] {
            lemma_reroll_die_bounded(vals[k], c, max, draws);
            match reroll_die(vals[k], c, max, draws) {
                (Ok(d), c1) => lemma_reroll_pass_bounded(vals.update(k, d), marks, k + 1, c1, max, draws),
                (Err(_), _) => {},
            }
        } else {
            lemma_reroll_pass_bounded(vals, marks, k + 1, c, max, draws);
        }
    }
}

/// Re-rolling until nothing matches, when it succeeds, stays within the
/// limit.
pub proof fn lemma_reroll_loop_bounded(vals: Seq<NumV>, sels: Seq<SetSel>, c: nat, max: nat, draws: Seq<u32>)
    requires
        c <= max,
    ensures
        within_limit(reroll_loop(vals, sels, c, max, draws), c, max),
    decreases max + 1 - c,
{
    let marks = hits(sels, keys_of(vals));
    if count_marks(marks) > 0 {
        lemma_reroll_pass_bounded(vals, marks, 0, c, max, draws);
        match reroll_pass(vals, marks, 0, c, max, draws) {
            (Ok(v2), c1) => if c < c1 <= max {
                lemma_reroll_loop_bounded(v2, sels, c1, max, draws);
            },
            (Err(_), _) => {},
        }
    }
}

/// Rolling more dice, when it succeeds, stays within the limit.
pub proof fn lemma_roll_more_bounded(vals: Seq<NumV>, sides: DieSides, n: nat, c: nat, max: nat, draws: Seq<u32>)
    requires
        c <= max,
    ensures
        within_limit(roll_more(vals, sides, n, c, max, draws), c, max),
    decreases n,
{
    if n > 0 {
        lemma_new_die_bounded(sides, c, max, draws);
        match new_die(sides, c, max, draws) {
            (Ok(d), c1) => lemma_roll_more_bounded(vals.push(d), sides, (n - 1) as nat, c1, max, draws),
            (Err(_), _) => {},
        }
    }
}

/// Exploding until nothing new matches, when it succeeds, stays within the
/// limit.
pub proof fn lemma_explode_loop_bounded(
    vals: Seq<NumV>,
    sides: DieSides,
    sels: Seq<SetSel>,
    done: Set<int>,
    c: nat,
    max: nat,
    draws: Seq<u32>,
)
    requires
        c <= max,
    ensures
        within_limit(explode_loop(vals, sides, sels, done, c, max, draws), c, max),
    decreases max + 1 - c,
{
    let marks = fresh_hits(vals, sels, done);
    let n = count_marks(marks);
    if n > 0 {
        lemma_roll_more_bounded(explode_marked(vals, marks), sides, n, c, max, draws);
        match roll_more(explode_marked(vals, marks), sides, n, c, max, draws) {
            (Ok(v2), c1) => if c < c1 <= max {
                lemma_explode_loop_bounded(
                    v2,
                    sides,
                    sels,
                    done.union(Set::new(|i: int| 0 <= i < marks.len() && marks[i])),
                    c1,
                    max,
                    draws,
                );
            },
            (Err(_), _) => {},
        }
    }
}

/// An operator that succeeds stays within the limit.
pub proof fn lemma_operate_bounded(n: NumV, op: OpView, c: nat, max: nat, draws: Seq<u32>)
    requires
        c <= max,
    ensures
        within_limit(operate(n, op, c, max, draws), c, max),
{
    match n.kind {
        KindV::Dice { values, sides, .. } => {
            let marks = hits(op.sels, keys_of(values));
            let first = first_mark(marks);
            lemma_reroll_loop_bounded(values, op.sels, c, max, draws);
            lemma_reroll_pass_bounded(values, marks, 0, c, max, draws);
            lemma_roll_more_bounded(explode_marked(values, first), sides, count_marks(first), c, max, draws);
            lemma_explode_loop_bounded(values, sides, op.sels, Set::empty(), c, max, draws);
        },
        _ => {},
    }
}

/// Operators that succeed stay within the limit.
pub proof fn lemma_apply_ops_bounded(n: NumV, ops: Seq<OpView>, k: int, dice: bool, c: nat, max: nat, draws: Seq<u32>)
    requires
        c <= max,
    ensures
        within_limit(apply_ops(n, ops, k, dice, c, max, draws), c, max),
    decreases ops.len() - k,
{
    if 0 <= k < ops.len() {
        lemma_operate_bounded(n, ops[k], c, max, draws);
        match operate(n, ops[k], c, max, draws) {
            (Ok(n2), c1) => lemma_apply_ops_bounded(record(n2, ops[k], dice), ops, k + 1, dice, c1, max, draws),
            (Err(_), _) => {},
        }
    }
}

/// An evaluation that succeeds stays within the limit.
pub proof fn lemma_eval_bounded(t: Tree, c: nat, max: nat, draws: Seq<u32>)
    requires
        c <= max,
    ensures
        within_limit(eval_spec(t, c, max, draws), c, max),
    decreases t, 0int,
{
    match t {
        Tree::Expression { roll, .. } => lemma_eval_bounded(*roll, c, max, draws),
        Tree::Annotated { value, .. } => lemma_eval_bounded(*value, c, max, draws),
        Tree::Parenthetical(v) => lemma_eval_bounded(*v, c, max, draws),
        Tree::UnOp { value, .. } => lemma_eval_bounded(*value, c, max, draws),
        Tree::BinOp { left, right, .. } => {
            lemma_eval_bounded(*left, c, max, draws);
            match eval_spec(*left, c, max, draws) {
                (Ok(_), c1) => lemma_eval_bounded(*right, c1, max, draws),
                (Err(_), _) => {},
            }
        },
        Tree::SetWithOps { value, ops } => {
            lemma_eval_bounded(*value, c, max, draws);
            match eval_spec(*value, c, max, draws) {
                (Ok(n), c1) => lemma_apply_ops_bounded(n, ops, 0, false, c1, max, draws),
                (Err(_), _) => {},
            }
        },
        Tree::SetExpr(values) => lemma_eval_all_bounded(values, 0, Seq::empty(), c, max, draws),
        Tree::Dice { value, ops } => {
            lemma_eval_bounded(*value, c, max, draws);
            match eval_spec(*value, c, max, draws) {
                (Ok(n), c1) => lemma_apply_ops_bounded(n, ops, 0, true, c1, max, draws),
                (Err(_), _) => {},
            }
        },
        Tree::DiceExpr { num, sides } => lemma_roll_more_bounded(Seq::empty(), sides, num as nat, c, max, draws),
        _ => {},
    }
}

/// Evaluating trees in order, when it succeeds, stays within the limit.
pub proof fn lemma_eval_all_bounded(values: Seq<Tree>, k: int, acc: Seq<NumV>, c: nat, max: nat, draws: Seq<u32>)
    requires
        c <= max,
    ensures
        within_limit(eval_all(values, k, acc, c, max, draws), c, max),
    decreases values, values.len() - k,
{
    if 0 <= k < values.len() {
        lemma_eval_bounded(values[k], c, max, draws);
        match eval_spec(values[k], c, max, draws) {
            (Ok(n), c1) => lemma_eval_all_bounded(values, k + 1, acc.push(n), c1, max, draws),
            (Err(_), _) => {},
        }
    }
}

/// A roll that succeeds never counts more rolls than the limit allows.
pub proof fn law_roll_limit(t: Tree, c: nat, max: nat, draws: Seq<u32>)
    requires
        c <= max,
    ensures
        eval_spec(t, c, max, draws).0 is Ok ==> c <= eval_spec(t, c, max, draws).1 <= max,
{
    lemma_eval_bounded(t, c, max, draws);
}


/// The set of a number with its marks applied is the marked set.
pub proof fn lemma_set_of_marked(n: NumV, marks: Seq<bool>, keep: bool)
    requires
        num_wf(n),
        marks.len() == set_of(n).len(),
    ensures
        set_of(with_set(n, mark_set(set_of(n), marks, keep))) == mark_set(set_of(n), marks, keep),
    decreases n,
{
    let s = mark_set(set_of(n), marks, keep);
    match n.kind {
        KindV::Expression { roll, .. } => lemma_set_of_marked(*roll, marks, keep),
        KindV::Parenthetical { value, .. } => lemma_set_of_marked(*value, marks, keep),
        KindV::NumSet { .. } => {},
        KindV::Dice { .. } => {},
        KindV::Die { values, .. } => {
            let v2 = values.update(values.len() - 1, s[0]);
            assert(v2.last() == s[0]);
            assert(seq![v2.last()] =~= s);
        },
        _ => {
            assert(s.len() == 1);
            assert(s[0].kind == n.kind);
            assert(set_of(s[0]) =~= s);
        },
    }
}

/// Keeping keeps exactly the kept numbers that a selector matches, and
/// dropping drops exactly those; nothing else about the numbers changes.
pub proof fn law_keep_drop(n: NumV, sels: Seq<SetSel>, keep: bool)
    requires
        num_wf(n),
    ensures
        set_of(keep_drop(n, sels, keep)).len() == set_of(n).len(),
        forall|i: int|
            0 <= i < set_of(n).len() ==> #[trigger] set_of(keep_drop(n, sels, keep))[i] == (NumV {
                kept: set_of(n)[i].kept && (any_hit(sels, keys_of(set_of(n)), i) == keep),
                ..set_of(n)[i]
            }),
{
    let s = set_of(n);
    let marks = hits(sels, keys_of(s));
    lemma_set_of_marked(n, marks, keep);
    let r = set_of(keep_drop(n, sels, keep));
    assert forall|i: int| 0 <= i < s.len() implies #[trigger] r[i] == (NumV {
        kept: s[i].kept && (any_hit(sels, keys_of(s), i) == keep),
        ..s[i]
    }) by {
        assert(marks[i] == any_hit(sels, keys_of(s), i));
        if marks[i] {
            let k = choose|k: int| 0 <= k < sels.len() && sel_hits(#[trigger] sels[k], keys_of(s), i);
            assert(keys_of(s)[i].0);
        }
    }
}

/// Coming before is transitive: what comes before `j` comes before every
/// number that `j` comes before.
pub proof fn lemma_precedes_trans(keys: Seq<(bool, Decimal)>, m: int, j: int, i: int, high: bool)
    requires
        precedes(keys, m, j, high),
        precedes(keys, j, i, high),
    ensures
        precedes(keys, m, i, high),
{
    lemma_order3(keys[m].1, keys[j].1, keys[i].1);
    lemma_order3(keys[i].1, keys[j].1, keys[m].1);
    lemma_order3(keys[j].1, keys[m].1, keys[i].1);
}

/// Counting the numbers before `k`, a number `j` that comes before `i` has
/// no more numbers before it than `i` has, and fewer once `j` itself is
/// counted.
pub proof fn lemma_count_preceding_order(keys: Seq<(bool, Decimal)>, i: int, j: int, k: int, high: bool)
    requires
        0 <= i < keys.len(),
        0 <= j < keys.len(),
        precedes(keys, j, i, high),
    ensures
        count_preceding(keys, j, k, high) + (if 0 <= j < k {
            1int
        } else {
            0int
        }) <= count_preceding(keys, i, k, high),
    decreases k,
{
    if k > 0 {
        lemma_count_preceding_order(keys, i, j, k - 1, high);
        let m = k - 1;
        if precedes(keys, m, j, high) {
            lemma_precedes_trans(keys, m, j, i, high);
        }
        if m == j {
            lemma_order3(keys[j].1, keys[j].1, keys[j].1);
            assert(!precedes(keys, j, j, high));
        }
    }
}

/// Selecting the highest (or lowest) `n` values: whenever a value is
/// matched, every kept value that is higher (or lower), or equal and
/// earlier, is matched too.
pub proof fn law_extremes_are_selected(sel: SetSel, keys: Seq<(bool, Decimal)>, i: int, j: int)
    requires
        sel.cat == SelCat::Hi || sel.cat == SelCat::Lo,
        0 <= i < keys.len(),
        0 <= j < keys.len(),
        sel_hits(sel, keys, i),
        precedes(keys, j, i, sel.cat == SelCat::Hi),
    ensures
        sel_hits(sel, keys, j),
{
    lemma_count_preceding_order(keys, i, j, keys.len() as int, sel.cat == SelCat::Hi);
}

/// No mark is counted exactly when no mark is set.
pub proof fn lemma_no_marks(marks: Seq<bool>)
    ensures
        count_marks(marks) == 0 <==> forall|i: int| 0 <= i < marks.len() ==> !#[trigger] marks[i],
    decreases marks.len(),
{
    lemma_count_marks(marks);
    if marks.len() > 0 {
        lemma_no_marks(marks.drop_last());
        if count_marks(marks) == 0 {
            assert forall|i: int| 0 <= i < marks.len() implies !#[trigger] marks[i] by {
                if i < marks.len() - 1 {
                    assert(marks[i] == marks.drop_last()[i]);
                }
            }
        }
    }
}

/// A pass of re-rolls that succeeds leaves a die in every place.
pub proof fn lemma_reroll_pass_dice(vals: Seq<NumV>, marks: Seq<bool>, k: int, c: nat, max: nat, draws: Seq<u32>)
    requires
        forall|i: int| 0 <= i < vals.len() ==> (#[trigger] vals[i]).kind is Die,
    ensures
        reroll_pass(vals, marks, k, c, max, draws).0 matches Ok(v) ==> v.len() == vals.len() && forall|i: int|
            0 <= i < v.len() ==> (#[trigger] v[i]).kind is Die,
    decreases vals.len() - k,
{
    if 0 <= k < vals.len() {
        if marks[k] {
            match reroll_die(vals[k], c, max, draws) {
                (Ok(d), c1) => {
                    let v2 = vals.update(k, d);
                    assert forall|i: int| 0 <= i < v2.len() implies (#[trigger] v2[i]).kind is Die by {
                        if i != k {
                            assert(v2[i] == vals[i]);
                        }
                    }
                    lemma_reroll_pass_dice(v2, marks, k + 1, c1, max, draws);
                },
                (Err(_), _) => {},
            }
        } else {
            lemma_reroll_pass_dice(vals, marks, k + 1, c, max, draws);
        }
    }
}

/// Re-rolling until nothing matches: when it succeeds, no die of the result
/// matches any of the selectors.
pub proof fn law_reroll_until_no_match(vals: Seq<NumV>, sels: Seq<SetSel>, c: nat, max: nat, draws: Seq<u32>)
    requires
        forall|i: int| 0 <= i < vals.len() ==> (#[trigger] vals[i]).kind is Die,
    ensures
        reroll_loop(vals, sels, c, max, draws).0 matches Ok(v) ==> v.len() == vals.len() && forall|i: int|
            0 <= i < v.len() ==> !#[trigger] any_hit(sels, keys_of(v), i),
    decreases max + 1 - c,
{
    let marks = hits(sels, keys_of(vals));
    lemma_no_marks(marks);
    if count_marks(marks) == 0 {
        assert forall|i: int| 0 <= i < vals.len() implies !#[trigger] any_hit(sels, keys_of(vals), i) by {
            assert(!marks[i]);
        }
    } else {
        lemma_count_marks(marks);
        lemma_reroll_pass_grows(vals, marks, 0, c, max, draws);
        lemma_reroll_pass_dice(vals, marks, 0, c, max, draws);
        match reroll_pass(vals, marks, 0, c, max, draws) {
            (Ok(v2), c1) => {
                law_reroll_until_no_match(v2, sels, c1, max, draws);
            },
            (Err(_), _) => {},
        }
    }
}

/// Rolling `n` more dice that succeeds adds `n` dice of the given sides
/// after the dice already there.
pub proof fn lemma_roll_more_appends(vals: Seq<NumV>, sides: DieSides, n: nat, c: nat, max: nat, draws: Seq<u32>)
    ensures
        roll_more(vals, sides, n, c, max, draws).0 matches Ok(v) ==> v.len() == vals.len() + n && v.subrange(
            0,
            vals.len() as int,
        ) == vals && forall|i: int|
            vals.len() <= i < v.len() ==> (#[trigger] v[i]).kind is Die && v[i].kind->Die_sides == sides,
    decreases n,
{
    if n > 0 {
        match new_die(sides, c, max, draws) {
            (Ok(d), c1) => {
                lemma_roll_more_appends(vals.push(d), sides, (n - 1) as nat, c1, max, draws);
                match roll_more(vals.push(d), sides, (n - 1) as nat, c1, max, draws).0 {
                    Ok(v) => {
                        assert(v.subrange(0, vals.len() as int) =~= v.subrange(0, vals.len() + 1int).subrange(
                            0,
                            vals.len() as int,
                        ));
                        assert(v.subrange(0, vals.len() + 1int)[vals.len() as int] == v[vals.len() as int]);
                        assert(vals.push(d)[vals.len() as int] == d);
                    },
                    Err(_) => {},
                }
            },
            (Err(_), _) => {},
        }
    }
}

/// Keeping only the first set mark counts one mark if any is set, else
/// none.
pub proof fn lemma_count_first_mark(marks: Seq<bool>)
    ensures
        count_marks(first_mark(marks)) == if exists|i: int| 0 <= i < marks.len() && #[trigger] marks[i] {
            1nat
        } else {
            0nat
        },
    decreases marks.len(),
{
    if marks.len() > 0 {
        let p = marks.drop_last();
        lemma_count_first_mark(p);
        assert forall|k: int| 0 <= k < p.len() implies #[trigger] first_mark(marks).drop_last()[k] == first_mark(
            p,
        )[k] by {
            assert forall|j: int| 0 <= j < k implies marks[j] == p[j] by {}
            assert((forall|j: int| 0 <= j < k ==> !marks[j]) == (forall|j: int| 0 <= j < k ==> !p[j]));
        }
        assert(first_mark(marks).drop_last() =~= first_mark(p));
        if exists|i: int| 0 <= i < p.len() && #[trigger] p[i] {
            let i = choose|i: int| 0 <= i < p.len() && #[trigger] p[i];
            assert(marks[i]);
            assert(!first_mark(marks).last());
        } else {
            assert forall|j: int| 0 <= j < marks.len() - 1 implies !marks[j] by {
                assert(marks[j] == p[j]);
            }
            if !marks.last() {
                assert forall|j: int| 0 <= j < marks.len() implies !#[trigger] marks[j] by {
                    if j < marks.len() - 1 {
                        assert(marks[j] == p[j]);
                    }
                }
            }
        }
    } else {
        assert(first_mark(marks).len() == 0);
    }
}

/// Re-rolling and adding (`ra`) keeps every roll, marks the first matched
/// die as exploded and rolls one more die of the same kind for it; when
/// nothing matches, nothing is rolled.
pub proof fn law_explode_once(n: NumV, op: OpView, c: nat, max: nat, draws: Seq<u32>)
    requires
        n.kind is Dice,
        op.op == SetOpKind::ExplodeOnce,
    ensures
        ({
            let values = n.kind->Dice_values;
            let marks = hits(op.sels, keys_of(values));
            let any = exists|i: int| 0 <= i < values.len() && #[trigger] marks[i];
            operate(n, op, c, max, draws).0 matches Ok(r) ==> r.kind is Dice && r.kind->Dice_values.len()
                == values.len() + (if any {
                1int
            } else {
                0int
            }) && r.kind->Dice_values.subrange(0, values.len() as int) == explode_marked(values, first_mark(marks))
                && forall|i: int|
                values.len() <= i < r.kind->Dice_values.len() ==> (#[trigger] r.kind->Dice_values[i]).kind is Die
                    && r.kind->Dice_values[i].kind->Die_sides == n.kind->Dice_sides
        }),
{
    let values = n.kind->Dice_values;
    let marks = hits(op.sels, keys_of(values));
    let first = first_mark(marks);
    lemma_count_first_mark(marks);
    lemma_roll_more_appends(explode_marked(values, first), n.kind->Dice_sides, count_marks(first), c, max, draws);
}

/// The current roll of a die.
pub open spec fn current_roll(d: NumV) -> NumV {
    d.kind->Die_values.last()
}

/// Clamping to a minimum (or maximum) leaves no kept die whose current roll
/// is kept below (or above) it; dice that were not outside are unchanged.
pub proof fn law_clamp(vals: Seq<NumV>, m: Decimal, at_least: bool)
    requires
        dice_wf(vals),
    ensures
        clamp_set(vals, m, at_least).len() == vals.len(),
        forall|i: int|
            0 <= i < vals.len() && vals[i].kept && current_roll(vals[i]).kept ==> !(if at_least {
                key_of(#[trigger] clamp_set(vals, m, at_least)[i]).spec_lt(m)
            } else {
                m.spec_lt(key_of(clamp_set(vals, m, at_least)[i]))
            }),
        forall|i: int|
            0 <= i < vals.len() && !(vals[i].kept && (if at_least {
                key_of(vals[i]).spec_lt(m)
            } else {
                m.spec_lt(key_of(vals[i]))
            })) ==> #[trigger] clamp_set(vals, m, at_least)[i] == vals[i],
{
    let r = clamp_set(vals, m, at_least);
    assert forall|i: int|
        0 <= i < vals.len() && vals[i].kept && current_roll(vals[i]).kept implies !(if at_least {
            key_of(#[trigger] r[i]).spec_lt(m)
        } else {
            m.spec_lt(key_of(r[i]))
        }) by {
        lemma_order3(m, m, m);
        let d = vals[i];
        assert(die_wf(d));
        if d.kept && (if at_least {
            key_of(d).spec_lt(m)
        } else {
            m.spec_lt(key_of(d))
        }) {
            let vs = d.kind->Die_values;
            let l = vs.last();
            assert(l.kind is Literal);
            let l2 = force_literal(l, m);
            assert(l2.kept);
            assert(value_of(l2) == Some(m));
            let d2 = force_die(d, m);
            assert(d2.kind->Die_values.last() == l2);
            assert(d2.kept);
            assert(total_of(l2) == Some(m));
            assert(d2.kind->Die_values.len() > 0);
            assert(value_of(d2) == total_of(l2));
            assert(total_of(d2) == Some(m));
        }
    }
}


/// Whether a number is a die whose current roll is a literal.
pub open spec fn rolled_die(d: NumV) -> bool {
    d.kind is Die && d.kind->Die_values.len() > 0 && current_roll(d).kind is Literal
}

/// Whether the current roll of a die has exploded.
pub open spec fn has_exploded(d: NumV) -> bool {
    rolled_die(d) && current_roll(d).kind->Literal_exploded
}

/// Rolling more dice that succeeds adds dice that have been rolled.
pub proof fn lemma_roll_more_rolled(vals: Seq<NumV>, sides: DieSides, n: nat, c: nat, max: nat, draws: Seq<u32>)
    requires
        forall|i: int| 0 <= i < vals.len() ==> rolled_die(#[trigger] vals[i]),
    ensures
        roll_more(vals, sides, n, c, max, draws).0 matches Ok(v) ==> forall|i: int|
            0 <= i < v.len() ==> rolled_die(#[trigger] v[i]),
    decreases n,
{
    if n > 0 {
        match new_die(sides, c, max, draws) {
            (Ok(d), c1) => {
                let v2 = vals.push(d);
                assert forall|i: int| 0 <= i < v2.len() implies rolled_die(#[trigger] v2[i]) by {
                    if i < vals.len() {
                        assert(v2[i] == vals[i]);
                    }
                }
                lemma_roll_more_rolled(v2, sides, (n - 1) as nat, c1, max, draws);
            },
            (Err(_), _) => {},
        }
    }
}

/// Exploding until nothing new matches, from a state where the dice in
/// `done` have exploded: when it succeeds, every die of the result that a
/// selector matches has exploded.
pub proof fn lemma_explode_loop_exploded(
    vals: Seq<NumV>,
    sides: DieSides,
    sels: Seq<SetSel>,
    done: Set<int>,
    c: nat,
    max: nat,
    draws: Seq<u32>,
)
    requires
        forall|i: int| 0 <= i < vals.len() ==> rolled_die(#[trigger] vals[i]),
        forall|i: int| #[trigger] done.contains(i) ==> 0 <= i < vals.len() && has_exploded(vals[i]),
    ensures
        explode_loop(vals, sides, sels, done, c, max, draws).0 matches Ok(v) ==> forall|i: int|
            0 <= i < v.len() && #[trigger] any_hit(sels, keys_of(v), i) ==> has_exploded(v[i]),
    decreases max + 1 - c,
{
    let marks = fresh_hits(vals, sels, done);
    let n = count_marks(marks);
    lemma_no_marks(marks);
    if n == 0 {
        assert forall|i: int|
            0 <= i < vals.len() && #[trigger] any_hit(sels, keys_of(vals), i) implies has_exploded(vals[i]) by {
            assert(!marks[i]);
            assert(hits(sels, keys_of(vals))[i]);
        }
    } else {
        let v1 = explode_marked(vals, marks);
        assert forall|i: int| 0 <= i < v1.len() implies rolled_die(#[trigger] v1[i]) by {
            assert(rolled_die(vals[i]));
        }
        lemma_roll_more_rolled(v1, sides, n, c, max, draws);
        lemma_roll_more_appends(v1, sides, n, c, max, draws);
        lemma_roll_more_grows(v1, sides, n, c, max, draws);
        match roll_more(v1, sides, n, c, max, draws) {
            (Ok(v2), c1) => {
                let marked = Set::new(|i: int| 0 <= i < marks.len() && marks[i]);
                let done2 = done.union(marked);
                assert forall|i: int| #[trigger] done2.contains(i) implies 0 <= i < v2.len() && has_exploded(v2[i]) by {
                    if marked.contains(i) {
                        assert(marks[i]);
                        assert(v1[i] == explode_die(vals[i]));
                    } else {
                        assert(done.contains(i));
                        assert(!marks[i]);
                        assert(v1[i] == vals[i]);
                    }
                    assert(0 <= i < v1.len());
                    assert(v2.subrange(0, v1.len() as int)[i] == v2[i]);
                }
                lemma_explode_loop_exploded(v2, sides, sels, done2, c1, max, draws);
            },
            (Err(_), _) => {},
        }
    }
}


/// Exploding: when it succeeds, every die of the result that a selector
/// matches has exploded, so each one rolled another die.
pub proof fn law_explode(n: NumV, op: OpView, c: nat, max: nat, draws: Seq<u32>)
    requires
        num_wf(n),
        n.kind is Dice,
        op.op == SetOpKind::Explode,
    ensures
        operate(n, op, c, max, draws).0 matches Ok(r) ==> r.kind is Dice && forall|i: int|
            0 <= i < r.kind->Dice_values.len() && #[trigger] any_hit(op.sels, keys_of(r.kind->Dice_values), i)
                ==> has_exploded(r.kind->Dice_values[i]),
{
    let values = n.kind->Dice_values;
    assert forall|i: int| 0 <= i < values.len() implies rolled_die(#[trigger] values[i]) by {
        assert(num_wf(values[i]));
    }
    lemma_explode_loop_exploded(values, n.kind->Dice_sides, op.sels, Set::empty(), c, max, draws);
}


/// Whether `d2` is the die `d` rolled once more: its former current roll
/// dropped and one new roll after it.
pub open spec fn rolled_again(d: NumV, d2: NumV) -> bool {
    let vs = d.kind->Die_values;
    &&& d2.kind is Die
    &&& d2.kind->Die_sides == d.kind->Die_sides
    &&& d2.kept == d.kept
    &&& d2.annotation == d.annotation
    &&& d2.kind->Die_values.len() == vs.len() + 1
    &&& d2.kind->Die_values.drop_last() == vs.update(vs.len() - 1, dropped(vs.last()))
}

/// A pass of re-rolls from index `k` that succeeds rolls each marked die
/// from `k` on once more and leaves every other die as it was.
pub proof fn lemma_reroll_pass_once(vals: Seq<NumV>, marks: Seq<bool>, k: int, c: nat, max: nat, draws: Seq<u32>)
    requires
        0 <= k,
        marks.len() == vals.len(),
        forall|i: int| 0 <= i < vals.len() ==> rolled_die(#[trigger] vals[i]),
    ensures
        reroll_pass(vals, marks, k, c, max, draws).0 matches Ok(v) ==> v.len() == vals.len() && forall|i: int|
            0 <= i < v.len() ==> if k <= i && marks[i] {
                rolled_again(vals[i], #[trigger] v[i])
            } else {
                v[i] == vals[i]
            },
    decreases vals.len() - k,
{
    if k < vals.len() {
        if marks[k] {
            match reroll_die(vals[k], c, max, draws) {
                (Ok(d), c1) => {
                    let v2 = vals.update(k, d);
                    assert forall|i: int| 0 <= i < v2.len() implies rolled_die(#[trigger] v2[i]) by {
                        if i != k {
                            assert(v2[i] == vals[i]);
                        }
                    }
                    let vs = vals[k].kind->Die_values;
                    assert(d.kind->Die_values.drop_last() =~= vs.update(vs.len() - 1, dropped(vs.last())));
                    lemma_reroll_pass_once(v2, marks, k + 1, c1, max, draws);
                    assert(rolled_again(vals[k], d));
                    match reroll_pass(v2, marks, k + 1, c1, max, draws).0 {
                        Ok(v) => {
                            assert forall|i: int| 0 <= i < v.len() implies if k <= i && marks[i] {
                                rolled_again(vals[i], #[trigger] v[i])
                            } else {
                                v[i] == vals[i]
                            } by {
                                if i != k {
                                    assert(v2[i] == vals[i]);
                                }
                            }
                        },
                        Err(_) => {},
                    }
                },
                (Err(_), _) => {},
            }
        } else {
            lemma_reroll_pass_once(vals, marks, k + 1, c, max, draws);
        }
    }
}

/// Re-rolling once: when it succeeds, each matched die is rolled exactly
/// once more, its former roll dropped, and every other die is unchanged.
pub proof fn law_reroll_once(vals: Seq<NumV>, sels: Seq<SetSel>, c: nat, max: nat, draws: Seq<u32>)
    requires
        forall|i: int| 0 <= i < vals.len() ==> rolled_die(#[trigger] vals[i]),
    ensures
        reroll_pass(vals, hits(sels, keys_of(vals)), 0, c, max, draws).0 matches Ok(v) ==> v.len() == vals.len()
            && forall|i: int|
            0 <= i < v.len() ==> if any_hit(sels, keys_of(vals), i) {
                rolled_again(vals[i], #[trigger] v[i])
            } else {
                v[i] == vals[i]
            },
{
    let marks = hits(sels, keys_of(vals));
    lemma_reroll_pass_once(vals, marks, 0, c, max, draws);
}


/// The numbers before `k` that come before number `i`.
pub open spec fn preceding_set(keys: Seq<(bool, Decimal)>, i: int, k: int, high: bool) -> Set<int> {
    Set::new(|j: int| 0 <= j < k && precedes(keys, j, i, high))
}

/// The kept numbers.
pub open spec fn kept_positions(keys: Seq<(bool, Decimal)>) -> Set<int> {
    Set::new(|i: int| 0 <= i < keys.len() && keys[i].0)
}

/// The numbers a selector matches.
pub open spec fn hit_positions(sel: SetSel, keys: Seq<(bool, Decimal)>) -> Set<int> {
    Set::new(|i: int| 0 <= i < keys.len() && sel_hits(sel, keys, i))
}

/// Counting the numbers before `k` that come before `i` counts a set of
/// positions.
pub proof fn lemma_count_preceding_set(keys: Seq<(bool, Decimal)>, i: int, k: int, high: bool)
    requires
        0 <= k <= keys.len(),
    ensures
        preceding_set(keys, i, k, high).finite(),
        preceding_set(keys, i, k, high).len() == count_preceding(keys, i, k, high),
    decreases k,
{
    if k == 0 {
        assert(preceding_set(keys, i, k, high) =~= Set::empty());
    } else {
        lemma_count_preceding_set(keys, i, k - 1, high);
        if precedes(keys, k - 1, i, high) {
            assert(preceding_set(keys, i, k, high) =~= preceding_set(keys, i, k - 1, high).insert(k - 1));
        } else {
            assert(preceding_set(keys, i, k, high) =~= preceding_set(keys, i, k - 1, high));
        }
    }
}

/// Of two different kept numbers, one comes before the other.
pub proof fn lemma_precedes_total(keys: Seq<(bool, Decimal)>, i: int, j: int, high: bool)
    requires
        0 <= i < keys.len(),
        0 <= j < keys.len(),
        i != j,
        keys[i].0,
        keys[j].0,
    ensures
        precedes(keys, j, i, high) || precedes(keys, i, j, high),
{
    lemma_order3(keys[i].1, keys[j].1, keys[j].1);
    lemma_order3(keys[j].1, keys[i].1, keys[i].1);
}

/// The kept numbers are finite in number.
pub proof fn lemma_kept_positions_finite(keys: Seq<(bool, Decimal)>)
    ensures
        kept_positions(keys).finite(),
        kept_positions(keys).len() <= keys.len(),
{
    vstd::set_lib::lemma_int_range(0, keys.len() as int);
    vstd::set_lib::lemma_len_subset(kept_positions(keys), vstd::set_lib::set_int_range(0, keys.len() as int));
}

/// The positions of the kept numbers, ordered from the lowest (or highest)
/// key, are `0` up to the number of kept numbers, each taken once.
pub proof fn lemma_ranks_are_positions(keys: Seq<(bool, Decimal)>, high: bool)
    ensures
        vstd::relations::injective_on(|i: int| rank(keys, i, high) as int, kept_positions(keys)),
        kept_positions(keys).map(|i: int| rank(keys, i, high) as int) == vstd::set_lib::set_int_range(
            0,
            kept_positions(keys).len() as int,
        ),
{
    let s = kept_positions(keys);
    let f = |i: int| rank(keys, i, high) as int;
    let n = keys.len() as int;
    lemma_kept_positions_finite(keys);
    assert forall|a: int, b: int| s.contains(a) && s.contains(b) && #[trigger] f(a) == #[trigger] f(b) implies a
        == b by {
        if a != b {
            lemma_precedes_total(keys, a, b, high);
            if precedes(keys, b, a, high) {
                lemma_count_preceding_order(keys, a, b, n, high);
            } else {
                lemma_count_preceding_order(keys, b, a, n, high);
            }
        }
    }
    let img = s.map(f);
    let range = vstd::set_lib::set_int_range(0, s.len() as int);
    assert forall|v: int| img.contains(v) implies range.contains(v) by {
        let i = choose|i: int| s.contains(i) && v == f(i);
        lemma_count_preceding_set(keys, i, n, high);
        let p = preceding_set(keys, i, n, high);
        assert forall|j: int| p.contains(j) implies s.remove(i).contains(j) by {
            if j == i {
                lemma_order3(keys[i].1, keys[i].1, keys[i].1);
            }
        }
        vstd::set_lib::lemma_len_subset(p, s.remove(i));
    }
    vstd::set_lib::lemma_map_size(s, img, f);
    vstd::set_lib::lemma_int_range(0, s.len() as int);
    vstd::set_lib::lemma_subset_equality(img, range);
}

/// Selecting the highest (or lowest) `n` values matches exactly `n` of the
/// kept values, or all of them where fewer are kept.
pub proof fn law_extremes_count(sel: SetSel, keys: Seq<(bool, Decimal)>)
    requires
        sel.cat == SelCat::Hi || sel.cat == SelCat::Lo,
    ensures
        hit_positions(sel, keys).finite(),
        hit_positions(sel, keys).len() == if sel.num < kept_positions(keys).len() {
            sel.num as nat
        } else {
            kept_positions(keys).len()
        },
{
    let high = sel.cat == SelCat::Hi;
    let s = kept_positions(keys);
    let h = hit_positions(sel, keys);
    let f = |i: int| rank(keys, i, high) as int;
    let k = s.len() as int;
    let m: int = if sel.num < k {
        sel.num as int
    } else {
        k
    };
    lemma_ranks_are_positions(keys, high);
    lemma_kept_positions_finite(keys);
    assert(h.subset_of(s));
    vstd::set_lib::lemma_len_subset(h, s);
    let img = h.map(f);
    let range = vstd::set_lib::set_int_range(0, m);
    assert forall|v: int| img.contains(v) <==> range.contains(v) by {
        if img.contains(v) {
            let i = choose|i: int| h.contains(i) && v == f(i);
            assert(s.map(f).contains(v));
        }
        if range.contains(v) {
            assert(vstd::set_lib::set_int_range(0, k).contains(v));
            assert(s.map(f).contains(v));
            let i = choose|i: int| s.contains(i) && v == f(i);
            assert(h.contains(i));
            assert(img.contains(v));
        }
    }
    assert(img =~= range);
    vstd::set_lib::lemma_map_size(h, img, f);
    vstd::set_lib::lemma_int_range(0, m);
}


/// Adding two integers that fit gives their sum.
pub proof fn lemma_add_ints(a: int, b: int)
    requires
        i128::MIN <= a <= i128::MAX,
        i128::MIN <= b <= i128::MAX,
        i128::MIN <= a + b <= i128::MAX,
    ensures
        crate::num::add_spec(int_dec(a), int_dec(b)) == Some(int_dec(a + b)),
{
    crate::num::lemma_at_own_scale(int_dec(a));
    crate::num::lemma_at_own_scale(int_dec(b));
}

/// Rolling `n` more dice onto dice that total `s` gives dice that total
/// between `s + n` and `s + n * sides`.
pub proof fn lemma_roll_more_total(
    vals: Seq<NumV>,
    s: int,
    sides: DieSides,
    n: nat,
    c: nat,
    max: nat,
    draws: Seq<u32>,
)
    requires
        crate::expr::kept_sum(vals) == Some(int_dec(s)),
        0 <= s,
        s + n * top_face(sides) <= i128::MAX,
    ensures
        roll_more(vals, sides, n, c, max, draws).0 matches Ok(v) ==> exists|t: int|
            s + n <= t <= s + n * top_face(sides) && crate::expr::kept_sum(v) == Some(int_dec(t)),
    decreases n,
{
    if n > 0 {
        let top = top_face(sides);
        match new_die(sides, c, max, draws) {
            (Ok(d), c1) => {
                let f = face(sides, draws[c as int]) as int;
                law_roll_shows_a_face(sides, c, max, draws);
                let l = lit_num(int_dec(f));
                assert(total_of(l) == Some(int_dec(f)));
                assert(d.kind->Die_values.last() == l);
                assert(total_of(d) == Some(int_dec(f)));
                assert((n - 1) * top + top == n * top) by (nonlinear_arith);
                assert(n * top >= n) by (nonlinear_arith)
                    requires top >= 1;
                lemma_add_ints(s, f);
                assert(vals.push(d).drop_last() == vals);
                assert(crate::expr::kept_sum(vals.push(d)) == Some(int_dec(s + f)));
                lemma_roll_more_total(vals.push(d), s + f, sides, (n - 1) as nat, c1, max, draws);
            },
            (Err(_), _) => {},
        }
    }
}

/// Rolling `n` dice without operators totals between `n` and `n` times the
/// number of sides.
pub proof fn law_dice_total_in_range(num: u32, sides: DieSides, c: nat, max: nat, draws: Seq<u32>)
    ensures
        eval_spec(Tree::DiceExpr { num, sides }, c, max, draws).0 matches Ok(d) ==> exists|t: int|
            num <= t <= num * top_face(sides) && total_of(d) == Some(int_dec(t)),
{
    let top = top_face(sides);
    assert(top <= u32::MAX);
    assert(num * top <= 0xffff_ffff * 0xffff_ffffint) by (nonlinear_arith)
        requires num <= 0xffff_ffff, top <= 0xffff_ffff;
    assert(crate::expr::kept_sum(Seq::<NumV>::empty()) == Some(int_dec(0)));
    lemma_roll_more_total(Seq::empty(), 0, sides, num as nat, c, max, draws);
}


/// Whether `e` is at least the scale of each of the numbers.
pub open spec fn scale_covers(e: nat, a: Decimal, b: Decimal, r: Decimal) -> bool {
    a.scale <= e && b.scale <= e && r.scale <= e
}

/// Written at the common scale of `a` and `b`, or at any larger scale, a
/// number is its value at that scale times a power of ten.
proof fn lemma_scaled_pair(a: Decimal, b: Decimal, e: nat)
    requires
        a.scale <= e,
        b.scale <= e,
    ensures
        a.at_scale(e) == a.at_scale(crate::num::common_scale(a, b)) * crate::num::pow10(
            (e - crate::num::common_scale(a, b)) as nat,
        ),
        b.at_scale(e) == b.at_scale(crate::num::common_scale(a, b)) * crate::num::pow10(
            (e - crate::num::common_scale(a, b)) as nat,
        ),
        crate::num::pow10((e - crate::num::common_scale(a, b)) as nat) >= 1,
{
    let c = crate::num::common_scale(a, b);
    crate::num::lemma_at_scale_shift(a, c, e);
    crate::num::lemma_at_scale_shift(b, c, e);
    crate::num::lemma_pow10_bounds((e - c) as nat);
}

/// A result written at its own scale is its mantissa, and at a larger scale
/// its mantissa times a power of ten.
proof fn lemma_scaled_result(r: Decimal, e: nat)
    requires
        r.scale <= e,
    ensures
        r.at_scale(e) == r.mantissa * crate::num::pow10((e - r.scale) as nat),
{
}

/// Adding gives a number whose value is the sum of the values: written at
/// any scale that covers all three numbers, the result is the sum of the
/// operands.
pub proof fn law_add_value(a: Decimal, b: Decimal, e: nat)
    requires
        binop_value(BinOpKind::Add, Some(a), Some(b)) is Some,
        scale_covers(e, a, b, binop_value(BinOpKind::Add, Some(a), Some(b))->Some_0),
    ensures
        binop_value(BinOpKind::Add, Some(a), Some(b))->Some_0.at_scale(e) == a.at_scale(e) + b.at_scale(e),
{
    let c = crate::num::common_scale(a, b);
    let r = binop_value(BinOpKind::Add, Some(a), Some(b))->Some_0;
    lemma_scaled_pair(a, b, e);
    let p = crate::num::pow10((e - c) as nat);
    let x = a.at_scale(c);
    let y = b.at_scale(c);
    assert(r.mantissa == x + y && r.scale == c);
    assert((x + y) * p == x * p + y * p) by (nonlinear_arith);
}

/// Subtracting gives a number whose value is the left value minus the right
/// one: written at any scale that covers all three numbers, the result is
/// the left operand minus the right operand.
pub proof fn law_sub_value(a: Decimal, b: Decimal, e: nat)
    requires
        binop_value(BinOpKind::Sub, Some(a), Some(b)) is Some,
        scale_covers(e, a, b, binop_value(BinOpKind::Sub, Some(a), Some(b))->Some_0),
    ensures
        binop_value(BinOpKind::Sub, Some(a), Some(b))->Some_0.at_scale(e) == a.at_scale(e) - b.at_scale(e),
{
    let c = crate::num::common_scale(a, b);
    let r = binop_value(BinOpKind::Sub, Some(a), Some(b))->Some_0;
    lemma_scaled_pair(a, b, e);
    let p = crate::num::pow10((e - c) as nat);
    let x = a.at_scale(c);
    let y = b.at_scale(c);
    assert(r.mantissa == x - y && r.scale == c);
    assert((x - y) * p == x * p - y * p) by (nonlinear_arith);
}


/// Arithmetic on integers gives the integer result: the sum, the difference
/// (left minus right), the product, the Euclidean quotient (for `/` and
/// `//`) and the Euclidean remainder (for `%`), wherever the operands and
/// the result fit.
pub proof fn law_integer_arithmetic(x: int, y: int)
    requires
        crate::num::fits(x),
        crate::num::fits(y),
    ensures
        crate::num::fits(x + y) ==> binop_value(BinOpKind::Add, Some(int_dec(x)), Some(int_dec(y))) == Some(
            int_dec(x + y),
        ),
        crate::num::fits(x - y) ==> binop_value(BinOpKind::Sub, Some(int_dec(x)), Some(int_dec(y))) == Some(
            int_dec(x - y),
        ),
        crate::num::fits(x * y) ==> binop_value(BinOpKind::Mul, Some(int_dec(x)), Some(int_dec(y))) == Some(
            int_dec(x * y),
        ),
        y != 0 && crate::num::fits(x / y) ==> binop_value(BinOpKind::Div, Some(int_dec(x)), Some(int_dec(y)))
            == Some(int_dec(x / y)) && binop_value(BinOpKind::FloorDiv, Some(int_dec(x)), Some(int_dec(y)))
            == Some(int_dec(x / y)),
        y != 0 ==> binop_value(BinOpKind::Mod, Some(int_dec(x)), Some(int_dec(y))) == Some(int_dec(x % y)),
{
    crate::num::lemma_at_own_scale(int_dec(x));
    crate::num::lemma_at_own_scale(int_dec(y));
    assert(int_dec(x).at_scale(0) == x);
    assert(int_dec(y).at_scale(0) == y);
    assert(crate::num::common_scale(int_dec(x), int_dec(y)) == 0);
    if y != 0 {
        assert(0 <= x % y < if y > 0 { y } else { -y }) by (nonlinear_arith)
            requires y != 0;
    }
}

/// Comparisons compare values: `<` gives 1 exactly when the left value is
/// below the right one, `>` when above, `==` when equal, and `>=`, `<=` and
/// `!=` the opposites; the values compared written at any scale that covers
/// both.
pub proof fn law_comparisons_compare(a: Decimal, b: Decimal, e: nat)
    requires
        a.scale <= e,
        b.scale <= e,
    ensures
        binop_value(BinOpKind::Lt, Some(a), Some(b)) == Some(int_dec(if a.at_scale(e) < b.at_scale(e) { 1 } else { 0 })),
        binop_value(BinOpKind::Gt, Some(a), Some(b)) == Some(int_dec(if a.at_scale(e) > b.at_scale(e) { 1 } else { 0 })),
        binop_value(BinOpKind::Eq, Some(a), Some(b)) == Some(int_dec(if a.at_scale(e) == b.at_scale(e) { 1 } else { 0 })),
        binop_value(BinOpKind::Ne, Some(a), Some(b)) == Some(int_dec(if a.at_scale(e) != b.at_scale(e) { 1 } else { 0 })),
        binop_value(BinOpKind::Le, Some(a), Some(b)) == Some(int_dec(if a.at_scale(e) <= b.at_scale(e) { 1 } else { 0 })),
        binop_value(BinOpKind::Ge, Some(a), Some(b)) == Some(int_dec(if a.at_scale(e) >= b.at_scale(e) { 1 } else { 0 })),
{
    crate::num::lemma_compare_at(a, b, e);
    crate::num::lemma_compare_at(b, a, e);
}

/// Multiplying gives a number whose value is the product of the values:
/// written at any scale `e` that covers all three numbers, the result times
/// `10^e` is the product of the operands.
pub proof fn law_mul_value(a: Decimal, b: Decimal, e: nat)
    requires
        binop_value(BinOpKind::Mul, Some(a), Some(b)) is Some,
        scale_covers(e, a, b, binop_value(BinOpKind::Mul, Some(a), Some(b))->Some_0),
    ensures
        binop_value(BinOpKind::Mul, Some(a), Some(b))->Some_0.at_scale(e) * crate::num::pow10(e) == a.at_scale(e)
            * b.at_scale(e),
{
    let r = binop_value(BinOpKind::Mul, Some(a), Some(b))->Some_0;
    let sa = a.scale as nat;
    let sb = b.scale as nat;
    assert(r.scale == sa + sb);
    let pa = crate::num::pow10((e - sa) as nat);
    let pb = crate::num::pow10((e - sb) as nat);
    let pr = crate::num::pow10((e - sa - sb) as nat);
    let pe = crate::num::pow10(e);
    // 10^(e-sa) * 10^(e-sb) == 10^(e-sa-sb) * 10^e
    crate::num::lemma_pow10_add((e - sa - sb) as nat, sb);
    crate::num::lemma_pow10_add((e - sa) as nat, sa);
    assert(((e - sa - sb) as nat + sb) as nat == (e - sa) as nat);
    assert(((e - sa) as nat + sa) as nat == e);
    let q = crate::num::pow10((e - sa - sb) as nat);
    assert(pa == q * crate::num::pow10(sb));
    assert(pe == pa * crate::num::pow10(sa));
    crate::num::lemma_pow10_add((e - sb) as nat, sb);
    assert(((e - sb) as nat + sb) as nat == e);
    assert(pe == pb * crate::num::pow10(sb));
    let ma = a.mantissa as int;
    let mb = b.mantissa as int;
    let ps = crate::num::pow10(sa);
    let pt = crate::num::pow10(sb);
    assert(r.at_scale(e) == ma * mb * pr);
    assert(a.at_scale(e) == ma * pa);
    assert(b.at_scale(e) == mb * pb);
    assert(ma * mb * pr * pe == (ma * pa) * (mb * pb)) by (nonlinear_arith)
        requires
            pa == pr * pt,
            pe == pa * ps,
            pe == pb * pt,
    {
        assert(ma * mb * pr * pe == ma * mb * pr * (pb * pt));
        assert((ma * pa) * (mb * pb) == ma * mb * (pr * pt) * pb);
    }
}

/// The quotient (`/` or `//`) and the remainder (`%`) of two numbers are
/// Euclidean: written at any scale that covers the operands and the
/// remainder, the left operand is the quotient (an integer) times the right
/// operand plus the remainder, and the remainder is at least 0 and less
/// than the size of the right operand.
pub proof fn law_div_mod_value(a: Decimal, b: Decimal, e: nat)
    requires
        binop_value(BinOpKind::Div, Some(a), Some(b)) is Some,
        binop_value(BinOpKind::Mod, Some(a), Some(b)) is Some,
        scale_covers(e, a, b, binop_value(BinOpKind::Mod, Some(a), Some(b))->Some_0),
    ensures
        binop_value(BinOpKind::FloorDiv, Some(a), Some(b)) == binop_value(BinOpKind::Div, Some(a), Some(b)),
        binop_value(BinOpKind::Div, Some(a), Some(b))->Some_0.scale == 0,
        ({
            let q = binop_value(BinOpKind::Div, Some(a), Some(b))->Some_0.mantissa as int;
            let r = binop_value(BinOpKind::Mod, Some(a), Some(b))->Some_0.at_scale(e);
            &&& a.at_scale(e) == q * b.at_scale(e) + r
            &&& 0 <= r
            &&& r < b.at_scale(e) || r < -b.at_scale(e)
        }),
{
    let c = crate::num::common_scale(a, b);
    lemma_scaled_pair(a, b, e);
    let p = crate::num::pow10((e - c) as nat);
    let x = a.at_scale(c);
    let y = b.at_scale(c);
    let rr = binop_value(BinOpKind::Mod, Some(a), Some(b))->Some_0;
    assert(!b.is_zero_spec());
    crate::num::lemma_at_own_scale(b);
    assert(y != 0) by {
        crate::num::lemma_scaled_nonzero(b, c);
    }
    let q = x / y;
    let m = x % y;
    assert(rr.mantissa == m && rr.scale == c);
    assert(x == q * y + m && 0 <= m && (m < y || m < -y)) by (nonlinear_arith)
        requires y != 0, q == x / y, m == x % y;
    assert(x * p == q * (y * p) + m * p && 0 <= m * p && (m * p < y * p || m * p < -(y * p))) by (nonlinear_arith)
        requires x == q * y + m, 0 <= m, m < y || m < -y, p >= 1;
}


/// No kept number counts none.
proof fn lemma_count_none(vals: Seq<NumV>)
    requires
        forall|j: int| 0 <= j < vals.len() ==> !(#[trigger] vals[j]).kept,
    ensures
        crate::dice::count_kept(vals) == 0,
    decreases vals.len(),
{
    if vals.len() > 0 {
        let p = vals.drop_last();
        assert forall|j: int| 0 <= j < p.len() implies !(#[trigger] p[j]).kept by {
            assert(p[j] == vals[j]);
        }
        lemma_count_none(p);
    }
}

/// Exactly one kept number counts one.
proof fn lemma_count_one(vals: Seq<NumV>, i: int)
    requires
        0 <= i < vals.len(),
        vals[i].kept,
        forall|j: int| 0 <= j < vals.len() && j != i ==> !(#[trigger] vals[j]).kept,
    ensures
        crate::dice::count_kept(vals) == 1,
    decreases vals.len(),
{
    let p = vals.drop_last();
    let last = vals.len() - 1;
    if i == last {
        assert forall|j: int| 0 <= j < p.len() implies !(#[trigger] p[j]).kept by {
            assert(p[j] == vals[j]);
        }
        lemma_count_none(p);
    } else {
        assert(!vals[last].kept);
        assert forall|j: int| 0 <= j < p.len() && j != i implies !(#[trigger] p[j]).kept by {
            assert(p[j] == vals[j]);
        }
        lemma_count_one(p, i);
    }
}

/// Two different kept numbers count at least two.
proof fn lemma_count_two(vals: Seq<NumV>, i: int, j: int)
    requires
        0 <= i < vals.len(),
        0 <= j < vals.len(),
        i != j,
        vals[i].kept,
        vals[j].kept,
    ensures
        crate::dice::count_kept(vals) >= 2,
    decreases vals.len(),
{
    let p = vals.drop_last();
    let last = vals.len() - 1;
    if i == last {
        assert(p[j] == vals[j]);
        lemma_count_kept_pos(p, j);
    } else if j == last {
        assert(p[i] == vals[i]);
        lemma_count_kept_pos(p, i);
    } else {
        assert(p[i] == vals[i] && p[j] == vals[j]);
        lemma_count_two(p, i, j);
    }
}

/// A kept number is counted.
proof fn lemma_count_kept_pos(vals: Seq<NumV>, i: int)
    requires
        0 <= i < vals.len(),
        vals[i].kept,
    ensures
        crate::dice::count_kept(vals) >= 1,
    decreases vals.len(),
{
    if i < vals.len() - 1 {
        assert(vals.drop_last()[i] == vals[i]);
        lemma_count_kept_pos(vals.drop_last(), i);
    }
}

/// Dice where only the number at `i` is kept, and it totals `v`, total `v`.
proof fn lemma_single_kept_sum(vals: Seq<NumV>, i: int, v: int)
    requires
        0 <= i < vals.len(),
        vals[i].kept,
        total_of(vals[i]) == Some(int_dec(v)),
        0 <= v <= 100,
        forall|j: int| 0 <= j < vals.len() && j != i ==> !(#[trigger] vals[j]).kept,
    ensures
        crate::expr::kept_sum(vals) == Some(int_dec(v)),
{
    lemma_prefix_sum(vals, i, v, vals.len() as int);
    assert(vals.subrange(0, vals.len() as int) =~= vals);
}

/// The sum of the first `k` numbers, of which only the one at `i` is kept.
proof fn lemma_prefix_sum(vals: Seq<NumV>, i: int, v: int, k: int)
    requires
        0 <= i < vals.len(),
        0 <= k <= vals.len(),
        total_of(vals[i]) == Some(int_dec(v)),
        0 <= v <= 100,
        forall|j: int| 0 <= j < vals.len() && j != i ==> !(#[trigger] vals[j]).kept,
    ensures
        crate::expr::kept_sum(vals.subrange(0, k)) == Some(int_dec(if i < k { v } else { 0 })),
    decreases k,
{
    let s = vals.subrange(0, k);
    if k == 0 {
        assert(s =~= Seq::<NumV>::empty());
    } else {
        lemma_prefix_sum(vals, i, v, k - 1);
        assert(s.drop_last() =~= vals.subrange(0, k - 1));
        assert(s.last() == vals[k - 1]);
        let before: int = if i < k - 1 { v } else { 0 };
        assert(crate::expr::kept_sum(s) == crate::expr::add_opt(
            crate::expr::kept_sum(s.drop_last()),
            total_of(s.last()),
        ));
        if k - 1 == i {
            lemma_add_ints(0, v);
            assert(0 + v == v);
        } else {
            assert(!vals[k - 1].kept);
            assert(total_of(s.last()) == Some(int_dec(0)));
            lemma_add_ints(before, 0);
            assert(before + 0 == before);
        }
    }
}

/// Critical results follow the kept d20: when the leftmost leaf of a roll
/// is a kept set of d20s of which exactly one die is kept, the roll is a
/// critical success if that die shows 20 and a critical failure if it shows
/// 1, however many dice were dropped; when no die or more than one die is
/// kept, it is neither.
pub proof fn law_crit_follows_the_kept_d20(n: NumV, i: int, v: int)
    requires
        crate::dice::num_leftmost(n).kind is Dice,
        crate::dice::num_leftmost(n).kind->Dice_sides == DieSides::Literal(20),
        crate::dice::num_leftmost(n).kept,
    ensures
        ({
            let vals = crate::dice::num_leftmost(n).kind->Dice_values;
            0 <= i < vals.len() && vals[i].kept && total_of(vals[i]) == Some(int_dec(v)) && (forall|j: int|
                0 <= j < vals.len() && j != i ==> !(#[trigger] vals[j]).kept) ==> (v == 20 ==> crate::dice::crit_of(n)
                == Crit::Success) && (v == 1 ==> crate::dice::crit_of(n) == Crit::Failure)
        }),
        ({
            let vals = crate::dice::num_leftmost(n).kind->Dice_values;
            (forall|j: int| 0 <= j < vals.len() ==> !(#[trigger] vals[j]).kept) || (exists|j: int, k: int|
                0 <= j < vals.len() && 0 <= k < vals.len() && j != k && #[trigger] vals[j].kept && #[trigger] vals[k].kept)
                ==> crate::dice::crit_of(n) == Crit::Normal
        }),
{
    let l = crate::dice::num_leftmost(n);
    let vals = l.kind->Dice_values;
    if forall|j: int| 0 <= j < vals.len() ==> !(#[trigger] vals[j]).kept {
        lemma_count_none(vals);
    }
    if 0 <= i < vals.len() && vals[i].kept && (forall|j: int| 0 <= j < vals.len() && j != i ==> !(#[trigger] vals[j]).kept) {
        lemma_count_one(vals, i);
    }
    if 0 <= i < vals.len() && vals[i].kept && total_of(vals[i]) == Some(int_dec(v)) && (forall|j: int|
        0 <= j < vals.len() && j != i ==> !(#[trigger] vals[j]).kept) && (v == 20 || v == 1) {
        lemma_single_kept_sum(vals, i, v);
        assert(total_of(l) == Some(int_dec(v)));
        crate::num::lemma_order3(int_dec(v), int_dec(1), int_dec(20));
        crate::num::lemma_compare_at(int_dec(v), int_dec(1), 0);
        crate::num::lemma_compare_at(int_dec(v), int_dec(20), 0);
    }
    if exists|j: int, k: int|
        0 <= j < vals.len() && 0 <= k < vals.len() && j != k && #[trigger] vals[j].kept && #[trigger] vals[k].kept {
        let (j, k) = choose|j: int, k: int|
            0 <= j < vals.len() && 0 <= k < vals.len() && j != k && #[trigger] vals[j].kept && #[trigger] vals[k].kept;
        lemma_count_two(vals, j, k);
    }
}


/// The markdown formatter writes a roll of a die in bold exactly when it
/// shows 1 or the die's number of sides (never 100 on a percentile die):
/// for each roll with a whole value `k`, its text is the plain text of the
/// roll, in bold exactly in those cases.
pub proof fn law_markdown_bolds_extremes(s: Seq<NumV>, sides: DieSides, in_dropped: bool, i: int, k: int)
    requires
        0 <= i < s.len(),
        value_of(s[i]) == Some(int_dec(k)),
        0 <= k <= u32::MAX,
    ensures
        crate::formatters::md_die_texts(s, sides, in_dropped).len() == s.len(),
        crate::formatters::md_die_texts(s, sides, in_dropped)[i] == if k == 1 || sides == DieSides::Literal(k as u32) {
            seq!['*', '*'] + crate::formatters::md_text(s[i], in_dropped) + seq!['*', '*']
        } else {
            crate::formatters::md_text(s[i], in_dropped)
        },
    decreases s.len(),
{
    lemma_md_die_texts_len(s, sides, in_dropped);
    if i < s.len() - 1 {
        assert(s.drop_last()[i] == s[i]);
        law_markdown_bolds_extremes(s.drop_last(), sides, in_dropped, i, k);
    } else {
        assert(crate::num::pow10(0) == 1);
        assert(crate::num::trunc_spec(int_dec(k)) == k);
        assert(crate::formatters::as_u32(int_dec(k)) == k);
    }
}

/// There is one markdown text for each roll of a die.
proof fn lemma_md_die_texts_len(s: Seq<NumV>, sides: DieSides, in_dropped: bool)
    ensures
        crate::formatters::md_die_texts(s, sides, in_dropped).len() == s.len(),
    decreases s.len(),
{
    if s.len() > 0 {
        lemma_md_die_texts_len(s.drop_last(), sides, in_dropped);
    }
}


/// The text of operators one after the other is their texts one after the
/// other.
pub proof fn lemma_ops_text_concat(a: Seq<OpView>, b: Seq<OpView>)
    ensures
        ops_text(a + b) == ops_text(a) + ops_text(b),
    decreases b.len(),
{
    if b.len() == 0 {
        assert(a + b =~= a);
    } else {
        lemma_ops_text_concat(a, b.drop_last());
        assert((a + b).drop_last() =~= a + b.drop_last());
        assert((a + b).last() == b.last());
    }
}

/// Applying advantage keeps a node with children one with children.
proof fn lemma_adv_keeps_children(t: Tree, adv: Advantage)
    ensures
        is_leaf(adv_spec(t, adv)) == is_leaf(t),
{
}

/// Advantage on a roll whose leading dice are a single d20 with operators
/// rolls two d20s instead, keeping the higher (advantage) or the lower
/// (disadvantage) first, and then applies the operators the dice already
/// had, all of them and in order.
pub proof fn law_advantage_keeps_operators(t: Tree, adv: Advantage, ops: Seq<OpView>)
    requires
        adv != Advantage::Normal,
        crate::utils::adv_target(t) == (Tree::Dice {
            value: Box::new(Tree::DiceExpr { num: 1, sides: DieSides::Literal(20) }),
            ops,
        }),
    ensures
        ({
            let cat = if adv == Advantage::Advantage { SelCat::Hi } else { SelCat::Lo };
            let n = crate::utils::adv_target(adv_spec(t, adv));
            &&& n is Dice
            &&& n->Dice_value == Box::new(Tree::DiceExpr { num: 2, sides: DieSides::Literal(20) })
            &&& n->Dice_ops.len() == ops.len() + 1
            &&& n->Dice_ops[0] == (OpView { op: SetOpKind::Keep, sels: seq![SetSel { cat, num: 1 }] })
            &&& n->Dice_ops.subrange(1, n->Dice_ops.len() as int) == ops
            &&& crate::ast::tree_text(n) == crate::ast::tree_text(Tree::DiceExpr { num: 2, sides: DieSides::Literal(20) })
                + op_text(SetOpKind::Keep, seq![SetSel { cat, num: 1 }]) + ops_text(ops)
        }),
    decreases t,
{
    match t {
        Tree::Expression { roll, comment } => if !is_leaf(*roll) {
            lemma_adv_keeps_children(*roll, adv);
            law_advantage_keeps_operators(*roll, adv, ops);
            assert(adv_spec(t, adv) == Tree::Expression { roll: Box::new(adv_spec(*roll, adv)), comment });
            assert(crate::utils::adv_target(adv_spec(t, adv)) == crate::utils::adv_target(adv_spec(*roll, adv)));
        } else {
            assert(crate::utils::adv_target(t) == t);
        },
        Tree::Parenthetical(v) => if !is_leaf(*v) {
            lemma_adv_keeps_children(*v, adv);
            law_advantage_keeps_operators(*v, adv, ops);
        },
        Tree::Annotated { value, .. } => if !is_leaf(*value) {
            lemma_adv_keeps_children(*value, adv);
            law_advantage_keeps_operators(*value, adv, ops);
        },
        Tree::UnOp { value, .. } => if !is_leaf(*value) {
            lemma_adv_keeps_children(*value, adv);
            law_advantage_keeps_operators(*value, adv, ops);
        },
        Tree::BinOp { left, .. } => if !is_leaf(*left) {
            lemma_adv_keeps_children(*left, adv);
            law_advantage_keeps_operators(*left, adv, ops);
        },
        Tree::SetExpr(values) => if values.len() > 0 && !is_leaf(values[0]) {
            lemma_adv_keeps_children(values[0], adv);
            law_advantage_keeps_operators(values[0], adv, ops);
            assert(values.update(0, adv_spec(values[0], adv))[0] == adv_spec(values[0], adv));
        },
        Tree::SetWithOps { value, .. } => if !is_leaf(*value) {
            lemma_adv_keeps_children(*value, adv);
            law_advantage_keeps_operators(*value, adv, ops);
        },
        Tree::Dice { value, .. } => if !is_leaf(*value) {
            lemma_adv_keeps_children(*value, adv);
            law_advantage_keeps_operators(*value, adv, ops);
        } else {
            let cat = if adv == Advantage::Advantage { SelCat::Hi } else { SelCat::Lo };
            let k = OpView { op: SetOpKind::Keep, sels: seq![SetSel { cat, num: 1 }] };
            let nops = seq![k] + ops;
            assert(nops.subrange(1, nops.len() as int) =~= ops);
            lemma_ops_text_concat(seq![k], ops);
            assert(seq![k].drop_last() =~= Seq::<OpView>::empty());
            assert(seq![k].last() == k);
            assert(ops_text(Seq::<OpView>::empty()) == Seq::<char>::empty());
            assert(ops_text(seq![k]) == ops_text(seq![k].drop_last()) + op_text(k.op, k.sels));
            assert(ops_text(seq![k]) =~= op_text(SetOpKind::Keep, seq![SetSel { cat, num: 1 }]));
            let n = crate::utils::adv_target(adv_spec(t, adv));
            assert(n == Tree::Dice { value: Box::new(Tree::DiceExpr { num: 2, sides: DieSides::Literal(20) }), ops: nops });
            assert(crate::ast::tree_text(n) =~= crate::ast::tree_text(Tree::DiceExpr { num: 2, sides: DieSides::Literal(20) })
                + op_text(SetOpKind::Keep, seq![SetSel { cat, num: 1 }]) + ops_text(ops));
        },
        _ => {},
    }
}


/// Negation gives the opposite value: written at any scale that covers the
/// number, the negated value is minus the number's total.
pub proof fn law_negation_value(x: NumV, e: nat)
    requires
        total_of(x) matches Some(d) && d.mantissa != i128::MIN && d.scale <= e,
    ensures
        value_of(mk_num(KindV::UnOp { op: UnOpKind::Neg, value: Box::new(x) })) matches Some(r) && r.scale
            <= e && r.at_scale(e) == -total_of(x)->Some_0.at_scale(e),
{
    let d = total_of(x)->Some_0;
    let p = crate::num::pow10((e - d.scale) as nat);
    assert((-(d.mantissa as int)) * p == -((d.mantissa as int) * p)) by (nonlinear_arith);
}

/// Totals count only kept numbers: a dropped number adds nothing to the
/// total of a set, and a kept one adds its total (written at any scale
/// that covers the numbers).
pub proof fn law_total_counts_kept(s: Seq<NumV>, x: NumV, e: nat)
    requires
        crate::expr::kept_sum(s) matches Some(a) && crate::num::fits(a.mantissa as int) && a.scale <= e,
    ensures
        !x.kept ==> crate::expr::kept_sum(s.push(x)) == crate::expr::kept_sum(s),
        x.kept && crate::expr::kept_sum(s.push(x)) is Some && total_of(x) is Some && total_of(x)->Some_0.scale <= e
            && crate::expr::kept_sum(s.push(x))->Some_0.scale <= e ==> crate::expr::kept_sum(s.push(x))->Some_0.at_scale(
            e,
        ) == crate::expr::kept_sum(s)->Some_0.at_scale(e) + total_of(x)->Some_0.at_scale(e),
{
    let a = crate::expr::kept_sum(s)->Some_0;
    assert(s.push(x).drop_last() == s);
    assert(s.push(x).last() == x);
    if !x.kept {
        crate::num::lemma_at_own_scale(a);
        crate::num::lemma_at_own_scale(int_dec(0));
        assert(crate::num::common_scale(a, int_dec(0)) == a.scale);
        assert(int_dec(0).at_scale(a.scale as nat) == 0);
    } else {
        match (crate::expr::kept_sum(s.push(x)), total_of(x)) {
            (Some(r), Some(b)) => if b.scale <= e && r.scale <= e {
                assert(binop_value(BinOpKind::Add, Some(a), Some(b)) == Some(r));
                law_add_value(a, b, e);
            },
            _ => {},
        }
    }
}

} // verus!
