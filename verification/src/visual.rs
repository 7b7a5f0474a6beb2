//! Annotations are purely visual: they change neither totals nor rolls,
//! wherever they stand in an expression.
use vstd::prelude::*;
use crate::ast::{OpView, SetSel, Tree};
use crate::eval::{apply_ops, eval_all, eval_spec, record};
use crate::expr::{int_dec, kept_sum, total_of, value_of, KindV, NumV};
use crate::errors::Error;
use crate::kinds::DieSides;
use crate::num::Decimal;
use crate::ops::{
    clamp_set, count_marks, first_mark, into_dice, operate, dropped, explode_literal, explode_loop, explode_marked, force_literal, fresh_hits, hits,
    keep_drop, keys_of, mark_set, new_die, reroll_die, reroll_loop, reroll_pass, roll_more, roll_spec, set_of,
    with_set,
};

verus! {

/// A number with every annotation in it left out.
pub open spec fn erase(n: NumV) -> NumV
    decreases n, 1int,
{
    let kind = match n.kind {
        KindV::Expression { roll, comment } => KindV::Expression { roll: Box::new(erase(*roll)), comment },
        KindV::Literal { history, exploded } => KindV::Literal { history, exploded },
        KindV::UnOp { op, value } => KindV::UnOp { op, value: Box::new(erase(*value)) },
        KindV::BinOp { left, op, right } => KindV::BinOp {
            left: Box::new(erase(*left)),
            op,
            right: Box::new(erase(*right)),
        },
        KindV::Parenthetical { value, ops } => KindV::Parenthetical { value: Box::new(erase(*value)), ops },
        KindV::NumSet { values, ops } => KindV::NumSet { values: erase_all(values), ops },
        KindV::Die { sides, values } => KindV::Die { sides, values: erase_all(values) },
        KindV::Dice { values, ops, num, sides } => KindV::Dice { values: erase_all(values), ops, num, sides },
    };
    NumV { kind, kept: n.kept, annotation: None }
}

/// The numbers with every annotation in them left out.
pub open spec fn erase_all(s: Seq<NumV>) -> Seq<NumV>
    decreases s, 0int,
{
    if s.len() == 0 {
        Seq::empty()
    } else {
        erase_all(s.drop_last()).push(erase(s.last()))
    }
}

/// Leaving out annotations works number by number.
pub proof fn lemma_erase_all(s: Seq<NumV>)
    ensures
        erase_all(s).len() == s.len(),
        forall|i: int| 0 <= i < s.len() ==> #[trigger] erase_all(s)[i] == erase(s[i]),
    decreases s.len(),
{
    if s.len() > 0 {
        lemma_erase_all(s.drop_last());
    }
}

/// Numbers that are equal once annotations are left out have the same
/// value and the same total.
pub proof fn lemma_erase_value(n: NumV)
    ensures
        value_of(erase(n)) == value_of(n),
        total_of(erase(n)) == total_of(n),
    decreases n, 1int,
{
    match n.kind {
        KindV::Expression { roll, .. } => lemma_erase_value(*roll),
        KindV::UnOp { value, .. } => lemma_erase_value(*value),
        KindV::BinOp { left, right, .. } => {
            lemma_erase_value(*left);
            lemma_erase_value(*right);
        },
        KindV::Parenthetical { value, .. } => lemma_erase_value(*value),
        KindV::NumSet { values, .. } => lemma_erase_sum(values),
        KindV::Die { values, .. } => {
            lemma_erase_all(values);
            if values.len() > 0 {
                lemma_erase_value(values.last());
                assert(erase_all(values).last() == erase(values.last()));
            }
        },
        KindV::Dice { values, .. } => lemma_erase_sum(values),
        _ => {},
    }
}

/// Leaving out annotations keeps the sum of the kept numbers.
pub proof fn lemma_erase_sum(s: Seq<NumV>)
    ensures
        kept_sum(erase_all(s)) == kept_sum(s),
    decreases s, 0int,
{
    if s.len() > 0 {
        lemma_erase_sum(s.drop_last());
        lemma_erase_value(s.last());
        assert(erase_all(s).drop_last() == erase_all(s.drop_last()));
    }
}


/// Whether two numbers are the same once annotations are left out.
pub open spec fn sim(a: NumV, b: NumV) -> bool {
    erase(a) == erase(b)
}

/// Whether two sequences of numbers are the same once annotations are left
/// out.
pub open spec fn sims(a: Seq<NumV>, b: Seq<NumV>) -> bool {
    erase_all(a) == erase_all(b)
}

/// Sequences are the same up to annotations exactly when they are number by
/// number.
pub proof fn lemma_sims(a: Seq<NumV>, b: Seq<NumV>)
    ensures
        sims(a, b) <==> a.len() == b.len() && forall|i: int| 0 <= i < a.len() ==> sim(#[trigger] a[i], b[i]),
{
    lemma_erase_all(a);
    lemma_erase_all(b);
    if a.len() == b.len() && forall|i: int| 0 <= i < a.len() ==> sim(#[trigger] a[i], b[i]) {
        assert(erase_all(a) =~= erase_all(b));
    }
    if sims(a, b) {
        assert forall|i: int| 0 <= i < a.len() implies sim(#[trigger] a[i], b[i]) by {
            assert(erase_all(a)[i] == erase_all(b)[i]);
        }
    }
}

/// Numbers that are the same up to annotations are kept alike and have the
/// same total.
pub proof fn lemma_sim_total(a: NumV, b: NumV)
    requires
        sim(a, b),
    ensures
        a.kept == b.kept,
        total_of(a) == total_of(b),
        value_of(a) == value_of(b),
{
    lemma_erase_value(a);
    lemma_erase_value(b);
}


/// Numbers the same up to annotations have the same keys.
pub proof fn lemma_sims_keys(a: Seq<NumV>, b: Seq<NumV>)
    requires
        sims(a, b),
    ensures
        keys_of(a) == keys_of(b),
{
    lemma_sims(a, b);
    assert forall|i: int| 0 <= i < a.len() implies #[trigger] keys_of(a)[i] == keys_of(b)[i] by {
        lemma_sim_total(a[i], b[i]);
    }
    assert(keys_of(a) =~= keys_of(b));
}

/// The sets that operators apply to are the same up to annotations.
pub proof fn lemma_sim_set_of(a: NumV, b: NumV)
    requires
        sim(a, b),
    ensures
        sims(set_of(a), set_of(b)),
    decreases a,
{
    match (a.kind, b.kind) {
        (KindV::Expression { roll: x, .. }, KindV::Expression { roll: y, .. }) => lemma_sim_set_of(*x, *y),
        (KindV::Parenthetical { value: x, .. }, KindV::Parenthetical { value: y, .. }) => lemma_sim_set_of(*x, *y),
        (KindV::NumSet { .. }, KindV::NumSet { .. }) => {},
        (KindV::Dice { .. }, KindV::Dice { .. }) => {},
        (KindV::Die { values: x, .. }, KindV::Die { values: y, .. }) => {
            lemma_sims(x, y);
            if x.len() > 0 {
                assert(sim(x.last(), y.last()));
            } else {
                assert(x =~= y);
            }
            lemma_sims(seq![x.last()], seq![y.last()]);
        },
        _ => {
            lemma_sims(seq![a], seq![b]);
        },
    }
}

/// Dropping keeps numbers the same up to annotations.
pub proof fn lemma_sim_dropped(a: NumV, b: NumV)
    requires
        sim(a, b),
    ensures
        sim(dropped(a), dropped(b)),
{
}

/// Marking keeps sets the same up to annotations.
pub proof fn lemma_sims_mark(a: Seq<NumV>, b: Seq<NumV>, marks: Seq<bool>, keep: bool)
    requires
        sims(a, b),
    ensures
        sims(mark_set(a, marks, keep), mark_set(b, marks, keep)),
{
    lemma_sims(a, b);
    let x = mark_set(a, marks, keep);
    let y = mark_set(b, marks, keep);
    assert forall|i: int| 0 <= i < x.len() implies sim(#[trigger] x[i], y[i]) by {
        lemma_sim_total(a[i], b[i]);
    }
    lemma_sims(x, y);
}

/// Putting sets the same up to annotations into numbers the same up to
/// annotations gives numbers the same up to annotations.
pub proof fn lemma_sim_with_set(a: NumV, b: NumV, x: Seq<NumV>, y: Seq<NumV>)
    requires
        sim(a, b),
        sims(x, y),
        x.len() == set_of(a).len(),
    ensures
        sim(with_set(a, x), with_set(b, y)),
    decreases a,
{
    lemma_sims(x, y);
    match (a.kind, b.kind) {
        (KindV::Expression { roll: p, .. }, KindV::Expression { roll: q, .. }) => lemma_sim_with_set(*p, *q, x, y),
        (KindV::Parenthetical { value: p, .. }, KindV::Parenthetical { value: q, .. }) => lemma_sim_with_set(
            *p,
            *q,
            x,
            y,
        ),
        (KindV::Die { values: p, .. }, KindV::Die { values: q, .. }) => {
            lemma_sims(p, q);
            let p2 = p.update(p.len() - 1, x[0]);
            let q2 = q.update(q.len() - 1, y[0]);
            if p.len() > 0 {
                assert(sim(x[0], y[0]));
                assert forall|i: int| 0 <= i < p2.len() implies sim(#[trigger] p2[i], q2[i]) by {}
                lemma_sims(p2, q2);
            }
        },
        _ => {},
    }
}

/// Keeping or dropping keeps numbers the same up to annotations.
pub proof fn lemma_sim_keep_drop(a: NumV, b: NumV, sels: Seq<SetSel>, keep: bool)
    requires
        sim(a, b),
    ensures
        sim(keep_drop(a, sels, keep), keep_drop(b, sels, keep)),
{
    lemma_sim_set_of(a, b);
    lemma_sims_keys(set_of(a), set_of(b));
    let m = hits(sels, keys_of(set_of(a)));
    lemma_sims_mark(set_of(a), set_of(b), m, keep);
    lemma_sim_with_set(a, b, mark_set(set_of(a), m, keep), mark_set(set_of(b), m, keep));
}



/// Whether two outcomes agree up to annotations: the same count after, the
/// same error, or numbers the same up to annotations.
pub open spec fn sim_res(a: (Result<NumV, Error>, nat), b: (Result<NumV, Error>, nat)) -> bool {
    a.1 == b.1 && match (a.0, b.0) {
        (Ok(x), Ok(y)) => sim(x, y),
        (Err(e), Err(f)) => e == f,
        _ => false,
    }
}

/// Whether two outcomes of sequences agree up to annotations.
pub open spec fn sims_res(a: (Result<Seq<NumV>, Error>, nat), b: (Result<Seq<NumV>, Error>, nat)) -> bool {
    a.1 == b.1 && match (a.0, b.0) {
        (Ok(x), Ok(y)) => sims(x, y),
        (Err(e), Err(f)) => e == f,
        _ => false,
    }
}

/// Numbers the same up to annotations whose values are empty are equal.
proof fn lemma_sims_empty(a: Seq<NumV>, b: Seq<NumV>)
    requires
        sims(a, b),
        a.len() == 0,
    ensures
        a == b,
{
    lemma_sims(a, b);
    assert(a =~= b);
}

/// Replacing one number by numbers the same up to annotations keeps
/// sequences the same up to annotations.
proof fn lemma_sims_update(a: Seq<NumV>, b: Seq<NumV>, k: int, x: NumV, y: NumV)
    requires
        sims(a, b),
        sim(x, y),
        0 <= k < a.len(),
    ensures
        sims(a.update(k, x), b.update(k, y)),
{
    lemma_sims(a, b);
    let p = a.update(k, x);
    let q = b.update(k, y);
    assert forall|i: int| 0 <= i < p.len() implies sim(#[trigger] p[i], q[i]) by {}
    lemma_sims(p, q);
}

/// Adding numbers the same up to annotations keeps sequences the same up to
/// annotations.
proof fn lemma_sims_push(a: Seq<NumV>, b: Seq<NumV>, x: NumV, y: NumV)
    requires
        sims(a, b),
        sim(x, y),
    ensures
        sims(a.push(x), b.push(y)),
{
    lemma_sims(a, b);
    let p = a.push(x);
    let q = b.push(y);
    assert forall|i: int| 0 <= i < p.len() implies sim(#[trigger] p[i], q[i]) by {}
    lemma_sims(p, q);
}

/// Rolling a die again agrees up to annotations.
pub proof fn lemma_sim_reroll_die(a: NumV, b: NumV, c: nat, max: nat, draws: Seq<u32>)
    requires
        sim(a, b),
    ensures
        sim_res(reroll_die(a, c, max, draws), reroll_die(b, c, max, draws)),
{
    match (a.kind, b.kind) {
        (KindV::Die { values: p, .. }, KindV::Die { values: q, .. }) => {
            lemma_sims(p, q);
            let p2 = p.update(p.len() - 1, dropped(p.last()));
            let q2 = q.update(q.len() - 1, dropped(q.last()));
            if p.len() > 0 {
                lemma_sims_update(p, q, p.len() - 1, dropped(p.last()), dropped(q.last()));
            } else {
                lemma_sims_empty(p, q);
            }
            match roll_spec(a.kind->Die_sides, c, max, draws) {
                (Ok(l), _) => {
                    lemma_sims_push(p2, q2, l, l);
                },
                _ => {},
            }
        },
        _ => {},
    }
}

/// A pass of re-rolls agrees up to annotations.
pub proof fn lemma_sims_reroll_pass(
    a: Seq<NumV>,
    b: Seq<NumV>,
    marks: Seq<bool>,
    k: int,
    c: nat,
    max: nat,
    draws: Seq<u32>,
)
    requires
        sims(a, b),
    ensures
        sims_res(reroll_pass(a, marks, k, c, max, draws), reroll_pass(b, marks, k, c, max, draws)),
    decreases a.len() - k,
{
    lemma_sims(a, b);
    if 0 <= k < a.len() {
        if marks[k] {
            lemma_sim_reroll_die(a[k], b[k], c, max, draws);
            match (reroll_die(a[k], c, max, draws), reroll_die(b[k], c, max, draws)) {
                ((Ok(x), c1), (Ok(y), _)) => {
                    lemma_sims_update(a, b, k, x, y);
                    lemma_sims_reroll_pass(a.update(k, x), b.update(k, y), marks, k + 1, c1, max, draws);
                },
                _ => {},
            }
        } else {
            lemma_sims_reroll_pass(a, b, marks, k + 1, c, max, draws);
        }
    }
}

/// Re-rolling until nothing matches agrees up to annotations.
pub proof fn lemma_sims_reroll_loop(a: Seq<NumV>, b: Seq<NumV>, sels: Seq<SetSel>, c: nat, max: nat, draws: Seq<u32>)
    requires
        sims(a, b),
    ensures
        sims_res(reroll_loop(a, sels, c, max, draws), reroll_loop(b, sels, c, max, draws)),
    decreases max + 1 - c,
{
    lemma_sims_keys(a, b);
    let marks = hits(sels, keys_of(a));
    if count_marks(marks) > 0 {
        lemma_sims_reroll_pass(a, b, marks, 0, c, max, draws);
        match (reroll_pass(a, marks, 0, c, max, draws), reroll_pass(b, marks, 0, c, max, draws)) {
            ((Ok(x), c1), (Ok(y), _)) => if c < c1 <= max {
                lemma_sims_reroll_loop(x, y, sels, c1, max, draws);
            },
            _ => {},
        }
    }
}

/// Marking dice as exploded keeps them the same up to annotations.
pub proof fn lemma_sims_explode_marked(a: Seq<NumV>, b: Seq<NumV>, marks: Seq<bool>)
    requires
        sims(a, b),
    ensures
        sims(explode_marked(a, marks), explode_marked(b, marks)),
{
    lemma_sims(a, b);
    let p = explode_marked(a, marks);
    let q = explode_marked(b, marks);
    assert forall|i: int| 0 <= i < p.len() implies sim(#[trigger] p[i], q[i]) by {
        if marks[i] {
            match (a[i].kind, b[i].kind) {
                (KindV::Die { values: x, .. }, KindV::Die { values: y, .. }) => {
                    lemma_sims(x, y);
                    if x.len() > 0 {
                        lemma_sims_update(x, y, x.len() - 1, explode_literal(x.last()), explode_literal(y.last()));
                    } else {
                        lemma_sims_empty(x, y);
                    }
                },
                _ => {},
            }
        }
    }
    lemma_sims(p, q);
}

/// Rolling more dice agrees up to annotations.
pub proof fn lemma_sims_roll_more(a: Seq<NumV>, b: Seq<NumV>, sides: DieSides, n: nat, c: nat, max: nat, draws: Seq<u32>)
    requires
        sims(a, b),
    ensures
        sims_res(roll_more(a, sides, n, c, max, draws), roll_more(b, sides, n, c, max, draws)),
    decreases n,
{
    if n > 0 {
        match new_die(sides, c, max, draws) {
            (Ok(d), c1) => {
                lemma_sims_push(a, b, d, d);
                lemma_sims_roll_more(a.push(d), b.push(d), sides, (n - 1) as nat, c1, max, draws);
            },
            _ => {},
        }
    }
}

/// Exploding until nothing new matches agrees up to annotations.
pub proof fn lemma_sims_explode_loop(
    a: Seq<NumV>,
    b: Seq<NumV>,
    sides: DieSides,
    sels: Seq<SetSel>,
    done: Set<int>,
    c: nat,
    max: nat,
    draws: Seq<u32>,
)
    requires
        sims(a, b),
    ensures
        sims_res(explode_loop(a, sides, sels, done, c, max, draws), explode_loop(b, sides, sels, done, c, max, draws)),
    decreases max + 1 - c,
{
    lemma_sims_keys(a, b);
    let marks = fresh_hits(a, sels, done);
    assert(fresh_hits(b, sels, done) == marks);
    let n = count_marks(marks);
    if n > 0 {
        lemma_sims_explode_marked(a, b, marks);
        lemma_sims_roll_more(explode_marked(a, marks), explode_marked(b, marks), sides, n, c, max, draws);
        match (
            roll_more(explode_marked(a, marks), sides, n, c, max, draws),
            roll_more(explode_marked(b, marks), sides, n, c, max, draws),
        ) {
            ((Ok(x), c1), (Ok(y), _)) => if c < c1 <= max {
                lemma_sims_explode_loop(
                    x,
                    y,
                    sides,
                    sels,
                    done.union(Set::new(|i: int| 0 <= i < marks.len() && marks[i])),
                    c1,
                    max,
                    draws,
                );
            },
            _ => {},
        }
    }
}

/// Clamping agrees up to annotations.
pub proof fn lemma_sims_clamp(a: Seq<NumV>, b: Seq<NumV>, m: Decimal, at_least: bool)
    requires
        sims(a, b),
    ensures
        sims(clamp_set(a, m, at_least), clamp_set(b, m, at_least)),
{
    lemma_sims(a, b);
    let p = clamp_set(a, m, at_least);
    let q = clamp_set(b, m, at_least);
    assert forall|i: int| 0 <= i < p.len() implies sim(#[trigger] p[i], q[i]) by {
        lemma_sim_total(a[i], b[i]);
        match (a[i].kind, b[i].kind) {
            (KindV::Die { values: x, .. }, KindV::Die { values: y, .. }) => {
                lemma_sims(x, y);
                if x.len() > 0 {
                    lemma_sims_update(x, y, x.len() - 1, force_literal(x.last(), m), force_literal(y.last(), m));
                } else {
                    lemma_sims_empty(x, y);
                }
            },
            _ => {},
        }
    }
    lemma_sims(p, q);
}


/// Putting dice the same up to annotations back into dice agrees up to
/// annotations.
proof fn lemma_sim_into_dice(a: NumV, b: NumV, x: (Result<Seq<NumV>, Error>, nat), y: (Result<Seq<NumV>, Error>, nat))
    requires
        sim(a, b),
        sims_res(x, y),
    ensures
        sim_res(into_dice(a, x), into_dice(b, y)),
{
}

/// Applying a set operator agrees up to annotations.
pub proof fn lemma_sim_operate(a: NumV, b: NumV, op: OpView, c: nat, max: nat, draws: Seq<u32>)
    requires
        sim(a, b),
    ensures
        sim_res(operate(a, op, c, max, draws), operate(b, op, c, max, draws)),
{
    lemma_sim_keep_drop(a, b, op.sels, true);
    lemma_sim_keep_drop(a, b, op.sels, false);
    match (a.kind, b.kind) {
        (KindV::Dice { values: x, sides, .. }, KindV::Dice { values: y, .. }) => {
            lemma_sims_keys(x, y);
            let marks = hits(op.sels, keys_of(x));
            let first = first_mark(marks);
            lemma_sims_reroll_loop(x, y, op.sels, c, max, draws);
            lemma_sims_reroll_pass(x, y, marks, 0, c, max, draws);
            lemma_sims_explode_marked(x, y, first);
            lemma_sims_roll_more(explode_marked(x, first), explode_marked(y, first), sides, count_marks(first), c, max, draws);
            lemma_sims_explode_loop(x, y, sides, op.sels, Set::empty(), c, max, draws);
            lemma_sims_clamp(x, y, int_dec(op.sels.last().num as int), true);
            lemma_sims_clamp(x, y, int_dec(op.sels.last().num as int), false);
            lemma_sim_into_dice(a, b, reroll_loop(x, op.sels, c, max, draws), reroll_loop(y, op.sels, c, max, draws));
            lemma_sim_into_dice(a, b, reroll_pass(x, marks, 0, c, max, draws), reroll_pass(y, marks, 0, c, max, draws));
            lemma_sim_into_dice(
                a,
                b,
                roll_more(explode_marked(x, first), sides, count_marks(first), c, max, draws),
                roll_more(explode_marked(y, first), sides, count_marks(first), c, max, draws),
            );
            lemma_sim_into_dice(
                a,
                b,
                explode_loop(x, sides, op.sels, Set::empty(), c, max, draws),
                explode_loop(y, sides, op.sels, Set::empty(), c, max, draws),
            );
        },
        _ => {},
    }
}

/// Applying operators one after the other agrees up to annotations.
pub proof fn lemma_sim_apply_ops(
    a: NumV,
    b: NumV,
    ops: Seq<OpView>,
    k: int,
    dice: bool,
    c: nat,
    max: nat,
    draws: Seq<u32>,
)
    requires
        sim(a, b),
    ensures
        sim_res(apply_ops(a, ops, k, dice, c, max, draws), apply_ops(b, ops, k, dice, c, max, draws)),
    decreases ops.len() - k,
{
    if 0 <= k < ops.len() {
        lemma_sim_operate(a, b, ops[k], c, max, draws);
        match (operate(a, ops[k], c, max, draws), operate(b, ops[k], c, max, draws)) {
            ((Ok(x), c1), (Ok(y), _)) => {
                assert(sim(record(x, ops[k], dice), record(y, ops[k], dice)));
                lemma_sim_apply_ops(record(x, ops[k], dice), record(y, ops[k], dice), ops, k + 1, dice, c1, max, draws);
            },
            _ => {},
        }
    }
}

/// A tree with every annotation left out.
pub open spec fn strip(t: Tree) -> Tree
    decreases t, 1int,
{
    match t {
        Tree::Expression { roll, comment } => Tree::Expression { roll: Box::new(strip(*roll)), comment },
        Tree::Parenthetical(v) => Tree::Parenthetical(Box::new(strip(*v))),
        Tree::Annotated { value, .. } => strip(*value),
        Tree::UnOp { op, value } => Tree::UnOp { op, value: Box::new(strip(*value)) },
        Tree::BinOp { op, left, right } => Tree::BinOp { op, left: Box::new(strip(*left)), right: Box::new(strip(*right)) },
        Tree::SetExpr(values) => Tree::SetExpr(strip_all(values)),
        Tree::SetWithOps { value, ops } => Tree::SetWithOps { value: Box::new(strip(*value)), ops },
        Tree::Dice { value, ops } => Tree::Dice { value: Box::new(strip(*value)), ops },
        _ => t,
    }
}

/// Trees with every annotation left out.
pub open spec fn strip_all(s: Seq<Tree>) -> Seq<Tree>
    decreases s, 0int,
{
    if s.len() == 0 {
        Seq::empty()
    } else {
        strip_all(s.drop_last()).push(strip(s.last()))
    }
}

/// Leaving out annotations works tree by tree.
pub proof fn lemma_strip_all(s: Seq<Tree>)
    ensures
        strip_all(s).len() == s.len(),
        forall|i: int| 0 <= i < s.len() ==> #[trigger] strip_all(s)[i] == strip(s[i]),
    decreases s.len(),
{
    if s.len() > 0 {
        lemma_strip_all(s.drop_last());
    }
}

/// Annotations are purely visual: evaluating a tree and the same tree with
/// every annotation left out count the same rolls and give the same error,
/// or numbers that are the same once annotations are left out, and so the
/// same total.
pub proof fn law_annotations_anywhere(t: Tree, c: nat, max: nat, draws: Seq<u32>)
    ensures
        sim_res(eval_spec(t, c, max, draws), eval_spec(strip(t), c, max, draws)),
        eval_spec(t, c, max, draws).0 matches Ok(a) ==> eval_spec(strip(t), c, max, draws).0 matches Ok(b)
            && total_of(a) == total_of(b),
    decreases t, 0int,
{
    match t {
        Tree::Expression { roll, .. } => law_annotations_anywhere(*roll, c, max, draws),
        Tree::Parenthetical(v) => law_annotations_anywhere(*v, c, max, draws),
        Tree::Annotated { value, .. } => law_annotations_anywhere(*value, c, max, draws),
        Tree::UnOp { value, .. } => law_annotations_anywhere(*value, c, max, draws),
        Tree::BinOp { left, right, .. } => {
            law_annotations_anywhere(*left, c, max, draws);
            match eval_spec(*left, c, max, draws) {
                (Ok(_), c1) => {
                    law_annotations_anywhere(*right, c1, max, draws);
                    match (eval_spec(*right, c1, max, draws).0, eval_spec(strip(*right), c1, max, draws).0) {
                        (Ok(x), Ok(y)) => lemma_sim_total(x, y),
                        _ => {},
                    }
                },
                _ => {},
            }
        },
        Tree::SetExpr(values) => {
            lemma_strip_all(values);
            lemma_sims_eval_all(values, 0, Seq::empty(), Seq::empty(), c, max, draws);
        },
        Tree::SetWithOps { value, ops } => {
            law_annotations_anywhere(*value, c, max, draws);
            match (eval_spec(*value, c, max, draws), eval_spec(strip(*value), c, max, draws)) {
                ((Ok(x), c1), (Ok(y), _)) => lemma_sim_apply_ops(x, y, ops, 0, false, c1, max, draws),
                _ => {},
            }
        },
        Tree::Dice { value, ops } => {
            law_annotations_anywhere(*value, c, max, draws);
            match (eval_spec(*value, c, max, draws), eval_spec(strip(*value), c, max, draws)) {
                ((Ok(x), c1), (Ok(y), _)) => lemma_sim_apply_ops(x, y, ops, 0, true, c1, max, draws),
                _ => {},
            }
        },
        _ => {},
    }
    match (eval_spec(t, c, max, draws).0, eval_spec(strip(t), c, max, draws).0) {
        (Ok(a), Ok(b)) => lemma_sim_total(a, b),
        _ => {},
    }
}

/// Evaluating trees in order, and the same trees with every annotation left
/// out, agrees up to annotations.
pub proof fn lemma_sims_eval_all(
    values: Seq<Tree>,
    k: int,
    acc1: Seq<NumV>,
    acc2: Seq<NumV>,
    c: nat,
    max: nat,
    draws: Seq<u32>,
)
    requires
        sims(acc1, acc2),
    ensures
        sims_res(eval_all(values, k, acc1, c, max, draws), eval_all(strip_all(values), k, acc2, c, max, draws)),
    decreases values, values.len() - k,
{
    lemma_strip_all(values);
    if 0 <= k < values.len() {
        law_annotations_anywhere(values[k], c, max, draws);
        match (eval_spec(values[k], c, max, draws), eval_spec(strip(values[k]), c, max, draws)) {
            ((Ok(x), c1), (Ok(y), _)) => {
                lemma_sims_push(acc1, acc2, x, y);
                lemma_sims_eval_all(values, k + 1, acc1.push(x), acc2.push(y), c1, max, draws);
            },
            _ => {},
        }
    }
}

} // verus!
