//! Set operators on evaluated numbers: selection, keeping and dropping,
//! re-rolling, exploding and clamping dice.
//!
//! A roll is counted before each die is rolled; the `c`-th roll of an
//! evaluation (counting from 0) shows face `1 + F[c] % sides` of the die, for
//! a sequence `F` of random draws.
use vstd::prelude::*;
use crate::ast::{OpView, SetSel};
use crate::context::ExpressionContext;
use crate::errors::Error;
use crate::expr::{
    decs_wf, int_dec, lemma_nums_view, lemma_value_wf, lit_num, mk_num, num_view, num_wf, nums_view,
    total_of, Die, KindV, Literal, Number, NumberKind, NumV,
};
use crate::random::random_in;
use rand::rngs::StdRng;
use crate::kinds::{DieSides, SelCat, SetOpKind};
use crate::num::Decimal;

verus! {

/// The message of the error for rolling a die without sides.
pub const ZERO_SIDED: &'static str = "can't roll a 0 sided die.";

/// The key a number is selected by: its total (0 if it has none).
pub open spec fn key_of(n: NumV) -> Decimal {
    match total_of(n) {
        Some(d) => d,
        None => int_dec(0),
    }
}

/// The numbers a set operator applies to.
pub open spec fn set_of(n: NumV) -> Seq<NumV>
    decreases n,
{
    match n.kind {
        KindV::Expression { roll, .. } => set_of(*roll),
        KindV::Parenthetical { value, .. } => set_of(*value),
        KindV::NumSet { values, .. } => values,
        KindV::Dice { values, .. } => values,
        KindV::Die { values, .. } => seq![values.last()],
        _ => seq![n],
    }
}

/// The number with the numbers a set operator applies to replaced.
pub open spec fn with_set(n: NumV, s: Seq<NumV>) -> NumV
    decreases n,
{
    match n.kind {
        KindV::Expression { roll, comment } => NumV {
            kind: KindV::Expression { roll: Box::new(with_set(*roll, s)), comment },
            ..n
        },
        KindV::Parenthetical { value, ops } => NumV {
            kind: KindV::Parenthetical { value: Box::new(with_set(*value, s)), ops },
            ..n
        },
        KindV::NumSet { ops, .. } => NumV { kind: KindV::NumSet { values: s, ops }, ..n },
        KindV::Dice { ops, num, sides, .. } => NumV {
            kind: KindV::Dice { values: s, ops, num, sides },
            ..n
        },
        KindV::Die { sides, values } => if values.len() == 0 {
            n
        } else {
            NumV { kind: KindV::Die { sides, values: values.update(values.len() - 1, s[0]) }, ..n }
        },
        _ => s[0],
    }
}

/// Whether each number is kept, and its key.
pub open spec fn keys_of(set: Seq<NumV>) -> Seq<(bool, Decimal)> {
    set.map_values(|x: NumV| (x.kept, key_of(x)))
}

/// Whether the kept number `j` comes before number `i` when ordering from
/// the lowest key (or from the highest, if `high`), the earlier first among
/// equal keys.
pub open spec fn precedes(keys: Seq<(bool, Decimal)>, j: int, i: int, high: bool) -> bool {
    keys[j].0 && ((if high {
        keys[i].1.spec_lt(keys[j].1)
    } else {
        keys[j].1.spec_lt(keys[i].1)
    }) || (keys[j].1.spec_eq_value(keys[i].1) && j < i))
}

/// The number of `j < k` that come before `i`.
pub open spec fn count_preceding(keys: Seq<(bool, Decimal)>, i: int, k: int, high: bool) -> nat
    decreases k,
{
    if k <= 0 {
        0
    } else {
        count_preceding(keys, i, k - 1, high) + if precedes(keys, k - 1, i, high) {
            1nat
        } else {
            0nat
        }
    }
}

/// The position of number `i` among the kept numbers ordered from the lowest
/// (or the highest) key.
pub open spec fn rank(keys: Seq<(bool, Decimal)>, i: int, high: bool) -> nat {
    count_preceding(keys, i, keys.len() as int, high)
}

/// Whether the selector matches the kept number `i`.
pub open spec fn sel_hits(sel: SetSel, keys: Seq<(bool, Decimal)>, i: int) -> bool {
    keys[i].0 && match sel.cat {
        SelCat::Lo => rank(keys, i, false) < sel.num,
        SelCat::Hi => rank(keys, i, true) < sel.num,
        SelCat::Lit => keys[i].1.spec_eq_value(int_dec(sel.num as int)),
        SelCat::Lt => keys[i].1.spec_lt(int_dec(sel.num as int)),
        SelCat::Gt => int_dec(sel.num as int).spec_lt(keys[i].1),
    }
}

/// Whether any of the selectors matches number `i`.
pub open spec fn any_hit(sels: Seq<SetSel>, keys: Seq<(bool, Decimal)>, i: int) -> bool {
    exists|k: int| 0 <= k < sels.len() && sel_hits(#[trigger] sels[k], keys, i)
}

/// For each number, whether any of the selectors matches it.
pub open spec fn hits(sels: Seq<SetSel>, keys: Seq<(bool, Decimal)>) -> Seq<bool> {
    Seq::new(keys.len(), |i: int| any_hit(sels, keys, i))
}

/// The number, dropped.
pub open spec fn dropped(n: NumV) -> NumV {
    NumV { kept: false, ..n }
}

/// Keeping only the marked numbers (`keep`), or dropping the marked ones.
pub open spec fn mark_set(set: Seq<NumV>, marks: Seq<bool>, keep: bool) -> Seq<NumV> {
    Seq::new(
        set.len(),
        |i: int|
            if (keep && set[i].kept && !marks[i]) || (!keep && marks[i]) {
                dropped(set[i])
            } else {
                set[i]
            },
    )
}

/// Keeps (`keep`) or drops the numbers the selectors match.
pub open spec fn keep_drop(n: NumV, sels: Seq<SetSel>, keep: bool) -> NumV {
    let set = set_of(n);
    with_set(n, mark_set(set, hits(sels, keys_of(set)), keep))
}

/// The number of marks that are set.
pub open spec fn count_marks(marks: Seq<bool>) -> nat
    decreases marks.len(),
{
    if marks.len() == 0 {
        0
    } else {
        count_marks(marks.drop_last()) + if marks.last() {
            1nat
        } else {
            0nat
        }
    }
}

/// The largest face of a die.
pub open spec fn top_face(sides: DieSides) -> nat {
    match sides {
        DieSides::Percentile => 100,
        DieSides::Literal(n) => n as nat,
    }
}

/// The face a die shows for the random draw `f`.
pub open spec fn face(sides: DieSides, f: u32) -> nat {
    1 + (f as nat) % top_face(sides)
}

/// Counting and rolling one die with `c` rolls counted before: the literal
/// it shows, and the count after.
pub open spec fn roll_spec(sides: DieSides, c: nat, max: nat, draws: Seq<u32>) -> (Result<NumV, Error>, nat) {
    if sides == DieSides::Literal(0) {
        (Err(Error::Value(ZERO_SIDED)), c)
    } else if c + 1 > max {
        (Err(Error::RollLimitExceeded), c + 1)
    } else {
        (Ok(lit_num(int_dec(face(sides, draws[c as int]) as int))), c + 1)
    }
}

/// A new die, rolled once.
pub open spec fn new_die(sides: DieSides, c: nat, max: nat, draws: Seq<u32>) -> (Result<NumV, Error>, nat) {
    match roll_spec(sides, c, max, draws) {
        (Ok(l), c1) => (Ok(mk_num(KindV::Die { sides, values: seq![l] })), c1),
        (Err(e), c1) => (Err(e), c1),
    }
}

/// The die rolled again: its current roll dropped and a new one added.
pub open spec fn reroll_die(d: NumV, c: nat, max: nat, draws: Seq<u32>) -> (Result<NumV, Error>, nat) {
    match d.kind {
        KindV::Die { sides, values } => {
            let kept_before = values.update(values.len() - 1, dropped(values.last()));
            match roll_spec(sides, c, max, draws) {
                (Ok(l), c1) => (Ok(NumV { kind: KindV::Die { sides, values: kept_before.push(l) }, ..d }), c1),
                (Err(e), c1) => (Err(e), c1),
            }
        },
        _ => (Ok(d), c),
    }
}

/// The literal, marked as exploded.
pub open spec fn explode_literal(l: NumV) -> NumV {
    match l.kind {
        KindV::Literal { history, .. } => NumV { kind: KindV::Literal { history, exploded: true }, ..l },
        _ => l,
    }
}

/// The die with its current roll marked as exploded.
pub open spec fn explode_die(d: NumV) -> NumV {
    match d.kind {
        KindV::Die { sides, values } => NumV {
            kind: KindV::Die {
                sides,
                values: values.update(values.len() - 1, explode_literal(values.last())),
            },
            ..d
        },
        _ => d,
    }
}

/// The literal with `v` as its new value.
pub open spec fn force_literal(l: NumV, v: Decimal) -> NumV {
    match l.kind {
        KindV::Literal { history, exploded } => NumV {
            kind: KindV::Literal { history: history.push(v), exploded },
            ..l
        },
        _ => l,
    }
}

/// The die with `v` as the new value of its current roll.
pub open spec fn force_die(d: NumV, v: Decimal) -> NumV {
    match d.kind {
        KindV::Die { sides, values } => NumV {
            kind: KindV::Die { sides, values: values.update(values.len() - 1, force_literal(values.last(), v)) },
            ..d
        },
        _ => d,
    }
}

/// Re-rolling the marked dice from index `k` on, in order.
pub open spec fn reroll_pass(
    vals: Seq<NumV>,
    marks: Seq<bool>,
    k: int,
    c: nat,
    max: nat,
    draws: Seq<u32>,
) -> (Result<Seq<NumV>, Error>, nat)
    decreases vals.len() - k,
{
    if k < 0 || k >= vals.len() {
        (Ok(vals), c)
    } else if marks[k] {
        match reroll_die(vals[k], c, max, draws) {
            (Ok(d), c1) => reroll_pass(vals.update(k, d), marks, k + 1, c1, max, draws),
            (Err(e), c1) => (Err(e), c1),
        }
    } else {
        reroll_pass(vals, marks, k + 1, c, max, draws)
    }
}

/// Re-rolling the dice the selectors match until none matches.
pub open spec fn reroll_loop(
    vals: Seq<NumV>,
    sels: Seq<SetSel>,
    c: nat,
    max: nat,
    draws: Seq<u32>,
) -> (Result<Seq<NumV>, Error>, nat)
    decreases max + 1 - c,
{
    let marks = hits(sels, keys_of(vals));
    if count_marks(marks) == 0 {
        (Ok(vals), c)
    } else {
        match reroll_pass(vals, marks, 0, c, max, draws) {
            (Ok(v2), c1) => if c < c1 <= max {
                reroll_loop(v2, sels, c1, max, draws)
            } else {
                (Ok(v2), c1)
            },
            (Err(e), c1) => (Err(e), c1),
        }
    }
}

/// The dice with the marked ones exploded.
pub open spec fn explode_marked(vals: Seq<NumV>, marks: Seq<bool>) -> Seq<NumV> {
    Seq::new(vals.len(), |i: int| if marks[i] { explode_die(vals[i]) } else { vals[i] })
}

/// Rolling `n` more dice, one after the other.
pub open spec fn roll_more(
    vals: Seq<NumV>,
    sides: DieSides,
    n: nat,
    c: nat,
    max: nat,
    draws: Seq<u32>,
) -> (Result<Seq<NumV>, Error>, nat)
    decreases n,
{
    if n == 0 {
        (Ok(vals), c)
    } else {
        match new_die(sides, c, max, draws) {
            (Ok(d), c1) => roll_more(vals.push(d), sides, (n - 1) as nat, c1, max, draws),
            (Err(e), c1) => (Err(e), c1),
        }
    }
}

/// Rolling `num` new dice: a die without sides cannot be rolled, even
/// none of them.
pub open spec fn roll_dice(num: nat, sides: DieSides, c: nat, max: nat, draws: Seq<u32>) -> (
    Result<Seq<NumV>, Error>,
    nat,
) {
    if sides == DieSides::Literal(0) {
        (Err(Error::Value(ZERO_SIDED)), c)
    } else {
        roll_more(Seq::empty(), sides, num, c, max, draws)
    }
}

/// Only the first of the set marks.
pub open spec fn first_mark(marks: Seq<bool>) -> Seq<bool> {
    Seq::new(marks.len(), |i: int| marks[i] && forall|j: int| 0 <= j < i ==> !marks[j])
}

/// The dice the selectors match that have not exploded yet.
pub open spec fn fresh_hits(vals: Seq<NumV>, sels: Seq<SetSel>, done: Set<int>) -> Seq<bool> {
    let h = hits(sels, keys_of(vals));
    Seq::new(vals.len(), |i: int| h[i] && !done.contains(i))
}

/// Exploding the dice the selectors match, and the dice rolled for them,
/// until no die that has not exploded yet matches.
pub open spec fn explode_loop(
    vals: Seq<NumV>,
    sides: DieSides,
    sels: Seq<SetSel>,
    done: Set<int>,
    c: nat,
    max: nat,
    draws: Seq<u32>,
) -> (Result<Seq<NumV>, Error>, nat)
    decreases max + 1 - c,
{
    let marks = fresh_hits(vals, sels, done);
    let n = count_marks(marks);
    if n == 0 {
        (Ok(vals), c)
    } else {
        match roll_more(explode_marked(vals, marks), sides, n, c, max, draws) {
            (Ok(v2), c1) => if c < c1 <= max {
                explode_loop(
                    v2,
                    sides,
                    sels,
                    done.union(Set::new(|i: int| 0 <= i < marks.len() && marks[i])),
                    c1,
                    max,
                    draws,
                )
            } else {
                (Ok(v2), c1)
            },
            (Err(e), c1) => (Err(e), c1),
        }
    }
}

/// The dice, each kept one below `m` (`at_least`) or above it raised or
/// lowered to `m`.
pub open spec fn clamp_set(vals: Seq<NumV>, m: Decimal, at_least: bool) -> Seq<NumV> {
    Seq::new(
        vals.len(),
        |i: int|
            if vals[i].kept && (if at_least {
                key_of(vals[i]).spec_lt(m)
            } else {
                m.spec_lt(key_of(vals[i]))
            }) {
                force_die(vals[i], m)
            } else {
                vals[i]
            },
    )
}

/// The dice with new values.
pub open spec fn with_dice(n: NumV, vals: Seq<NumV>) -> NumV {
    match n.kind {
        KindV::Dice { ops, num, sides, .. } => NumV { kind: KindV::Dice { values: vals, ops, num, sides }, ..n },
        _ => n,
    }
}

/// The result of an operation on dice values, put back into the dice.
pub open spec fn into_dice(n: NumV, r: (Result<Seq<NumV>, Error>, nat)) -> (Result<NumV, Error>, nat) {
    match r {
        (Ok(vals), c) => (Ok(with_dice(n, vals)), c),
        (Err(e), c) => (Err(e), c),
    }
}

/// Applying a set operator to a number with `c` rolls counted before.
///
/// Only keeping and dropping apply to numbers other than dice; other
/// operators leave those unchanged.
pub open spec fn operate(n: NumV, op: OpView, c: nat, max: nat, draws: Seq<u32>) -> (Result<NumV, Error>, nat) {
    match n.kind {
        KindV::Dice { values, sides, .. } => match op.op {
            SetOpKind::Keep => (Ok(keep_drop(n, op.sels, true)), c),
            SetOpKind::Drop => (Ok(keep_drop(n, op.sels, false)), c),
            SetOpKind::Reroll => into_dice(n, reroll_loop(values, op.sels, c, max, draws)),
            SetOpKind::RerollOnce => into_dice(
                n,
                reroll_pass(values, hits(op.sels, keys_of(values)), 0, c, max, draws),
            ),
            SetOpKind::ExplodeOnce => {
                let marks = first_mark(hits(op.sels, keys_of(values)));
                into_dice(n, roll_more(explode_marked(values, marks), sides, count_marks(marks), c, max, draws))
            },
            SetOpKind::Explode => into_dice(n, explode_loop(values, sides, op.sels, Set::empty(), c, max, draws)),
            SetOpKind::Min => (Ok(with_dice(n, clamp_set(values, int_dec(op.sels.last().num as int), true))), c),
            SetOpKind::Max => (Ok(with_dice(n, clamp_set(values, int_dec(op.sels.last().num as int), false))), c),
        },
        _ => match op.op {
            SetOpKind::Keep => (Ok(keep_drop(n, op.sels, true)), c),
            SetOpKind::Drop => (Ok(keep_drop(n, op.sels, false)), c),
            _ => (Ok(n), c),
        },
    }
}

/// Whether the draws `log` come first in `f`.
pub open spec fn extends(log: Seq<u32>, f: Seq<u32>) -> bool {
    log.len() <= f.len() && forall|i: int| 0 <= i < log.len() ==> f[i] == log[i]
}

/// The rolls counted so far in an evaluation and the draws they were made
/// with.
pub struct Tally {
    /// The roll counter.
    pub ctx: ExpressionContext,
    /// The draw of each roll counted so far.
    pub draws: Ghost<Seq<u32>>,
    /// The ranges asked of the random source so far, in order.
    pub asked: Ghost<Seq<(u32, u32)>>,
}

impl Tally {
    /// The number of rolls counted so far.
    pub open spec fn count(&self) -> nat {
        self.ctx.rolls_spec()
    }

    /// The greatest number of rolls allowed.
    pub open spec fn max(&self) -> nat {
        self.ctx.max_spec()
    }

    /// Every counted roll has its draw.
    pub open spec fn wf(&self) -> bool {
        self.draws@.len() == self.count()
    }
}

/// Whether `final` continues `old`: same limit, and the draws of `old` first.
pub open spec fn continues(old: Tally, new: Tally) -> bool {
    new.max() == old.max() && extends(old.draws@, new.draws@)
}

/// The plain value of the result of an evaluation.
pub open spec fn num_result(r: Result<Number, Error>) -> Result<NumV, Error> {
    match r {
        Ok(n) => Ok(num_view(n)),
        Err(e) => Err(e),
    }
}

/// A result with the given values in place of success.
pub open spec fn with_ok<T>(r: Result<(), Error>, v: T) -> Result<T, Error> {
    match r {
        Ok(()) => Ok(v),
        Err(e) => Err(e),
    }
}

/// Whether a number is a well formed die.
pub open spec fn die_wf(n: NumV) -> bool {
    n.kind is Die && num_wf(n)
}

/// Whether every number is a well formed die.
pub open spec fn dice_wf(vals: Seq<NumV>) -> bool {
    forall|i: int| 0 <= i < vals.len() ==> die_wf(#[trigger] vals[i])
}

/// A literal number with one value.
pub fn new_literal(d: Decimal) -> (r: Number)
    requires
        d.wf(),
    ensures
        r@ == lit_num(d),
        num_wf(r@),
{
    let mut values: Vec<Decimal> = Vec::new();
    values.push(d);
    let r = Number::new(NumberKind::Literal(Literal { values, exploded: false }));
    assert(r@.kind == (KindV::Literal { history: seq![d], exploded: false }));
    r
}

/// The ranges asked of the random source to roll a die once: `1..=n` for a
/// die of `n` sides, and `0..=9` twice (tens, then units) for a percentile
/// die.
pub open spec fn asks_for(sides: DieSides) -> Seq<(u32, u32)> {
    match sides {
        DieSides::Percentile => seq![(0u32, 9u32), (0u32, 9u32)],
        DieSides::Literal(n) => seq![(1u32, n)],
    }
}

/// Counts and rolls one die: the literal it shows.
pub fn roll_face(sides: DieSides, t: &mut Tally, rng: &mut StdRng) -> (r: Result<Number, Error>)
    requires
        old(t).wf(),
    ensures
        continues(*old(t), *final(t)),
        r is Ok ==> final(t).wf() && num_wf(r->Ok_0@) && r->Ok_0@.kind is Literal,
        forall|f: Seq<u32>|
            extends(final(t).draws@, f) ==> (#[trigger] roll_spec(sides, old(t).count(), old(t).max(), f)).0
                == num_result(r),
        r is Ok ==> forall|f: Seq<u32>|
            extends(final(t).draws@, f) ==> (#[trigger] roll_spec(sides, old(t).count(), old(t).max(), f)).1
                == final(t).count(),
        r is Ok ==> final(t).asked@ == old(t).asked@ + asks_for(sides),
        r is Err ==> final(t).asked@ == old(t).asked@,
{
    if let DieSides::Literal(n) = sides {
        if n < 1 {
            return Err(Error::Value(ZERO_SIDED));
        }
    }
    if t.ctx.rolls() == usize::MAX {
        let m = t.ctx.max_rolls();
        assert(old(t).count() + 1 > m);
        return Err(Error::RollLimitExceeded);
    }
    let counted = t.ctx.count_rolls(1);
    if counted.is_err() {
        return Err(Error::RollLimitExceeded);
    }
    let value: u32 = match sides {
        DieSides::Percentile => {
            let (a, ask_a) = random_in(rng, 0, 9);
            let (b, ask_b) = random_in(rng, 0, 9);
            t.asked = Ghost(t.asked@.push(ask_a@).push(ask_b@));
            let n = a * 10 + b;
            if n == 0 {
                100
            } else {
                n
            }
        },
        DieSides::Literal(n) => {
            let (v, ask) = random_in(rng, 1, n);
            t.asked = Ghost(t.asked@.push(ask@));
            v
        },
    };
    assert(t.asked@ =~= old(t).asked@ + asks_for(sides));
    let ghost draw = (value - 1) as u32;
    proof {
        vstd::arithmetic::div_mod::lemma_small_mod(draw as nat, top_face(sides));
        assert(face(sides, draw) == value);
    }
    t.draws = Ghost(t.draws@.push(draw));
    let lit = new_literal(crate::num::Decimal::from_u32(value));
    proof {
        assert forall|f: Seq<u32>| extends(t.draws@, f) implies #[trigger] roll_spec(
            sides,
            old(t).count(),
            old(t).max(),
            f,
        ) == (num_result(Ok::<Number, Error>(lit)), t.count()) by {
            assert(f[old(t).count() as int] == t.draws@[old(t).count() as int]);
        }
    }
    Ok(lit)
}

/// `nums_view` of a vector with one number replaced.
pub proof fn lemma_nums_view_update(v: Seq<Number>, k: int, x: Number)
    requires
        0 <= k < v.len(),
    ensures
        nums_view(v.update(k, x)) == nums_view(v).update(k, num_view(x)),
{
    lemma_nums_view(v);
    lemma_nums_view(v.update(k, x));
    assert(nums_view(v.update(k, x)) =~= nums_view(v).update(k, num_view(x)));
}

/// `nums_view` of a vector with one more number.
pub proof fn lemma_nums_view_push(v: Seq<Number>, x: Number)
    ensures
        nums_view(v.push(x)) == nums_view(v).push(num_view(x)),
{
    assert(v.push(x).drop_last() == v);
}

/// A new die, rolled once.
pub fn new_die_exec(sides: DieSides, t: &mut Tally, rng: &mut StdRng) -> (r: Result<Number, Error>)
    requires
        old(t).wf(),
    ensures
        continues(*old(t), *final(t)),
        forall|f: Seq<u32>|
            extends(final(t).draws@, f) ==> (#[trigger] new_die(sides, old(t).count(), old(t).max(), f)).0
                == num_result(r),
        r is Ok ==> final(t).wf() && die_wf(r->Ok_0@) && forall|f: Seq<u32>|
            extends(final(t).draws@, f) ==> (#[trigger] new_die(sides, old(t).count(), old(t).max(), f)).1
                == final(t).count(),
{
    let lit = roll_face(sides, t, rng)?;
    let mut values: Vec<Number> = Vec::new();
    values.push(lit);
    let d = Number::new(NumberKind::Die(Die { sides, values }));
    proof {
        lemma_nums_view_push(Seq::empty(), lit);
        assert(Seq::<Number>::empty().push(lit) == values@);
        assert(nums_view(values@) == seq![lit@]);
        assert(d@ == mk_num(KindV::Die { sides, values: seq![lit@] }));
        lemma_nums_view(values@);
        assert(die_wf(d@));
        assert forall|f: Seq<u32>| extends(t.draws@, f) implies (#[trigger] new_die(
            sides,
            old(t).count(),
            old(t).max(),
            f,
        )).0 == num_result(Ok::<Number, Error>(d)) && new_die(sides, old(t).count(), old(t).max(), f).1
            == t.count() by {
            assert(roll_spec(sides, old(t).count(), old(t).max(), f).0 == num_result(
                Ok::<Number, Error>(lit),
            ));
        }
    }
    Ok(d)
}

/// Rolls the die again: its current roll is dropped and a new one added.
pub fn reroll_die_exec(d: &mut Number, t: &mut Tally, rng: &mut StdRng) -> (r: Result<(), Error>)
    requires
        die_wf(old(d)@),
        old(t).wf(),
    ensures
        continues(*old(t), *final(t)),
        forall|f: Seq<u32>|
            extends(final(t).draws@, f) ==> (#[trigger] reroll_die(old(d)@, old(t).count(), old(t).max(), f)).0
                == with_ok(r, final(d)@),
        r is Ok ==> final(t).wf() && die_wf(final(d)@) && forall|f: Seq<u32>|
            extends(final(t).draws@, f) ==> (#[trigger] reroll_die(old(d)@, old(t).count(), old(t).max(), f)).1
                == final(t).count(),
{
    let ghost d0 = d@;
    match &mut d.kind {
        NumberKind::Die(die) => {
            let ghost v0 = die.values@;
            proof {
                lemma_nums_view(v0);
            }
            let k = die.values.len() - 1;
            let ghost lastv = v0[k as int];
            die.values[k].kept = false;
            let ghost v1 = die.values@;
            proof {
                assert(v1 == v0.update(k as int, Number { kept: false, ..lastv }));
                lemma_nums_view_update(v0, k as int, Number { kept: false, ..lastv });
                assert(num_view(Number { kept: false, ..lastv }) == crate::ops::dropped(num_view(lastv)));
            }
            let lit = roll_face(die.sides, t, rng)?;
            die.values.push(lit);
            proof {
                lemma_nums_view_push(v1, lit);
                lemma_nums_view(die.values@);
                lemma_nums_view(v1);
                let nv = nums_view(die.values@);
                let w0 = nums_view(v0);
                assert(d0.kind == (KindV::Die { sides: die.sides, values: w0 }));
                assert(forall|i: int| 0 <= i < w0.len() ==> (#[trigger] w0[i]).kind is Literal && num_wf(w0[i]));
                assert forall|i: int| 0 <= i < nv.len() implies (#[trigger] nv[i]).kind is Literal
                    && num_wf(nv[i]) by {
                    if i < k {
                        assert(nv[i] == nums_view(v1)[i]);
                        assert(nv[i] == w0[i]);
                    } else if i == k {
                        assert(nv[i] == nums_view(v1)[i]);
                        assert(nv[i] == crate::ops::dropped(w0[i]));
                    }
                }
            }
            Ok(())
        },
        _ => Ok(()),
    }
}

/// Marks the current roll of the die as exploded.
pub fn explode_die_exec(d: &mut Number)
    requires
        die_wf(old(d)@),
    ensures
        final(d)@ == explode_die(old(d)@),
        die_wf(final(d)@),
{
    let ghost d0 = d@;
    match &mut d.kind {
        NumberKind::Die(die) => {
            let ghost v0 = die.values@;
            proof {
                lemma_nums_view(v0);
            }
            let k = die.values.len() - 1;
            let ghost lastv = v0[k as int];
            assert(nums_view(v0)[k as int].kind is Literal);
            match &mut die.values[k].kind {
                NumberKind::Literal(l) => {
                    l.exploded = true;
                },
                _ => {},
            }
            proof {
                let x = die.values@[k as int];
                assert(die.values@ == v0.update(k as int, x));
                lemma_nums_view_update(v0, k as int, x);
                assert(num_view(x) == explode_literal(num_view(lastv)));
                let w0 = nums_view(v0);
                let nv = nums_view(die.values@);
                assert(d0.kind == (KindV::Die { sides: die.sides, values: w0 }));
                assert(forall|i: int| 0 <= i < w0.len() ==> (#[trigger] w0[i]).kind is Literal && num_wf(w0[i]));
                assert forall|i: int| 0 <= i < nv.len() implies (#[trigger] nv[i]).kind is Literal
                    && num_wf(nv[i]) by {
                    if i != k {
                        assert(nv[i] == w0[i]);
                    }
                }
            }
        },
        _ => {},
    }
}

/// Gives the current roll of the die the new value `v`.
pub fn force_die_exec(d: &mut Number, v: Decimal)
    requires
        die_wf(old(d)@),
        v.wf(),
    ensures
        final(d)@ == force_die(old(d)@, v),
        die_wf(final(d)@),
{
    let ghost d0 = d@;
    match &mut d.kind {
        NumberKind::Die(die) => {
            let ghost v0 = die.values@;
            proof {
                lemma_nums_view(v0);
            }
            let k = die.values.len() - 1;
            let ghost lastv = v0[k as int];
            assert(nums_view(v0)[k as int].kind is Literal);
            match &mut die.values[k].kind {
                NumberKind::Literal(l) => {
                    l.values.push(v);
                },
                _ => {},
            }
            proof {
                let x = die.values@[k as int];
                assert(die.values@ == v0.update(k as int, x));
                lemma_nums_view_update(v0, k as int, x);
                assert(num_view(x) == force_literal(num_view(lastv), v));
                let w0 = nums_view(v0);
                let nv = nums_view(die.values@);
                assert(d0.kind == (KindV::Die { sides: die.sides, values: w0 }));
                assert(forall|i: int| 0 <= i < w0.len() ==> (#[trigger] w0[i]).kind is Literal && num_wf(w0[i]));
                assert forall|i: int| 0 <= i < nv.len() implies (#[trigger] nv[i]).kind is Literal
                    && num_wf(nv[i]) by {
                    if i != k {
                        assert(nv[i] == w0[i]);
                    } else {
                        let h = w0[i].kind->Literal_history;
                        assert(decs_wf(h));
                        assert(nv[i].kind->Literal_history == h.push(v));
                        assert(decs_wf(h.push(v))) by {
                            assert forall|j: int| 0 <= j < h.push(v).len() implies (#[trigger] h.push(v)[j]).wf() by {
                                if j < h.len() {
                                    assert(h.push(v)[j] == h[j]);
                                }
                            }
                        }
                    }
                }
            }
        },
        _ => {},
    }
}

/// Whether every key is within the scale limit.
pub open spec fn keys_wf(keys: Seq<(bool, Decimal)>) -> bool {
    forall|i: int| 0 <= i < keys.len() ==> (#[trigger] keys[i]).1.wf()
}

/// The key a number is selected by.
pub fn key_exec(n: &Number) -> (d: Decimal)
    requires
        num_wf(n@),
    ensures
        d == key_of(n@),
        d.wf(),
{
    proof {
        lemma_value_wf(n@);
    }
    match n.total() {
        Some(d) => d,
        None => Decimal::zero(),
    }
}

/// Whether each number is kept, and its key.
pub fn keys_exec(vals: &Vec<Number>) -> (r: Vec<(bool, Decimal)>)
    requires
        forall|i: int| 0 <= i < vals.len() ==> num_wf(#[trigger] nums_view(vals@)[i]),
    ensures
        r@ == keys_of(nums_view(vals@)),
        keys_wf(r@),
{
    proof {
        lemma_nums_view(vals@);
    }
    let ghost target = keys_of(nums_view(vals@));
    let mut r: Vec<(bool, Decimal)> = Vec::new();
    let mut i: usize = 0;
    while i < vals.len()
        invariant
            i <= vals.len(),
            target == keys_of(nums_view(vals@)),
            nums_view(vals@).len() == vals.len(),
            forall|q: int| 0 <= q < vals.len() ==> #[trigger] nums_view(vals@)[q] == num_view(vals@[q]),
            forall|q: int| 0 <= q < vals.len() ==> num_wf(#[trigger] nums_view(vals@)[q]),
            r@.len() == i,
            forall|q: int| 0 <= q < i ==> #[trigger] r@[q] == target[q],
            keys_wf(r@),
        decreases vals.len() - i,
    {
        assert(num_wf(nums_view(vals@)[i as int]));
        let k = key_exec(&vals[i]);
        r.push((vals[i].kept, k));
        i = i + 1;
    }
    assert(r@ =~= target);
    r
}

/// Whether the kept number `j` comes before number `i`.
pub fn precedes_exec(keys: &Vec<(bool, Decimal)>, j: usize, i: usize, high: bool) -> (r: bool)
    requires
        j < keys.len(),
        i < keys.len(),
        keys_wf(keys@),
    ensures
        r == precedes(keys@, j as int, i as int, high),
{
    let (kj, dj) = keys[j];
    let (_ki, di) = keys[i];
    assert(keys@[j as int].1.wf() && keys@[i as int].1.wf());
    kj && ((if high {
        di.lt(dj)
    } else {
        dj.lt(di)
    }) || (dj.eq_value(di) && j < i))
}

/// The position of number `i` among the kept numbers.
pub fn rank_exec(keys: &Vec<(bool, Decimal)>, i: usize, high: bool) -> (r: usize)
    requires
        i < keys.len(),
        keys_wf(keys@),
    ensures
        r == rank(keys@, i as int, high),
{
    let mut count: usize = 0;
    let mut j: usize = 0;
    while j < keys.len()
        invariant
            j <= keys.len(),
            i < keys.len(),
            keys_wf(keys@),
            count == count_preceding(keys@, i as int, j as int, high),
            count <= j,
        decreases keys.len() - j,
    {
        if precedes_exec(keys, j, i, high) {
            count = count + 1;
        }
        j = j + 1;
    }
    count
}

/// Whether the selector matches the kept number `i`.
pub fn sel_hits_exec(sel: SetSel, keys: &Vec<(bool, Decimal)>, i: usize) -> (r: bool)
    requires
        i < keys.len(),
        keys_wf(keys@),
    ensures
        r == sel_hits(sel, keys@, i as int),
{
    let (kept, d) = keys[i];
    assert(keys@[i as int].1.wf());
    if !kept {
        return false;
    }
    let n = crate::num::Decimal::from_u32(sel.num);
    match sel.cat {
        SelCat::Lo => (rank_exec(keys, i, false) as u64) < (sel.num as u64),
        SelCat::Hi => (rank_exec(keys, i, true) as u64) < (sel.num as u64),
        SelCat::Lit => d.eq_value(n),
        SelCat::Lt => d.lt(n),
        SelCat::Gt => n.lt(d),
    }
}

/// For each number, whether any of the selectors matches it.
pub fn hits_exec(sels: &Vec<SetSel>, keys: &Vec<(bool, Decimal)>) -> (r: Vec<bool>)
    requires
        keys_wf(keys@),
    ensures
        r@ == hits(sels@, keys@),
{
    let mut r: Vec<bool> = Vec::new();
    let mut i: usize = 0;
    while i < keys.len()
        invariant
            i <= keys.len(),
            keys_wf(keys@),
            r@.len() == i,
            forall|q: int| 0 <= q < i ==> #[trigger] r@[q] == any_hit(sels@, keys@, q),
        decreases keys.len() - i,
    {
        let mut any = false;
        let mut k: usize = 0;
        while k < sels.len()
            invariant
                k <= sels.len(),
                i < keys.len(),
                keys_wf(keys@),
                any == exists|q: int| 0 <= q < k && sel_hits(#[trigger] sels@[q], keys@, i as int),
            decreases sels.len() - k,
        {
            if sel_hits_exec(sels[k], keys, i) {
                any = true;
            }
            k = k + 1;
        }
        r.push(any);
        i = i + 1;
    }
    assert(r@ =~= hits(sels@, keys@));
    r
}

/// Only the first of the set marks.
pub fn first_mark_exec(marks: &Vec<bool>) -> (r: Vec<bool>)
    ensures
        r@ == first_mark(marks@),
{
    let mut r: Vec<bool> = Vec::new();
    let mut found = false;
    let mut i: usize = 0;
    while i < marks.len()
        invariant
            i <= marks.len(),
            r@.len() == i,
            found == exists|j: int| 0 <= j < i && marks@[j],
            forall|k: int| 0 <= k < i ==> r@[k] == first_mark(marks@)[k],
        decreases marks.len() - i,
    {
        r.push(marks[i] && !found);
        if marks[i] {
            found = true;
        }
        i = i + 1;
    }
    assert(r@ =~= first_mark(marks@));
    r
}

/// The number of marks that are set.
pub fn count_marks_exec(marks: &Vec<bool>) -> (r: usize)
    ensures
        r == count_marks(marks@),
        r <= marks.len(),
{
    let mut count: usize = 0;
    let mut i: usize = 0;
    while i < marks.len()
        invariant
            i <= marks.len(),
            count == count_marks(marks@.take(i as int)),
            count <= i,
        decreases marks.len() - i,
    {
        assert(marks@.take(i + 1).drop_last() == marks@.take(i as int));
        if marks[i] {
            count = count + 1;
        }
        i = i + 1;
    }
    assert(marks@.take(marks.len() as int) == marks@);
    count
}

/// Re-rolls the marked dice, in order.
pub fn reroll_pass_exec(vals: &mut Vec<Number>, marks: &Vec<bool>, t: &mut Tally, rng: &mut StdRng) -> (r:
    Result<(), Error>)
    requires
        dice_wf(nums_view(old(vals)@)),
        marks.len() == old(vals).len(),
        old(t).wf(),
    ensures
        continues(*old(t), *final(t)),
        forall|f: Seq<u32>|
            extends(final(t).draws@, f) ==> (#[trigger] reroll_pass(
                nums_view(old(vals)@),
                marks@,
                0,
                old(t).count(),
                old(t).max(),
                f,
            )).0 == with_ok(r, nums_view(final(vals)@)),
        r is Ok ==> final(t).wf() && dice_wf(nums_view(final(vals)@)) && forall|f: Seq<u32>|
            extends(final(t).draws@, f) ==> (#[trigger] reroll_pass(
                nums_view(old(vals)@),
                marks@,
                0,
                old(t).count(),
                old(t).max(),
                f,
            )).1 == final(t).count(),
{
    let ghost v0 = nums_view(vals@);
    let ghost t0 = *t;
    let mut k: usize = 0;
    proof {
        lemma_nums_view(vals@);
    }
    while k < vals.len()
        invariant
            k <= vals.len(),
            vals.len() == marks.len(),
            nums_view(vals@).len() == vals.len(),
            t0 == *old(t),
            v0 == nums_view(old(vals)@),
            t.wf(),
            t0.wf(),
            continues(t0, *t),
            dice_wf(nums_view(vals@)),
            forall|f: Seq<u32>|
                extends(t.draws@, f) ==> #[trigger] reroll_pass(v0, marks@, 0, t0.count(), t0.max(), f)
                    == reroll_pass(nums_view(vals@), marks@, k as int, t.count(), t.max(), f),
        decreases vals.len() - k,
    {
        if marks[k] {
            let ghost cur = nums_view(vals@);
            let ghost vb = vals@;
            let ghost tb = *t;
            proof {
                lemma_nums_view(vals@);
                assert(die_wf(cur[k as int]));
            }
            let res = reroll_die_exec(&mut vals[k], t, rng);
            proof {
                lemma_nums_view_update(vb, k as int, vals@[k as int]);
                assert(vals@ == vb.update(k as int, vals@[k as int]));
            }
            match res {
                Err(e) => {
                    proof {
                        assert forall|f: Seq<u32>| extends(t.draws@, f) implies (#[trigger] reroll_pass(
                            v0,
                            marks@,
                            0,
                            t0.count(),
                            t0.max(),
                            f,
                        )).0 == with_ok(Err::<(), Error>(e), nums_view(vals@)) by {
                            assert(extends(tb.draws@, f));
                            assert(reroll_die(cur[k as int], tb.count(), tb.max(), f).0 == Err::<NumV, Error>(e));
                        }
                    }
                    return Err(e);
                },
                Ok(()) => {},
            }
            proof {
                assert forall|f: Seq<u32>| extends(t.draws@, f) implies #[trigger] reroll_pass(
                    v0,
                    marks@,
                    0,
                    t0.count(),
                    t0.max(),
                    f,
                ) == reroll_pass(nums_view(vals@), marks@, k + 1, t.count(), t.max(), f) by {
                    assert(extends(tb.draws@, f));
                    assert(reroll_die(cur[k as int], tb.count(), tb.max(), f) == (
                        Ok::<NumV, Error>(vals@[k as int]@),
                        t.count(),
                    ));
                }
                let nv = nums_view(vals@);
                assert forall|i: int| 0 <= i < nv.len() implies die_wf(#[trigger] nv[i]) by {
                    if i != k {
                        assert(nv[i] == cur[i]);
                    }
                }
            }
        }
        k = k + 1;
    }
    Ok(())
}

/// Marks the current rolls of the marked dice as exploded.
pub fn explode_marked_exec(vals: &mut Vec<Number>, marks: &Vec<bool>)
    requires
        dice_wf(nums_view(old(vals)@)),
        marks.len() == old(vals).len(),
    ensures
        nums_view(final(vals)@) == explode_marked(nums_view(old(vals)@), marks@),
        dice_wf(nums_view(final(vals)@)),
        final(vals).len() == old(vals).len(),
{
    let ghost v0 = nums_view(vals@);
    proof {
        lemma_nums_view(vals@);
    }
    let mut k: usize = 0;
    while k < vals.len()
        invariant
            k <= vals.len(),
            vals.len() == marks.len(),
            v0 == nums_view(old(vals)@),
            v0.len() == vals.len(),
            nums_view(vals@).len() == vals.len(),
            dice_wf(nums_view(vals@)),
            forall|i: int| 0 <= i < k ==> #[trigger] nums_view(vals@)[i] == (if marks@[i] {
                explode_die(v0[i])
            } else {
                v0[i]
            }),
            forall|i: int| k <= i < vals.len() ==> #[trigger] nums_view(vals@)[i] == v0[i],
        decreases vals.len() - k,
    {
        if marks[k] {
            let ghost vb = vals@;
            let ghost cur = nums_view(vals@);
            proof {
                lemma_nums_view(vals@);
                assert(die_wf(cur[k as int]));
            }
            explode_die_exec(&mut vals[k]);
            proof {
                lemma_nums_view_update(vb, k as int, vals@[k as int]);
                assert(vals@ == vb.update(k as int, vals@[k as int]));
                let nv = nums_view(vals@);
                assert forall|i: int| 0 <= i < nv.len() implies die_wf(#[trigger] nv[i]) by {
                    if i != k {
                        assert(nv[i] == cur[i]);
                    }
                }
            }
        }
        k = k + 1;
    }
    assert(nums_view(vals@) =~= explode_marked(v0, marks@));
}

/// Rolls `n` more dice, one after the other.
pub fn roll_more_exec(vals: &mut Vec<Number>, sides: DieSides, n: usize, t: &mut Tally, rng: &mut StdRng) -> (r:
    Result<(), Error>)
    requires
        dice_wf(nums_view(old(vals)@)),
        old(t).wf(),
    ensures
        continues(*old(t), *final(t)),
        final(vals).len() >= old(vals).len(),
        forall|f: Seq<u32>|
            extends(final(t).draws@, f) ==> (#[trigger] roll_more(
                nums_view(old(vals)@),
                sides,
                n as nat,
                old(t).count(),
                old(t).max(),
                f,
            )).0 == with_ok(r, nums_view(final(vals)@)),
        r is Ok ==> final(t).wf() && dice_wf(nums_view(final(vals)@)) && forall|f: Seq<u32>|
            extends(final(t).draws@, f) ==> (#[trigger] roll_more(
                nums_view(old(vals)@),
                sides,
                n as nat,
                old(t).count(),
                old(t).max(),
                f,
            )).1 == final(t).count(),
{
    let ghost v0 = nums_view(vals@);
    let ghost t0 = *t;
    let mut i: usize = 0;
    while i < n
        invariant
            i <= n,
            t0 == *old(t),
            v0 == nums_view(old(vals)@),
            vals.len() >= old(vals).len(),
            t.wf(),
            t0.wf(),
            continues(t0, *t),
            dice_wf(nums_view(vals@)),
            forall|f: Seq<u32>|
                extends(t.draws@, f) ==> #[trigger] roll_more(v0, sides, n as nat, t0.count(), t0.max(), f)
                    == roll_more(nums_view(vals@), sides, (n - i) as nat, t.count(), t.max(), f),
        decreases n - i,
    {
        let ghost cur = nums_view(vals@);
        let ghost vb = vals@;
        let ghost tb = *t;
        let res = new_die_exec(sides, t, rng);
        match res {
            Err(e) => {
                proof {
                    assert forall|f: Seq<u32>| extends(t.draws@, f) implies (#[trigger] roll_more(
                        v0,
                        sides,
                        n as nat,
                        t0.count(),
                        t0.max(),
                        f,
                    )).0 == with_ok(Err::<(), Error>(e), nums_view(vals@)) by {
                        assert(extends(tb.draws@, f));
                        assert(new_die(sides, tb.count(), tb.max(), f).0 == Err::<NumV, Error>(e));
                    }
                }
                return Err(e);
            },
            Ok(d) => {
                let ghost dv = d@;
                vals.push(d);
                proof {
                    lemma_nums_view_push(vb, d);
                    assert forall|f: Seq<u32>| extends(t.draws@, f) implies #[trigger] roll_more(
                        v0,
                        sides,
                        n as nat,
                        t0.count(),
                        t0.max(),
                        f,
                    ) == roll_more(nums_view(vals@), sides, (n - (i + 1)) as nat, t.count(), t.max(), f) by {
                        assert(extends(tb.draws@, f));
                        assert(new_die(sides, tb.count(), tb.max(), f) == (Ok::<NumV, Error>(dv), t.count()));
                    }
                    lemma_nums_view(vb);
                    lemma_nums_view(vals@);
                    let nv = nums_view(vals@);
                    assert forall|q: int| 0 <= q < nv.len() implies die_wf(#[trigger] nv[q]) by {
                        if q < cur.len() {
                            assert(nv[q] == cur[q]);
                        }
                    }
                }
            },
        }
        i = i + 1;
    }
    Ok(())
}

/// Raises (`at_least`) or lowers the kept dice beyond `m` to `m`.
pub fn clamp_exec(vals: &mut Vec<Number>, m: Decimal, at_least: bool)
    requires
        dice_wf(nums_view(old(vals)@)),
        m.wf(),
    ensures
        nums_view(final(vals)@) == clamp_set(nums_view(old(vals)@), m, at_least),
        dice_wf(nums_view(final(vals)@)),
{
    let ghost v0 = nums_view(vals@);
    proof {
        lemma_nums_view(vals@);
    }
    let mut k: usize = 0;
    while k < vals.len()
        invariant
            k <= vals.len(),
            m.wf(),
            v0 == nums_view(old(vals)@),
            v0.len() == vals.len(),
            nums_view(vals@).len() == vals.len(),
            dice_wf(nums_view(vals@)),
            forall|i: int| 0 <= i < k ==> #[trigger] nums_view(vals@)[i] == clamp_set(v0, m, at_least)[i],
            forall|i: int| k <= i < vals.len() ==> #[trigger] nums_view(vals@)[i] == v0[i],
        decreases vals.len() - k,
    {
        let ghost vb = vals@;
        let ghost cur = nums_view(vals@);
        proof {
            lemma_nums_view(vals@);
            assert(die_wf(cur[k as int]));
            assert(cur[k as int] == v0[k as int]);
        }
        let key = key_exec(&vals[k]);
        let beyond = if at_least {
            key.lt(m)
        } else {
            m.lt(key)
        };
        if vals[k].kept && beyond {
            force_die_exec(&mut vals[k], m);
            proof {
                lemma_nums_view_update(vb, k as int, vals@[k as int]);
                assert(vals@ == vb.update(k as int, vals@[k as int]));
                let nv = nums_view(vals@);
                assert forall|i: int| 0 <= i < nv.len() implies die_wf(#[trigger] nv[i]) by {
                    if i != k {
                        assert(nv[i] == cur[i]);
                    }
                }
            }
        }
        k = k + 1;
    }
    assert(nums_view(vals@) =~= clamp_set(v0, m, at_least));
}

/// Set marks exist where their count is positive.
pub proof fn lemma_count_marks(marks: Seq<bool>)
    ensures
        count_marks(marks) <= marks.len(),
        count_marks(marks) > 0 ==> exists|i: int| 0 <= i < marks.len() && #[trigger] marks[i],
    decreases marks.len(),
{
    if marks.len() > 0 {
        let p = marks.drop_last();
        lemma_count_marks(p);
        if count_marks(p) > 0 {
            let i = choose|i: int| 0 <= i < p.len() && #[trigger] p[i];
            assert(marks[i]);
        } else if count_marks(marks) > 0 {
            assert(marks[marks.len() - 1]);
        }
    }
}

/// A pass of re-rolls counts one roll for each marked die.
pub proof fn lemma_reroll_pass_grows(
    vals: Seq<NumV>,
    marks: Seq<bool>,
    k: int,
    c: nat,
    max: nat,
    draws: Seq<u32>,
)
    requires
        0 <= k,
        marks.len() == vals.len(),
        forall|i: int| 0 <= i < vals.len() ==> (#[trigger] vals[i]).kind is Die,
    ensures
        reroll_pass(vals, marks, k, c, max, draws).0 is Ok ==> reroll_pass(vals, marks, k, c, max, draws).1 >= c,
        reroll_pass(vals, marks, k, c, max, draws).0 is Ok ==> reroll_pass(vals, marks, k, c, max, draws).1 == c
            || reroll_pass(vals, marks, k, c, max, draws).1 <= max,
        reroll_pass(vals, marks, k, c, max, draws).0 is Ok && (exists|i: int|
            k <= i < vals.len() && #[trigger] marks[i]) ==> c < reroll_pass(vals, marks, k, c, max, draws).1 <= max,
    decreases vals.len() - k,
{
    if k < vals.len() {
        if marks[k] {
            match reroll_die(vals[k], c, max, draws) {
                (Ok(d), c1) => {
                    let v2 = vals.update(k, d);
                    assert forall|i: int| 0 <= i < v2.len() implies (#[trigger] v2[i]).kind is Die by {
                        if i != k {
                            assert(v2[i] == vals[i]);
                        }
                    }
                    lemma_reroll_pass_grows(v2, marks, k + 1, c1, max, draws);
                },
                (Err(e), c1) => {},
            }
        } else {
            lemma_reroll_pass_grows(vals, marks, k + 1, c, max, draws);
        }
    }
}

/// Rolling `n` more dice counts `n` rolls.
pub proof fn lemma_roll_more_grows(vals: Seq<NumV>, sides: DieSides, n: nat, c: nat, max: nat, draws: Seq<u32>)
    ensures
        roll_more(vals, sides, n, c, max, draws).0 is Ok ==> roll_more(vals, sides, n, c, max, draws).1 == c + n,
        roll_more(vals, sides, n, c, max, draws).0 is Ok && n > 0 ==> roll_more(vals, sides, n, c, max, draws).1 <= max,
    decreases n,
{
    if n > 0 {
        match new_die(sides, c, max, draws) {
            (Ok(d), c1) => {
                lemma_roll_more_grows(vals.push(d), sides, (n - 1) as nat, c1, max, draws);
            },
            (Err(e), c1) => {},
        }
    }
}

/// Re-rolls the dice the selectors match until none matches.
pub fn reroll_loop_exec(vals: &mut Vec<Number>, sels: &Vec<SetSel>, t: &mut Tally, rng: &mut StdRng) -> (r:
    Result<(), Error>)
    requires
        dice_wf(nums_view(old(vals)@)),
        old(t).wf(),
    ensures
        continues(*old(t), *final(t)),
        forall|f: Seq<u32>|
            extends(final(t).draws@, f) ==> (#[trigger] reroll_loop(
                nums_view(old(vals)@),
                sels@,
                old(t).count(),
                old(t).max(),
                f,
            )).0 == with_ok(r, nums_view(final(vals)@)),
        r is Ok ==> final(t).wf() && dice_wf(nums_view(final(vals)@)) && forall|f: Seq<u32>|
            extends(final(t).draws@, f) ==> (#[trigger] reroll_loop(
                nums_view(old(vals)@),
                sels@,
                old(t).count(),
                old(t).max(),
                f,
            )).1 == final(t).count(),
{
    let ghost v0 = nums_view(vals@);
    let ghost t0 = *t;
    loop
        invariant
            t0 == *old(t),
            v0 == nums_view(old(vals)@),
            t.wf(),
            t0.wf(),
            continues(t0, *t),
            dice_wf(nums_view(vals@)),
            forall|f: Seq<u32>|
                extends(t.draws@, f) ==> #[trigger] reroll_loop(v0, sels@, t0.count(), t0.max(), f)
                    == reroll_loop(nums_view(vals@), sels@, t.count(), t.max(), f),
        decreases t.max() - t.count(),
    {
        let ghost cur = nums_view(vals@);
        let ghost tb = *t;
        proof {
            lemma_nums_view(vals@);
        }
        let keys = keys_exec(vals);
        let marks = hits_exec(sels, &keys);
        let n = count_marks_exec(&marks);
        if n == 0 {
            return Ok(());
        }
        proof {
            lemma_count_marks(marks@);
        }
        let res = reroll_pass_exec(vals, &marks, t, rng);
        match res {
            Err(e) => {
                proof {
                    assert forall|f: Seq<u32>| extends(t.draws@, f) implies (#[trigger] reroll_loop(
                        v0,
                        sels@,
                        t0.count(),
                        t0.max(),
                        f,
                    )).0 == with_ok(Err::<(), Error>(e), nums_view(vals@)) by {
                        assert(extends(tb.draws@, f));
                        assert(reroll_pass(cur, marks@, 0, tb.count(), tb.max(), f).0 == Err::<Seq<NumV>, Error>(e));
                    }
                }
                return Err(e);
            },
            Ok(()) => {},
        }
        proof {
            let me = t.draws@;
            assert(extends(me, me));
            assert forall|i: int| 0 <= i < cur.len() implies (#[trigger] cur[i]).kind is Die by {
                assert(die_wf(cur[i]));
            }
            lemma_reroll_pass_grows(cur, marks@, 0, tb.count(), tb.max(), me);
            assert(reroll_pass(cur, marks@, 0, tb.count(), tb.max(), me).1 == t.count());
            assert(tb.count() < t.count());
            assert forall|f: Seq<u32>| extends(t.draws@, f) implies #[trigger] reroll_loop(
                v0,
                sels@,
                t0.count(),
                t0.max(),
                f,
            ) == reroll_loop(nums_view(vals@), sels@, t.count(), t.max(), f) by {
                assert(extends(tb.draws@, f));
                assert(reroll_pass(cur, marks@, 0, tb.count(), tb.max(), f) == (
                    Ok::<Seq<NumV>, Error>(nums_view(vals@)),
                    t.count(),
                ));
            }
        }
    }
}

/// Explodes the dice the selectors match, and the dice rolled for them, until
/// no die that has not exploded yet matches.
pub fn explode_loop_exec(
    vals: &mut Vec<Number>,
    sides: DieSides,
    sels: &Vec<SetSel>,
    t: &mut Tally,
    rng: &mut StdRng,
) -> (r: Result<(), Error>)
    requires
        dice_wf(nums_view(old(vals)@)),
        old(t).wf(),
    ensures
        continues(*old(t), *final(t)),
        forall|f: Seq<u32>|
            extends(final(t).draws@, f) ==> (#[trigger] explode_loop(
                nums_view(old(vals)@),
                sides,
                sels@,
                Set::empty(),
                old(t).count(),
                old(t).max(),
                f,
            )).0 == with_ok(r, nums_view(final(vals)@)),
        r is Ok ==> final(t).wf() && dice_wf(nums_view(final(vals)@)) && forall|f: Seq<u32>|
            extends(final(t).draws@, f) ==> (#[trigger] explode_loop(
                nums_view(old(vals)@),
                sides,
                sels@,
                Set::empty(),
                old(t).count(),
                old(t).max(),
                f,
            )).1 == final(t).count(),
{
    let ghost v0 = nums_view(vals@);
    let ghost t0 = *t;
    let ghost mut done_s: Set<int> = Set::empty();
    let mut done: Vec<bool> = Vec::new();
    let mut q: usize = 0;
    proof {
        lemma_nums_view(vals@);
    }
    while q < vals.len()
        invariant
            q <= vals.len(),
            done@.len() == q,
            forall|i: int| 0 <= i < q ==> !(#[trigger] done@[i]),
        decreases vals.len() - q,
    {
        done.push(false);
        q = q + 1;
    }
    loop
        invariant
            t0 == *old(t),
            v0 == nums_view(old(vals)@),
            t.wf(),
            t0.wf(),
            continues(t0, *t),
            dice_wf(nums_view(vals@)),
            nums_view(vals@).len() == vals.len(),
            done@.len() == vals.len(),
            forall|i: int| 0 <= i < vals.len() ==> #[trigger] done@[i] == done_s.contains(i),
            forall|i: int| #[trigger] done_s.contains(i) ==> 0 <= i < vals.len(),
            forall|f: Seq<u32>|
                extends(t.draws@, f) ==> #[trigger] explode_loop(v0, sides, sels@, Set::empty(), t0.count(), t0.max(), f)
                    == explode_loop(nums_view(vals@), sides, sels@, done_s, t.count(), t.max(), f),
        decreases t.max() - t.count(),
    {
        let ghost cur = nums_view(vals@);
        let ghost tb = *t;
        proof {
            lemma_nums_view(vals@);
        }
        let keys = keys_exec(vals);
        let h = hits_exec(sels, &keys);
        let mut marks: Vec<bool> = Vec::new();
        let mut i: usize = 0;
        while i < vals.len()
            invariant
                i <= vals.len(),
                h@.len() == vals.len(),
                done@.len() == vals.len(),
                marks@.len() == i,
                forall|j: int| 0 <= j < i ==> #[trigger] marks@[j] == (h@[j] && !done@[j]),
            decreases vals.len() - i,
        {
            marks.push(h[i] && !done[i]);
            i = i + 1;
        }
        proof {
            assert(marks@ =~= fresh_hits(cur, sels@, done_s));
        }
        let n = count_marks_exec(&marks);
        if n == 0 {
            return Ok(());
        }
        proof {
            lemma_count_marks(marks@);
        }
        let old_len = vals.len();
        explode_marked_exec(vals, &marks);
        let ghost exploded = nums_view(vals@);
        let res = roll_more_exec(vals, sides, n, t, rng);
        match res {
            Err(e) => {
                proof {
                    assert forall|f: Seq<u32>| extends(t.draws@, f) implies (#[trigger] explode_loop(
                        v0,
                        sides,
                        sels@,
                        Set::empty(),
                        t0.count(),
                        t0.max(),
                        f,
                    )).0 == with_ok(Err::<(), Error>(e), nums_view(vals@)) by {
                        assert(extends(tb.draws@, f));
                        assert(roll_more(exploded, sides, n as nat, tb.count(), tb.max(), f).0
                            == Err::<Seq<NumV>, Error>(e));
                    }
                }
                return Err(e);
            },
            Ok(()) => {},
        }
        let ghost new_done = done_s.union(Set::new(|j: int| 0 <= j < marks@.len() && marks@[j]));
        proof {
            let me = t.draws@;
            assert(extends(me, me));
            lemma_roll_more_grows(exploded, sides, n as nat, tb.count(), tb.max(), me);
            assert(roll_more(exploded, sides, n as nat, tb.count(), tb.max(), me).1 == t.count());
            assert(tb.count() < t.count());
            assert forall|f: Seq<u32>| extends(t.draws@, f) implies #[trigger] explode_loop(
                v0,
                sides,
                sels@,
                Set::empty(),
                t0.count(),
                t0.max(),
                f,
            ) == explode_loop(nums_view(vals@), sides, sels@, new_done, t.count(), t.max(), f) by {
                assert(extends(tb.draws@, f));
                assert(roll_more(exploded, sides, n as nat, tb.count(), tb.max(), f) == (
                    Ok::<Seq<NumV>, Error>(nums_view(vals@)),
                    t.count(),
                ));
            }
        }
        let mut j: usize = 0;
        while j < old_len
            invariant
                j <= old_len,
                old_len == marks@.len(),
                done@.len() == old_len,
                forall|x: int| 0 <= x < j ==> #[trigger] done@[x] == new_done.contains(x),
                forall|x: int| j <= x < old_len ==> #[trigger] done@[x] == done_s.contains(x),
                new_done == done_s.union(Set::new(|y: int| 0 <= y < marks@.len() && marks@[y])),
            decreases old_len - j,
        {
            if marks[j] {
                done.set(j, true);
            }
            j = j + 1;
        }
        while done.len() < vals.len()
            invariant
                old_len <= done@.len() <= vals.len(),
                old_len == marks@.len(),
                forall|x: int| 0 <= x < old_len ==> #[trigger] done@[x] == new_done.contains(x),
                forall|x: int| old_len <= x < done@.len() ==> !(#[trigger] done@[x]),
            decreases vals.len() - done.len(),
        {
            done.push(false);
        }
        proof {
            lemma_nums_view(vals@);
            assert forall|x: int| 0 <= x < vals.len() implies #[trigger] done@[x] == new_done.contains(x) by {
                if x >= old_len {
                    assert(!done_s.contains(x));
                }
            }
            done_s = new_done;
        }
    }
}

/// Whether each number a set operator applies to is kept, and its key.
pub fn set_keys_exec(n: &Number) -> (r: Vec<(bool, Decimal)>)
    requires
        num_wf(n@),
    ensures
        r@ == keys_of(set_of(n@)),
        keys_wf(r@),
    decreases n,
{
    match &n.kind {
        NumberKind::Expression(e) => set_keys_exec(&e.roll),
        NumberKind::Parenthetical(p) => set_keys_exec(&p.value),
        NumberKind::NumSet(st) => {
            proof {
                lemma_nums_view(st.values@);
                let w = nums_view(st.values@);
                assert(n@.kind == (KindV::NumSet { values: w, ops: crate::expr::eops_view(st.ops@) }));
                lemma_set_members_wf(n@);
                assert(forall|i: int| 0 <= i < w.len() ==> num_wf(#[trigger] w[i]));
            }
            keys_exec(&st.values)
        },
        NumberKind::Dice(d) => {
            proof {
                lemma_nums_view(d.values@);
            }
            keys_exec(&d.values)
        },
        NumberKind::Die(d) => {
            proof {
                lemma_nums_view(d.values@);
            }
            let k = d.values.len() - 1;
            assert(num_wf(nums_view(d.values@)[k as int]));
            let key = key_exec(&d.values[k]);
            let mut r: Vec<(bool, Decimal)> = Vec::new();
            r.push((d.values[k].kept, key));
            assert(r@ =~= keys_of(set_of(n@)));
            r
        },
        _ => {
            let key = key_exec(n);
            let mut r: Vec<(bool, Decimal)> = Vec::new();
            r.push((n.kept, key));
            assert(r@ =~= keys_of(set_of(n@)));
            r
        },
    }
}

/// The views of the numbers behind the references.
pub open spec fn refs_view(v: Seq<&Number>) -> Seq<NumV> {
    v.map_values(|x: &Number| x@)
}

/// References to each number of the vector, in order.
pub fn refs_of(v: &Vec<Number>) -> (r: Vec<&Number>)
    ensures
        refs_view(r@) == nums_view(v@),
{
    proof {
        lemma_nums_view(v@);
    }
    let mut r: Vec<&Number> = Vec::new();
    let mut i: usize = 0;
    while i < v.len()
        invariant
            i <= v.len(),
            r@.len() == i,
            forall|k: int| 0 <= k < i ==> (#[trigger] r@[k])@ == v@[k]@,
        decreases v.len() - i,
    {
        r.push(&v[i]);
        i = i + 1;
    }
    assert(refs_view(r@) =~= nums_view(v@));
    r
}

impl Number {
    /// The numbers that make up this number: those a set operator applies to.
    pub fn set(&self) -> (r: Vec<&Number>)
        requires
            num_wf(self@),
        ensures
            refs_view(r@) == set_of(self@),
        decreases self,
    {
        match &self.kind {
            NumberKind::Expression(e) => e.roll.set(),
            NumberKind::Parenthetical(p) => p.value.set(),
            NumberKind::NumSet(st) => {
                proof {
                    lemma_set_members_wf(self@);
                }
                refs_of(&st.values)
            },
            NumberKind::Dice(d) => refs_of(&d.values),
            NumberKind::Die(d) => {
                proof {
                    lemma_nums_view(d.values@);
                }
                let k = d.values.len() - 1;
                let mut r: Vec<&Number> = Vec::new();
                r.push(&d.values[k]);
                assert(refs_view(r@) =~= set_of(self@));
                r
            },
            _ => {
                let mut r: Vec<&Number> = Vec::new();
                r.push(self);
                assert(refs_view(r@) =~= set_of(self@));
                r
            },
        }
    }

    /// The numbers of [`set`](Number::set) that contribute to this number's
    /// value: the kept ones, in order.
    pub fn kept_set(&self) -> (r: Vec<&Number>)
        requires
            num_wf(self@),
        ensures
            refs_view(r@) == set_of(self@).filter(|x: NumV| x.kept),
    {
        let all = self.set();
        let mut r: Vec<&Number> = Vec::new();
        let mut i: usize = 0;
        while i < all.len()
            invariant
                i <= all.len(),
                refs_view(all@) == set_of(self@),
                refs_view(r@) == refs_view(all@).subrange(0, i as int).filter(|x: NumV| x.kept),
            decreases all.len() - i,
        {
            proof {
                let s = refs_view(all@);
                assert(s.subrange(0, i + 1) =~= s.subrange(0, i as int).push(s[i as int]));
                s.subrange(0, i as int).lemma_filter_push(s[i as int], |x: NumV| x.kept);
            }
            let ghost before = r@;
            if all[i].kept {
                r.push(all[i]);
                proof {
                    assert(refs_view(r@) =~= refs_view(before).push(all@[i as int]@));
                }
            }
            i = i + 1;
        }
        proof {
            assert(refs_view(all@).subrange(0, all.len() as int) =~= refs_view(all@));
        }
        r
    }
}

/// Drops the number if it is kept and not marked (`keep`), or if it is
/// marked.
pub fn mark_one(n: &mut Number, mark: bool, keep: bool)
    ensures
        final(n)@ == (if (keep && old(n)@.kept && !mark) || (!keep && mark) {
            dropped(old(n)@)
        } else {
            old(n)@
        }),
{
    if (keep && n.kept && !mark) || (!keep && mark) {
        n.kept = false;
    }
}

/// Keeps only the marked numbers (`keep`), or drops the marked ones.
pub fn mark_vec(v: &mut Vec<Number>, marks: &Vec<bool>, keep: bool)
    requires
        marks.len() == old(v).len(),
    ensures
        nums_view(final(v)@) == mark_set(nums_view(old(v)@), marks@, keep),
        final(v).len() == old(v).len(),
{
    let ghost v0 = nums_view(v@);
    proof {
        lemma_nums_view(v@);
    }
    let mut k: usize = 0;
    while k < v.len()
        invariant
            k <= v.len(),
            marks.len() == v.len(),
            v0 == nums_view(old(v)@),
            v0.len() == v.len(),
            nums_view(v@).len() == v.len(),
            forall|i: int| 0 <= i < k ==> #[trigger] nums_view(v@)[i] == mark_set(v0, marks@, keep)[i],
            forall|i: int| k <= i < v.len() ==> #[trigger] nums_view(v@)[i] == v0[i],
        decreases v.len() - k,
    {
        let ghost vb = v@;
        proof {
            lemma_nums_view(v@);
            assert(nums_view(vb)[k as int] == v0[k as int]);
        }
        mark_one(&mut v[k], marks[k], keep);
        proof {
            lemma_nums_view_update(vb, k as int, v@[k as int]);
            assert(v@ == vb.update(k as int, v@[k as int]));
        }
        k = k + 1;
    }
    assert(nums_view(v@) =~= mark_set(v0, marks@, keep));
}

/// The members of a well formed set are well formed.
pub proof fn lemma_set_members_wf(x: NumV)
    requires
        num_wf(x),
        x.kind is NumSet,
    ensures
        forall|i: int| 0 <= i < x.kind->NumSet_values.len() ==> num_wf(#[trigger] x.kind->NumSet_values[i]),
{
}

/// Dropping a number keeps it well formed.
pub proof fn lemma_wf_dropped(x: NumV)
    ensures
        num_wf(dropped(x)) == num_wf(x),
{
}

/// Whether a number is its own set.
pub open spec fn is_leaf(n: NumV) -> bool {
    n.kind is UnOp || n.kind is Literal || n.kind is BinOp
}

/// Keeps only the marked numbers of the set of `n` (`keep`), or drops the
/// marked ones.
pub fn apply_marks(n: &mut Number, marks: &Vec<bool>, keep: bool)
    requires
        num_wf(old(n)@),
        marks.len() == set_of(old(n)@).len(),
    ensures
        final(n)@ == with_set(old(n)@, mark_set(set_of(old(n)@), marks@, keep)),
        num_wf(final(n)@),
    decreases *old(n),
{
    let leaf = match &n.kind {
        NumberKind::UnOp(_) | NumberKind::Literal(_) | NumberKind::BinOp(_) => true,
        _ => false,
    };
    if leaf {
        let ghost n0 = n@;
        mark_one(n, marks[0], keep);
        proof {
            assert(mark_set(set_of(n0), marks@, keep)[0] == n@);
        }
        return;
    }
    let ghost n0 = n@;
    match &mut n.kind {
        NumberKind::Expression(e) => {
            apply_marks(&mut e.roll, marks, keep);
        },
        NumberKind::Parenthetical(p) => {
            apply_marks(&mut p.value, marks, keep);
        },
        NumberKind::NumSet(st) => {
            proof {
                lemma_nums_view(st.values@);
            }
            mark_vec(&mut st.values, marks, keep);
            proof {
                lemma_nums_view(st.values@);
                let w = nums_view(st.values@);
                let s0 = set_of(n0);
                assert forall|i: int| 0 <= i < w.len() implies num_wf(#[trigger] w[i]) by {
                    assert(w[i] == mark_set(s0, marks@, keep)[i]);
                    assert(num_wf(s0[i]));
                    lemma_wf_dropped(s0[i]);
                }
            }
        },
        NumberKind::Dice(d) => {
            proof {
                lemma_nums_view(d.values@);
            }
            mark_vec(&mut d.values, marks, keep);
            proof {
                lemma_nums_view(d.values@);
                let w = nums_view(d.values@);
                let s0 = set_of(n0);
                assert forall|i: int| 0 <= i < w.len() implies (#[trigger] w[i]).kind is Die && num_wf(w[i]) by {
                    assert(w[i] == mark_set(s0, marks@, keep)[i]);
                    assert(s0[i].kind is Die && num_wf(s0[i]));
                    lemma_wf_dropped(s0[i]);
                }
            }
        },
        NumberKind::Die(d) => {
            let ghost vb = d.values@;
            proof {
                lemma_nums_view(d.values@);
            }
            let k = d.values.len() - 1;
            mark_one(&mut d.values[k], marks[0], keep);
            proof {
                lemma_nums_view_update(vb, k as int, d.values@[k as int]);
                assert(d.values@ == vb.update(k as int, d.values@[k as int]));
                lemma_nums_view(d.values@);
                let w = nums_view(d.values@);
                let w0 = nums_view(vb);
                assert(n0.kind == (KindV::Die { sides: d.sides, values: w0 }));
                assert(forall|i: int| 0 <= i < w0.len() ==> (#[trigger] w0[i]).kind is Literal && num_wf(w0[i]));
                assert forall|i: int| 0 <= i < w.len() implies (#[trigger] w[i]).kind is Literal && num_wf(w[i]) by {
                    if i != k {
                        assert(w[i] == w0[i]);
                    }
                }
            }
        },
        _ => {},
    }
}

/// Whether a set operator can be applied to a number: clamping needs a
/// selector, and operators other than keeping and dropping need dice.
pub open spec fn op_applies(n: NumV, op: OpView) -> bool {
    &&& (op.op == SetOpKind::Min || op.op == SetOpKind::Max) ==> op.sels.len() > 0
    &&& !op.op.for_any_set() ==> n.kind is Dice
}

/// The dice values of a number.
pub open spec fn dice_values(n: NumV) -> Seq<NumV> {
    n.kind->Dice_values
}

/// The dice values of well formed dice are well formed dice.
pub proof fn lemma_dice_values_wf(n: NumV)
    requires
        num_wf(n),
        n.kind is Dice,
    ensures
        dice_wf(dice_values(n)),
{
}

/// Applies a set operator to a number.
///
/// # Errors
///
/// If too many dice are rolled, [`Error::RollLimitExceeded`] is returned.
pub fn operate_exec(target: &mut Number, op: &crate::expr::SetOp, t: &mut Tally, rng: &mut StdRng) -> (r: Result<
    (),
    Error,
>)
    requires
        num_wf(old(target)@),
        op_applies(old(target)@, op@),
        old(t).wf(),
    ensures
        continues(*old(t), *final(t)),
        forall|f: Seq<u32>|
            extends(final(t).draws@, f) ==> (#[trigger] operate(old(target)@, op@, old(t).count(), old(t).max(), f)).0
                == with_ok(r, final(target)@),
        r is Ok ==> final(t).wf() && num_wf(final(target)@) && forall|f: Seq<u32>|
            extends(final(t).draws@, f) ==> (#[trigger] operate(old(target)@, op@, old(t).count(), old(t).max(), f)).1
                == final(t).count(),
        op.op == SetOpKind::Keep || op.op == SetOpKind::Drop || op.op == SetOpKind::Min || op.op == SetOpKind::Max
            ==> r is Ok && *final(rng) == *old(rng) && *final(t) == *old(t),
{
    match op.op {
        SetOpKind::Keep | SetOpKind::Drop => {
            let keys = set_keys_exec(target);
            let marks = hits_exec(&op.sels, &keys);
            let keep = match op.op {
                SetOpKind::Keep => true,
                _ => false,
            };
            apply_marks(target, &marks, keep);
            return Ok(());
        },
        _ => {},
    }
    let ghost n0 = target@;
    let ghost t0 = *t;
    proof {
        lemma_dice_values_wf(n0);
    }
    match &mut target.kind {
        NumberKind::Dice(d) => {
            let sides = d.sides;
            let ghost v0 = nums_view(d.values@);
            assert(v0 == dice_values(n0));
            let res = match op.op {
                SetOpKind::Reroll => reroll_loop_exec(&mut d.values, &op.sels, t, rng),
                SetOpKind::RerollOnce => {
                    proof {
                        lemma_nums_view(d.values@);
                    }
                    let keys = keys_exec(&d.values);
                    let marks = hits_exec(&op.sels, &keys);
                    reroll_pass_exec(&mut d.values, &marks, t, rng)
                },
                SetOpKind::ExplodeOnce => {
                    proof {
                        lemma_nums_view(d.values@);
                    }
                    let keys = keys_exec(&d.values);
                    let hit = hits_exec(&op.sels, &keys);
                    let marks = first_mark_exec(&hit);
                    let n = count_marks_exec(&marks);
                    explode_marked_exec(&mut d.values, &marks);
                    roll_more_exec(&mut d.values, sides, n, t, rng)
                },
                SetOpKind::Explode => explode_loop_exec(&mut d.values, sides, &op.sels, t, rng),
                SetOpKind::Min => {
                    let m = op.sels[op.sels.len() - 1].num;
                    clamp_exec(&mut d.values, Decimal::from_u32(m), true);
                    Ok(())
                },
                SetOpKind::Max => {
                    let m = op.sels[op.sels.len() - 1].num;
                    clamp_exec(&mut d.values, Decimal::from_u32(m), false);
                    Ok(())
                },
                _ => Ok(()),
            };
            proof {
                lemma_nums_view(d.values@);
            }
            res
        },
        _ => Ok(()),
    }
}

} // verus!
