//! The parser: a recursive descent over the characters of the input that
//! follows the rules of [`crate::grammar`] exactly.
use vstd::prelude::*;
use crate::ast::{
    lemma_clamps_have_sels, law_simplify_merges, parsed_wf, ops_for_any_set, ops_have_sels, ops_view, simplify, simplify_ops, simplify_step, tree_of, trees_of,
    lemma_trees_of, lemma_trees_of_push, strings_view, Annotated, BinOp, Dice, DiceExpr, Expression, Literal,
    Node, OpView, Parenthetical, SetExpr, SetOp, SetSel, SetWithOps, Tree, UnOp,
};
use crate::errors::{found_at, Error, SyntaxError};
use crate::grammar::{
    at, at2, close_bracket, digits_end, digits_val, int_end, make_literal, p_ann_list, p_annotations, p_atom, p_dice, p_dice_expr, p_dice_op, p_dice_ops, p_expr,
    p_integer, p_items, p_items_rest, p_literal, p_num_expr, p_selector, p_set, p_set_op,
    p_set_ops, p_sides, p_tier, p_tier_rest, p_unary, parse_commented_spec, parse_spec,
    strip_zeros, tier_op,
};
use crate::kinds::{BinOpKind, DieSides, SelCat, SetOpKind, UnOpKind};
use crate::num::{Decimal, MAX_SCALE};
use crate::text::{chars_of, is_digit, skip_whitespace, string_of, trim_text};

verus! {

/// Whether the character at `i` is `c`.
fn at_x(s: &Vec<char>, i: usize, c: char) -> (r: bool)
    ensures
        r == at(s@, i as int, c),
{
    i < s.len() && s[i] == c
}

/// Whether the characters at `i` are `a b`.
fn at2_x(s: &Vec<char>, i: usize, a: char, b: char) -> (r: bool)
    requires
        i <= s.len(),
    ensures
        r == at2(s@, i as int, a, b),
{
    at_x(s, i, a) && i + 1 < s.len() && s[i + 1] == b
}

/// Whether `c` is an ASCII digit.
fn is_digit_x(c: char) -> (r: bool)
    ensures
        r == is_digit(c),
{
    '0' <= c && c <= '9'
}

/// The end of the run of digits starting at `i`.
fn digits_end_x(s: &Vec<char>, i: usize) -> (r: usize)
    requires
        i <= s.len(),
    ensures
        r == digits_end(s@, i as int),
        i <= r <= s.len(),
        forall|q: int| i <= q < r ==> is_digit(#[trigger] s@[q]),
{
    let mut k = i;
    while k < s.len() && is_digit_x(s[k])
        invariant
            i <= k <= s.len(),
            digits_end(s@, i as int) == digits_end(s@, k as int),
            forall|q: int| i <= q < k ==> is_digit(#[trigger] s@[q]),
        decreases s.len() - k,
    {
        k = k + 1;
    }
    k
}

/// The end of the integer starting at `i`.
fn int_end_x(s: &Vec<char>, i: usize) -> (r: Option<usize>)
    requires
        i <= s.len(),
    ensures
        r matches Some(j) ==> int_end(s@, i as int) == Some(j as int) && i < j <= s.len()
            && forall|q: int| i <= q < j ==> is_digit(#[trigger] s@[q]),
        r is None ==> int_end(s@, i as int) is None,
{
    if i < s.len() && is_digit_x(s[i]) && s[i] != '0' {
        Some(digits_end_x(s, i + 1))
    } else if at_x(s, i, '0') {
        Some(i + 1)
    } else {
        None
    }
}

/// Digits of a prefix are worth at most the digits of the whole.
proof fn lemma_digits_val_prefix(t: Seq<char>, a: int)
    requires
        0 <= a <= t.len(),
    ensures
        digits_val(t.take(a)) <= digits_val(t),
    decreases t.len(),
{
    if a < t.len() {
        lemma_digits_val_prefix(t.drop_last(), a);
        assert(t.drop_last().take(a) == t.take(a));
    } else {
        assert(t.take(a) == t);
    }
}

/// The value of the digits `a + s[from..to]`, if it is at most `bound`.
fn accum_digits(s: &Vec<char>, from: usize, to: usize, v0: u128, bound: u128, Ghost(a): Ghost<
    Seq<char>,
>) -> (r: Option<u128>)
    requires
        from <= to <= s.len(),
        v0 == digits_val(a),
        v0 <= bound,
        9 <= bound <= i128::MAX,
        forall|q: int| from <= q < to ==> is_digit(#[trigger] s@[q]),
    ensures
        r matches Some(v) ==> v == digits_val(a + s@.subrange(from as int, to as int)) && v
            <= bound,
        r is None ==> digits_val(a + s@.subrange(from as int, to as int)) > bound,
{
    let mut v = v0;
    let mut k = from;
    let ghost full = a + s@.subrange(from as int, to as int);
    assert(a + s@.subrange(from as int, from as int) == a);
    while k < to
        invariant
            from <= k <= to <= s.len(),
            v == digits_val(a + s@.subrange(from as int, k as int)),
            v <= bound,
            9 <= bound <= i128::MAX,
            full == a + s@.subrange(from as int, to as int),
            forall|q: int| from <= q < to ==> is_digit(#[trigger] s@[q]),
        decreases to - k,
    {
        let c = s[k];
        assert(is_digit(s@[k as int]));
        let d = (c as u32 - '0' as u32) as u128;
        let ghost prev = a + s@.subrange(from as int, k as int);
        let ghost next = a + s@.subrange(from as int, k + 1);
        assert(next == prev.push(c));
        assert(next.drop_last() == prev);
        assert(digits_val(next) == v * 10 + d);
        assert(next == full.take(next.len() as int));
        if v > (bound - d) / 10 {
            proof {
                assert(v * 10 + d > bound) by (nonlinear_arith)
                    requires v > (bound - d) / 10, d <= 9, d <= bound;
                lemma_digits_val_prefix(full, next.len() as int);
            }
            return None;
        }
        assert(v * 10 + d <= bound) by (nonlinear_arith)
            requires v <= (bound - d) / 10, d <= 9, d <= bound;
        v = v * 10 + d;
        k = k + 1;
    }
    Some(v)
}

/// An integer that fits in a `u32`.
fn integer(s: &Vec<char>, i: usize) -> (r: Option<(u32, usize)>)
    requires
        i <= s.len(),
    ensures
        r matches Some((n, j)) ==> p_integer(s@, i as int) == Some((n, j as int)) && i < j
            <= s.len(),
        r is None ==> p_integer(s@, i as int) is None,
{
    match int_end_x(s, i) {
        Some(j) => {
            proof {
                assert(Seq::<char>::empty() + s@.subrange(i as int, j as int) == s@.subrange(
                    i as int,
                    j as int,
                ));
            }
            match accum_digits(s, i, j, 0, u32::MAX as u128, Ghost(Seq::empty())) {
                Some(v) => Some((v as u32, j)),
                None => None,
            }
        },
        None => None,
    }
}

/// The end of `s[from..to]` without its trailing zeros.
fn strip_zeros_end(s: &Vec<char>, from: usize, to: usize) -> (r: usize)
    requires
        from <= to <= s.len(),
    ensures
        from <= r <= to,
        s@.subrange(from as int, r as int) == strip_zeros(s@.subrange(from as int, to as int)),
{
    let mut e = to;
    while e > from && s[e - 1] == '0'
        invariant
            from <= e <= to <= s.len(),
            strip_zeros(s@.subrange(from as int, e as int)) == strip_zeros(
                s@.subrange(from as int, to as int),
            ),
        decreases e,
    {
        assert(s@.subrange(from as int, e as int).drop_last() == s@.subrange(
            from as int,
            e - 1,
        ));
        e = e - 1;
    }
    e
}

/// The decimal with the digits `s[i..k]` and fractional digits `s[f..g]`.
fn make_literal_x(s: &Vec<char>, i: usize, k: usize, f: usize, g: usize) -> (r: Option<Decimal>)
    requires
        i <= k <= s.len(),
        f <= g <= s.len(),
        forall|q: int| i <= q < k ==> is_digit(#[trigger] s@[q]),
        forall|q: int| f <= q < g ==> is_digit(#[trigger] s@[q]),
    ensures
        r == make_literal(s@.subrange(i as int, k as int), s@.subrange(f as int, g as int)),
{
    let e = strip_zeros_end(s, f, g);
    let ghost ip = s@.subrange(i as int, k as int);
    let ghost fp = s@.subrange(f as int, e as int);
    if e - f > MAX_SCALE as usize {
        return None;
    }
    assert(Seq::<char>::empty() + ip == ip);
    match accum_digits(s, i, k, 0, i128::MAX as u128, Ghost(Seq::empty())) {
        Some(v) => {
            match accum_digits(s, f, e, v, i128::MAX as u128, Ghost(ip)) {
                Some(m) => Some(Decimal { mantissa: m as i128, scale: (e - f) as u32 }),
                None => None,
            }
        },
        None => {
            proof {
                lemma_digits_val_prefix(ip + fp, ip.len() as int);
                assert((ip + fp).take(ip.len() as int) == ip);
            }
            None
        },
    }
}

/// A literal.
fn literal(s: &Vec<char>, i: usize) -> (r: Option<(Decimal, usize)>)
    requires
        i <= s.len(),
    ensures
        r matches Some((d, j)) ==> p_literal(s@, i as int) == Some((d, j as int)) && i < j
            <= s.len() && d.wf(),
        r is None ==> p_literal(s@, i as int) is None,
{
    let ie = int_end_x(s, i);
    let k = match ie {
        Some(j) => j,
        None => i,
    };
    if at_x(s, k, '.') && k + 1 < s.len() && is_digit_x(s[k + 1]) {
        let j = digits_end_x(s, k + 1);
        match make_literal_x(s, i, k, k + 1, j) {
            Some(d) => {
                return Some((d, j));
            },
            None => {},
        }
    }
    match ie {
        Some(j) => {
            assert(s@.subrange(j as int, j as int) == Seq::<char>::empty());
            match make_literal_x(s, i, j, j, j) {
                Some(d) => Some((d, j)),
                None => None,
            }
        },
        None => None,
    }
}

/// A selector.
fn selector(s: &Vec<char>, i: usize) -> (r: Option<(SetSel, usize)>)
    requires
        i <= s.len(),
    ensures
        r matches Some((sel, j)) ==> p_selector(s@, i as int) == Some((sel, j as int)) && i < j
            <= s.len(),
        r is None ==> p_selector(s@, i as int) is None,
{
    let (cat, j) = if at_x(s, i, 'l') {
        (SelCat::Lo, i + 1)
    } else if at_x(s, i, 'h') {
        (SelCat::Hi, i + 1)
    } else if at_x(s, i, '<') {
        (SelCat::Lt, i + 1)
    } else if at_x(s, i, '>') {
        (SelCat::Gt, i + 1)
    } else {
        (SelCat::Lit, i)
    };
    match integer(s, j) {
        Some((n, k)) => Some((SetSel { cat, num: n }, k)),
        None => None,
    }
}

/// A set operator.
fn set_op(s: &Vec<char>, i: usize) -> (r: Option<(SetOp, usize)>)
    requires
        i <= s.len(),
    ensures
        r matches Some((op, j)) ==> p_set_op(s@, i as int) == Some((op@, j as int)) && i < j
            <= s.len(),
        r is None ==> p_set_op(s@, i as int) is None,
{
    let kind = if at_x(s, i, 'k') {
        SetOpKind::Keep
    } else if at_x(s, i, 'p') {
        SetOpKind::Drop
    } else {
        return None;
    };
    match selector(s, i + 1) {
        Some((sel, j)) => Some((SetOp::new(kind, sel), j)),
        None => None,
    }
}

/// Set operators, one after the other.
fn set_ops(s: &Vec<char>, i: usize) -> (r: (Vec<SetOp>, usize))
    requires
        i <= s.len(),
    ensures
        (ops_view(r.0@), r.1 as int) == p_set_ops(s@, i as int),
        i <= r.1 <= s.len(),
{
    let mut ops: Vec<SetOp> = Vec::new();
    let mut k = i;
    loop
        invariant
            i <= k <= s.len(),
            p_set_ops(s@, i as int) == (ops_view(ops@) + p_set_ops(s@, k as int).0, p_set_ops(
                s@,
                k as int,
            ).1),
        decreases s.len() - k,
    {
        match set_op(s, k) {
            Some((op, j)) => {
                let ghost before = ops_view(ops@);
                ops.push(op);
                proof {
                    assert(ops_view(ops@) == before.push(op@));
                    assert(before + (seq![op@] + p_set_ops(s@, j as int).0) == before.push(op@)
                        + p_set_ops(s@, j as int).0);
                }
                k = j;
            },
            None => {
                assert(ops_view(ops@) + Seq::<OpView>::empty() == ops_view(ops@));
                return (ops, k);
            },
        }
    }
}

/// A dice operator.
fn dice_op(s: &Vec<char>, i: usize) -> (r: Option<(SetOp, usize)>)
    requires
        i <= s.len(),
    ensures
        r matches Some((op, j)) ==> p_dice_op(s@, i as int) == Some((op@, j as int)) && i < j
            <= s.len(),
        r is None ==> p_dice_op(s@, i as int) is None,
{
    let first = if at2_x(s, i, 'r', 'r') {
        Some((SetOpKind::Reroll, i + 2))
    } else if at2_x(s, i, 'r', 'o') {
        Some((SetOpKind::RerollOnce, i + 2))
    } else if at2_x(s, i, 'r', 'a') {
        Some((SetOpKind::ExplodeOnce, i + 2))
    } else if at_x(s, i, 'e') {
        Some((SetOpKind::Explode, i + 1))
    } else if at_x(s, i, 'k') {
        Some((SetOpKind::Keep, i + 1))
    } else if at_x(s, i, 'p') {
        Some((SetOpKind::Drop, i + 1))
    } else {
        None
    };
    match first {
        Some((op, j)) => match selector(s, j) {
            Some((sel, k)) => {
                return Some((SetOp::new(op, sel), k));
            },
            None => {},
        },
        None => {},
    }
    let second = if at2_x(s, i, 'm', 'i') {
        Some((SetOpKind::Min, i + 2))
    } else if at2_x(s, i, 'm', 'a') {
        Some((SetOpKind::Max, i + 2))
    } else {
        None
    };
    match second {
        Some((op, j)) => match integer(s, j) {
            Some((n, k)) => Some((SetOp::new(op, SetSel { cat: SelCat::Lit, num: n }), k)),
            None => None,
        },
        None => None,
    }
}

/// Dice operators, one after the other.
fn dice_ops(s: &Vec<char>, i: usize) -> (r: (Vec<SetOp>, usize))
    requires
        i <= s.len(),
    ensures
        (ops_view(r.0@), r.1 as int) == p_dice_ops(s@, i as int),
        i <= r.1 <= s.len(),
{
    let mut ops: Vec<SetOp> = Vec::new();
    let mut k = i;
    loop
        invariant
            i <= k <= s.len(),
            p_dice_ops(s@, i as int) == (ops_view(ops@) + p_dice_ops(s@, k as int).0, p_dice_ops(
                s@,
                k as int,
            ).1),
        decreases s.len() - k,
    {
        match dice_op(s, k) {
            Some((op, j)) => {
                let ghost before = ops_view(ops@);
                ops.push(op);
                proof {
                    assert(ops_view(ops@) == before.push(op@));
                    assert(before + (seq![op@] + p_dice_ops(s@, j as int).0) == before.push(op@)
                        + p_dice_ops(s@, j as int).0);
                }
                k = j;
            },
            None => {
                assert(ops_view(ops@) + Seq::<OpView>::empty() == ops_view(ops@));
                return (ops, k);
            },
        }
    }
}

/// The sides of a die.
fn sides(s: &Vec<char>, i: usize) -> (r: Option<(DieSides, usize)>)
    requires
        i <= s.len(),
    ensures
        r matches Some((d, j)) ==> p_sides(s@, i as int) == Some((d, j as int)) && i < j
            <= s.len(),
        r is None ==> p_sides(s@, i as int) is None,
{
    if at_x(s, i, 'd') {
        match integer(s, i + 1) {
            Some((n, j)) => Some((DieSides::Literal(n), j)),
            None => if at_x(s, i + 1, '%') {
                Some((DieSides::Percentile, i + 2))
            } else {
                None
            },
        }
    } else {
        None
    }
}

/// A dice expression.
fn dice_expr(s: &Vec<char>, i: usize) -> (r: Option<(DiceExpr, usize)>)
    requires
        i <= s.len(),
    ensures
        r matches Some((d, j)) ==> p_dice_expr(s@, i as int) == Some(((d.num, d.sides), j as int))
            && i < j <= s.len(),
        r is None ==> p_dice_expr(s@, i as int) is None,
{
    match integer(s, i) {
        Some((n, j)) => match sides(s, j) {
            Some((sd, k)) => {
                return Some((DiceExpr { num: n, sides: sd }, k));
            },
            None => {},
        },
        None => {},
    }
    match sides(s, i) {
        Some((sd, k)) => Some((DiceExpr { num: 1, sides: sd }, k)),
        None => None,
    }
}

/// Simplifying keeps every operator's selectors non-empty, and keeps
/// operators that only keep or drop so.
proof fn lemma_simplify_wf(ops: Seq<OpView>)
    ensures
        ops_have_sels(ops) ==> ops_have_sels(simplify(ops)),
        ops_for_any_set(ops) ==> ops_for_any_set(simplify(ops)),
    decreases ops.len(),
{
    if ops.len() > 0 {
        let prev = ops.drop_last();
        lemma_simplify_wf(prev);
        assert(ops_have_sels(ops) ==> ops_have_sels(prev)) by {
            if ops_have_sels(ops) {
                assert forall|i: int| 0 <= i < prev.len() implies #[trigger] prev[i].sels.len() > 0 by {
                    assert(prev[i] == ops[i]);
                }
            }
        }
        assert(ops_for_any_set(ops) ==> ops_for_any_set(prev)) by {
            if ops_for_any_set(ops) {
                assert forall|i: int| 0 <= i < prev.len() implies #[trigger] prev[i].op.for_any_set() by {
                    assert(prev[i] == ops[i]);
                }
            }
        }
        let sp = simplify(prev);
        let op = ops.last();
        assert(ops_have_sels(ops) ==> op.sels.len() > 0) by {
            if ops_have_sels(ops) {
                assert(ops[ops.len() - 1].sels.len() > 0);
            }
        }
        assert(ops_for_any_set(ops) ==> op.op.for_any_set()) by {
            if ops_for_any_set(ops) {
                assert(ops[ops.len() - 1].op.for_any_set());
            }
        }
        let r = simplify(ops);
        assert(r == simplify_step(sp, op));
        if ops_have_sels(ops) {
            assert forall|i: int| 0 <= i < r.len() implies #[trigger] r[i].sels.len() > 0 by {
                if i < sp.len() - 1 || (i == sp.len() - 1 && r.len() > sp.len()) {
                    assert(r[i] == sp[i]);
                }
            }
        }
        if ops_for_any_set(ops) {
            assert forall|i: int| 0 <= i < r.len() implies #[trigger] r[i].op.for_any_set() by {
                if i < sp.len() - 1 || (i == sp.len() - 1 && r.len() > sp.len()) {
                    assert(r[i] == sp[i]);
                }
            }
        }
    }
}

/// Every dice operator the grammar accepts has a selector.
proof fn lemma_dice_ops_wf(s: Seq<char>, i: int)
    ensures
        ops_have_sels(p_dice_ops(s, i).0),
    decreases s.len() - i,
{
    match p_dice_op(s, i) {
        Some((op, j)) => if i < j <= s.len() {
            lemma_dice_ops_wf(s, j);
            let rest = p_dice_ops(s, j).0;
            let all = seq![op] + rest;
            assert forall|q: int| 0 <= q < all.len() implies #[trigger] all[q].sels.len() > 0 by {
                if q > 0 {
                    assert(all[q] == rest[q - 1]);
                }
            }
        },
        None => {},
    }
}

/// Every set operator the grammar accepts keeps or drops with a selector.
proof fn lemma_set_ops_wf(s: Seq<char>, i: int)
    ensures
        ops_have_sels(p_set_ops(s, i).0),
        ops_for_any_set(p_set_ops(s, i).0),
    decreases s.len() - i,
{
    match p_set_op(s, i) {
        Some((op, j)) => if i < j <= s.len() {
            lemma_set_ops_wf(s, j);
            let rest = p_set_ops(s, j).0;
            let all = seq![op] + rest;
            assert forall|q: int| 0 <= q < all.len() implies #[trigger] all[q].sels.len() > 0 by {
                if q > 0 {
                    assert(all[q] == rest[q - 1]);
                }
            }
            assert forall|q: int| 0 <= q < all.len() implies #[trigger] all[q].op.for_any_set() by {
                if q > 0 {
                    assert(all[q] == rest[q - 1]);
                }
            }
        },
        None => {},
    }
}

/// A dice expression followed by dice operators.
fn dice(s: &Vec<char>, i: usize) -> (r: Option<(Node, usize)>)
    requires
        i <= s.len(),
    ensures
        r matches Some((n, j)) ==> p_dice(s@, i as int) == Some((tree_of(n), j as int)) && i
            < j <= s.len() && parsed_wf(tree_of(n)),
        r is None ==> p_dice(s@, i as int) is None,
{
    match dice_expr(s, i) {
        Some((d, j)) => {
            let (ops, k) = dice_ops(s, j);
            let sl = ops.as_slice();
            assert(sl@ == ops@);
            let simple = simplify_ops(sl);
            proof {
                lemma_dice_ops_wf(s@, j as int);
                lemma_simplify_wf(ops_view(ops@));
                lemma_clamps_have_sels(simplify(ops_view(ops@)));
                law_simplify_merges(ops_view(ops@));
            }
            let n = Node::Dice(Dice { value: Box::new(Node::DiceExpr(d)), ops: simple });
            proof {
                assert(tree_of(Node::DiceExpr(d)) == Tree::DiceExpr { num: d.num, sides: d.sides });
                assert(tree_of(n) == Tree::Dice {
                    value: Box::new(Tree::DiceExpr { num: d.num, sides: d.sides }),
                    ops: simplify(p_dice_ops(s@, j as int).0),
                });
                assert(p_dice(s@, i as int) == Some((tree_of(n), k as int)));
                assert(parsed_wf(Tree::DiceExpr { num: d.num, sides: d.sides }));
                assert(crate::ast::evaluates_to_dice(Tree::DiceExpr { num: d.num, sides: d.sides }));
                assert(parsed_wf(tree_of(n)));
            }
            Some((n, k))
        },
        None => None,
    }
}


/// The index of the first `]` at or after `i`.
fn close_bracket_x(s: &Vec<char>, i: usize) -> (r: Option<usize>)
    requires
        i <= s.len(),
    ensures
        r matches Some(e) ==> close_bracket(s@, i as int) == Some(e as int) && i <= e < s.len(),
        r is None ==> close_bracket(s@, i as int) is None,
{
    let mut k = i;
    while k < s.len()
        invariant
            i <= k <= s.len(),
            close_bracket(s@, i as int) == close_bracket(s@, k as int),
        decreases s.len() - k,
    {
        if s[k] == ']' {
            return Some(k);
        }
        k = k + 1;
    }
    None
}

/// Annotations, each with white space around it.
fn ann_list(s: &Vec<char>, i: usize) -> (r: (Vec<String>, usize))
    requires
        i <= s.len(),
    ensures
        (strings_view(r.0@), r.1 as int) == p_ann_list(s@, i as int),
        i <= r.1 <= s.len(),
{
    let mut anns: Vec<String> = Vec::new();
    let mut k = i;
    loop
        invariant
            i <= k <= s.len(),
            p_ann_list(s@, i as int) == (strings_view(anns@) + p_ann_list(s@, k as int).0,
            p_ann_list(s@, k as int).1),
        decreases s.len() - k,
    {
        let k1 = skip_whitespace(s, k);
        if at_x(s, k1, '[') {
            match close_bracket_x(s, k1 + 1) {
                Some(e) => {
                    let k2 = skip_whitespace(s, e + 1);
                    let a = string_of(s, k1, e + 1);
                    let ghost before = strings_view(anns@);
                    anns.push(a);
                    proof {
                        assert(strings_view(anns@) == before.push(a@));
                        assert(before + (seq![a@] + p_ann_list(s@, k2 as int).0) == before.push(
                            a@,
                        ) + p_ann_list(s@, k2 as int).0);
                    }
                    k = k2;
                },
                None => {
                    assert(strings_view(anns@) + Seq::<Seq<char>>::empty() == strings_view(
                        anns@,
                    ));
                    return (anns, k);
                },
            }
        } else {
            assert(strings_view(anns@) + Seq::<Seq<char>>::empty() == strings_view(anns@));
            return (anns, k);
        }
    }
}

/// The annotations after an atom.
fn annotations(s: &Vec<char>, i: usize) -> (r: (Vec<String>, usize))
    requires
        i <= s.len(),
    ensures
        (strings_view(r.0@), r.1 as int) == p_annotations(s@, i as int),
        i <= r.1 <= s.len(),
{
    let k = skip_whitespace(s, i);
    let (anns, k2) = ann_list(s, k);
    let k3 = skip_whitespace(s, k2);
    (anns, k3)
}

/// The operator of a tier at `i`.
fn tier_op_x(tier: u8, s: &Vec<char>, i: usize) -> (r: Option<(BinOpKind, usize)>)
    requires
        tier <= 2,
        i <= s.len(),
    ensures
        r matches Some((op, j)) ==> tier_op(tier as int, s@, i as int) == Some((op, j as int))
            && i < j <= s.len(),
        r is None ==> tier_op(tier as int, s@, i as int) is None,
{
    if tier == 2 {
        if at2_x(s, i, '=', '=') {
            Some((BinOpKind::Eq, i + 2))
        } else if at2_x(s, i, '!', '=') {
            Some((BinOpKind::Ne, i + 2))
        } else if at2_x(s, i, '>', '=') {
            Some((BinOpKind::Ge, i + 2))
        } else if at2_x(s, i, '<', '=') {
            Some((BinOpKind::Le, i + 2))
        } else if at_x(s, i, '>') {
            Some((BinOpKind::Gt, i + 1))
        } else if at_x(s, i, '<') {
            Some((BinOpKind::Lt, i + 1))
        } else {
            None
        }
    } else if tier == 1 {
        if at_x(s, i, '+') {
            Some((BinOpKind::Add, i + 1))
        } else if at_x(s, i, '-') {
            Some((BinOpKind::Sub, i + 1))
        } else {
            None
        }
    } else {
        if at2_x(s, i, '/', '/') {
            Some((BinOpKind::FloorDiv, i + 2))
        } else if at_x(s, i, '*') {
            Some((BinOpKind::Mul, i + 1))
        } else if at_x(s, i, '/') {
            Some((BinOpKind::Div, i + 1))
        } else if at_x(s, i, '%') {
            Some((BinOpKind::Mod, i + 1))
        } else {
            None
        }
    }
}

/// An expression.
fn expr_at(s: &Vec<char>, i: usize) -> (r: Option<(Node, usize)>)
    requires
        i <= s.len(),
    ensures
        r matches Some((n, j)) ==> p_expr(s@, i as int) == Some((tree_of(n), j as int)) && i
            <= j <= s.len() && parsed_wf(tree_of(n)),
        r is None ==> p_expr(s@, i as int) is None,
    decreases s.len() - i, 10int,
{
    tier_at(2, s, i)
}

/// A binary expression of the given tier.
fn tier_at(tier: u8, s: &Vec<char>, i: usize) -> (r: Option<(Node, usize)>)
    requires
        tier <= 2,
        i <= s.len(),
    ensures
        r matches Some((n, j)) ==> p_tier(tier as int, s@, i as int) == Some((tree_of(n), j as int))
            && i <= j <= s.len() && parsed_wf(tree_of(n)),
        r is None ==> p_tier(tier as int, s@, i as int) is None,
    decreases s.len() - i, 4 + 2 * tier + 1,
{
    let first = if tier == 0 {
        unary(s, i)
    } else {
        tier_at(tier - 1, s, i)
    };
    match first {
        Some((left, j)) => tier_rest(tier, s, left, j, Ghost(i)),
        None => None,
    }
}

/// Further operators and operands of a binary expression.
fn tier_rest(tier: u8, s: &Vec<char>, first: Node, j: usize, Ghost(i): Ghost<usize>) -> (r:
    Option<(Node, usize)>)
    requires
        tier <= 2,
        i <= j <= s.len(),
        parsed_wf(tree_of(first)),
    ensures
        r matches Some((n, e)) ==> p_tier_rest(tier as int, s@, tree_of(first), j as int) == Some(
            (tree_of(n), e as int),
        ) && j <= e <= s.len() && parsed_wf(tree_of(n)),
        r is None ==> p_tier_rest(tier as int, s@, tree_of(first), j as int) is None,
    decreases s.len() - j, 4 + 2 * tier,
{
    let mut acc = first;
    let mut cur = j;
    let ghost acc0 = tree_of(acc);
    loop
        invariant
            tier <= 2,
            j <= cur <= s.len(),
            acc0 == tree_of(first),
            parsed_wf(tree_of(acc)),
            p_tier_rest(tier as int, s@, acc0, j as int) == p_tier_rest(
                tier as int,
                s@,
                tree_of(acc),
                cur as int,
            ),
        decreases s.len() - cur,
    {
        let k = skip_whitespace(s, cur);
        match tier_op_x(tier, s, k) {
            Some((op, k2)) => {
                let k3 = skip_whitespace(s, k2);
                let next = if tier == 0 {
                    unary(s, k3)
                } else {
                    tier_at(tier - 1, s, k3)
                };
                match next {
                    Some((right, k4)) => {
                        acc = Node::BinOp(BinOp { op, left: Box::new(acc), right: Box::new(right) });
                        cur = k4;
                    },
                    None => {
                        assert(p_tier_rest(tier as int, s@, tree_of(acc), cur as int) == Some(
                            (tree_of(acc), cur as int),
                        ));
                        return Some((acc, cur));
                    },
                }
            },
            None => {
                assert(tier_op(tier as int, s@, k as int) is None);
                assert(p_tier_rest(tier as int, s@, tree_of(acc), cur as int) == Some(
                    (tree_of(acc), cur as int),
                ));
                return Some((acc, cur));
            },
        }
    }
}

/// Prefix operators and an atom.
fn unary(s: &Vec<char>, i: usize) -> (r: Option<(Node, usize)>)
    requires
        i <= s.len(),
    ensures
        r matches Some((n, j)) ==> p_unary(s@, i as int) == Some((tree_of(n), j as int)) && i
            <= j <= s.len() && parsed_wf(tree_of(n)),
        r is None ==> p_unary(s@, i as int) is None,
    decreases s.len() - i, 3int,
{
    let k = skip_whitespace(s, i);
    let op = if at_x(s, k, '+') {
        UnOpKind::Pos
    } else if at_x(s, k, '-') {
        UnOpKind::Neg
    } else {
        return atom(s, i);
    };
    let k2 = skip_whitespace(s, k + 1);
    match unary(s, k2) {
        Some((v, e)) => Some((Node::UnOp(UnOp { op, value: Box::new(v) }), e)),
        None => None,
    }
}

/// A number expression followed by its annotations.
fn atom(s: &Vec<char>, i: usize) -> (r: Option<(Node, usize)>)
    requires
        i <= s.len(),
    ensures
        r matches Some((n, j)) ==> p_atom(s@, i as int) == Some((tree_of(n), j as int)) && i
            <= j <= s.len() && parsed_wf(tree_of(n)),
        r is None ==> p_atom(s@, i as int) is None,
    decreases s.len() - i, 2int,
{
    match num_expr(s, i) {
        Some((n, j)) => {
            let (anns, k) = annotations(s, j);
            if anns.len() == 0 {
                Some((n, k))
            } else {
                Some((Node::Annotated(Annotated { value: Box::new(n), annotations: anns }), k))
            }
        },
        None => None,
    }
}

/// A parenthesized expression, dice, a set, or a literal.
fn num_expr(s: &Vec<char>, i: usize) -> (r: Option<(Node, usize)>)
    requires
        i <= s.len(),
    ensures
        r matches Some((n, j)) ==> p_num_expr(s@, i as int) == Some((tree_of(n), j as int)) && i
            <= j <= s.len() && parsed_wf(tree_of(n)),
        r is None ==> p_num_expr(s@, i as int) is None,
    decreases s.len() - i, 1int,
{
    if at_x(s, i, '(') {
        let k = skip_whitespace(s, i + 1);
        match expr_at(s, k) {
            Some((e, k2)) => {
                let k3 = skip_whitespace(s, k2);
                if at_x(s, k3, ')') {
                    let (ops, k4) = set_ops(s, k3 + 1);
                    let ghost et = tree_of(e);
                    assert(parsed_wf(et));
                    let p = Node::Parenthetical(Parenthetical { value: Box::new(e) });
                    assert(tree_of(p) == Tree::Parenthetical(Box::new(et)));
                    if ops.len() == 0 {
                        return Some((p, k4));
                    } else {
                        let sl = ops.as_slice();
                        assert(sl@ == ops@);
                        let simple = simplify_ops(sl);
                        let ghost opv = p_set_ops(s@, k3 + 1).0;
                        let ghost pt = tree_of(p);
                        proof {
                            lemma_set_ops_wf(s@, k3 + 1);
                            lemma_simplify_wf(ops_view(ops@));
                            assert(ops_view(ops@) == opv);
                            assert(ops_view(simple@) == simplify(opv));
                            assert(opv.len() == ops@.len());
                            assert(ops_have_sels(simplify(opv)));
                            lemma_clamps_have_sels(simplify(opv));
                            assert(ops_for_any_set(simplify(opv)));
                            law_simplify_merges(opv);
                            assert(parsed_wf(pt));
                        }
                        let n = Node::SetWithOps(SetWithOps { value: Box::new(p), ops: simple });
                        proof {
                            assert(tree_of(n) == Tree::SetWithOps { value: Box::new(pt), ops: simplify(opv) });
                            assert(parsed_wf(tree_of(n)));
                        }
                        return Some((n, k4));
                    }
                }
            },
            None => {},
        }
    }
    let k = skip_whitespace(s, i);
    match dice(s, k) {
        Some((d, j)) => {
            return Some((d, skip_whitespace(s, j)));
        },
        None => {},
    }
    match set(s, k) {
        Some((st, j)) => {
            return Some((st, skip_whitespace(s, j)));
        },
        None => {},
    }
    match literal(s, k) {
        Some((d, j)) => Some((Node::Literal(Literal { value: d }), skip_whitespace(s, j))),
        None => None,
    }
}

/// A parenthesized, comma separated set of expressions and set operators.
fn set(s: &Vec<char>, i: usize) -> (r: Option<(Node, usize)>)
    requires
        i <= s.len(),
    ensures
        r matches Some((n, j)) ==> p_set(s@, i as int) == Some((tree_of(n), j as int)) && i <= j
            <= s.len() && parsed_wf(tree_of(n)),
        r is None ==> p_set(s@, i as int) is None,
    decreases s.len() - i, 0int,
{
    if at_x(s, i, '(') {
        let (items, j) = items(s, i + 1);
        if at_x(s, j, ')') {
            let (ops, k) = set_ops(s, j + 1);
            let sl = ops.as_slice();
            assert(sl@ == ops@);
            let simple = simplify_ops(sl);
            let ghost items_v = items@;
            let ghost ts = trees_of(items_v);
            let ghost opv = p_set_ops(s@, j + 1).0;
            proof {
                lemma_set_ops_wf(s@, j + 1);
                lemma_simplify_wf(ops_view(ops@));
                lemma_clamps_have_sels(simplify(ops_view(ops@)));
                lemma_trees_of(items_v);
                assert(ts == p_items(s@, i + 1).0);
                assert(ops_view(ops@) == opv);
                assert(ops_view(simple@) == simplify(opv));
                assert forall|q: int| 0 <= q < ts.len() implies parsed_wf(#[trigger] ts[q]) by {
                    assert(ts[q] == tree_of(items_v[q]));
                }
                assert forall|q: int| 0 <= q < ts.len() implies crate::ast::ops_in_place(#[trigger] ts[q]) by {
                    assert(parsed_wf(ts[q]));
                }
                law_simplify_merges(opv);
            }
            let inner = Node::SetExpr(SetExpr { values: items });
            assert(tree_of(inner) == Tree::SetExpr(ts));
            assert(parsed_wf(tree_of(inner)));
            let n = Node::SetWithOps(SetWithOps { value: Box::new(inner), ops: simple });
            proof {
                assert(tree_of(n) == Tree::SetWithOps {
                    value: Box::new(Tree::SetExpr(ts)),
                    ops: simplify(opv),
                });
                assert(p_set(s@, i as int) == Some((tree_of(n), k as int)));
                assert(parsed_wf(tree_of(n)));
            }
            Some((n, k))
        } else {
            None
        }
    } else {
        None
    }
}

/// Comma separated expressions.
fn items(s: &Vec<char>, i: usize) -> (r: (Vec<Node>, usize))
    requires
        i <= s.len(),
    ensures
        (trees_of(r.0@), r.1 as int) == p_items(s@, i as int),
        i <= r.1 <= s.len(),
        forall|q: int| 0 <= q < r.0@.len() ==> parsed_wf(#[trigger] tree_of(r.0@[q])),
    decreases s.len() - i, 12int,
{
    match expr_at(s, i) {
        Some((e, j)) => {
            let mut acc: Vec<Node> = Vec::new();
            let ghost t = tree_of(e);
            acc.push(e);
            proof {
                lemma_trees_of_push(Seq::empty(), e);
                assert(Seq::<Node>::empty().push(e) == acc@);
                assert(trees_of(Seq::<Node>::empty()) == Seq::<Tree>::empty());
                assert(Seq::<Tree>::empty().push(t) == seq![t]);
            }
            items_rest(s, acc, j, Ghost(i))
        },
        None => (Vec::new(), i),
    }
}

/// Further comma separated expressions.
fn items_rest(s: &Vec<char>, first: Vec<Node>, j: usize, Ghost(i): Ghost<usize>) -> (r: (
    Vec<Node>,
    usize,
))
    requires
        i <= j <= s.len(),
        forall|q: int| 0 <= q < first@.len() ==> parsed_wf(#[trigger] tree_of(first@[q])),
    ensures
        (trees_of(r.0@), r.1 as int) == p_items_rest(s@, trees_of(first@), j as int),
        j <= r.1 <= s.len(),
        forall|q: int| 0 <= q < r.0@.len() ==> parsed_wf(#[trigger] tree_of(r.0@[q])),
    decreases s.len() - j, 11int,
{
    let mut acc = first;
    let mut cur = j;
    let ghost acc0 = trees_of(acc@);
    loop
        invariant
            j <= cur <= s.len(),
            acc0 == trees_of(first@),
            p_items_rest(s@, acc0, j as int) == p_items_rest(s@, trees_of(acc@), cur as int),
            forall|q: int| 0 <= q < acc@.len() ==> parsed_wf(#[trigger] tree_of(acc@[q])),
        decreases s.len() - cur,
    {
        let k = skip_whitespace(s, cur);
        if at_x(s, k, ',') {
            let k2 = skip_whitespace(s, k + 1);
            match expr_at(s, k2) {
                Some((e, k3)) => {
                    let ghost before = acc@;
                    acc.push(e);
                    proof {
                        lemma_trees_of_push(before, e);
                        assert(acc@ == before.push(e));
                        assert forall|q: int| 0 <= q < acc@.len() implies parsed_wf(
                            #[trigger] tree_of(acc@[q]),
                        ) by {
                            if q < before.len() {
                                assert(acc@[q] == before[q]);
                            }
                        }
                    }
                    cur = k3;
                },
                None => {
                    return (acc, k2);
                },
            }
        } else {
            return (acc, cur);
        }
    }
}

/// The character at offset `i`, if there is one.
fn char_at(s: &Vec<char>, i: usize) -> (r: Option<char>)
    ensures
        r == found_at(s@, i as int),
{
    if i < s.len() {
        Some(s[i])
    } else {
        None
    }
}

/// Parses a whole expression without a comment.
///
/// # Errors
///
/// If the input is not an expression, [`Error::Syntax`] is returned with the
/// position at which parsing stopped.
pub fn expr(input: &str) -> (r: Result<Expression, Error>)
    ensures
        r matches Ok(e) ==> parse_spec(input@) == Ok::<Tree, int>(tree_of(Node::Expression(e)))
            && parsed_wf(tree_of(Node::Expression(e))),
        r matches Err(err) ==> err matches Error::Syntax(se) && parse_spec(input@) == Err::<
            Tree,
            int,
        >(se.position as int) && se.found == found_at(input@, se.position as int),
{
    let s = chars_of(input);
    let k = skip_whitespace(&s, 0);
    match expr_at(&s, k) {
        Some((t, j)) => {
            let e = skip_whitespace(&s, j);
            if e == s.len() {
                Ok(Expression { roll: Box::new(t), comment: None })
            } else {
                Err(Error::Syntax(SyntaxError { position: e, found: char_at(&s, e) }))
            }
        },
        None => Err(Error::Syntax(SyntaxError { position: k, found: char_at(&s, k) })),
    }
}

/// Parses an expression followed by a comment: everything after the
/// expression, trimmed, is the comment.
///
/// # Errors
///
/// If the input does not start with an expression, [`Error::Syntax`] is
/// returned.
pub fn commented_expr(input: &str) -> (r: Result<Expression, Error>)
    ensures
        r matches Ok(e) ==> parse_commented_spec(input@) == Ok::<Tree, int>(
            tree_of(Node::Expression(e)),
        ) && parsed_wf(tree_of(Node::Expression(e))),
        r matches Err(err) ==> err matches Error::Syntax(se) && parse_commented_spec(input@)
            == Err::<Tree, int>(se.position as int) && se.found == found_at(input@, se.position as int),
{
    let s = chars_of(input);
    match expr_at(&s, 0) {
        Some((t, j)) => {
            let rest = string_of(&s, j, s.len());
            let c = trim_text(rest.as_str());
            let comment = if c.as_str().is_empty() {
                None
            } else {
                Some(c)
            };
            Ok(Expression { roll: Box::new(t), comment })
        },
        None => Err(Error::Syntax(SyntaxError { position: 0, found: char_at(&s, 0) })),
    }
}

} // verus!
