//! The grammar of dice expressions, as a parsing expression grammar over the
//! characters of the input.
//!
//! Each rule takes the input and a position and, when it matches, gives the
//! parsed value and the position just after it. Alternatives are tried in
//! order and the first that matches wins; repetitions take as many items as
//! match, one after the other.
use vstd::prelude::*;
use crate::ast::{simplify, OpView, SetSel, Tree};
use crate::kinds::{BinOpKind, DieSides, SelCat, SetOpKind, UnOpKind};
use crate::num::{Decimal, MAX_SCALE};
use crate::text::{digit_value, is_digit, skip_ws, trim};

verus! {

/// Whether the character at `i` is `c`.
pub open spec fn at(s: Seq<char>, i: int, c: char) -> bool {
    0 <= i < s.len() && s[i] == c
}

/// The end of the run of digits starting at `i`.
pub open spec fn digits_end(s: Seq<char>, i: int) -> int
    decreases s.len() - i,
{
    if 0 <= i < s.len() && is_digit(s[i]) {
        digits_end(s, i + 1)
    } else {
        i
    }
}

/// A non-negative integer: `0`, or a non-zero digit followed by digits.
pub open spec fn int_end(s: Seq<char>, i: int) -> Option<int> {
    if 0 <= i < s.len() && is_digit(s[i]) && s[i] != '0' {
        Some(digits_end(s, i + 1))
    } else if at(s, i, '0') {
        Some(i + 1)
    } else {
        None
    }
}

/// The value of a sequence of decimal digits.
pub open spec fn digits_val(t: Seq<char>) -> nat
    decreases t.len(),
{
    if t.len() == 0 {
        0
    } else {
        digits_val(t.drop_last()) * 10 + digit_value(t.last())
    }
}

/// An integer that fits in a `u32`.
pub open spec fn p_integer(s: Seq<char>, i: int) -> Option<(u32, int)> {
    match int_end(s, i) {
        Some(j) => {
            let v = digits_val(s.subrange(i, j));
            if v <= u32::MAX {
                Some((v as u32, j))
            } else {
                None
            }
        },
        None => None,
    }
}

/// Digits without their trailing zeros.
pub open spec fn strip_zeros(t: Seq<char>) -> Seq<char>
    decreases t.len(),
{
    if t.len() > 0 && t.last() == '0' {
        strip_zeros(t.drop_last())
    } else {
        t
    }
}

/// The decimal with the given integer and fractional digits, if it can be
/// represented.
pub open spec fn make_literal(int_digits: Seq<char>, frac_digits: Seq<char>) -> Option<Decimal> {
    let f = strip_zeros(frac_digits);
    let m = digits_val(int_digits + f);
    if m <= i128::MAX && f.len() <= MAX_SCALE {
        Some(Decimal { mantissa: m as i128, scale: f.len() as u32 })
    } else {
        None
    }
}

/// A literal: digits with a fractional part (`1.5`, `.5`), or an integer.
pub open spec fn p_literal(s: Seq<char>, i: int) -> Option<(Decimal, int)> {
    let k = match int_end(s, i) {
        Some(j) => j,
        None => i,
    };
    let decimal = if at(s, k, '.') && 0 <= k + 1 < s.len() && is_digit(s[k + 1]) {
        let j = digits_end(s, k + 1);
        match make_literal(s.subrange(i, k), s.subrange(k + 1, j)) {
            Some(d) => Some((d, j)),
            None => None,
        }
    } else {
        None
    };
    if decimal is Some {
        decimal
    } else {
        match int_end(s, i) {
            Some(j) => match make_literal(s.subrange(i, j), Seq::empty()) {
                Some(d) => Some((d, j)),
                None => None,
            },
            None => None,
        }
    }
}

/// A selector: an optional kind (`l`, `h`, `<`, `>`) and an integer.
pub open spec fn p_selector(s: Seq<char>, i: int) -> Option<(SetSel, int)> {
    let (cat, j) = if at(s, i, 'l') {
        (SelCat::Lo, i + 1)
    } else if at(s, i, 'h') {
        (SelCat::Hi, i + 1)
    } else if at(s, i, '<') {
        (SelCat::Lt, i + 1)
    } else if at(s, i, '>') {
        (SelCat::Gt, i + 1)
    } else {
        (SelCat::Lit, i)
    };
    match p_integer(s, j) {
        Some((n, k)) => Some((SetSel { cat, num: n }, k)),
        None => None,
    }
}

/// A set operator: `k` or `p` and a selector.
pub open spec fn p_set_op(s: Seq<char>, i: int) -> Option<(OpView, int)> {
    let kind = if at(s, i, 'k') {
        Some(SetOpKind::Keep)
    } else if at(s, i, 'p') {
        Some(SetOpKind::Drop)
    } else {
        None
    };
    match kind {
        Some(op) => match p_selector(s, i + 1) {
            Some((sel, j)) => Some((OpView { op, sels: seq![sel] }, j)),
            None => None,
        },
        None => None,
    }
}

/// Set operators, one after the other, with nothing between them.
pub open spec fn p_set_ops(s: Seq<char>, i: int) -> (Seq<OpView>, int)
    decreases s.len() - i,
{
    match p_set_op(s, i) {
        Some((op, j)) => if i < j <= s.len() {
            let (rest, k) = p_set_ops(s, j);
            (seq![op] + rest, k)
        } else {
            (Seq::empty(), i)
        },
        None => (Seq::empty(), i),
    }
}

/// The two-character text `a b` at `i`.
pub open spec fn at2(s: Seq<char>, i: int, a: char, b: char) -> bool {
    at(s, i, a) && at(s, i + 1, b)
}

/// A dice operator: `rr`, `ro`, `ra`, `e`, `k` or `p` with a selector, or
/// `mi` or `ma` with an integer.
pub open spec fn p_dice_op(s: Seq<char>, i: int) -> Option<(OpView, int)> {
    let first = if at2(s, i, 'r', 'r') {
        Some((SetOpKind::Reroll, i + 2))
    } else if at2(s, i, 'r', 'o') {
        Some((SetOpKind::RerollOnce, i + 2))
    } else if at2(s, i, 'r', 'a') {
        Some((SetOpKind::ExplodeOnce, i + 2))
    } else if at(s, i, 'e') {
        Some((SetOpKind::Explode, i + 1))
    } else if at(s, i, 'k') {
        Some((SetOpKind::Keep, i + 1))
    } else if at(s, i, 'p') {
        Some((SetOpKind::Drop, i + 1))
    } else {
        None
    };
    let with_sel = match first {
        Some((op, j)) => match p_selector(s, j) {
            Some((sel, k)) => Some((OpView { op, sels: seq![sel] }, k)),
            None => None,
        },
        None => None,
    };
    if with_sel is Some {
        with_sel
    } else {
        let second = if at2(s, i, 'm', 'i') {
            Some((SetOpKind::Min, i + 2))
        } else if at2(s, i, 'm', 'a') {
            Some((SetOpKind::Max, i + 2))
        } else {
            None
        };
        match second {
            Some((op, j)) => match p_integer(s, j) {
                Some((n, k)) => Some((OpView { op, sels: seq![SetSel { cat: SelCat::Lit, num: n }] }, k)),
                None => None,
            },
            None => None,
        }
    }
}

/// Dice operators, one after the other, with nothing between them.
pub open spec fn p_dice_ops(s: Seq<char>, i: int) -> (Seq<OpView>, int)
    decreases s.len() - i,
{
    match p_dice_op(s, i) {
        Some((op, j)) => if i < j <= s.len() {
            let (rest, k) = p_dice_ops(s, j);
            (seq![op] + rest, k)
        } else {
            (Seq::empty(), i)
        },
        None => (Seq::empty(), i),
    }
}

/// The sides of a die: `d` and an integer, or `d%`.
pub open spec fn p_sides(s: Seq<char>, i: int) -> Option<(DieSides, int)> {
    if at(s, i, 'd') {
        match p_integer(s, i + 1) {
            Some((n, j)) => Some((DieSides::Literal(n), j)),
            None => if at(s, i + 1, '%') {
                Some((DieSides::Percentile, i + 2))
            } else {
                None
            },
        }
    } else {
        None
    }
}

/// A dice expression: an optional count (1 if absent) and the sides.
pub open spec fn p_dice_expr(s: Seq<char>, i: int) -> Option<((u32, DieSides), int)> {
    let counted = match p_integer(s, i) {
        Some((n, j)) => match p_sides(s, j) {
            Some((sides, k)) => Some(((n, sides), k)),
            None => None,
        },
        None => None,
    };
    if counted is Some {
        counted
    } else {
        match p_sides(s, i) {
            Some((sides, k)) => Some(((1u32, sides), k)),
            None => None,
        }
    }
}

/// A dice expression followed by dice operators.
pub open spec fn p_dice(s: Seq<char>, i: int) -> Option<(Tree, int)> {
    match p_dice_expr(s, i) {
        Some(((num, sides), j)) => {
            let (ops, k) = p_dice_ops(s, j);
            Some(
                (
                    Tree::Dice {
                        value: Box::new(Tree::DiceExpr { num, sides }),
                        ops: simplify(ops),
                    },
                    k,
                ),
            )
        },
        None => None,
    }
}

/// The index of the first `]` at or after `i`.
pub open spec fn close_bracket(s: Seq<char>, i: int) -> Option<int>
    decreases s.len() - i,
{
    if 0 <= i < s.len() {
        if s[i] == ']' {
            Some(i)
        } else {
            close_bracket(s, i + 1)
        }
    } else {
        None
    }
}

/// Annotations (`[...]`), each with white space around it.
pub open spec fn p_ann_list(s: Seq<char>, i: int) -> (Seq<Seq<char>>, int)
    decreases s.len() - i,
{
    let k = skip_ws(s, i);
    if at(s, k, '[') {
        match close_bracket(s, k + 1) {
            Some(e) => {
                let k2 = skip_ws(s, e + 1);
                if i < k2 <= s.len() {
                    let (rest, f) = p_ann_list(s, k2);
                    (seq![s.subrange(k, e + 1)] + rest, f)
                } else {
                    (Seq::empty(), i)
                }
            },
            None => (Seq::empty(), i),
        }
    } else {
        (Seq::empty(), i)
    }
}

/// The annotations after an atom, with white space around them.
pub open spec fn p_annotations(s: Seq<char>, i: int) -> (Seq<Seq<char>>, int) {
    let (anns, k) = p_ann_list(s, skip_ws(s, i));
    (anns, skip_ws(s, k))
}

/// A comparison operator.
pub open spec fn cmp_op(s: Seq<char>, i: int) -> Option<(BinOpKind, int)> {
    if at2(s, i, '=', '=') {
        Some((BinOpKind::Eq, i + 2))
    } else if at2(s, i, '!', '=') {
        Some((BinOpKind::Ne, i + 2))
    } else if at2(s, i, '>', '=') {
        Some((BinOpKind::Ge, i + 2))
    } else if at2(s, i, '<', '=') {
        Some((BinOpKind::Le, i + 2))
    } else if at(s, i, '>') {
        Some((BinOpKind::Gt, i + 1))
    } else if at(s, i, '<') {
        Some((BinOpKind::Lt, i + 1))
    } else {
        None
    }
}

/// An additive operator.
pub open spec fn add_op(s: Seq<char>, i: int) -> Option<(BinOpKind, int)> {
    if at(s, i, '+') {
        Some((BinOpKind::Add, i + 1))
    } else if at(s, i, '-') {
        Some((BinOpKind::Sub, i + 1))
    } else {
        None
    }
}

/// A multiplicative operator.
pub open spec fn mul_op(s: Seq<char>, i: int) -> Option<(BinOpKind, int)> {
    if at2(s, i, '/', '/') {
        Some((BinOpKind::FloorDiv, i + 2))
    } else if at(s, i, '*') {
        Some((BinOpKind::Mul, i + 1))
    } else if at(s, i, '/') {
        Some((BinOpKind::Div, i + 1))
    } else if at(s, i, '%') {
        Some((BinOpKind::Mod, i + 1))
    } else {
        None
    }
}

/// A prefix operator.
pub open spec fn prefix_op(s: Seq<char>, i: int) -> Option<UnOpKind> {
    if at(s, i, '+') {
        Some(UnOpKind::Pos)
    } else if at(s, i, '-') {
        Some(UnOpKind::Neg)
    } else {
        None
    }
}

/// The operator tiers of binary expressions, loosest first.
pub open spec fn tier_op(tier: int, s: Seq<char>, i: int) -> Option<(BinOpKind, int)> {
    if tier == 2 {
        cmp_op(s, i)
    } else if tier == 1 {
        add_op(s, i)
    } else {
        mul_op(s, i)
    }
}

/// An expression: comparisons of sums of products of unary expressions.
pub open spec fn p_expr(s: Seq<char>, i: int) -> Option<(Tree, int)>
    decreases s.len() - i, 10int,
{
    p_tier(2, s, i)
}

/// A binary expression of the given tier (2: comparison, 1: sum, 0: product).
pub open spec fn p_tier(tier: int, s: Seq<char>, i: int) -> Option<(Tree, int)>
    decreases s.len() - i, 4 + 2 * tier + 1,
{
    if 0 <= tier <= 2 {
        let first = if tier == 0 {
            p_unary(s, i)
        } else {
            p_tier(tier - 1, s, i)
        };
        match first {
            Some((left, j)) => if i <= j <= s.len() {
                p_tier_rest(tier, s, left, j)
            } else {
                None
            },
            None => None,
        }
    } else {
        None
    }
}

/// Further operators and operands of a binary expression, folded to the left.
pub open spec fn p_tier_rest(tier: int, s: Seq<char>, acc: Tree, j: int) -> Option<(Tree, int)>
    decreases s.len() - j, 4 + 2 * tier,
{
    if 0 <= tier <= 2 && 0 <= j <= s.len() {
        let k = skip_ws(s, j);
        match tier_op(tier, s, k) {
            Some((op, k2)) => {
                let k3 = skip_ws(s, k2);
                if j < k3 <= s.len() {
                    let next = if tier == 0 {
                        p_unary(s, k3)
                    } else {
                        p_tier(tier - 1, s, k3)
                    };
                    match next {
                        Some((right, k4)) => if k3 <= k4 <= s.len() {
                            p_tier_rest(
                                tier,
                                s,
                                Tree::BinOp { op, left: Box::new(acc), right: Box::new(right) },
                                k4,
                            )
                        } else {
                            None
                        },
                        None => Some((acc, j)),
                    }
                } else {
                    None
                }
            },
            None => Some((acc, j)),
        }
    } else {
        None
    }
}

/// Prefix operators (each with white space around it) and an atom.
pub open spec fn p_unary(s: Seq<char>, i: int) -> Option<(Tree, int)>
    decreases s.len() - i, 3int,
{
    if 0 <= i <= s.len() {
        let k = skip_ws(s, i);
        match prefix_op(s, k) {
            Some(op) => {
                let k2 = skip_ws(s, k + 1);
                if i < k2 <= s.len() {
                    match p_unary(s, k2) {
                        Some((v, e)) => Some((Tree::UnOp { op, value: Box::new(v) }, e)),
                        None => None,
                    }
                } else {
                    None
                }
            },
            None => p_atom(s, i),
        }
    } else {
        None
    }
}

/// A number expression followed by its annotations.
pub open spec fn p_atom(s: Seq<char>, i: int) -> Option<(Tree, int)>
    decreases s.len() - i, 2int,
{
    match p_num_expr(s, i) {
        Some((n, j)) => {
            let (anns, k) = p_annotations(s, j);
            if anns.len() == 0 {
                Some((n, k))
            } else {
                Some((Tree::Annotated { value: Box::new(n), annotations: anns }, k))
            }
        },
        None => None,
    }
}

/// A parenthesized expression with set operators, dice, a set, or a literal.
pub open spec fn p_num_expr(s: Seq<char>, i: int) -> Option<(Tree, int)>
    decreases s.len() - i, 1int,
{
    let paren = if at(s, i, '(') && i < skip_ws(s, i + 1) <= s.len() {
        match p_expr(s, skip_ws(s, i + 1)) {
            Some((e, k2)) => {
                let k3 = skip_ws(s, k2);
                if at(s, k3, ')') {
                    let (ops, k4) = p_set_ops(s, k3 + 1);
                    let p = Tree::Parenthetical(Box::new(e));
                    if ops.len() == 0 {
                        Some((p, k4))
                    } else {
                        Some((Tree::SetWithOps { value: Box::new(p), ops: simplify(ops) }, k4))
                    }
                } else {
                    None
                }
            },
            None => None,
        }
    } else {
        None
    };
    let k = skip_ws(s, i);
    if paren is Some {
        paren
    } else if i <= k <= s.len() {
        match p_dice(s, k) {
            Some((d, j)) => Some((d, skip_ws(s, j))),
            None => match p_set(s, k) {
                Some((st, j)) => Some((st, skip_ws(s, j))),
                None => match p_literal(s, k) {
                    Some((d, j)) => Some((Tree::Literal(d), skip_ws(s, j))),
                    None => None,
                },
            },
        }
    } else {
        None
    }
}

/// A parenthesized, comma separated set of expressions (a trailing comma is
/// allowed) followed by set operators.
pub open spec fn p_set(s: Seq<char>, i: int) -> Option<(Tree, int)>
    decreases s.len() - i, 0int,
{
    if at(s, i, '(') && 0 <= i {
        let (items, j) = p_items(s, i + 1);
        if at(s, j, ')') {
            let (ops, k) = p_set_ops(s, j + 1);
            Some(
                (
                    Tree::SetWithOps { value: Box::new(Tree::SetExpr(items)), ops: simplify(ops) },
                    k,
                ),
            )
        } else {
            None
        }
    } else {
        None
    }
}

/// Expressions separated by commas (with white space around them).
pub open spec fn p_items(s: Seq<char>, i: int) -> (Seq<Tree>, int)
    decreases s.len() - i, 12int,
{
    if 0 <= i <= s.len() {
        match p_expr(s, i) {
            Some((e, j)) => if i <= j <= s.len() {
                p_items_rest(s, seq![e], j)
            } else {
                (Seq::empty(), i)
            },
            None => (Seq::empty(), i),
        }
    } else {
        (Seq::empty(), i)
    }
}

/// Further comma separated expressions.
pub open spec fn p_items_rest(s: Seq<char>, acc: Seq<Tree>, j: int) -> (Seq<Tree>, int)
    decreases s.len() - j, 11int,
{
    if 0 <= j <= s.len() {
        let k = skip_ws(s, j);
        if at(s, k, ',') {
            let k2 = skip_ws(s, k + 1);
            if j < k2 <= s.len() {
                match p_expr(s, k2) {
                    Some((e, k3)) => if k2 <= k3 <= s.len() {
                        p_items_rest(s, acc.push(e), k3)
                    } else {
                        (acc, j)
                    },
                    None => (acc, k2),
                }
            } else {
                (acc, j)
            }
        } else {
            (acc, j)
        }
    } else {
        (acc, j)
    }
}

/// The result of parsing a whole expression without a comment: white space,
/// the expression, white space, and the end of the input.
pub open spec fn parse_spec(s: Seq<char>) -> Result<Tree, int> {
    let k = skip_ws(s, 0);
    match p_expr(s, k) {
        Some((t, j)) => {
            let e = skip_ws(s, j);
            if e == s.len() {
                Ok(Tree::Expression { roll: Box::new(t), comment: None })
            } else {
                Err(e)
            }
        },
        None => Err(k),
    }
}

/// The result of parsing an expression followed by a comment: everything
/// after the expression, trimmed, is the comment.
pub open spec fn parse_commented_spec(s: Seq<char>) -> Result<Tree, int> {
    match p_expr(s, 0) {
        Some((t, j)) => {
            let c = trim(s.subrange(j, s.len() as int));
            Ok(
                Tree::Expression {
                    roll: Box::new(t),
                    comment: if c.len() == 0 {
                        None
                    } else {
                        Some(c)
                    },
                },
            )
        },
        None => Err(0),
    }
}

} // verus!
