//! Formatting of evaluated numbers and parsed trees as text.
use vstd::prelude::*;
use crate::ast::{join, ops_text, ops_view, sides_text, strings_view, texts_of, tree_of, tree_text, Node, SetOp as AstSetOp};
use crate::expr::{
    eops_view, lemma_nums_view, lemma_value_wf, num_view, num_wf, nums_view, total_of, value_of, KindV, Number,
    NumberKind, NumV, SetOp,
};
use crate::kinds::DieSides;
use crate::num::{decimal_text, nat_text, trunc_spec, Decimal};
use crate::text::push_char;

verus! {

/// The text of an optional value: its decimal text, or `NaN` where it cannot
/// be represented.
pub open spec fn value_text(v: Option<Decimal>) -> Seq<char> {
    match v {
        Some(d) => decimal_text(d),
        None => seq!['N', 'a', 'N'],
    }
}

/// The decimal texts of the values.
pub open spec fn decs_text(h: Seq<Decimal>) -> Seq<Seq<char>> {
    h.map_values(|d: Decimal| decimal_text(d))
}

/// The text of a literal: its values from the first to the current one, and
/// a `!` if it exploded.
pub open spec fn literal_text(history: Seq<Decimal>, exploded: bool) -> Seq<char> {
    join(decs_text(history), seq![' ', '-', '>', ' ']) + if exploded {
        seq!['!']
    } else {
        Seq::empty()
    }
}

/// The text with the annotation, if any, after a space.
pub open spec fn annotated(inner: Seq<char>, annotation: Option<Seq<char>>) -> Seq<char> {
    match annotation {
        Some(a) => inner + seq![' '] + a,
        None => inner,
    }
}

/// The text of a set of numbers and its operators.
pub open spec fn set_text(texts: Seq<Seq<char>>, ops: Seq<crate::ast::OpView>) -> Seq<char> {
    if texts.len() == 1 {
        seq!['('] + texts[0] + seq![',', ')'] + ops_text(ops)
    } else {
        seq!['('] + join(texts, seq![',', ' ']) + seq![')'] + ops_text(ops)
    }
}

/// The text of dice and their operators.
pub open spec fn dice_text(texts: Seq<Seq<char>>, ops: Seq<crate::ast::OpView>, num: u32, sides: DieSides) -> Seq<char> {
    nat_text(num as nat) + seq!['d'] + sides_text(sides) + ops_text(ops) + seq![' ', '('] + join(
        texts,
        seq![',', ' '],
    ) + seq![')']
}

/// The plain text of an evaluated number, making no distinction between kept
/// and dropped values.
pub open spec fn simple_text(n: NumV) -> Seq<char>
    decreases n, 1int,
{
    let inner = match n.kind {
        KindV::Expression { roll, .. } => simple_text(*roll) + seq![' ', '=', ' '] + value_text(total_of(*roll)),
        KindV::Literal { history, exploded } => literal_text(history, exploded),
        KindV::UnOp { op, value } => op.text() + simple_text(*value),
        KindV::BinOp { left, op, right } => simple_text(*left) + seq![' '] + op.text() + seq![' '] + simple_text(
            *right,
        ),
        KindV::Parenthetical { value, ops } => seq!['('] + simple_text(*value) + seq![')'] + ops_text(ops),
        KindV::NumSet { values, ops } => set_text(simple_texts(values), ops),
        KindV::Dice { values, ops, num, sides } => dice_text(simple_texts(values), ops, num, sides),
        KindV::Die { values, .. } => join(simple_texts(values), seq![',', ' ']),
    };
    annotated(inner, n.annotation)
}

/// The plain texts of the numbers.
pub open spec fn simple_texts(s: Seq<NumV>) -> Seq<Seq<char>>
    decreases s, 0int,
{
    if s.len() == 0 {
        Seq::empty()
    } else {
        simple_texts(s.drop_last()).push(simple_text(s.last()))
    }
}

/// A decimal as a `u32`: truncated, and saturated at the bounds.
pub open spec fn as_u32(d: Decimal) -> u32 {
    let t = trunc_spec(d);
    if t < 0 {
        0
    } else if t > u32::MAX {
        u32::MAX
    } else {
        t as u32
    }
}

/// Whether a roll shows the lowest or the highest face of its die.
pub open spec fn is_extreme(v: NumV, sides: DieSides) -> bool {
    let n = match value_of(v) {
        Some(d) => as_u32(d),
        None => 0,
    };
    n == 1 || sides == DieSides::Literal(n)
}

/// The markdown text of an evaluated number: dropped numbers struck through
/// (not again inside one that is), the lowest and highest rolls of a die in
/// bold, and totals as code.
pub open spec fn md_text(n: NumV, in_dropped: bool) -> Seq<char>
    decreases n, 2int,
{
    if !n.kept && !in_dropped {
        seq!['~', '~'] + md_generic(n, true) + seq!['~', '~']
    } else {
        md_generic(n, in_dropped)
    }
}

/// The markdown text of a number, struck through or not by the caller.
pub open spec fn md_generic(n: NumV, in_dropped: bool) -> Seq<char>
    decreases n, 1int,
{
    let inner = match n.kind {
        KindV::Expression { roll, .. } => md_text(*roll, in_dropped) + seq![' ', '=', ' ', '`'] + value_text(
            total_of(*roll),
        ) + seq!['`'],
        KindV::Literal { history, exploded } => literal_text(history, exploded),
        KindV::UnOp { op, value } => op.text() + md_text(*value, in_dropped),
        KindV::BinOp { left, op, right } => md_text(*left, in_dropped) + seq![' '] + op.text() + seq![' ']
            + md_text(*right, in_dropped),
        KindV::Parenthetical { value, ops } => seq!['('] + md_text(*value, in_dropped) + seq![')'] + ops_text(ops),
        KindV::NumSet { values, ops } => set_text(md_texts(values, in_dropped), ops),
        KindV::Dice { values, ops, num, sides } => dice_text(md_texts(values, in_dropped), ops, num, sides),
        KindV::Die { values, sides } => join(md_die_texts(values, sides, in_dropped), seq![',', ' ']),
    };
    annotated(inner, n.annotation)
}

/// The markdown texts of the numbers.
pub open spec fn md_texts(s: Seq<NumV>, in_dropped: bool) -> Seq<Seq<char>>
    decreases s, 0int,
{
    if s.len() == 0 {
        Seq::empty()
    } else {
        md_texts(s.drop_last(), in_dropped).push(md_text(s.last(), in_dropped))
    }
}

/// The markdown texts of the rolls of a die, the extreme ones in bold.
pub open spec fn md_die_texts(s: Seq<NumV>, sides: DieSides, in_dropped: bool) -> Seq<Seq<char>>
    decreases s, 0int,
{
    if s.len() == 0 {
        Seq::empty()
    } else {
        let t = md_text(s.last(), in_dropped);
        md_die_texts(s.drop_last(), sides, in_dropped).push(
            if is_extreme(s.last(), sides) {
                seq!['*', '*'] + t + seq!['*', '*']
            } else {
                t
            },
        )
    }
}

/// The parts joined with the separator.
pub fn join_strings(parts: &Vec<String>, sep: &str) -> (r: String)
    ensures
        r@ == join(strings_view(parts@), sep@),
{
    if parts.len() == 0 {
        return String::new();
    }
    let mut r = parts[0].clone();
    let mut i: usize = 1;
    proof {
        assert(strings_view(parts@.take(1)) == seq![parts@[0]@]);
    }
    while i < parts.len()
        invariant
            1 <= i <= parts.len(),
            r@ == join(strings_view(parts@.take(i as int)), sep@),
        decreases parts.len() - i,
    {
        r.append(sep);
        r.append(parts[i].as_str());
        proof {
            let next = strings_view(parts@.take(i + 1));
            assert(next.drop_last() == strings_view(parts@.take(i as int)));
            assert(next.last() == parts@[i as int]@);
        }
        i = i + 1;
    }
    assert(parts@.take(parts.len() as int) == parts@);
    r
}

/// The text of an optional value.
pub fn value_text_exec(v: Option<Decimal>) -> (r: String)
    requires
        v matches Some(d) ==> d.wf(),
    ensures
        r@ == value_text(v),
{
    match v {
        Some(d) => d.to_text(),
        None => {
            proof {
                reveal_strlit("NaN");
            }
            String::from_str("NaN")
        },
    }
}

/// The text of a literal.
pub fn literal_text_exec(values: &Vec<Decimal>, exploded: bool) -> (r: String)
    requires
        crate::expr::decs_wf(values@),
    ensures
        r@ == literal_text(values@, exploded),
{
    let mut texts: Vec<String> = Vec::new();
    let mut i: usize = 0;
    while i < values.len()
        invariant
            i <= values.len(),
            crate::expr::decs_wf(values@),
            texts@.len() == i,
            forall|q: int| 0 <= q < i ==> #[trigger] texts@[q]@ == decimal_text(values@[q]),
        decreases values.len() - i,
    {
        assert(values@[i as int].wf());
        texts.push(values[i].to_text());
        i = i + 1;
    }
    proof {
        reveal_strlit(" -> ");
        assert(strings_view(texts@) =~= decs_text(values@));
    }
    let mut r = join_strings(&texts, " -> ");
    let ghost j = r@;
    assert(" -> "@ == seq![' ', '-', '>', ' ']);
    if exploded {
        push_char(&mut r, '!');
        assert(r@ =~= j + seq!['!']);
    } else {
        assert(r@ =~= j + Seq::<char>::empty());
    }
    r
}

/// The text of a sequence of set operators of the evaluated tree: each
/// operation once for each of its selectors.
pub fn format_ops(ops: &Vec<SetOp>) -> (r: String)
    ensures
        r@ == ops_text(eops_view(ops@)),
{
    let mut r = String::new();
    let mut i: usize = 0;
    while i < ops.len()
        invariant
            i <= ops.len(),
            r@ == ops_text(eops_view(ops@.take(i as int))),
        decreases ops.len() - i,
    {
        let t = crate::ast::op_to_text(ops[i].op, &ops[i].sels);
        r.append(t.as_str());
        proof {
            let next = eops_view(ops@.take(i + 1));
            assert(next.drop_last() == eops_view(ops@.take(i as int)));
            assert(next.last() == ops@[i as int]@);
        }
        i = i + 1;
    }
    assert(ops@.take(ops.len() as int) == ops@);
    r
}

/// The text of a sequence of set operators of the parsed tree.
pub fn ops_text_exec(ops: &Vec<AstSetOp>) -> (r: String)
    ensures
        r@ == ops_text(ops_view(ops@)),
{
    let mut r = String::new();
    let mut i: usize = 0;
    while i < ops.len()
        invariant
            i <= ops.len(),
            r@ == ops_text(ops_view(ops@.take(i as int))),
        decreases ops.len() - i,
    {
        let t = ops[i].to_text();
        r.append(t.as_str());
        proof {
            let next = ops_view(ops@.take(i + 1));
            assert(next.drop_last() == ops_view(ops@.take(i as int)));
            assert(next.last() == ops@[i as int]@);
        }
        i = i + 1;
    }
    assert(ops@.take(ops.len() as int) == ops@);
    r
}

/// The text of a die's sides.
pub fn sides_text_exec(sides: DieSides) -> (r: String)
    ensures
        r@ == sides_text(sides),
{
    match sides {
        DieSides::Percentile => {
            let mut r = String::new();
            push_char(&mut r, '%');
            r
        },
        DieSides::Literal(n) => crate::num::nat_to_text(n as u128),
    }
}

/// The text of a set of numbers and its operators.
pub fn set_text_exec(texts: &Vec<String>, ops: &Vec<SetOp>) -> (r: String)
    ensures
        r@ == set_text(strings_view(texts@), eops_view(ops@)),
{
    let o = format_ops(ops);
    let mut r = String::new();
    push_char(&mut r, '(');
    if texts.len() == 1 {
        r.append(texts[0].as_str());
        push_char(&mut r, ',');
        push_char(&mut r, ')');
        r.append(o.as_str());
        assert(strings_view(texts@)[0] == texts@[0]@);
        assert(r@ =~= seq!['('] + texts@[0]@ + seq![',', ')'] + o@);
    } else {
        proof {
            reveal_strlit(", ");
        }
        let j = join_strings(texts, ", ");
        assert(", "@ == seq![',', ' ']);
        assert(j@ == join(strings_view(texts@), seq![',', ' ']));
        r.append(j.as_str());
        push_char(&mut r, ')');
        r.append(o.as_str());
        assert(r@ =~= seq!['('] + j@ + seq![')'] + o@);
    }
    r
}

/// The text of dice and their operators.
pub fn dice_text_exec(texts: &Vec<String>, ops: &Vec<SetOp>, num: u32, sides: DieSides) -> (r: String)
    ensures
        r@ == dice_text(strings_view(texts@), eops_view(ops@), num, sides),
{
    let mut r = crate::num::nat_to_text(num as u128);
    push_char(&mut r, 'd');
    let st = sides_text_exec(sides);
    r.append(st.as_str());
    let o = format_ops(ops);
    r.append(o.as_str());
    push_char(&mut r, ' ');
    push_char(&mut r, '(');
    proof {
        reveal_strlit(", ");
    }
    let j = join_strings(texts, ", ");
    assert(", "@ == seq![',', ' ']);
    assert(j@ == join(strings_view(texts@), seq![',', ' ']));
    r.append(j.as_str());
    push_char(&mut r, ')');
    assert(r@ =~= nat_text(num as nat) + seq!['d'] + sides_text(sides) + ops_text(eops_view(ops@)) + seq![
        ' ',
        '(',
    ] + j@ + seq![')']);
    r
}

/// The text with the annotation, if any, after a space.
pub fn annotated_exec(inner: String, annotation: &Option<String>) -> (r: String)
    ensures
        r@ == annotated(inner@, crate::ast::comment_view(*annotation)),
{
    let mut r = inner;
    match annotation {
        Some(a) => {
            push_char(&mut r, ' ');
            r.append(a.as_str());
        },
        None => {},
    }
    r
}

/// The plain text of an evaluated number.
pub fn simple_format(n: &Number) -> (r: String)
    requires
        num_wf(n@),
    ensures
        r@ == simple_text(n@),
    decreases n, 1int,
{
    let inner = match &n.kind {
        NumberKind::Expression(e) => {
            let mut r = simple_format(&e.roll);
            proof {
                reveal_strlit(" = ");
                lemma_value_wf(e.roll@);
            }
            r.append(" = ");
            let v = value_text_exec(e.roll.total());
            r.append(v.as_str());
            assert(" = "@ == seq![' ', '=', ' ']);
            assert(r@ =~= simple_text(e.roll@) + seq![' ', '=', ' '] + value_text(total_of(e.roll@)));
            r
        },
        NumberKind::Literal(l) => literal_text_exec(&l.values, l.exploded),
        NumberKind::UnOp(u) => {
            let mut r = String::from_str(u.op.as_str());
            let v = simple_format(&u.value);
            r.append(v.as_str());
            r
        },
        NumberKind::BinOp(b) => {
            let mut r = simple_format(&b.left);
            push_char(&mut r, ' ');
            r.append(b.op.as_str());
            push_char(&mut r, ' ');
            let v = simple_format(&b.right);
            r.append(v.as_str());
            assert(r@ =~= simple_text(b.left@) + seq![' '] + b.op.text() + seq![' '] + simple_text(b.right@));
            r
        },
        NumberKind::Parenthetical(p) => {
            let mut r = String::new();
            push_char(&mut r, '(');
            let v = simple_format(&p.value);
            r.append(v.as_str());
            push_char(&mut r, ')');
            let o = format_ops(&p.ops);
            r.append(o.as_str());
            assert(r@ =~= seq!['('] + simple_text(p.value@) + seq![')'] + ops_text(eops_view(p.ops@)));
            r
        },
        NumberKind::NumSet(st) => {
            proof {
                lemma_nums_view(st.values@);
                crate::ops::lemma_set_members_wf(n@);
            }
            let texts = simple_formats(&st.values);
            set_text_exec(&texts, &st.ops)
        },
        NumberKind::Dice(d) => {
            proof {
                lemma_nums_view(d.values@);
            }
            let texts = simple_formats(&d.values);
            dice_text_exec(&texts, &d.ops, d.num, d.sides)
        },
        NumberKind::Die(d) => {
            proof {
                lemma_nums_view(d.values@);
            }
            let texts = simple_formats(&d.values);
            proof {
                reveal_strlit(", ");
            }
            let j = join_strings(&texts, ", ");
            assert(", "@ == seq![',', ' ']);
            j
        },
    };
    let ghost iv = inner@;
    proof {
        let spec_inner = match n@.kind {
            KindV::Expression { roll, .. } => simple_text(*roll) + seq![' ', '=', ' '] + value_text(total_of(*roll)),
            KindV::Literal { history, exploded } => literal_text(history, exploded),
            KindV::UnOp { op, value } => op.text() + simple_text(*value),
            KindV::BinOp { left, op, right } => simple_text(*left) + seq![' '] + op.text() + seq![' ']
                + simple_text(*right),
            KindV::Parenthetical { value, ops } => seq!['('] + simple_text(*value) + seq![')'] + ops_text(ops),
            KindV::NumSet { values, ops } => set_text(simple_texts(values), ops),
            KindV::Dice { values, ops, num, sides } => dice_text(simple_texts(values), ops, num, sides),
            KindV::Die { values, .. } => join(simple_texts(values), seq![',', ' ']),
        };
        assert(iv == spec_inner);
        assert(simple_text(n@) == annotated(spec_inner, n@.annotation));
    }
    annotated_exec(inner, &n.annotation)
}

/// The plain texts of the numbers.
pub fn simple_formats(v: &Vec<Number>) -> (r: Vec<String>)
    requires
        forall|i: int| 0 <= i < v.len() ==> num_wf(#[trigger] nums_view(v@)[i]),
    ensures
        strings_view(r@) == simple_texts(nums_view(v@)),
    decreases v, 0int,
{
    proof {
        lemma_nums_view(v@);
    }
    let mut r: Vec<String> = Vec::new();
    let mut i: usize = 0;
    while i < v.len()
        invariant
            i <= v.len(),
            nums_view(v@).len() == v.len(),
            forall|q: int| 0 <= q < v.len() ==> #[trigger] nums_view(v@)[q] == num_view(v@[q]),
            forall|q: int| 0 <= q < v.len() ==> num_wf(#[trigger] nums_view(v@)[q]),
            strings_view(r@) == simple_texts(nums_view(v@.take(i as int))),
        decreases v.len() - i,
    {
        assert(num_wf(nums_view(v@)[i as int]));
        let t = simple_format(&v[i]);
        let ghost before = r@;
        r.push(t);
        proof {
            assert(r@.drop_last() == before);
            let nx = v@.take(i + 1);
            lemma_nums_view(nx);
            lemma_nums_view(v@.take(i as int));
            assert(nums_view(nx).drop_last() =~= nums_view(v@.take(i as int)));
            assert(nums_view(nx).last() == num_view(v@[i as int]));
        }
        i = i + 1;
    }
    assert(v@.take(v.len() as int) == v@);
    r
}

/// A decimal as a `u32`: truncated, and saturated at the bounds.
pub fn as_u32_exec(d: Decimal) -> (r: u32)
    requires
        d.wf(),
    ensures
        r == as_u32(d),
{
    let t = d.trunc();
    if t < 0 {
        0
    } else if t > 4294967295 {
        4294967295
    } else {
        t as u32
    }
}

/// Whether a roll shows the lowest or the highest face of its die.
pub fn is_extreme_exec(v: &Number, sides: DieSides) -> (r: bool)
    requires
        num_wf(v@),
    ensures
        r == is_extreme(v@, sides),
{
    proof {
        lemma_value_wf(v@);
    }
    let n = match v.number() {
        Some(d) => as_u32_exec(d),
        None => 0,
    };
    n == 1 || match sides {
        DieSides::Literal(s) => s == n,
        DieSides::Percentile => false,
    }
}

/// The markdown text of an evaluated number.
pub fn md_format(n: &Number, in_dropped: bool) -> (r: String)
    requires
        num_wf(n@),
    ensures
        r@ == md_text(n@, in_dropped),
    decreases n, 2int,
{
    if !n.kept && !in_dropped {
        let mut r = String::new();
        push_char(&mut r, '~');
        push_char(&mut r, '~');
        let g = md_generic_format(n, true);
        r.append(g.as_str());
        push_char(&mut r, '~');
        push_char(&mut r, '~');
        assert(r@ =~= seq!['~', '~'] + g@ + seq!['~', '~']);
        r
    } else {
        md_generic_format(n, in_dropped)
    }
}

/// The markdown text of a number, struck through or not by the caller.
pub fn md_generic_format(n: &Number, in_dropped: bool) -> (r: String)
    requires
        num_wf(n@),
    ensures
        r@ == md_generic(n@, in_dropped),
    decreases n, 1int,
{
    let inner = match &n.kind {
        NumberKind::Expression(e) => {
            let mut r = md_format(&e.roll, in_dropped);
            proof {
                reveal_strlit(" = `");
                lemma_value_wf(e.roll@);
            }
            r.append(" = `");
            let v = value_text_exec(e.roll.total());
            r.append(v.as_str());
            push_char(&mut r, '`');
            assert(" = `"@ == seq![' ', '=', ' ', '`']);
            assert(r@ =~= md_text(e.roll@, in_dropped) + seq![' ', '=', ' ', '`'] + value_text(total_of(e.roll@))
                + seq!['`']);
            r
        },
        NumberKind::Literal(l) => literal_text_exec(&l.values, l.exploded),
        NumberKind::UnOp(u) => {
            let mut r = String::from_str(u.op.as_str());
            let v = md_format(&u.value, in_dropped);
            r.append(v.as_str());
            r
        },
        NumberKind::BinOp(b) => {
            let mut r = md_format(&b.left, in_dropped);
            push_char(&mut r, ' ');
            r.append(b.op.as_str());
            push_char(&mut r, ' ');
            let v = md_format(&b.right, in_dropped);
            r.append(v.as_str());
            assert(r@ =~= md_text(b.left@, in_dropped) + seq![' '] + b.op.text() + seq![' '] + md_text(
                b.right@,
                in_dropped,
            ));
            r
        },
        NumberKind::Parenthetical(p) => {
            let mut r = String::new();
            push_char(&mut r, '(');
            let v = md_format(&p.value, in_dropped);
            r.append(v.as_str());
            push_char(&mut r, ')');
            let o = format_ops(&p.ops);
            r.append(o.as_str());
            assert(r@ =~= seq!['('] + md_text(p.value@, in_dropped) + seq![')'] + ops_text(eops_view(p.ops@)));
            r
        },
        NumberKind::NumSet(st) => {
            proof {
                lemma_nums_view(st.values@);
                crate::ops::lemma_set_members_wf(n@);
            }
            let texts = md_formats(&st.values, in_dropped);
            set_text_exec(&texts, &st.ops)
        },
        NumberKind::Dice(d) => {
            proof {
                lemma_nums_view(d.values@);
            }
            let texts = md_formats(&d.values, in_dropped);
            dice_text_exec(&texts, &d.ops, d.num, d.sides)
        },
        NumberKind::Die(d) => {
            proof {
                lemma_nums_view(d.values@);
            }
            let texts = md_die_formats(&d.values, d.sides, in_dropped);
            proof {
                reveal_strlit(", ");
            }
            let j = join_strings(&texts, ", ");
            assert(", "@ == seq![',', ' ']);
            j
        },
    };
    let ghost iv = inner@;
    proof {
        let spec_inner = match n@.kind {
            KindV::Expression { roll, .. } => md_text(*roll, in_dropped) + seq![' ', '=', ' ', '`'] + value_text(
                total_of(*roll),
            ) + seq!['`'],
            KindV::Literal { history, exploded } => literal_text(history, exploded),
            KindV::UnOp { op, value } => op.text() + md_text(*value, in_dropped),
            KindV::BinOp { left, op, right } => md_text(*left, in_dropped) + seq![' '] + op.text() + seq![' ']
                + md_text(*right, in_dropped),
            KindV::Parenthetical { value, ops } => seq!['('] + md_text(*value, in_dropped) + seq![')'] + ops_text(
                ops,
            ),
            KindV::NumSet { values, ops } => set_text(md_texts(values, in_dropped), ops),
            KindV::Dice { values, ops, num, sides } => dice_text(md_texts(values, in_dropped), ops, num, sides),
            KindV::Die { values, sides } => join(md_die_texts(values, sides, in_dropped), seq![',', ' ']),
        };
        assert(iv == spec_inner);
        assert(md_generic(n@, in_dropped) == annotated(spec_inner, n@.annotation));
    }
    annotated_exec(inner, &n.annotation)
}

/// The markdown texts of the numbers.
pub fn md_formats(v: &Vec<Number>, in_dropped: bool) -> (r: Vec<String>)
    requires
        forall|i: int| 0 <= i < v.len() ==> num_wf(#[trigger] nums_view(v@)[i]),
    ensures
        strings_view(r@) == md_texts(nums_view(v@), in_dropped),
    decreases v, 0int,
{
    proof {
        lemma_nums_view(v@);
    }
    let mut r: Vec<String> = Vec::new();
    let mut i: usize = 0;
    while i < v.len()
        invariant
            i <= v.len(),
            nums_view(v@).len() == v.len(),
            forall|q: int| 0 <= q < v.len() ==> #[trigger] nums_view(v@)[q] == num_view(v@[q]),
            forall|q: int| 0 <= q < v.len() ==> num_wf(#[trigger] nums_view(v@)[q]),
            strings_view(r@) == md_texts(nums_view(v@.take(i as int)), in_dropped),
        decreases v.len() - i,
    {
        assert(num_wf(nums_view(v@)[i as int]));
        let t = md_format(&v[i], in_dropped);
        let ghost before = r@;
        r.push(t);
        proof {
            assert(r@.drop_last() == before);
            let nx = v@.take(i + 1);
            lemma_nums_view(nx);
            lemma_nums_view(v@.take(i as int));
            assert(nums_view(nx).drop_last() =~= nums_view(v@.take(i as int)));
            assert(nums_view(nx).last() == num_view(v@[i as int]));
        }
        i = i + 1;
    }
    assert(v@.take(v.len() as int) == v@);
    r
}

/// The markdown texts of the rolls of a die.
pub fn md_die_formats(v: &Vec<Number>, sides: DieSides, in_dropped: bool) -> (r: Vec<String>)
    requires
        forall|i: int| 0 <= i < v.len() ==> num_wf(#[trigger] nums_view(v@)[i]),
    ensures
        strings_view(r@) == md_die_texts(nums_view(v@), sides, in_dropped),
    decreases v, 0int,
{
    proof {
        lemma_nums_view(v@);
    }
    let mut r: Vec<String> = Vec::new();
    let mut i: usize = 0;
    while i < v.len()
        invariant
            i <= v.len(),
            nums_view(v@).len() == v.len(),
            forall|q: int| 0 <= q < v.len() ==> #[trigger] nums_view(v@)[q] == num_view(v@[q]),
            forall|q: int| 0 <= q < v.len() ==> num_wf(#[trigger] nums_view(v@)[q]),
            strings_view(r@) == md_die_texts(nums_view(v@.take(i as int)), sides, in_dropped),
        decreases v.len() - i,
    {
        assert(num_wf(nums_view(v@)[i as int]));
        let t = md_format(&v[i], in_dropped);
        let t2 = if is_extreme_exec(&v[i], sides) {
            let mut b = String::new();
            push_char(&mut b, '*');
            push_char(&mut b, '*');
            b.append(t.as_str());
            push_char(&mut b, '*');
            push_char(&mut b, '*');
            assert(b@ =~= seq!['*', '*'] + t@ + seq!['*', '*']);
            b
        } else {
            t
        };
        let ghost before = r@;
        r.push(t2);
        proof {
            assert(r@.drop_last() == before);
            let nx = v@.take(i + 1);
            lemma_nums_view(nx);
            lemma_nums_view(v@.take(i as int));
            assert(nums_view(nx).drop_last() =~= nums_view(v@.take(i as int)));
            assert(nums_view(nx).last() == num_view(v@[i as int]));
        }
        i = i + 1;
    }
    assert(v@.take(v.len() as int) == v@);
    r
}

/// A way of formatting evaluated numbers as text.
pub trait Formatter {
    /// The text of a number.
    spec fn format_spec(&self, n: NumV) -> Seq<char>;

    /// Formats a number.
    fn format(&self, node: &Number) -> (r: String)
        requires
            num_wf(node@),
        ensures
            r@ == self.format_spec(node@),
    ;
}

/// A simple formatter: no distinction between kept and dropped values.
#[derive(Clone, Copy, Debug)]
pub struct SimpleFormatter;

impl Formatter for SimpleFormatter {
    open spec fn format_spec(&self, n: NumV) -> Seq<char> {
        simple_text(n)
    }

    fn format(&self, node: &Number) -> (r: String) {
        simple_format(node)
    }
}

/// A formatter that uses markdown: dropped values are struck through, the
/// lowest and highest rolls of a die are in bold, and totals are code.
#[derive(Clone, Copy, Debug)]
pub struct MarkdownFormatter;

impl MarkdownFormatter {
    /// Creates a new [`MarkdownFormatter`].
    pub fn new() -> (r: Self)
        ensures
            r == MarkdownFormatter,
    {
        MarkdownFormatter
    }
}

impl Formatter for MarkdownFormatter {
    open spec fn format_spec(&self, n: NumV) -> Seq<char> {
        md_text(n, false)
    }

    fn format(&self, node: &Number) -> (r: String) {
        md_format(node, false)
    }
}

/// Whether every literal of a tree is within the scale limit.
pub open spec fn lits_wf(t: crate::ast::Tree) -> bool
    decreases t,
{
    match t {
        crate::ast::Tree::Expression { roll, .. } => lits_wf(*roll),
        crate::ast::Tree::Literal(d) => d.wf(),
        crate::ast::Tree::Parenthetical(v) => lits_wf(*v),
        crate::ast::Tree::Annotated { value, .. } => lits_wf(*value),
        crate::ast::Tree::UnOp { value, .. } => lits_wf(*value),
        crate::ast::Tree::BinOp { left, right, .. } => lits_wf(*left) && lits_wf(*right),
        crate::ast::Tree::SetExpr(values) => forall|i: int| 0 <= i < values.len() ==> lits_wf(#[trigger] values[i]),
        crate::ast::Tree::DiceExpr { .. } => true,
        crate::ast::Tree::SetWithOps { value, .. } => lits_wf(*value),
        crate::ast::Tree::Dice { value, .. } => lits_wf(*value),
    }
}

/// The members of a set expression with literals within the scale limit
/// have them too.
pub proof fn lemma_lits_members(t: crate::ast::Tree)
    requires
        lits_wf(t),
        t is SetExpr,
    ensures
        forall|i: int| 0 <= i < t->SetExpr_0.len() ==> lits_wf(#[trigger] t->SetExpr_0[i]),
{
}

/// The text of a parsed tree, as it is displayed.
pub fn node_text(n: &Node) -> (r: String)
    requires
        lits_wf(tree_of(*n)),
    ensures
        r@ == tree_text(tree_of(*n)),
    decreases n, 1int,
{
    match n {
        Node::Expression(e) => {
            let mut r = node_text(&e.roll);
            match &e.comment {
                Some(c) => {
                    push_char(&mut r, ' ');
                    r.append(c.as_str());
                },
                None => {},
            }
            r
        },
        Node::Literal(l) => l.value.to_text(),
        Node::Parenthetical(p) => {
            let mut r = String::new();
            push_char(&mut r, '(');
            let v = node_text(&p.value);
            r.append(v.as_str());
            push_char(&mut r, ')');
            assert(r@ =~= seq!['('] + v@ + seq![')']);
            r
        },
        Node::Annotated(a) => {
            let mut r = node_text(&a.value);
            push_char(&mut r, ' ');
            proof {
                reveal_strlit("");
            }
            let j = join_strings(&a.annotations, "");
            assert(""@ == Seq::<char>::empty());
            r.append(j.as_str());
            r
        },
        Node::UnOp(u) => {
            let mut r = String::from_str(u.op.as_str());
            let v = node_text(&u.value);
            r.append(v.as_str());
            r
        },
        Node::BinOp(b) => {
            let mut r = node_text(&b.left);
            push_char(&mut r, ' ');
            r.append(b.op.as_str());
            push_char(&mut r, ' ');
            let v = node_text(&b.right);
            r.append(v.as_str());
            assert(r@ =~= tree_text(tree_of(*b.left)) + seq![' '] + b.op.text() + seq![' '] + v@);
            r
        },
        Node::SetExpr(st) => {
            proof {
                crate::ast::lemma_trees_of(st.values@);
                lemma_lits_members(tree_of(*n));
                let tv = crate::ast::trees_of(st.values@);
                assert forall|i: int| 0 <= i < st.values.len() implies lits_wf(#[trigger] tree_of(st.values@[i])) by {
                    assert(lits_wf(tv[i]));
                }
                lemma_texts_of_len(tv);
            }
            let texts = node_texts(&st.values);
            assert(strings_view(texts@).len() == texts@.len());
            let mut r = String::new();
            push_char(&mut r, '(');
            if st.values.len() == 1 {
                r.append(texts[0].as_str());
                push_char(&mut r, ',');
                push_char(&mut r, ')');
                proof {
                    assert(strings_view(texts@)[0] == texts@[0]@);
                    assert(r@ =~= seq!['('] + texts@[0]@ + seq![',', ')']);
                }
            } else {
                proof {
                    reveal_strlit(", ");
                }
                let j = join_strings(&texts, ", ");
                assert(", "@ == seq![',', ' ']);
                r.append(j.as_str());
                push_char(&mut r, ')');
                assert(r@ =~= seq!['('] + j@ + seq![')']);
            }
            r
        },
        Node::DiceExpr(d) => {
            let mut r = crate::num::nat_to_text(d.num as u128);
            push_char(&mut r, 'd');
            let st = sides_text_exec(d.sides);
            r.append(st.as_str());
            assert(r@ =~= nat_text(d.num as nat) + seq!['d'] + sides_text(d.sides));
            r
        },
        Node::SetWithOps(st) => {
            let mut r = node_text(&st.value);
            let o = ops_text_exec(&st.ops);
            r.append(o.as_str());
            r
        },
        Node::Dice(d) => {
            let mut r = node_text(&d.value);
            let o = ops_text_exec(&d.ops);
            r.append(o.as_str());
            r
        },
    }
}

/// There is one text for each tree.
pub proof fn lemma_texts_of_len(s: Seq<crate::ast::Tree>)
    ensures
        texts_of(s).len() == s.len(),
    decreases s.len(),
{
    if s.len() > 0 {
        lemma_texts_of_len(s.drop_last());
    }
}

/// The texts of parsed trees.
pub fn node_texts(v: &Vec<Node>) -> (r: Vec<String>)
    requires
        forall|i: int| 0 <= i < v.len() ==> lits_wf(#[trigger] tree_of(v@[i])),
    ensures
        strings_view(r@) == texts_of(crate::ast::trees_of(v@)),
    decreases v, 0int,
{
    let mut r: Vec<String> = Vec::new();
    let mut i: usize = 0;
    while i < v.len()
        invariant
            i <= v.len(),
            forall|q: int| 0 <= q < v.len() ==> lits_wf(#[trigger] tree_of(v@[q])),
            strings_view(r@) == texts_of(crate::ast::trees_of(v@.take(i as int))),
        decreases v.len() - i,
    {
        let t = node_text(&v[i]);
        let ghost before = r@;
        r.push(t);
        proof {
            assert(r@.drop_last() == before);
            let nx = v@.take(i + 1);
            assert(nx.drop_last() =~= v@.take(i as int));
            assert(crate::ast::trees_of(nx).drop_last() == crate::ast::trees_of(v@.take(i as int)));
            assert(crate::ast::trees_of(nx).last() == tree_of(v@[i as int]));
        }
        i = i + 1;
    }
    assert(v@.take(v.len() as int) == v@);
    r
}

impl Node {
    /// The text of this tree, as it is displayed.
    pub fn to_text(&self) -> (r: String)
        requires
            lits_wf(tree_of(*self)),
        ensures
            r@ == tree_text(tree_of(*self)),
    {
        node_text(self)
    }
}

/// Trees fit to be rolled have their literals within the scale limit.
pub proof fn lemma_wf_lits(t: crate::ast::Tree)
    requires
        crate::ast::tree_wf(t),
    ensures
        lits_wf(t),
    decreases t,
{
    match t {
        crate::ast::Tree::Expression { roll, .. } => lemma_wf_lits(*roll),
        crate::ast::Tree::Parenthetical(v) => lemma_wf_lits(*v),
        crate::ast::Tree::Annotated { value, .. } => lemma_wf_lits(*value),
        crate::ast::Tree::UnOp { value, .. } => lemma_wf_lits(*value),
        crate::ast::Tree::BinOp { left, right, .. } => {
            lemma_wf_lits(*left);
            lemma_wf_lits(*right);
        },
        crate::ast::Tree::SetExpr(values) => {
            crate::eval::lemma_set_members_wf(t);
            assert forall|i: int| 0 <= i < values.len() implies lits_wf(#[trigger] values[i]) by {
                lemma_wf_lits(values[i]);
            }
        },
        crate::ast::Tree::SetWithOps { value, .. } => lemma_wf_lits(*value),
        crate::ast::Tree::Dice { value, .. } => lemma_wf_lits(*value),
        _ => {},
    }
}

} // verus!
