//! Types for the evaluated expression tree generated from the parsed AST.
use vstd::prelude::*;
use crate::ast::{comment_view, max_nat, HasChildren, OpView};
pub use crate::ast::SetSel;
pub use crate::kinds::{BinOpKind, DieSides, SelCat, SetOpKind, UnOpKind};
use crate::errors::Error;
use crate::num::{
    add_spec, div_euclid_spec, mul_spec, rem_euclid_spec, sub_spec, Decimal,
};

verus! {

/// The plain value of an evaluated number.
pub struct NumV {
    /// What the number is.
    pub kind: KindV,
    /// Whether the number counts towards the value of its parent.
    pub kept: bool,
    /// The annotation of the number, if any.
    pub annotation: Option<Seq<char>>,
}

/// The plain value of the kind of an evaluated number.
#[allow(inconsistent_fields)]
pub enum KindV {
    /// A roll expression with its comment.
    Expression { roll: Box<NumV>, comment: Option<Seq<char>> },
    /// A literal with all the values it has had, the current one last.
    Literal { history: Seq<Decimal>, exploded: bool },
    /// A unary operation.
    UnOp { op: UnOpKind, value: Box<NumV> },
    /// A binary operation.
    BinOp { left: Box<NumV>, op: BinOpKind, right: Box<NumV> },
    /// A parenthetical value and the operators applied to it.
    Parenthetical { value: Box<NumV>, ops: Seq<OpView> },
    /// A set of numbers and the operators applied to it.
    NumSet { values: Seq<NumV>, ops: Seq<OpView> },
    /// A single die and the rolls it has made, the current one last.
    Die { sides: DieSides, values: Seq<NumV> },
    /// A set of dice and the operators applied to it.
    Dice { values: Seq<NumV>, ops: Seq<OpView>, num: u32, sides: DieSides },
}

/// A number in the expression tree.
#[derive(Debug, PartialEq, Eq)]
pub struct Number {
    /// The inner kind of this number.
    pub kind: NumberKind,
    /// Whether this number is kept.
    pub kept: bool,
    /// The annotation of this number, if any.
    pub annotation: Option<String>,
}

/// The kind of number in the expression tree.
#[derive(Debug, PartialEq, Eq)]
pub enum NumberKind {
    /// A roll expression.
    ///
    /// This is always the root of the expression tree.
    Expression(Expression),
    /// A literal value.
    Literal(Literal),
    /// A unary operation.
    UnOp(UnOp),
    /// A binary operation.
    BinOp(BinOp),
    /// A parenthetical value.
    Parenthetical(Parenthetical),
    /// A set of numbers.
    NumSet(NumSet),
    /// A single die.
    Die(Die),
    /// A set of dice.
    Dice(Dice),
}

/// An evaluated expression.
///
/// This is the root of the expression tree.
#[derive(Debug, PartialEq, Eq)]
pub struct Expression {
    /// The inner roll of this expression.
    pub roll: Box<Number>,
    /// The comment of this expression, if any.
    pub comment: Option<String>,
}

/// A literal value.
#[derive(Debug, PartialEq, Eq)]
pub struct Literal {
    /// All values of this literal; the last one is the current value.
    pub values: Vec<Decimal>,
    /// Whether this literal caused another die to be rolled.
    pub exploded: bool,
}

/// A unary operation.
#[derive(Debug, PartialEq, Eq)]
pub struct UnOp {
    /// The operator.
    pub op: UnOpKind,
    /// The operand.
    pub value: Box<Number>,
}

/// A binary operation.
#[derive(Debug, PartialEq, Eq)]
pub struct BinOp {
    /// The left operand.
    pub left: Box<Number>,
    /// The operator.
    pub op: BinOpKind,
    /// The right operand.
    pub right: Box<Number>,
}

/// A set operator.
#[derive(Debug, PartialEq, Eq)]
pub struct SetOp {
    /// The operation.
    pub op: SetOpKind,
    /// Its selectors.
    pub sels: Vec<SetSel>,
}

/// A parenthesized value.
#[derive(Debug, PartialEq, Eq)]
pub struct Parenthetical {
    /// The inner value.
    pub value: Box<Number>,
    /// The operators applied to the inner value.
    pub ops: Vec<SetOp>,
}

/// A set of numbers.
#[derive(Debug, PartialEq, Eq)]
pub struct NumSet {
    /// The members of the set.
    pub values: Vec<Number>,
    /// The operators applied to the set.
    pub ops: Vec<SetOp>,
}

/// A single die.
#[derive(Debug, PartialEq, Eq)]
pub struct Die {
    /// The number of sides on this die.
    pub sides: DieSides,
    /// The values this die has rolled, the current one last.
    pub values: Vec<Number>,
}

/// A set of dice.
#[derive(Debug, PartialEq, Eq)]
pub struct Dice {
    /// The dice.
    pub values: Vec<Number>,
    /// The operators applied to the dice.
    pub ops: Vec<SetOp>,
    /// The number of dice first rolled.
    pub num: u32,
    /// The number of sides on the dice.
    pub sides: DieSides,
}

impl View for SetOp {
    type V = OpView;

    open spec fn view(&self) -> OpView {
        OpView { op: self.op, sels: self.sels@ }
    }
}

/// The plain values of a sequence of set operators.
pub open spec fn eops_view(ops: Seq<SetOp>) -> Seq<OpView> {
    ops.map_values(|o: SetOp| o@)
}

/// The plain value of a number.
pub open spec fn num_view(n: Number) -> NumV
    decreases n,
{
    let kind = match n.kind {
        NumberKind::Expression(e) => KindV::Expression {
            roll: Box::new(num_view(*e.roll)),
            comment: comment_view(e.comment),
        },
        NumberKind::Literal(l) => KindV::Literal { history: l.values@, exploded: l.exploded },
        NumberKind::UnOp(u) => KindV::UnOp { op: u.op, value: Box::new(num_view(*u.value)) },
        NumberKind::BinOp(b) => KindV::BinOp {
            left: Box::new(num_view(*b.left)),
            op: b.op,
            right: Box::new(num_view(*b.right)),
        },
        NumberKind::Parenthetical(p) => KindV::Parenthetical {
            value: Box::new(num_view(*p.value)),
            ops: eops_view(p.ops@),
        },
        NumberKind::NumSet(s) => KindV::NumSet { values: nums_view(s.values@), ops: eops_view(s.ops@) },
        NumberKind::Die(d) => KindV::Die { sides: d.sides, values: nums_view(d.values@) },
        NumberKind::Dice(d) => KindV::Dice {
            values: nums_view(d.values@),
            ops: eops_view(d.ops@),
            num: d.num,
            sides: d.sides,
        },
    };
    NumV { kind, kept: n.kept, annotation: comment_view(n.annotation) }
}

/// The plain values of a sequence of numbers.
pub open spec fn nums_view(s: Seq<Number>) -> Seq<NumV>
    decreases s,
{
    if s.len() == 0 {
        Seq::empty()
    } else {
        nums_view(s.drop_last()).push(num_view(s.last()))
    }
}

impl View for Number {
    type V = NumV;

    open spec fn view(&self) -> NumV {
        num_view(*self)
    }
}

/// `nums_view` maps each number to its plain value.
pub proof fn lemma_nums_view(s: Seq<Number>)
    ensures
        nums_view(s).len() == s.len(),
        forall|i: int| 0 <= i < s.len() ==> #[trigger] nums_view(s)[i] == num_view(s[i]),
    decreases s.len(),
{
    if s.len() > 0 {
        lemma_nums_view(s.drop_last());
    }
}

/// A decimal integer.
pub open spec fn int_dec(n: int) -> Decimal {
    Decimal { mantissa: n as i128, scale: 0 }
}

/// `1` for true, `0` for false.
pub open spec fn bool_dec(b: bool) -> Decimal {
    if b {
        int_dec(1)
    } else {
        int_dec(0)
    }
}

/// The negation of an optional number.
pub open spec fn neg_opt(a: Option<Decimal>) -> Option<Decimal> {
    match a {
        Some(d) => if d.mantissa == i128::MIN {
            None
        } else {
            Some(Decimal { mantissa: (-d.mantissa) as i128, scale: d.scale })
        },
        None => None,
    }
}

/// The sum of two optional numbers.
pub open spec fn add_opt(a: Option<Decimal>, b: Option<Decimal>) -> Option<Decimal> {
    match (a, b) {
        (Some(x), Some(y)) => add_spec(x, y),
        _ => None,
    }
}

/// The value of a binary operation on two values; `None` where a value is
/// missing or the result cannot be represented.
pub open spec fn binop_value(op: BinOpKind, l: Option<Decimal>, r: Option<Decimal>) -> Option<Decimal> {
    match (l, r) {
        (Some(a), Some(b)) => match op {
            BinOpKind::Add => add_spec(a, b),
            BinOpKind::Sub => sub_spec(a, b),
            BinOpKind::Mul => mul_spec(a, b),
            BinOpKind::Div | BinOpKind::FloorDiv => if b.is_zero_spec() {
                None
            } else {
                div_euclid_spec(a, b)
            },
            BinOpKind::Mod => if b.is_zero_spec() {
                None
            } else {
                rem_euclid_spec(a, b)
            },
            BinOpKind::Lt => Some(bool_dec(a.spec_lt(b))),
            BinOpKind::Gt => Some(bool_dec(b.spec_lt(a))),
            BinOpKind::Eq => Some(bool_dec(a.spec_eq_value(b))),
            BinOpKind::Ge => Some(bool_dec(!a.spec_lt(b))),
            BinOpKind::Le => Some(bool_dec(!b.spec_lt(a))),
            BinOpKind::Ne => Some(bool_dec(!a.spec_eq_value(b))),
        },
        _ => None,
    }
}

/// The value of a number: `None` where it cannot be represented.
pub open spec fn value_of(n: NumV) -> Option<Decimal>
    decreases n, 1int,
{
    match n.kind {
        KindV::Expression { roll, .. } => value_of(*roll),
        KindV::Literal { history, .. } => Some(history.last()),
        KindV::UnOp { op, value } => match op {
            UnOpKind::Neg => neg_opt(total_of(*value)),
            UnOpKind::Pos => total_of(*value),
        },
        KindV::BinOp { left, op, right } => binop_value(op, total_of(*left), total_of(*right)),
        KindV::Parenthetical { value, .. } => total_of(*value),
        KindV::NumSet { values, .. } => kept_sum(values),
        KindV::Die { values, .. } => if values.len() > 0 {
            total_of(values.last())
        } else {
            None
        },
        KindV::Dice { values, .. } => kept_sum(values),
    }
}

/// The value of a number if it is kept, else 0.
pub open spec fn total_of(n: NumV) -> Option<Decimal>
    decreases n, 2int,
{
    if n.kept {
        value_of(n)
    } else {
        Some(int_dec(0))
    }
}

/// The sum of the kept numbers, from left to right.
pub open spec fn kept_sum(s: Seq<NumV>) -> Option<Decimal>
    decreases s, 3int,
{
    if s.len() == 0 {
        Some(int_dec(0))
    } else {
        add_opt(kept_sum(s.drop_last()), total_of(s.last()))
    }
}

/// Whether every decimal is within the scale limit.
pub open spec fn decs_wf(s: Seq<Decimal>) -> bool {
    forall|i: int| 0 <= i < s.len() ==> (#[trigger] s[i]).wf()
}

/// Whether a number is well formed: literals have a value, dice hold dice
/// and dice hold literals.
pub open spec fn num_wf(n: NumV) -> bool
    decreases n,
{
    match n.kind {
        KindV::Expression { roll, .. } => num_wf(*roll),
        KindV::Literal { history, .. } => history.len() > 0 && decs_wf(history),
        KindV::UnOp { value, .. } => num_wf(*value),
        KindV::BinOp { left, right, .. } => num_wf(*left) && num_wf(*right),
        KindV::Parenthetical { value, .. } => num_wf(*value),
        KindV::NumSet { values, .. } => forall|i: int| 0 <= i < values.len() ==> num_wf(#[trigger] values[i]),
        KindV::Die { values, .. } => values.len() > 0 && forall|i: int|
            0 <= i < values.len() ==> (#[trigger] values[i]).kind is Literal && num_wf(values[i]),
        KindV::Dice { values, .. } => forall|i: int|
            0 <= i < values.len() ==> (#[trigger] values[i]).kind is Die && num_wf(values[i]),
    }
}

/// A new kept number without an annotation.
pub open spec fn mk_num(kind: KindV) -> NumV {
    NumV { kind, kept: true, annotation: None }
}

/// A literal number with one value.
pub open spec fn lit_num(d: Decimal) -> NumV {
    mk_num(KindV::Literal { history: seq![d], exploded: false })
}

/// The value of a binary operation on values within the scale limit is
/// within it too.
pub proof fn lemma_binop_wf(op: BinOpKind, l: Option<Decimal>, r: Option<Decimal>)
    requires
        l matches Some(a) ==> a.wf(),
        r matches Some(b) ==> b.wf(),
    ensures
        binop_value(op, l, r) matches Some(d) ==> d.wf(),
{
}

/// Values of well formed numbers are within the scale limit.
pub proof fn lemma_value_wf(n: NumV)
    requires
        num_wf(n),
    ensures
        value_of(n) matches Some(d) ==> d.wf(),
        total_of(n) matches Some(d) ==> d.wf(),
    decreases n,
{
    match n.kind {
        KindV::Expression { roll, .. } => lemma_value_wf(*roll),
        KindV::Literal { history, .. } => {
            assert(history[history.len() - 1].wf());
        },
        KindV::UnOp { value, .. } => lemma_value_wf(*value),
        KindV::BinOp { left, op, right } => {
            lemma_value_wf(*left);
            lemma_value_wf(*right);
            lemma_binop_wf(op, total_of(*left), total_of(*right));
        },
        KindV::Parenthetical { value, .. } => lemma_value_wf(*value),
        KindV::NumSet { values, .. } => lemma_kept_sum_wf(values),
        KindV::Die { values, .. } => {
            assert(num_wf(values[values.len() - 1]));
            lemma_value_wf(values.last());
        },
        KindV::Dice { values, .. } => lemma_kept_sum_wf(values),
    }
}

/// Sums of well formed numbers are within the scale limit.
pub proof fn lemma_kept_sum_wf(s: Seq<NumV>)
    requires
        forall|i: int| 0 <= i < s.len() ==> num_wf(#[trigger] s[i]),
    ensures
        kept_sum(s) matches Some(d) ==> d.wf(),
    decreases s,
{
    if s.len() > 0 {
        let p = s.drop_last();
        assert forall|i: int| 0 <= i < p.len() implies num_wf(#[trigger] p[i]) by {
            assert(p[i] == s[i]);
        }
        lemma_kept_sum_wf(p);
        assert(num_wf(s[s.len() - 1]));
        lemma_value_wf(s.last());
    }
}

/// A copy of an optional string.
pub fn copy_opt_string(s: &Option<String>) -> (r: Option<String>)
    ensures
        comment_view(r) == comment_view(*s),
{
    match s {
        Some(t) => Some(t.clone()),
        None => None,
    }
}

/// A copy of a vector of decimals.
pub fn copy_decimals(v: &Vec<Decimal>) -> (r: Vec<Decimal>)
    ensures
        r@ == v@,
{
    let mut r: Vec<Decimal> = Vec::new();
    let mut i: usize = 0;
    while i < v.len()
        invariant
            i <= v.len(),
            r@ == v@.take(i as int),
        decreases v.len() - i,
    {
        r.push(v[i]);
        i = i + 1;
        assert(r@ == v@.take(i as int));
    }
    assert(v@.take(v.len() as int) == v@);
    r
}

impl Clone for SetOp {
    fn clone(&self) -> (r: Self)
        ensures
            r@ == self@,
    {
        SetOp { op: self.op, sels: crate::ast::copy_sels(&self.sels) }
    }
}

/// A copy of a vector of set operators.
pub fn copy_ops(v: &Vec<SetOp>) -> (r: Vec<SetOp>)
    ensures
        eops_view(r@) == eops_view(v@),
{
    let mut r: Vec<SetOp> = Vec::new();
    let mut i: usize = 0;
    while i < v.len()
        invariant
            i <= v.len(),
            eops_view(r@) == eops_view(v@.take(i as int)),
        decreases v.len() - i,
    {
        let ghost before = r@;
        r.push(v[i].clone());
        assert(eops_view(r@) == eops_view(before).push(v@[i as int]@));
        i = i + 1;
        assert(eops_view(v@.take(i as int)) == eops_view(v@.take(i - 1)).push(v@[i - 1]@));
    }
    assert(v@.take(v.len() as int) == v@);
    r
}

/// A deep copy of a number.
pub fn copy_number(n: &Number) -> (r: Number)
    ensures
        r@ == n@,
    decreases n,
{
    let kind = match &n.kind {
        NumberKind::Expression(e) => NumberKind::Expression(
            Expression { roll: Box::new(copy_number(&e.roll)), comment: copy_opt_string(&e.comment) },
        ),
        NumberKind::Literal(l) => NumberKind::Literal(
            Literal { values: copy_decimals(&l.values), exploded: l.exploded },
        ),
        NumberKind::UnOp(u) => NumberKind::UnOp(UnOp { op: u.op, value: Box::new(copy_number(&u.value)) }),
        NumberKind::BinOp(b) => NumberKind::BinOp(
            BinOp {
                left: Box::new(copy_number(&b.left)),
                op: b.op,
                right: Box::new(copy_number(&b.right)),
            },
        ),
        NumberKind::Parenthetical(p) => NumberKind::Parenthetical(
            Parenthetical { value: Box::new(copy_number(&p.value)), ops: copy_ops(&p.ops) },
        ),
        NumberKind::NumSet(st) => NumberKind::NumSet(
            NumSet { values: copy_numbers(&st.values), ops: copy_ops(&st.ops) },
        ),
        NumberKind::Die(d) => NumberKind::Die(Die { sides: d.sides, values: copy_numbers(&d.values) }),
        NumberKind::Dice(d) => NumberKind::Dice(
            Dice { values: copy_numbers(&d.values), ops: copy_ops(&d.ops), num: d.num, sides: d.sides },
        ),
    };
    Number { kind, kept: n.kept, annotation: copy_opt_string(&n.annotation) }
}

/// A deep copy of a vector of numbers.
pub fn copy_numbers(v: &Vec<Number>) -> (r: Vec<Number>)
    ensures
        nums_view(r@) == nums_view(v@),
    decreases v,
{
    let mut r: Vec<Number> = Vec::new();
    let mut i: usize = 0;
    while i < v.len()
        invariant
            i <= v.len(),
            nums_view(r@) == nums_view(v@.take(i as int)),
        decreases v.len() - i,
    {
        let ghost before = r@;
        let c = copy_number(&v[i]);
        r.push(c);
        assert(r@.drop_last() == before);
        assert(v@.take(i + 1).drop_last() == v@.take(i as int));
        i = i + 1;
    }
    assert(v@.take(v.len() as int) == v@);
    r
}

impl Clone for Number {
    fn clone(&self) -> (r: Self)
        ensures
            r@ == self@,
    {
        copy_number(self)
    }
}

impl Number {
    /// Creates a new kept number without an annotation.
    pub fn new(kind: NumberKind) -> (r: Self)
        ensures
            r.kind == kind,
            r@ == mk_num(r@.kind),
    {
        Number { kind, kept: true, annotation: None }
    }

    /// The inner kind of this number.
    pub fn kind(&self) -> (r: &NumberKind)
        ensures
            *r == self.kind,
    {
        &self.kind
    }

    /// Whether this number is kept.
    pub fn kept(&self) -> (r: bool)
        ensures
            r == self@.kept,
    {
        self.kept
    }

    /// The annotation of this number, if any.
    pub fn annotation(&self) -> (r: Option<&str>)
        ensures
            r matches Some(s) ==> self@.annotation == Some(s@),
            r is None ==> self@.annotation is None,
    {
        match &self.annotation {
            Some(s) => Some(s.as_str()),
            None => None,
        }
    }

    /// The inner kind of this number, to change it in place.
    pub fn kind_mut(&mut self) -> (r: &mut NumberKind)
        ensures
            *r == old(self).kind,
            final(self).kind == *final(r),
            final(self).kept == old(self).kept,
            final(self).annotation == old(self).annotation,
    {
        &mut self.kind
    }

    /// Marks this number as dropped.
    pub fn drop_(&mut self)
        ensures
            final(self)@ == (NumV { kept: false, ..old(self)@ }),
    {
        self.kept = false;
    }

    /// The value of this number; `None` where it cannot be represented.
    pub fn number(&self) -> (r: Option<Decimal>)
        requires
            num_wf(self@),
        ensures
            r == value_of(self@),
        decreases self, 1int,
    {
        proof {
            lemma_value_wf(self@);
        }
        match &self.kind {
            NumberKind::Expression(e) => e.roll.number(),
            NumberKind::Literal(l) => Some(l.values[l.values.len() - 1]),
            NumberKind::UnOp(u) => {
                let v = u.value.total();
                match u.op {
                    UnOpKind::Neg => match v {
                        Some(d) => d.neg(),
                        None => None,
                    },
                    UnOpKind::Pos => v,
                }
            },
            NumberKind::BinOp(b) => {
                let l = b.left.total();
                let r = b.right.total();
                proof {
                    lemma_value_wf(b.left@);
                    lemma_value_wf(b.right@);
                }
                binop_exec(b.op, l, r)
            },
            NumberKind::Parenthetical(p) => p.value.total(),
            NumberKind::NumSet(st) => {
                proof {
                    lemma_nums_view(st.values@);
                }
                sum_kept(&st.values)
            },
            NumberKind::Die(d) => {
                proof {
                    lemma_nums_view(d.values@);
                    assert(num_wf(nums_view(d.values@)[d.values.len() - 1]));
                }
                d.values[d.values.len() - 1].total()
            },
            NumberKind::Dice(d) => {
                proof {
                    lemma_nums_view(d.values@);
                }
                sum_kept(&d.values)
            },
        }
    }

    /// The value of this number if it is kept, else 0.
    pub fn total(&self) -> (r: Option<Decimal>)
        requires
            num_wf(self@),
        ensures
            r == total_of(self@),
        decreases self, 2int,
    {
        if self.kept {
            self.number()
        } else {
            Some(Decimal::zero())
        }
    }
}

/// The sum of the kept numbers, from left to right.
pub fn sum_kept(v: &Vec<Number>) -> (r: Option<Decimal>)
    requires
        forall|i: int| 0 <= i < v.len() ==> num_wf(#[trigger] nums_view(v@)[i]),
    ensures
        r == kept_sum(nums_view(v@)),
    decreases v,
{
    let ghost s = nums_view(v@);
    proof {
        lemma_nums_view(v@);
    }
    let mut acc: Option<Decimal> = Some(Decimal::zero());
    let mut i: usize = 0;
    while i < v.len()
        invariant
            i <= v.len(),
            s == nums_view(v@),
            s.len() == v.len(),
            forall|q: int| 0 <= q < v.len() ==> #[trigger] s[q] == num_view(v@[q]),
            forall|q: int| 0 <= q < v.len() ==> num_wf(#[trigger] s[q]),
            acc == kept_sum(s.take(i as int)),
            acc matches Some(d) ==> d.wf(),
        decreases v.len() - i,
    {
        assert(s.take(i + 1).drop_last() == s.take(i as int));
        proof {
            lemma_value_wf(s[i as int]);
        }
        let t = v[i].total();
        acc = match (acc, t) {
            (Some(a), Some(b)) => a.add(b),
            _ => None,
        };
        i = i + 1;
    }
    assert(s.take(v.len() as int) == s);
    acc
}

/// The value of a binary operation.
pub fn binop_exec(op: BinOpKind, l: Option<Decimal>, r: Option<Decimal>) -> (v: Option<Decimal>)
    requires
        l matches Some(a) ==> a.wf(),
        r matches Some(b) ==> b.wf(),
    ensures
        v == binop_value(op, l, r),
{
    match (l, r) {
        (Some(a), Some(b)) => match op {
            BinOpKind::Add => a.add(b),
            BinOpKind::Sub => a.sub(b),
            BinOpKind::Mul => a.mul(b),
            BinOpKind::Div | BinOpKind::FloorDiv => if b.is_zero() {
                None
            } else {
                a.div_euclid(b)
            },
            BinOpKind::Mod => if b.is_zero() {
                None
            } else {
                a.rem_euclid(b)
            },
            BinOpKind::Lt => Some(bool_exec(a.lt(b))),
            BinOpKind::Gt => Some(bool_exec(b.lt(a))),
            BinOpKind::Eq => Some(bool_exec(a.eq_value(b))),
            BinOpKind::Ge => Some(bool_exec(!a.lt(b))),
            BinOpKind::Le => Some(bool_exec(!b.lt(a))),
            BinOpKind::Ne => Some(bool_exec(!a.eq_value(b))),
        },
        _ => None,
    }
}

/// `1` for true, `0` for false.
pub fn bool_exec(b: bool) -> (d: Decimal)
    ensures
        d == bool_dec(b),
        d.wf(),
{
    if b {
        Decimal { mantissa: 1, scale: 0 }
    } else {
        Decimal { mantissa: 0, scale: 0 }
    }
}

impl Expression {
    /// Creates a new [`Expression`].
    pub fn new(roll: Number, comment: Option<String>) -> (r: Self)
        ensures
            r.roll@ == roll@,
            comment_view(r.comment) == comment_view(comment),
    {
        Expression { roll: Box::new(roll), comment }
    }

    /// The inner roll of this expression.
    pub fn roll(&self) -> (r: &Number)
        ensures
            r@ == self.roll@,
    {
        &self.roll
    }

    /// The comment of this expression, if any.
    pub fn comment(&self) -> (r: Option<&str>)
        ensures
            r matches Some(s) ==> comment_view(self.comment) == Some(s@),
            r is None ==> self.comment is None,
    {
        match &self.comment {
            Some(c) => Some(c.as_str()),
            None => None,
        }
    }
}

impl Literal {
    /// Creates a new [`Literal`].
    pub fn new(value: Decimal) -> (r: Self)
        ensures
            r.values@ == seq![value],
            !r.exploded,
    {
        let mut values: Vec<Decimal> = Vec::new();
        values.push(value);
        Literal { values, exploded: false }
    }

    /// All values of this literal; the last one is the current value.
    pub fn values(&self) -> (r: &Vec<Decimal>)
        ensures
            r@ == self.values@,
    {
        &self.values
    }

    /// Updates the value of this literal.
    pub fn update(&mut self, value: Decimal)
        ensures
            final(self).values@ == old(self).values@.push(value),
            final(self).exploded == old(self).exploded,
    {
        self.values.push(value);
    }
}

impl UnOp {
    /// Creates a new [`UnOp`].
    pub fn new(op: UnOpKind, value: Number) -> (r: Self)
        ensures
            r.op == op,
            r.value@ == value@,
    {
        UnOp { op, value: Box::new(value) }
    }
}

impl BinOp {
    /// Creates a new [`BinOp`].
    ///
    /// # Errors
    ///
    /// If `op` divides and the total of `right` is 0, [`Error::ZeroDivision`]
    /// is returned.
    pub fn new(left: Number, op: BinOpKind, right: Number) -> (r: Result<Self, Error>)
        requires
            num_wf(right@),
        ensures
            r is Err <==> op.is_division() && (total_of(right@) matches Some(d) && d.is_zero_spec()),
            r matches Err(e) ==> e == Error::ZeroDivision,
            r matches Ok(b) ==> b.left@ == left@ && b.op == op && b.right@ == right@,
    {
        let zero = match right.total() {
            Some(d) => d.is_zero(),
            None => false,
        };
        let division = match op {
            BinOpKind::Div | BinOpKind::FloorDiv | BinOpKind::Mod => true,
            _ => false,
        };
        if division && zero {
            return Err(Error::ZeroDivision);
        }
        Ok(BinOp { left: Box::new(left), op, right: Box::new(right) })
    }
}

impl SetOp {
    /// Creates a new [`SetOp`].
    pub fn new(op: SetOpKind, sels: Vec<SetSel>) -> (r: Self)
        ensures
            r@ == (OpView { op, sels: sels@ }),
    {
        SetOp { op, sels }
    }
}

impl Parenthetical {
    /// Creates a new [`Parenthetical`] without operators.
    pub fn new(value: Number) -> (r: Self)
        ensures
            r.value@ == value@,
            r.ops@ == Seq::<SetOp>::empty(),
    {
        Parenthetical { value: Box::new(value), ops: Vec::new() }
    }
}

impl NumSet {
    /// Creates a new [`NumSet`].
    ///
    /// # Errors
    ///
    /// If any operator other than keep and drop is given, [`Error::Value`] is
    /// returned.
    pub fn new(values: Vec<Number>, ops: Vec<SetOp>) -> (r: Result<Self, Error>)
        ensures
            r is Ok <==> forall|i: int| 0 <= i < ops.len() ==> (#[trigger] ops@[i]).op.for_any_set(),
            r matches Err(e) ==> e == Error::Value(ONLY_KEEP_DROP),
            r matches Ok(st) ==> st.values == values && st.ops == ops,
    {
        let mut i: usize = 0;
        while i < ops.len()
            invariant
                i <= ops.len(),
                forall|q: int| 0 <= q < i ==> (#[trigger] ops@[q]).op.for_any_set(),
            decreases ops.len() - i,
        {
            match ops[i].op {
                SetOpKind::Keep | SetOpKind::Drop => {},
                _ => {
                    return Err(Error::Value(ONLY_KEEP_DROP));
                },
            }
            i = i + 1;
        }
        Ok(NumSet { values, ops })
    }
}

/// The message of the error for a set operator that applies to dice only.
pub const ONLY_KEEP_DROP: &'static str = "only keep and drop are valid operators for sets";

impl Die {
    /// The number of sides on this die.
    pub fn sides(&self) -> (r: DieSides)
        ensures
            r == self.sides,
    {
        self.sides
    }

    /// The values this die has rolled.
    pub fn values(&self) -> (r: &Vec<Number>)
        ensures
            r@ == self.values@,
    {
        &self.values
    }
}

impl Dice {
    /// The number of dice first rolled.
    pub fn num(&self) -> (r: u32)
        ensures
            r == self.num,
    {
        self.num
    }

    /// The number of sides on the dice.
    pub fn sides(&self) -> (r: DieSides)
        ensures
            r == self.sides,
    {
        self.sides
    }
}

/// The child numbers of a number, from left to right.
pub open spec fn num_kids(n: Number) -> Seq<Number> {
    match n.kind {
        NumberKind::Expression(e) => seq![*e.roll],
        NumberKind::UnOp(u) => seq![*u.value],
        NumberKind::BinOp(b) => seq![*b.left, *b.right],
        NumberKind::Parenthetical(p) => seq![*p.value],
        NumberKind::NumSet(st) => st.values@,
        _ => Seq::empty(),
    }
}

/// The height of a number.
pub open spec fn num_height(n: Number) -> nat
    decreases n,
{
    match n.kind {
        NumberKind::Expression(e) => 1 + num_height(*e.roll),
        NumberKind::UnOp(u) => 1 + num_height(*u.value),
        NumberKind::BinOp(b) => 1 + max_nat(num_height(*b.left), num_height(*b.right)),
        NumberKind::Parenthetical(p) => 1 + num_height(*p.value),
        NumberKind::NumSet(st) => 1 + nums_height(st.values@),
        _ => 0,
    }
}

/// The greatest height of the numbers.
pub open spec fn nums_height(s: Seq<Number>) -> nat
    decreases s,
{
    if s.len() == 0 {
        0
    } else {
        max_nat(nums_height(s.drop_last()), num_height(s.last()))
    }
}

/// No number is higher than the greatest height.
pub proof fn lemma_nums_height(s: Seq<Number>)
    ensures
        forall|i: int| 0 <= i < s.len() ==> num_height(#[trigger] s[i]) <= nums_height(s),
    decreases s.len(),
{
    if s.len() > 0 {
        lemma_nums_height(s.drop_last());
        assert forall|i: int| 0 <= i < s.len() implies num_height(#[trigger] s[i]) <= nums_height(s) by {
            if i < s.len() - 1 {
                assert(s[i] == s.drop_last()[i]);
            }
        }
    }
}

/// A number with its children left out.
pub open spec fn num_head(n: NumV) -> NumV {
    let hole = Box::new(mk_num(KindV::NumSet { values: Seq::empty(), ops: Seq::empty() }));
    let kind = match n.kind {
        KindV::Expression { comment, .. } => KindV::Expression { roll: hole, comment },
        KindV::UnOp { op, .. } => KindV::UnOp { op, value: hole },
        KindV::BinOp { op, .. } => KindV::BinOp { left: hole, op, right: hole },
        KindV::Parenthetical { ops, .. } => KindV::Parenthetical { value: hole, ops },
        KindV::NumSet { ops, .. } => KindV::NumSet { values: Seq::empty(), ops },
        _ => n.kind,
    };
    NumV { kind, ..n }
}

impl HasChildren for Number {
    open spec fn kids(&self) -> Seq<Number> {
        num_kids(*self)
    }

    open spec fn same_head(&self, other: &Number) -> bool {
        num_head(self@) == num_head(other@)
    }

    proof fn lemma_same_head(&self, b: &Number, c: &Number) {
    }

    open spec fn height(&self) -> nat {
        num_height(*self)
    }

    proof fn lemma_kids_lower(&self) {
        match self.kind {
            NumberKind::NumSet(st) => lemma_nums_height(st.values@),
            _ => {},
        }
    }

    fn child_count(&self) -> (r: usize) {
        match &self.kind {
            NumberKind::Expression(_) | NumberKind::UnOp(_) | NumberKind::Parenthetical(_) => 1,
            NumberKind::BinOp(_) => 2,
            NumberKind::NumSet(st) => st.values.len(),
            _ => 0,
        }
    }

    fn child(&self, idx: usize) -> (r: &Number) {
        match &self.kind {
            NumberKind::Expression(e) => &e.roll,
            NumberKind::UnOp(u) => &u.value,
            NumberKind::BinOp(b) => if idx == 0 {
                &b.left
            } else {
                &b.right
            },
            NumberKind::Parenthetical(p) => &p.value,
            NumberKind::NumSet(st) => &st.values[idx],
            _ => self,
        }
    }

    fn left(&self) -> (r: Option<&Number>) {
        if self.child_count() == 0 {
            None
        } else {
            Some(self.child(0))
        }
    }

    fn right(&self) -> (r: Option<&Number>) {
        let n = self.child_count();
        if n == 0 {
            None
        } else {
            Some(self.child(n - 1))
        }
    }

    fn set_child(&mut self, idx: usize, child: Number) {
        match &mut self.kind {
            NumberKind::Expression(e) => {
                e.roll = Box::new(child);
            },
            NumberKind::UnOp(u) => {
                u.value = Box::new(child);
            },
            NumberKind::BinOp(b) => {
                if idx == 0 {
                    b.left = Box::new(child);
                } else {
                    b.right = Box::new(child);
                }
            },
            NumberKind::Parenthetical(p) => {
                p.value = Box::new(child);
            },
            NumberKind::NumSet(st) => {
                st.values.set(idx, child);
            },
            _ => {},
        }
    }
}

} // verus!
