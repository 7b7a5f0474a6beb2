//! Types for the abstract syntax tree (AST) returned by the parser.
use vstd::prelude::*;
use crate::kinds::{BinOpKind, DieSides, SelCat, SetOpKind, UnOpKind};
use crate::num::{decimal_text, nat_text, Decimal};
use crate::text::{trim, trim_text};

verus! {

/// A set selector.
#[derive(Clone, Copy, PartialEq, Eq, Debug, Hash, Structural)]
pub struct SetSel {
    /// The kind of selection.
    pub cat: SelCat,
    /// The number the selection is made with.
    pub num: u32,
}

impl SetSel {
    /// Creates a new [`SetSel`].
    pub fn new(cat: SelCat, num: u32) -> (r: Self)
        ensures
            r == (SetSel { cat, num }),
    {
        SetSel { cat, num }
    }

    /// The text of this selector.
    pub open spec fn text(self) -> Seq<char> {
        self.cat.text() + nat_text(self.num as nat)
    }

    /// The text of this selector.
    pub fn to_text(&self) -> (s: String)
        ensures
            s@ == self.text(),
    {
        let mut s = String::from_str(self.cat.as_str());
        let n = crate::num::nat_to_text(self.num as u128);
        s.append(n.as_str());
        s
    }
}

/// The plain value of a set operator.
pub struct OpView {
    /// The operation.
    pub op: SetOpKind,
    /// Its selectors, applied in order.
    pub sels: Seq<SetSel>,
}

/// The text of one operation for each selector, one after the other.
pub open spec fn op_text(op: SetOpKind, sels: Seq<SetSel>) -> Seq<char>
    decreases sels.len(),
{
    if sels.len() == 0 {
        Seq::empty()
    } else {
        op_text(op, sels.drop_last()) + op.text() + sels.last().text()
    }
}

/// The text of a sequence of set operators.
pub open spec fn ops_text(ops: Seq<OpView>) -> Seq<char>
    decreases ops.len(),
{
    if ops.len() == 0 {
        Seq::empty()
    } else {
        ops_text(ops.drop_last()) + op_text(ops.last().op, ops.last().sels)
    }
}

/// A copy of a vector of selectors.
pub fn copy_sels(v: &Vec<SetSel>) -> (r: Vec<SetSel>)
    ensures
        r@ == v@,
{
    let mut r: Vec<SetSel> = Vec::new();
    let mut i: usize = 0;
    while i < v.len()
        invariant
            i <= v.len(),
            r@ == v@.take(i as int),
        decreases v.len() - i,
    {
        r.push(v[i]);
        i = i + 1;
        assert(r@ == v@.take(i as int));
    }
    assert(v@.take(v.len() as int) == v@);
    r
}

/// A set operator.
#[derive(Debug, PartialEq, Eq)]
pub struct SetOp {
    /// The operation.
    pub op: SetOpKind,
    /// Its selectors, applied in order.
    pub sels: Vec<SetSel>,
}

impl View for SetOp {
    type V = OpView;

    open spec fn view(&self) -> OpView {
        OpView { op: self.op, sels: self.sels@ }
    }
}

impl Clone for SetOp {
    fn clone(&self) -> (r: Self)
        ensures
            r@ == self@,
    {
        SetOp { op: self.op, sels: copy_sels(&self.sels) }
    }
}

impl SetOp {
    /// Creates a new [`SetOp`].
    pub fn new(op: SetOpKind, sel: SetSel) -> (r: Self)
        ensures
            r@ == (OpView { op, sels: seq![sel] }),
    {
        let mut sels: Vec<SetSel> = Vec::new();
        sels.push(sel);
        SetOp { op, sels }
    }

    /// Append selectors to this [`SetOp`].
    pub fn add_sels(&mut self, selectors: Vec<SetSel>)
        ensures
            final(self)@ == (OpView { op: old(self).op, sels: old(self).sels@ + selectors@ }),
    {
        let mut i: usize = 0;
        let ghost start = self.sels@;
        while i < selectors.len()
            invariant
                i <= selectors.len(),
                self.op == old(self).op,
                start == old(self).sels@,
                self.sels@ == start + selectors@.take(i as int),
            decreases selectors.len() - i,
        {
            self.sels.push(selectors[i]);
            i = i + 1;
            assert(self.sels@ == start + selectors@.take(i as int));
        }
        assert(selectors@.take(selectors.len() as int) == selectors@);
    }

    /// The text of this operator.
    pub fn to_text(&self) -> (s: String)
        ensures
            s@ == op_text(self.op, self.sels@),
    {
        op_to_text(self.op, &self.sels)
    }
}

/// The text of one operation for each selector, one after the other.
pub fn op_to_text(op: SetOpKind, sels: &Vec<SetSel>) -> (s: String)
    ensures
        s@ == op_text(op, sels@),
{
    let mut s = String::new();
    let mut i: usize = 0;
    while i < sels.len()
        invariant
            i <= sels.len(),
            s@ == op_text(op, sels@.take(i as int)),
        decreases sels.len() - i,
    {
        s.append(op.as_str());
        let t = sels[i].to_text();
        s.append(t.as_str());
        i = i + 1;
        assert(sels@.take(i as int).drop_last() == sels@.take(i - 1));
    }
    assert(sels@.take(sels.len() as int) == sels@);
    s
}

/// The plain value of a parsed tree.
#[allow(inconsistent_fields)]
pub enum Tree {
    /// A roll expression with its comment.
    Expression { roll: Box<Tree>, comment: Option<Seq<char>> },
    /// A literal value.
    Literal(Decimal),
    /// A parenthetical value.
    Parenthetical(Box<Tree>),
    /// An annotated value.
    Annotated { value: Box<Tree>, annotations: Seq<Seq<char>> },
    /// A unary operation.
    UnOp { op: UnOpKind, value: Box<Tree> },
    /// A binary operation.
    BinOp { op: BinOpKind, left: Box<Tree>, right: Box<Tree> },
    /// A set expression.
    SetExpr(Seq<Tree>),
    /// A dice expression.
    DiceExpr { num: u32, sides: DieSides },
    /// A set expression along with operators.
    SetWithOps { value: Box<Tree>, ops: Seq<OpView> },
    /// A dice expression along with operators.
    Dice { value: Box<Tree>, ops: Seq<OpView> },
}

/// A node in the abstract syntax tree.
#[derive(Debug, PartialEq, Eq)]
pub enum Node {
    /// A roll expression.
    ///
    /// This is always the root of any parsed expression.
    Expression(Expression),
    /// A literal value.
    Literal(Literal),
    /// A parenthetical value.
    Parenthetical(Parenthetical),
    /// An annotated value.
    Annotated(Annotated),
    /// A unary operation.
    UnOp(UnOp),
    /// A binary operation.
    BinOp(BinOp),
    /// A set expression
    SetExpr(SetExpr),
    /// A dice expression
    DiceExpr(DiceExpr),
    /// A set expression along with operators.
    SetWithOps(SetWithOps),
    /// A dice expression along with operators.
    Dice(Dice),
}

/// A literal value.
#[derive(Clone, Copy, Debug, PartialEq, Eq, Hash, Structural)]
pub struct Literal {
    /// The value of the literal.
    pub value: Decimal,
}

/// A parenthesized value.
#[derive(Debug, PartialEq, Eq)]
pub struct Parenthetical {
    /// The inner value.
    pub value: Box<Node>,
}

/// A parsed roll expression.
#[derive(Debug, PartialEq, Eq)]
pub struct Expression {
    /// The roll expression.
    pub roll: Box<Node>,
    /// The comment.
    pub comment: Option<String>,
}

/// An annotated value.
#[derive(Debug, PartialEq, Eq)]
pub struct Annotated {
    /// The annotated value.
    pub value: Box<Node>,
    /// The annotations, each with its brackets.
    pub annotations: Vec<String>,
}

/// A unary operation.
#[derive(Debug, PartialEq, Eq)]
pub struct UnOp {
    /// The operator.
    pub op: UnOpKind,
    /// The operand.
    pub value: Box<Node>,
}

/// A binary operation.
#[derive(Debug, PartialEq, Eq)]
pub struct BinOp {
    /// The operator.
    pub op: BinOpKind,
    /// The left operand.
    pub left: Box<Node>,
    /// The right operand.
    pub right: Box<Node>,
}

/// A set expression.
#[derive(Debug, PartialEq, Eq)]
pub struct SetExpr {
    /// The members of the set.
    pub values: Vec<Node>,
}

/// A dice expression.
#[derive(Clone, Copy, Debug, PartialEq, Eq, Hash, Structural)]
pub struct DiceExpr {
    /// The number of dice.
    pub num: u32,
    /// The number of sides on the die.
    pub sides: DieSides,
}

/// A set expression along with operators.
#[derive(Debug, PartialEq, Eq)]
pub struct SetWithOps {
    /// The set.
    pub value: Box<Node>,
    /// The operators, applied in order.
    pub ops: Vec<SetOp>,
}

/// A dice expression along with operators.
#[derive(Debug, PartialEq, Eq)]
pub struct Dice {
    /// The dice.
    pub value: Box<Node>,
    /// The operators, applied in order.
    pub ops: Vec<SetOp>,
}

/// The plain values of a sequence of set operators.
pub open spec fn ops_view(ops: Seq<SetOp>) -> Seq<OpView> {
    ops.map_values(|o: SetOp| o@)
}

/// The plain value of an optional comment.
pub open spec fn comment_view(c: Option<String>) -> Option<Seq<char>> {
    match c {
        Some(s) => Some(s@),
        None => None,
    }
}

/// The plain values of the annotations.
pub open spec fn strings_view(v: Seq<String>) -> Seq<Seq<char>> {
    v.map_values(|s: String| s@)
}

/// The plain value of a node.
pub open spec fn tree_of(n: Node) -> Tree
    decreases n,
{
    match n {
        Node::Expression(e) => Tree::Expression {
            roll: Box::new(tree_of(*e.roll)),
            comment: comment_view(e.comment),
        },
        Node::Literal(l) => Tree::Literal(l.value),
        Node::Parenthetical(p) => Tree::Parenthetical(Box::new(tree_of(*p.value))),
        Node::Annotated(a) => Tree::Annotated {
            value: Box::new(tree_of(*a.value)),
            annotations: strings_view(a.annotations@),
        },
        Node::UnOp(u) => Tree::UnOp { op: u.op, value: Box::new(tree_of(*u.value)) },
        Node::BinOp(b) => Tree::BinOp {
            op: b.op,
            left: Box::new(tree_of(*b.left)),
            right: Box::new(tree_of(*b.right)),
        },
        Node::SetExpr(s) => Tree::SetExpr(trees_of(s.values@)),
        Node::DiceExpr(d) => Tree::DiceExpr { num: d.num, sides: d.sides },
        Node::SetWithOps(s) => Tree::SetWithOps { value: Box::new(tree_of(*s.value)), ops: ops_view(s.ops@) },
        Node::Dice(d) => Tree::Dice { value: Box::new(tree_of(*d.value)), ops: ops_view(d.ops@) },
    }
}

/// The plain values of a sequence of nodes.
pub open spec fn trees_of(s: Seq<Node>) -> Seq<Tree>
    decreases s,
{
    if s.len() == 0 {
        Seq::empty()
    } else {
        trees_of(s.drop_last()).push(tree_of(s.last()))
    }
}

/// `trees_of` maps each node to its plain value.
pub proof fn lemma_trees_of(s: Seq<Node>)
    ensures
        trees_of(s).len() == s.len(),
        forall|i: int| 0 <= i < s.len() ==> #[trigger] trees_of(s)[i] == tree_of(s[i]),
    decreases s.len(),
{
    if s.len() > 0 {
        lemma_trees_of(s.drop_last());
    }
}

/// `trees_of` of one more node.
pub proof fn lemma_trees_of_push(s: Seq<Node>, n: Node)
    ensures
        trees_of(s.push(n)) == trees_of(s).push(tree_of(n)),
{
    assert(s.push(n).drop_last() == s);
}

/// The separator-joined concatenation of the parts.
pub open spec fn join(parts: Seq<Seq<char>>, sep: Seq<char>) -> Seq<char>
    decreases parts.len(),
{
    if parts.len() == 0 {
        Seq::empty()
    } else if parts.len() == 1 {
        parts[0]
    } else {
        join(parts.drop_last(), sep) + sep + parts.last()
    }
}

/// The text of each tree.
pub open spec fn texts_of(s: Seq<Tree>) -> Seq<Seq<char>>
    decreases s,
{
    if s.len() == 0 {
        Seq::empty()
    } else {
        texts_of(s.drop_last()).push(tree_text(s.last()))
    }
}

/// The text of a die's sides, as written after the `d`.
pub open spec fn sides_text(s: DieSides) -> Seq<char> {
    match s {
        DieSides::Percentile => seq!['%'],
        DieSides::Literal(n) => nat_text(n as nat),
    }
}

/// The text of a tree, as it is displayed.
pub open spec fn tree_text(t: Tree) -> Seq<char>
    decreases t,
{
    match t {
        Tree::Expression { roll, comment } => match comment {
            Some(c) => tree_text(*roll) + seq![' '] + c,
            None => tree_text(*roll),
        },
        Tree::Literal(d) => decimal_text(d),
        Tree::Parenthetical(v) => seq!['('] + tree_text(*v) + seq![')'],
        Tree::Annotated { value, annotations } => tree_text(*value) + seq![' '] + join(
            annotations,
            Seq::empty(),
        ),
        Tree::UnOp { op, value } => op.text() + tree_text(*value),
        Tree::BinOp { op, left, right } => tree_text(*left) + seq![' '] + op.text() + seq![' ']
            + tree_text(*right),
        Tree::SetExpr(values) => if values.len() == 1 {
            seq!['('] + tree_text(values[0]) + seq![',', ')']
        } else {
            seq!['('] + join(texts_of(values), seq![',', ' ']) + seq![')']
        },
        Tree::DiceExpr { num, sides } => nat_text(num as nat) + seq!['d'] + sides_text(sides),
        Tree::SetWithOps { value, ops } => tree_text(*value) + ops_text(ops),
        Tree::Dice { value, ops } => tree_text(*value) + ops_text(ops),
    }
}

/// Whether a tree evaluates to a set of dice.
pub open spec fn evaluates_to_dice(t: Tree) -> bool
    decreases t,
{
    match t {
        Tree::DiceExpr { .. } => true,
        Tree::Dice { value, .. } => evaluates_to_dice(*value),
        Tree::SetWithOps { value, .. } => evaluates_to_dice(*value),
        Tree::Annotated { value, .. } => evaluates_to_dice(*value),
        _ => false,
    }
}

/// Whether every operator only keeps or drops.
pub open spec fn ops_for_any_set(ops: Seq<OpView>) -> bool {
    forall|i: int| 0 <= i < ops.len() ==> #[trigger] ops[i].op.for_any_set()
}

/// Whether every operator has at least one selector.
pub open spec fn ops_have_sels(ops: Seq<OpView>) -> bool {
    forall|i: int| 0 <= i < ops.len() ==> #[trigger] ops[i].sels.len() > 0
}

/// Whether every clamping operator has a selector.
pub open spec fn clamps_have_sels(ops: Seq<OpView>) -> bool {
    forall|i: int|
        0 <= i < ops.len() && ((#[trigger] ops[i]).op == SetOpKind::Min || ops[i].op == SetOpKind::Max)
            ==> ops[i].sels.len() > 0
}

/// Operators that each have a selector include every clamping one.
pub proof fn lemma_clamps_have_sels(ops: Seq<OpView>)
    requires
        ops_have_sels(ops),
    ensures
        clamps_have_sels(ops),
{
    assert forall|i: int|
        0 <= i < ops.len() && ((#[trigger] ops[i]).op == SetOpKind::Min || ops[i].op == SetOpKind::Max) implies ops[i].sels.len()
            > 0 by {
        assert(ops[i].sels.len() > 0);
    }
}

/// Whether a tree can be rolled: literals are within the scale limit,
/// operators other than keeping and dropping are applied to dice only, and
/// every clamping operator has a selector.
pub open spec fn tree_wf(t: Tree) -> bool
    decreases t,
{
    match t {
        Tree::Expression { roll, .. } => tree_wf(*roll),
        Tree::Literal(d) => d.wf(),
        Tree::Parenthetical(v) => tree_wf(*v),
        Tree::Annotated { value, .. } => tree_wf(*value),
        Tree::UnOp { value, .. } => tree_wf(*value),
        Tree::BinOp { left, right, .. } => tree_wf(*left) && tree_wf(*right),
        Tree::SetExpr(values) => forall|i: int| 0 <= i < values.len() ==> tree_wf(#[trigger] values[i]),
        Tree::DiceExpr { .. } => true,
        Tree::SetWithOps { value, ops } => tree_wf(*value) && clamps_have_sels(ops) && (ops_for_any_set(ops)
            || evaluates_to_dice(*value)),
        Tree::Dice { value, ops } => tree_wf(*value) && clamps_have_sels(ops) && (ops_for_any_set(ops)
            || evaluates_to_dice(*value)),
    }
}

/// Whether every dice node of a tree holds a dice expression.
pub open spec fn dice_hold_exprs(t: Tree) -> bool
    decreases t,
{
    match t {
        Tree::Expression { roll, .. } => dice_hold_exprs(*roll),
        Tree::Parenthetical(v) => dice_hold_exprs(*v),
        Tree::Annotated { value, .. } => dice_hold_exprs(*value),
        Tree::UnOp { value, .. } => dice_hold_exprs(*value),
        Tree::BinOp { left, right, .. } => dice_hold_exprs(*left) && dice_hold_exprs(*right),
        Tree::SetExpr(values) => forall|i: int| 0 <= i < values.len() ==> dice_hold_exprs(#[trigger] values[i]),
        Tree::SetWithOps { value, .. } => dice_hold_exprs(*value),
        Tree::Dice { value, .. } => (*value) is DiceExpr,
        _ => true,
    }
}

/// Whether no two neighbouring operators are of the same kind, unless that
/// kind is one that is never merged.
pub open spec fn ops_merged(ops: Seq<OpView>) -> bool {
    forall|i: int, j: int|
        #![trigger ops[i], ops[j]]
        0 <= i && j == i + 1 && j < ops.len() && ops[i].op == ops[j].op ==> !ops[i].op.merges()
}

/// Whether the operators of a tree are as the parser leaves them: sets carry
/// only keep and drop, and neighbouring operators of a kind that merges are
/// merged.
pub open spec fn ops_in_place(t: Tree) -> bool
    decreases t,
{
    match t {
        Tree::Expression { roll, .. } => ops_in_place(*roll),
        Tree::Parenthetical(v) => ops_in_place(*v),
        Tree::Annotated { value, .. } => ops_in_place(*value),
        Tree::UnOp { value, .. } => ops_in_place(*value),
        Tree::BinOp { left, right, .. } => ops_in_place(*left) && ops_in_place(*right),
        Tree::SetExpr(values) => forall|i: int| 0 <= i < values.len() ==> ops_in_place(#[trigger] values[i]),
        Tree::SetWithOps { value, ops } => ops_in_place(*value) && ops_for_any_set(ops) && ops_merged(ops),
        Tree::Dice { value, ops } => ops_in_place(*value) && ops_merged(ops),
        _ => true,
    }
}

/// Whether a tree is one the parser gives: it can be rolled, every dice
/// node holds a dice expression, and its operators are in place.
pub open spec fn parsed_wf(t: Tree) -> bool {
    tree_wf(t) && dice_hold_exprs(t) && ops_in_place(t)
}

/// Simplifying leaves no two neighbouring operators of the same kind that
/// merges.
pub proof fn law_simplify_merges(ops: Seq<OpView>)
    ensures
        ops_merged(simplify(ops)),
    decreases ops.len(),
{
    if ops.len() > 0 {
        law_simplify_merges(ops.drop_last());
        let sp = simplify(ops.drop_last());
        let op = ops.last();
        let r = simplify_step(sp, op);
        assert forall|i: int, j: int|
            #![trigger r[i], r[j]]
            0 <= i && j == i + 1 && j < r.len() && r[i].op == r[j].op implies !r[i].op.merges() by {
            if !op.op.merges() || sp.len() == 0 {
                if i < sp.len() - 1 {
                    assert(r[i] == sp[i] && r[i + 1] == sp[i + 1]);
                }
            } else if sp.last().op == op.op {
                if i < sp.len() - 2 {
                    assert(r[i] == sp[i] && r[i + 1] == sp[i + 1]);
                } else {
                    assert(r[i] == sp[i]);
                    assert(r[i + 1].op == sp[i + 1].op);
                }
            } else {
                if i < sp.len() - 1 {
                    assert(r[i] == sp[i] && r[i + 1] == sp[i + 1]);
                }
            }
        }
    }
}

/// The operators with consecutive operators of the same mergeable kind
/// combined into one.
pub open spec fn simplify(ops: Seq<OpView>) -> Seq<OpView>
    decreases ops.len(),
{
    if ops.len() == 0 {
        Seq::empty()
    } else {
        simplify_step(simplify(ops.drop_last()), ops.last())
    }
}

/// One step of [`simplify`].
pub open spec fn simplify_step(new: Seq<OpView>, op: OpView) -> Seq<OpView> {
    if !op.op.merges() || new.len() == 0 {
        new.push(op)
    } else if new.last().op == op.op {
        new.update(new.len() - 1, OpView { op: op.op, sels: new.last().sels + op.sels })
    } else {
        new.push(op)
    }
}

/// The operators with consecutive operators of the same mergeable kind
/// combined into one.
pub fn simplify_ops(ops: &[SetOp]) -> (r: Vec<SetOp>)
    ensures
        ops_view(r@) == simplify(ops_view(ops@)),
{
    let mut new: Vec<SetOp> = Vec::new();
    let mut i: usize = 0;
    while i < ops.len()
        invariant
            i <= ops.len(),
            ops_view(new@) == simplify(ops_view(ops@.take(i as int))),
        decreases ops.len() - i,
    {
        let op = &ops[i];
        let ghost prev = ops_view(new@);
        proof {
            assert(ops_view(ops@.take(i + 1)).drop_last() == ops_view(ops@.take(i as int)));
            assert(ops_view(ops@.take(i + 1)).last() == ops@[i as int]@);
        }
        let merges = match op.op {
            SetOpKind::Min | SetOpKind::Max => false,
            _ => true,
        };
        if !merges || new.len() == 0 {
            new.push(op.clone());
            assert(ops_view(new@) == prev.push(op@));
        } else {
            let last = new.len() - 1;
            if new[last].op == op.op {
                let mut merged = new.remove(last);
                merged.add_sels(copy_sels(&op.sels));
                new.push(merged);
                assert(ops_view(new@) == prev.update(
                    prev.len() - 1,
                    OpView { op: op.op, sels: prev.last().sels + op.sels@ },
                ));
            } else {
                new.push(op.clone());
                assert(ops_view(new@) == prev.push(op@));
            }
        }
        i = i + 1;
    }
    assert(ops@.take(ops.len() as int) == ops@);
    new
}

/// A copy of a vector of strings.
pub fn copy_strings(v: &Vec<String>) -> (r: Vec<String>)
    ensures
        strings_view(r@) == strings_view(v@),
{
    let mut r: Vec<String> = Vec::new();
    let mut i: usize = 0;
    while i < v.len()
        invariant
            i <= v.len(),
            strings_view(r@) == strings_view(v@.take(i as int)),
        decreases v.len() - i,
    {
        let ghost before = r@;
        r.push(v[i].clone());
        assert(strings_view(r@) =~= strings_view(before).push(v@[i as int]@));
        i = i + 1;
        assert(strings_view(v@.take(i as int)) =~= strings_view(v@.take(i - 1)).push(v@[i - 1]@));
    }
    assert(v@.take(v.len() as int) == v@);
    r
}

/// A copy of a vector of set operators.
pub fn copy_set_ops(v: &Vec<SetOp>) -> (r: Vec<SetOp>)
    ensures
        ops_view(r@) == ops_view(v@),
{
    let mut r: Vec<SetOp> = Vec::new();
    let mut i: usize = 0;
    while i < v.len()
        invariant
            i <= v.len(),
            ops_view(r@) == ops_view(v@.take(i as int)),
        decreases v.len() - i,
    {
        let ghost before = r@;
        r.push(v[i].clone());
        assert(ops_view(r@) =~= ops_view(before).push(v@[i as int]@));
        i = i + 1;
        assert(ops_view(v@.take(i as int)) =~= ops_view(v@.take(i - 1)).push(v@[i - 1]@));
    }
    assert(v@.take(v.len() as int) == v@);
    r
}

/// An optional string, copied.
pub fn copy_comment(c: &Option<String>) -> (r: Option<String>)
    ensures
        comment_view(r) == comment_view(*c),
{
    match c {
        Some(s) => Some(s.clone()),
        None => None,
    }
}

/// A deep copy of a node.
pub fn copy_node(n: &Node) -> (r: Node)
    ensures
        tree_of(r) == tree_of(*n),
    decreases n,
{
    match n {
        Node::Expression(e) => Node::Expression(
            Expression { roll: Box::new(copy_node(&e.roll)), comment: copy_comment(&e.comment) },
        ),
        Node::Literal(l) => Node::Literal(Literal { value: l.value }),
        Node::Parenthetical(p) => Node::Parenthetical(Parenthetical { value: Box::new(copy_node(&p.value)) }),
        Node::Annotated(a) => Node::Annotated(
            Annotated { value: Box::new(copy_node(&a.value)), annotations: copy_strings(&a.annotations) },
        ),
        Node::UnOp(u) => Node::UnOp(UnOp { op: u.op, value: Box::new(copy_node(&u.value)) }),
        Node::BinOp(b) => Node::BinOp(
            BinOp { op: b.op, left: Box::new(copy_node(&b.left)), right: Box::new(copy_node(&b.right)) },
        ),
        Node::SetExpr(st) => Node::SetExpr(SetExpr { values: copy_nodes(&st.values) }),
        Node::DiceExpr(d) => Node::DiceExpr(DiceExpr { num: d.num, sides: d.sides }),
        Node::SetWithOps(st) => Node::SetWithOps(
            SetWithOps { value: Box::new(copy_node(&st.value)), ops: copy_set_ops(&st.ops) },
        ),
        Node::Dice(d) => Node::Dice(Dice { value: Box::new(copy_node(&d.value)), ops: copy_set_ops(&d.ops) }),
    }
}

/// A deep copy of a vector of nodes.
pub fn copy_nodes(v: &Vec<Node>) -> (r: Vec<Node>)
    ensures
        trees_of(r@) == trees_of(v@),
    decreases v,
{
    let mut r: Vec<Node> = Vec::new();
    let mut i: usize = 0;
    while i < v.len()
        invariant
            i <= v.len(),
            trees_of(r@) == trees_of(v@.take(i as int)),
        decreases v.len() - i,
    {
        let ghost before = r@;
        let c = copy_node(&v[i]);
        r.push(c);
        assert(r@.drop_last() == before);
        assert(v@.take(i + 1).drop_last() == v@.take(i as int));
        i = i + 1;
    }
    assert(v@.take(v.len() as int) == v@);
    r
}

impl Clone for Node {
    fn clone(&self) -> (r: Self)
        ensures
            tree_of(r) == tree_of(*self),
    {
        copy_node(self)
    }
}

impl Clone for Expression {
    fn clone(&self) -> (r: Self)
        ensures
            tree_of(Node::Expression(r)) == tree_of(Node::Expression(*self)),
    {
        Expression { roll: Box::new(copy_node(&self.roll)), comment: copy_comment(&self.comment) }
    }
}

impl Literal {
    /// Creates a new [`Literal`].
    pub fn new(value: Decimal) -> (r: Self)
        ensures
            r.value == value,
    {
        Literal { value }
    }

    /// The value of the literal.
    pub fn value(&self) -> (r: Decimal)
        ensures
            r == self.value,
    {
        self.value
    }
}

impl Parenthetical {
    /// Creates a new [`Parenthetical`].
    pub fn new(value: Node) -> (r: Self)
        ensures
            tree_of(Node::Parenthetical(r)) == Tree::Parenthetical(Box::new(tree_of(value))),
    {
        Parenthetical { value: Box::new(value) }
    }

    /// The inner value of the parenthetical.
    pub fn value(&self) -> (r: &Node)
        ensures
            *r == *self.value,
    {
        &self.value
    }
}

impl Expression {
    /// Creates a new [`Expression`].
    pub fn new(roll: Node, comment: Option<String>) -> (r: Self)
        ensures
            tree_of(Node::Expression(r)) == (Tree::Expression {
                roll: Box::new(tree_of(roll)),
                comment: comment_view(comment),
            }),
    {
        Expression { roll: Box::new(roll), comment }
    }

    /// The roll expression.
    pub fn roll(&self) -> (r: &Node)
        ensures
            *r == *self.roll,
    {
        &self.roll
    }

    /// The comment.
    pub fn comment(&self) -> (r: Option<&str>)
        ensures
            r matches Some(s) ==> comment_view(self.comment) == Some(s@),
            r is None ==> self.comment is None,
    {
        match &self.comment {
            Some(c) => Some(c.as_str()),
            None => None,
        }
    }
}

impl Annotated {
    /// Creates a new [`Annotated`], each annotation trimmed of white space.
    pub fn new(value: Node, annotations: Vec<String>) -> (r: Self)
        ensures
            *r.value == value,
            strings_view(r.annotations@) == strings_view(annotations@).map_values(|a: Seq<char>| trim(a)),
    {
        let mut out: Vec<String> = Vec::new();
        let mut i: usize = 0;
        while i < annotations.len()
            invariant
                i <= annotations.len(),
                out@.len() == i,
                forall|q: int| 0 <= q < i ==> #[trigger] out@[q]@ == trim(annotations@[q]@),
            decreases annotations.len() - i,
        {
            out.push(trim_text(annotations[i].as_str()));
            i = i + 1;
        }
        assert(strings_view(out@) =~= strings_view(annotations@).map_values(|a: Seq<char>| trim(a)));
        Annotated { value: Box::new(value), annotations: out }
    }
}

impl UnOp {
    /// Creates a new [`UnOp`].
    pub fn new(op: UnOpKind, value: Node) -> (r: Self)
        ensures
            r.op == op,
            *r.value == value,
    {
        UnOp { op, value: Box::new(value) }
    }
}

impl BinOp {
    /// Creates a new [`BinOp`].
    pub fn new(left: Node, op: BinOpKind, right: Node) -> (r: Self)
        ensures
            r.op == op,
            *r.left == left,
            *r.right == right,
    {
        BinOp { op, left: Box::new(left), right: Box::new(right) }
    }
}

impl SetExpr {
    /// Creates a new [`SetExpr`].
    pub fn new(values: Vec<Node>) -> (r: Self)
        ensures
            r.values == values,
    {
        SetExpr { values }
    }
}

impl DiceExpr {
    /// Creates a new [`DiceExpr`].
    pub fn new(num: u32, sides: DieSides) -> (r: Self)
        ensures
            r == (DiceExpr { num, sides }),
    {
        DiceExpr { num, sides }
    }

    /// The number of dice.
    pub fn num(&self) -> (r: u32)
        ensures
            r == self.num,
    {
        self.num
    }

    /// The number of sides on the die.
    pub fn sides(&self) -> (r: DieSides)
        ensures
            r == self.sides,
    {
        self.sides
    }
}

impl SetWithOps {
    /// Creates a new [`SetWithOps`], with consecutive operators of the same
    /// mergeable kind combined into one.
    pub fn new(value: Node, ops: &[SetOp]) -> (r: Self)
        ensures
            *r.value == value,
            ops_view(r.ops@) == simplify(ops_view(ops@)),
    {
        SetWithOps { value: Box::new(value), ops: simplify_ops(ops) }
    }
}

impl Dice {
    /// Creates a new [`Dice`], with consecutive operators of the same
    /// mergeable kind combined into one.
    pub fn new(value: Node, ops: &[SetOp]) -> (r: Self)
        ensures
            *r.value == value,
            ops_view(r.ops@) == simplify(ops_view(ops@)),
    {
        Dice { value: Box::new(value), ops: simplify_ops(ops) }
    }
}

/// A trait for types that are nodes in a tree.
///
/// This is implemented for the parsed tree and the evaluated tree.
pub trait HasChildren: Sized {
    /// The child nodes, from left to right.
    spec fn kids(&self) -> Seq<Self>;

    /// The height of the node: more than the height of each child.
    spec fn height(&self) -> nat;

    /// Each child is lower than its parent.
    proof fn lemma_kids_lower(&self)
        ensures
            forall|i: int| 0 <= i < self.kids().len() ==> (#[trigger] self.kids()[i]).height() < self.height(),
    ;

    /// The number of child nodes.
    fn child_count(&self) -> (r: usize)
        ensures
            r == self.kids().len(),
    ;

    /// The child node at the given index.
    fn child(&self, idx: usize) -> (r: &Self)
        requires
            idx < self.kids().len(),
        ensures
            *r == self.kids()[idx as int],
    ;

    /// The left child node, if any.
    fn left(&self) -> (r: Option<&Self>)
        ensures
            r matches Some(c) ==> self.kids().len() > 0 && *c == self.kids()[0],
            r is None ==> self.kids().len() == 0,
    ;

    /// The right child node, if any.
    fn right(&self) -> (r: Option<&Self>)
        ensures
            r matches Some(c) ==> self.kids().len() > 0 && *c == self.kids().last(),
            r is None ==> self.kids().len() == 0,
    ;

    /// Whether the two nodes agree on everything but their children.
    spec fn same_head(&self, other: &Self) -> bool;

    /// Agreeing on everything but the children is an equivalence.
    proof fn lemma_same_head(&self, b: &Self, c: &Self)
        ensures
            self.same_head(self),
            self.same_head(b) ==> b.same_head(self),
            self.same_head(b) && b.same_head(c) ==> self.same_head(c),
    ;

    /// Sets the child node at the given index, which must be in bounds.
    fn set_child(&mut self, idx: usize, child: Self)
        requires
            idx < old(self).kids().len(),
        ensures
            final(self).kids() == old(self).kids().update(idx as int, child),
            final(self).same_head(old(self)),
    ;

    /// Sets the left child node; there must be one.
    fn set_left(&mut self, child: Self)
        requires
            old(self).kids().len() > 0,
        ensures
            final(self).kids() == old(self).kids().update(0, child),
            final(self).same_head(old(self)),
    {
        self.set_child(0, child);
    }

    /// Sets the right child node; there must be one.
    fn set_right(&mut self, child: Self)
        requires
            old(self).kids().len() > 0,
        ensures
            final(self).kids() == old(self).kids().update(old(self).kids().len() - 1, child),
            final(self).same_head(old(self)),
    {
        let n = self.child_count();
        self.set_child(n - 1, child);
    }
}

/// The child nodes of a node, from left to right.
pub open spec fn node_kids(n: Node) -> Seq<Node> {
    match n {
        Node::Expression(e) => seq![*e.roll],
        Node::Literal(_) => Seq::empty(),
        Node::Parenthetical(p) => seq![*p.value],
        Node::Annotated(a) => seq![*a.value],
        Node::UnOp(u) => seq![*u.value],
        Node::BinOp(b) => seq![*b.left, *b.right],
        Node::SetExpr(st) => st.values@,
        Node::DiceExpr(_) => Seq::empty(),
        Node::SetWithOps(st) => seq![*st.value],
        Node::Dice(d) => seq![*d.value],
    }
}

/// The larger of two numbers.
pub open spec fn max_nat(a: nat, b: nat) -> nat {
    if a >= b {
        a
    } else {
        b
    }
}

/// The height of a node.
pub open spec fn node_height(n: Node) -> nat
    decreases n,
{
    match n {
        Node::Expression(e) => 1 + node_height(*e.roll),
        Node::Parenthetical(p) => 1 + node_height(*p.value),
        Node::Annotated(a) => 1 + node_height(*a.value),
        Node::UnOp(u) => 1 + node_height(*u.value),
        Node::BinOp(b) => 1 + max_nat(node_height(*b.left), node_height(*b.right)),
        Node::SetExpr(st) => 1 + nodes_height(st.values@),
        Node::SetWithOps(st) => 1 + node_height(*st.value),
        Node::Dice(d) => 1 + node_height(*d.value),
        _ => 0,
    }
}

/// The greatest height of the nodes.
pub open spec fn nodes_height(s: Seq<Node>) -> nat
    decreases s,
{
    if s.len() == 0 {
        0
    } else {
        max_nat(nodes_height(s.drop_last()), node_height(s.last()))
    }
}

/// No node is higher than the greatest height.
pub proof fn lemma_nodes_height(s: Seq<Node>)
    ensures
        forall|i: int| 0 <= i < s.len() ==> node_height(#[trigger] s[i]) <= nodes_height(s),
    decreases s.len(),
{
    if s.len() > 0 {
        lemma_nodes_height(s.drop_last());
        assert forall|i: int| 0 <= i < s.len() implies node_height(#[trigger] s[i]) <= nodes_height(s) by {
            if i < s.len() - 1 {
                assert(s[i] == s.drop_last()[i]);
            }
        }
    }
}

/// A tree with its children left out.
pub open spec fn tree_head(t: Tree) -> Tree {
    let hole = Box::new(Tree::SetExpr(Seq::empty()));
    match t {
        Tree::Expression { comment, .. } => Tree::Expression { roll: hole, comment },
        Tree::Parenthetical(_) => Tree::Parenthetical(hole),
        Tree::Annotated { annotations, .. } => Tree::Annotated { value: hole, annotations },
        Tree::UnOp { op, .. } => Tree::UnOp { op, value: hole },
        Tree::BinOp { op, .. } => Tree::BinOp { op, left: hole, right: hole },
        Tree::SetExpr(_) => Tree::SetExpr(Seq::empty()),
        Tree::SetWithOps { ops, .. } => Tree::SetWithOps { value: hole, ops },
        Tree::Dice { ops, .. } => Tree::Dice { value: hole, ops },
        _ => t,
    }
}

impl HasChildren for Node {
    open spec fn kids(&self) -> Seq<Node> {
        node_kids(*self)
    }

    open spec fn same_head(&self, other: &Node) -> bool {
        tree_head(tree_of(*self)) == tree_head(tree_of(*other))
    }

    proof fn lemma_same_head(&self, b: &Node, c: &Node) {
    }

    open spec fn height(&self) -> nat {
        node_height(*self)
    }

    proof fn lemma_kids_lower(&self) {
        match *self {
            Node::SetExpr(st) => lemma_nodes_height(st.values@),
            _ => {},
        }
    }

    fn child_count(&self) -> (r: usize) {
        match self {
            Node::Literal(_) | Node::DiceExpr(_) => 0,
            Node::BinOp(_) => 2,
            Node::SetExpr(st) => st.values.len(),
            _ => 1,
        }
    }

    fn child(&self, idx: usize) -> (r: &Node) {
        match self {
            Node::Expression(e) => &e.roll,
            Node::Parenthetical(p) => &p.value,
            Node::Annotated(a) => &a.value,
            Node::UnOp(u) => &u.value,
            Node::BinOp(b) => if idx == 0 {
                &b.left
            } else {
                &b.right
            },
            Node::SetExpr(st) => &st.values[idx],
            Node::SetWithOps(st) => &st.value,
            Node::Dice(d) => &d.value,
            _ => self,
        }
    }

    fn left(&self) -> (r: Option<&Node>) {
        if self.child_count() == 0 {
            None
        } else {
            Some(self.child(0))
        }
    }

    fn right(&self) -> (r: Option<&Node>) {
        let n = self.child_count();
        if n == 0 {
            None
        } else {
            Some(self.child(n - 1))
        }
    }

    fn set_child(&mut self, idx: usize, child: Node) {
        match self {
            Node::Expression(e) => {
                e.roll = Box::new(child);
            },
            Node::Parenthetical(p) => {
                p.value = Box::new(child);
            },
            Node::Annotated(a) => {
                a.value = Box::new(child);
            },
            Node::UnOp(u) => {
                u.value = Box::new(child);
            },
            Node::BinOp(b) => {
                if idx == 0 {
                    b.left = Box::new(child);
                } else {
                    b.right = Box::new(child);
                }
            },
            Node::SetExpr(st) => {
                st.values.set(idx, child);
            },
            Node::SetWithOps(st) => {
                st.value = Box::new(child);
            },
            Node::Dice(d) => {
                d.value = Box::new(child);
            },
            _ => {},
        }
    }
}

} // verus!
