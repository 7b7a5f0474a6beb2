//! Rolling dice expressions: the roller, its builder, and the results of
//! rolls.
use vstd::prelude::*;
use crate::ast::{self as ast, parsed_wf, tree_of, tree_wf, Node, Tree};
use crate::context::ExpressionContext;
use crate::errors::{found_at, Error};
use crate::eval::{eval_expression, eval_matches, eval_spec};
use crate::expr::{int_dec, lemma_value_wf, mk_num, num_view, num_wf, total_of, Expression, KindV, Number, NumberKind, NumV};
use crate::formatters::{lemma_wf_lits, lits_wf, Formatter, MarkdownFormatter, SimpleFormatter};
use crate::grammar::{parse_commented_spec, parse_spec};
use crate::kinds::{Advantage, Crit, DieSides};
use crate::num::{trunc_spec, Decimal};
use crate::ops::{extends, Tally};
use crate::random::rng;
use crate::utils::{adv_applies, adv_spec, ast_with_adv, lemma_adv_wf, lemma_parsed_adv_applies};
use rand::rngs::StdRng;
use vstd::pervasive::cloned;

verus! {

/// The message of the error for a total that cannot be represented.
pub const OUT_OF_RANGE: &'static str = "value out of range";

/// The tree that is rolled: with advantage applied, unless there is none.
pub open spec fn roll_tree(t: Tree, adv: Advantage) -> Tree {
    if adv == Advantage::Normal {
        t
    } else {
        adv_spec(t, adv)
    }
}

/// The outcome of a roll: the evaluated number, unless its total cannot be
/// represented.
pub open spec fn roll_outcome(e: Result<NumV, Error>) -> Result<NumV, Error> {
    match e {
        Ok(n) => if total_of(n) is None {
            Err(Error::Value(OUT_OF_RANGE))
        } else {
            Ok(n)
        },
        Err(x) => Err(x),
    }
}

/// Whether `r` is a possible outcome of rolling the tree with `c` rolls
/// counted before and at most `max` allowed: the outcome for some sequence of
/// draws.
pub open spec fn rolls_to(t: Tree, c: nat, max: nat, r: Result<NumV, Error>) -> bool {
    exists|f: Seq<u32>| roll_outcome(#[trigger] eval_spec(t, c, max, f).0) == r
}

/// The result of parsing the input, with or without a comment.
pub open spec fn parse_result(input: Seq<char>, allow_comments: bool) -> Result<Tree, int> {
    if allow_comments {
        parse_commented_spec(input)
    } else {
        parse_spec(input)
    }
}

/// A total truncated to an `isize`, saturated at the bounds; 0 if there is
/// none.
pub open spec fn total_isize(n: NumV) -> isize {
    match total_of(n) {
        Some(d) => {
            let t = trunc_spec(d);
            if t > isize::MAX {
                isize::MAX
            } else if t < isize::MIN {
                isize::MIN
            } else {
                t as isize
            }
        },
        None => 0,
    }
}

/// The comment of an evaluated expression.
pub open spec fn comment_of(n: NumV) -> Option<Seq<char>> {
    match n.kind {
        KindV::Expression { comment, .. } => comment,
        _ => None,
    }
}

/// The leftmost leaf of an evaluated number.
pub open spec fn num_leftmost(n: NumV) -> NumV
    decreases n,
{
    match n.kind {
        KindV::Expression { roll, .. } => num_leftmost(*roll),
        KindV::UnOp { value, .. } => num_leftmost(*value),
        KindV::BinOp { left, .. } => num_leftmost(*left),
        KindV::Parenthetical { value, .. } => num_leftmost(*value),
        KindV::NumSet { values, .. } => if values.len() > 0 {
            num_leftmost(values[0])
        } else {
            n
        },
        _ => n,
    }
}

/// The number of kept numbers.
pub open spec fn count_kept(s: Seq<NumV>) -> nat
    decreases s.len(),
{
    if s.len() == 0 {
        0
    } else {
        count_kept(s.drop_last()) + if s.last().kept {
            1nat
        } else {
            0nat
        }
    }
}

/// The critical result of a roll: its leftmost leaf is a single kept d20
/// showing 20 (success) or 1 (failure).
pub open spec fn crit_of(n: NumV) -> Crit {
    let l = num_leftmost(n);
    match l.kind {
        KindV::Dice { values, sides, .. } => if count_kept(values) == 1 && sides == DieSides::Literal(20) {
            match total_of(l) {
                Some(d) => if d.spec_eq_value(int_dec(1)) {
                    Crit::Failure
                } else if d.spec_eq_value(int_dec(20)) {
                    Crit::Success
                } else {
                    Crit::Normal
                },
                None => Crit::Normal,
            }
        } else {
            Crit::Normal
        },
        _ => Crit::Normal,
    }
}

/// The result of a roll: the parsed tree that was rolled, the evaluated
/// tree, and the formatter it is displayed with.
pub struct RollResult<F: Formatter = SimpleFormatter> {
    ast: ast::Expression,
    expr: Number,
    formatter: F,
}

impl<F: Formatter> RollResult<F> {
    /// The evaluated tree is a well formed expression, and the literals of
    /// the parsed tree are within the scale limit.
    #[verifier::type_invariant]
    spec fn inv(self) -> bool {
        &&& num_wf(num_view(self.expr))
        &&& num_view(self.expr).kind is Expression
        &&& lits_wf(tree_of(Node::Expression(self.ast)))
    }

    /// The parsed tree that was rolled.
    pub closed spec fn ast_spec(&self) -> ast::Expression {
        self.ast
    }

    /// The evaluated tree.
    pub closed spec fn expr_spec(&self) -> NumV {
        num_view(self.expr)
    }

    /// The formatter.
    pub closed spec fn formatter_spec(&self) -> F {
        self.formatter
    }

    /// The comment attached to the expression, if any.
    pub fn comment(&self) -> (r: Option<&str>)
        ensures
            r matches Some(s) ==> comment_of(self.expr_spec()) == Some(s@),
            r is None ==> comment_of(self.expr_spec()) is None,
    {
        match &self.expr.kind {
            NumberKind::Expression(e) => match &e.comment {
                Some(c) => Some(c.as_str()),
                None => None,
            },
            _ => None,
        }
    }

    /// The total value of the roll, truncated (and saturated at the bounds of
    /// an `isize`).
    pub fn total(&self) -> (r: isize)
        ensures
            r == total_isize(self.expr_spec()),
    {
        proof {
            use_type_invariant(self);
            lemma_value_wf(self.expr@);
        }
        match self.expr.total() {
            Some(d) => {
                let t = d.trunc();
                if t > isize::MAX as i128 {
                    isize::MAX
                } else if t < isize::MIN as i128 {
                    isize::MIN
                } else {
                    t as isize
                }
            },
            None => 0,
        }
    }

    /// The actual total of the roll; `None` if it cannot be represented.
    pub fn total_exact(&self) -> (r: Option<Decimal>)
        ensures
            r == total_of(self.expr_spec()),
    {
        proof {
            use_type_invariant(self);
        }
        self.expr.total()
    }

    /// Formats the roll result as a string.
    pub fn to_result(&self) -> (r: String)
        ensures
            r@ == self.formatter_spec().format_spec(self.expr_spec()),
    {
        proof {
            use_type_invariant(self);
        }
        self.formatter.format(&self.expr)
    }

    /// The parsed tree of this roll.
    pub fn ast(&self) -> (r: &ast::Expression)
        ensures
            *r == self.ast_spec(),
    {
        &self.ast
    }

    /// The crit result of this roll.
    pub fn crit(&self) -> (r: Crit)
        ensures
            r == crit_of(self.expr_spec()),
    {
        proof {
            use_type_invariant(self);
        }
        let l = leftmost_number(&self.expr);
        proof {
            lemma_leftmost_wf(self.expr@);
            lemma_value_wf(l@);
        }
        match &l.kind {
            NumberKind::Dice(d) => {
                let kept = count_kept_exec(&d.values);
                if kept == 1 && d.sides.is(20) {
                    match l.total() {
                        Some(t) => {
                            if t.eq_value(Decimal::from_u32(1)) {
                                Crit::Failure
                            } else if t.eq_value(Decimal::from_u32(20)) {
                                Crit::Success
                            } else {
                                Crit::Normal
                            }
                        },
                        None => Crit::Normal,
                    }
                } else {
                    Crit::Normal
                }
            },
            _ => Crit::Normal,
        }
    }

    /// The evaluated tree of this roll.
    pub fn expression(&self) -> (r: &Number)
        ensures
            r@ == self.expr_spec(),
    {
        &self.expr
    }

    /// Overrides the evaluated tree of this result.
    ///
    /// This does *not* change the parsed tree.
    pub fn set_expression(&mut self, expr: Expression)
        requires
            num_wf(expr.roll@),
        ensures
            final(self).expr_spec() == mk_num(
                KindV::Expression { roll: Box::new(expr.roll@), comment: ast::comment_view(expr.comment) },
            ),
            final(self).ast_spec() == old(self).ast_spec(),
            final(self).formatter_spec() == old(self).formatter_spec(),
    {
        proof {
            use_type_invariant(&*self);
        }
        self.expr = Number::new(NumberKind::Expression(expr));
    }
}

/// The leftmost leaf of an evaluated number.
pub fn leftmost_number(n: &Number) -> (r: &Number)
    ensures
        r@ == num_leftmost(n@),
    decreases n,
{
    match &n.kind {
        NumberKind::Expression(e) => leftmost_number(&e.roll),
        NumberKind::UnOp(u) => leftmost_number(&u.value),
        NumberKind::BinOp(b) => leftmost_number(&b.left),
        NumberKind::Parenthetical(p) => leftmost_number(&p.value),
        NumberKind::NumSet(st) => {
            proof {
                crate::expr::lemma_nums_view(st.values@);
            }
            if st.values.len() > 0 {
                leftmost_number(&st.values[0])
            } else {
                n
            }
        },
        _ => n,
    }
}

/// The leftmost leaf of a well formed number is well formed.
pub proof fn lemma_leftmost_wf(n: NumV)
    requires
        num_wf(n),
    ensures
        num_wf(num_leftmost(n)),
    decreases n,
{
    match n.kind {
        KindV::Expression { roll, .. } => lemma_leftmost_wf(*roll),
        KindV::UnOp { value, .. } => lemma_leftmost_wf(*value),
        KindV::BinOp { left, .. } => lemma_leftmost_wf(*left),
        KindV::Parenthetical { value, .. } => lemma_leftmost_wf(*value),
        KindV::NumSet { values, .. } => if values.len() > 0 {
            crate::ops::lemma_set_members_wf(n);
            lemma_leftmost_wf(values[0]);
        },
        _ => {},
    }
}

/// The number of kept numbers.
pub fn count_kept_exec(v: &Vec<Number>) -> (r: usize)
    ensures
        r == count_kept(crate::expr::nums_view(v@)),
{
    let mut count: usize = 0;
    let mut i: usize = 0;
    while i < v.len()
        invariant
            i <= v.len(),
            count <= i,
            count == count_kept(crate::expr::nums_view(v@.take(i as int))),
        decreases v.len() - i,
    {
        proof {
            let nx = v@.take(i + 1);
            assert(nx.drop_last() == v@.take(i as int));
            let w = crate::expr::nums_view(v@.take(i as int));
            assert(crate::expr::nums_view(nx) == w.push(num_view(v@[i as int])));
            assert(w.push(num_view(v@[i as int])).drop_last() == w);
            assert(num_view(v@[i as int]).kept == v@[i as int].kept);
        }
        if v[i].kept {
            count = count + 1;
        }
        i = i + 1;
    }
    assert(v@.take(v.len() as int) == v@);
    count
}

/// The plain value of the result of a roll: its evaluated tree.
pub open spec fn result_view<F: Formatter>(r: Result<RollResult<F>, Error>) -> Result<NumV, Error> {
    match r {
        Ok(x) => Ok(x.expr_spec()),
        Err(e) => Err(e),
    }
}

/// Parses a dice expression, with or without a comment.
///
/// # Errors
///
/// If the expression is invalid, [`Error::Syntax`] is returned with the
/// position at which parsing stopped.
pub fn parse(expr: &str, allow_comments: bool) -> (r: Result<ast::Expression, Error>)
    ensures
        r matches Ok(e) ==> parse_result(expr@, allow_comments) == Ok::<Tree, int>(tree_of(Node::Expression(e)))
            && parsed_wf(tree_of(Node::Expression(e))),
        r matches Err(err) ==> err matches Error::Syntax(se) && parse_result(expr@, allow_comments) == Err::<
            Tree,
            int,
        >(se.position as int) && se.found == found_at(expr@, se.position as int),
{
    if allow_comments {
        crate::parser::commented_expr(expr)
    } else {
        crate::parser::expr(expr)
    }
}

/// A builder for [`Roller`].
#[derive(Debug)]
pub struct RollerBuilder<F: Formatter + Clone = SimpleFormatter> {
    context: ExpressionContext,
    allow_comments: bool,
    advantage: Advantage,
    formatter: F,
}

/// A roller for rolling dice expressions.
#[derive(Debug, Clone, Copy)]
pub struct Roller<F: Formatter + Clone = SimpleFormatter> {
    context: ExpressionContext,
    allow_comments: bool,
    formatter: F,
    advantage: Advantage,
}

impl RollerBuilder {
    /// A builder with the default settings: at most 1000 rolls, no comments,
    /// no advantage, and the simple formatter.
    fn new() -> (r: Self)
        ensures
            r.context_spec().max_spec() == 1000,
            r.context_spec().rolls_spec() == 0,
            !r.allow_comments_spec(),
            r.advantage_spec() == Advantage::Normal,
    {
        RollerBuilder {
            context: ExpressionContext::new(1000),
            allow_comments: false,
            advantage: Advantage::Normal,
            formatter: SimpleFormatter,
        }
    }
}

impl<F: Formatter + Clone> RollerBuilder<F> {
    /// The roll counter of the roller to build.
    pub closed spec fn context_spec(&self) -> ExpressionContext {
        self.context
    }

    /// Whether the roller to build allows comments.
    pub closed spec fn allow_comments_spec(&self) -> bool {
        self.allow_comments
    }

    /// The advantage of the roller to build.
    pub closed spec fn advantage_spec(&self) -> Advantage {
        self.advantage
    }

    /// The formatter of the roller to build.
    pub closed spec fn formatter_spec(&self) -> F {
        self.formatter
    }

    /// Sets the roll counter for this builder.
    pub fn context(self, context: ExpressionContext) -> (r: Self)
        ensures
            r.context_spec() == context,
            r.allow_comments_spec() == self.allow_comments_spec(),
            r.advantage_spec() == self.advantage_spec(),
            r.formatter_spec() == self.formatter_spec(),
    {
        RollerBuilder { context, ..self }
    }

    /// Whether to allow comments while parsing.
    pub fn allow_comments(self, allow_comments: bool) -> (r: Self)
        ensures
            r.context_spec() == self.context_spec(),
            r.allow_comments_spec() == allow_comments,
            r.advantage_spec() == self.advantage_spec(),
            r.formatter_spec() == self.formatter_spec(),
    {
        RollerBuilder { allow_comments, ..self }
    }

    /// Sets the advantage for this builder.
    pub fn advantage(self, advantage: Advantage) -> (r: Self)
        ensures
            r.context_spec() == self.context_spec(),
            r.allow_comments_spec() == self.allow_comments_spec(),
            r.advantage_spec() == advantage,
            r.formatter_spec() == self.formatter_spec(),
    {
        RollerBuilder { advantage, ..self }
    }

    /// Sets the formatter for this builder.
    pub fn formatter<T: Formatter + Clone>(self, formatter: T) -> (r: RollerBuilder<T>)
        ensures
            r.context_spec() == self.context_spec(),
            r.allow_comments_spec() == self.allow_comments_spec(),
            r.advantage_spec() == self.advantage_spec(),
            r.formatter_spec() == formatter,
    {
        RollerBuilder {
            context: self.context,
            allow_comments: self.allow_comments,
            advantage: self.advantage,
            formatter,
        }
    }

    /// Builds the [`Roller`] with the current settings.
    pub fn build(self) -> (r: Roller<F>)
        ensures
            r.context_spec() == self.context_spec(),
            r.allow_comments_spec() == self.allow_comments_spec(),
            r.advantage_spec() == self.advantage_spec(),
            r.formatter_spec() == self.formatter_spec(),
    {
        Roller {
            context: self.context,
            allow_comments: self.allow_comments,
            formatter: self.formatter,
            advantage: self.advantage,
        }
    }
}

impl Roller {
    /// Creates a new [`Roller`] with a simple formatter: at most 1000 rolls,
    /// no comments, no advantage.
    pub fn new() -> (r: Self)
        ensures
            r.context_spec() == ExpressionContext::new_spec(1000),
            r.context_spec().max_spec() == 1000,
            r.context_spec().rolls_spec() == 0,
            !r.allow_comments_spec(),
            r.advantage_spec() == Advantage::Normal,
    {
        Roller {
            context: ExpressionContext::new(1000),
            allow_comments: false,
            formatter: SimpleFormatter,
            advantage: Advantage::Normal,
        }
    }

    /// Returns a new [`RollerBuilder`] with the default settings.
    pub fn builder() -> (r: RollerBuilder)
        ensures
            r.context_spec().max_spec() == 1000,
            r.context_spec().rolls_spec() == 0,
            !r.allow_comments_spec(),
            r.advantage_spec() == Advantage::Normal,
    {
        RollerBuilder::new()
    }
}

impl Roller<MarkdownFormatter> {
    /// Creates a new [`Roller`] with a markdown formatter: at most 1000
    /// rolls, no comments, no advantage.
    pub fn new_markdown() -> (r: Self)
        ensures
            r.context_spec().max_spec() == 1000,
            r.context_spec().rolls_spec() == 0,
            !r.allow_comments_spec(),
            r.advantage_spec() == Advantage::Normal,
    {
        Roller {
            context: ExpressionContext::new(1000),
            allow_comments: false,
            formatter: MarkdownFormatter,
            advantage: Advantage::Normal,
        }
    }
}

impl Default for Roller {
    fn default() -> (r: Self)
        ensures
            r.context_spec().max_spec() == 1000,
            r.context_spec().rolls_spec() == 0,
            !r.allow_comments_spec(),
            r.advantage_spec() == Advantage::Normal,
    {
        Roller::new()
    }
}

impl<F: Formatter + Clone> Roller<F> {
    /// The roll counter each roll starts from.
    pub closed spec fn context_spec(&self) -> ExpressionContext {
        self.context
    }

    /// Whether rolls allow comments.
    pub closed spec fn allow_comments_spec(&self) -> bool {
        self.allow_comments
    }

    /// The advantage rolls are made with.
    pub closed spec fn advantage_spec(&self) -> Advantage {
        self.advantage
    }

    /// The formatter.
    pub closed spec fn formatter_spec(&self) -> F {
        self.formatter
    }

    /// Parses a dice expression into an [`ast::Expression`].
    ///
    /// # Errors
    ///
    /// If the expression is invalid, [`Error::Syntax`] is returned.
    pub fn parse(&self, expr: &str, allow_comments: bool) -> (r: Result<ast::Expression, Error>)
        ensures
            r matches Ok(e) ==> parse_result(expr@, allow_comments) == Ok::<Tree, int>(
                tree_of(Node::Expression(e)),
            ) && parsed_wf(tree_of(Node::Expression(e))),
            r matches Err(err) ==> err matches Error::Syntax(se) && parse_result(expr@, allow_comments) == Err::<
                Tree,
                int,
            >(se.position as int) && se.found == found_at(expr@, se.position as int),
    {
        parse(expr, allow_comments)
    }

    /// Rolls a parsed expression with the given advantage and RNG.
    ///
    /// # Errors
    ///
    /// If the expression is invalid, such as rolling a 0-sided die,
    /// [`Error::Value`] is returned; if too many dice are rolled,
    /// [`Error::RollLimitExceeded`]; if the right hand side of a division
    /// (or modulo) is 0, [`Error::ZeroDivision`]. If the total cannot be
    /// represented, [`Error::Value`] is returned.
    pub fn roll_expr(&self, expr: ast::Expression, advantage: Advantage, rng: &mut StdRng) -> (r: Result<
        RollResult<F>,
        Error,
    >)
        requires
            tree_wf(tree_of(Node::Expression(expr))),
            advantage != Advantage::Normal ==> adv_applies(tree_of(Node::Expression(expr))),
        ensures
            rolls_to(
                roll_tree(tree_of(Node::Expression(expr)), advantage),
                self.context_spec().rolls_spec(),
                self.context_spec().max_spec(),
                result_view(r),
            ),
            r matches Ok(res) ==> tree_of(Node::Expression(res.ast_spec())) == roll_tree(
                tree_of(Node::Expression(expr)),
                advantage,
            ) && cloned::<F>(self.formatter_spec(), res.formatter_spec()),
    {
        let ghost t0 = tree_of(Node::Expression(expr));
        let e = if advantage != Advantage::Normal {
            proof {
                lemma_adv_wf(t0, advantage);
            }
            match ast_with_adv(Node::Expression(expr), advantage) {
                Node::Expression(e) => e,
                n => {
                    assert(false);
                    expr_of(n)
                },
            }
        } else {
            expr
        };
        let ghost t = tree_of(Node::Expression(e));
        assert(t == roll_tree(t0, advantage));
        let mut tally = Tally { ctx: self.context, draws: Ghost(Seq::new(self.context.rolls_spec(), |i: int| 0u32)), asked: Ghost(Seq::empty()) };
        let ghost before = tally;
        let res = eval_expression(&e, &mut tally, rng);
        let ghost fin = tally.draws@;
        proof {
            assert(extends(fin, fin));
            lemma_wf_lits(t);
            assert(eval_matches(t, before, tally, crate::ops::num_result(res)));
            assert(before.count() == self.context.rolls_spec());
            assert(before.max() == self.context.max_spec());
            assert(eval_spec(t, before.count(), before.max(), fin).0 == crate::ops::num_result(res));
        }
        match res {
            Ok(n) => {
                proof {
                    lemma_value_wf(n@);
                }
                if n.total().is_none() {
                    proof {
                        assert(roll_outcome(eval_spec(t, self.context.rolls_spec(), self.context.max_spec(), fin).0)
                            == result_view(Err::<RollResult<F>, Error>(Error::Value(OUT_OF_RANGE))));
                    }
                    return Err(Error::Value(OUT_OF_RANGE));
                }
                proof {
                    assert(eval_spec(t, before.count(), before.max(), fin).0 == Ok::<NumV, Error>(n@));
                    assert(n@.kind is Expression);
                }
                let out = RollResult { ast: e, expr: n, formatter: self.formatter.clone() };
                proof {
                    assert(roll_outcome(eval_spec(t, self.context.rolls_spec(), self.context.max_spec(), fin).0)
                        == result_view(Ok::<RollResult<F>, Error>(out)));
                }
                Ok(out)
            },
            Err(err) => {
                proof {
                    assert(roll_outcome(eval_spec(t, self.context.rolls_spec(), self.context.max_spec(), fin).0)
                        == result_view(Err::<RollResult<F>, Error>(err)));
                }
                Err(err)
            },
        }
    }

    /// Rolls a dice expression with the given RNG, with the options of this
    /// roller.
    ///
    /// # Errors
    ///
    /// If parsing fails, [`Error::Syntax`] is returned; otherwise as
    /// [`Roller::roll_expr`].
    pub fn roll_with_rng(&self, expr: &str, rng: &mut StdRng) -> (r: Result<RollResult<F>, Error>)
        ensures
            rolled(expr@, self.allow_comments_spec(), self.advantage_spec(), self.context_spec(), self.formatter_spec(), r),
    {
        self.roll_with_options(expr, self.allow_comments, self.advantage, rng)
    }

    /// Rolls a dice expression with options overriding those of this roller.
    ///
    /// # Errors
    ///
    /// If parsing fails, [`Error::Syntax`] is returned; otherwise as
    /// [`Roller::roll_expr`].
    pub fn roll_with_options(&self, expr: &str, allow_comments: bool, advantage: Advantage, rng: &mut StdRng) -> (r:
        Result<RollResult<F>, Error>)
        ensures
            rolled(expr@, allow_comments, advantage, self.context_spec(), self.formatter_spec(), r),
    {
        match self.parse(expr, allow_comments) {
            Ok(e) => {
                proof {
                    lemma_parsed_adv_applies(tree_of(Node::Expression(e)));
                }
                self.roll_expr(e, advantage, rng)
            },
            Err(err) => Err(err),
        }
    }

    /// Rolls a dice expression with the options of this roller and the
    /// default RNG.
    ///
    /// # Errors
    ///
    /// As [`Roller::roll_with_rng`].
    pub fn roll(&self, expr: &str) -> (r: Result<RollResult<F>, Error>)
        ensures
            rolled(expr@, self.allow_comments_spec(), self.advantage_spec(), self.context_spec(), self.formatter_spec(), r),
    {
        let mut g = rng();
        self.roll_with_rng(expr, &mut g)
    }

    /// Rolls a dice expression allowing comments, with the default RNG.
    ///
    /// # Errors
    ///
    /// As [`Roller::roll_with_rng`].
    pub fn roll_with_comments(&self, expr: &str) -> (r: Result<RollResult<F>, Error>)
        ensures
            rolled(expr@, true, self.advantage_spec(), self.context_spec(), self.formatter_spec(), r),
    {
        let mut g = rng();
        self.roll_with_options(expr, true, self.advantage, &mut g)
    }

    /// Rolls a dice expression with the given advantage and the default RNG.
    ///
    /// # Errors
    ///
    /// As [`Roller::roll_with_rng`].
    pub fn roll_with_advantage(&self, expr: &str, advantage: Advantage) -> (r: Result<RollResult<F>, Error>)
        ensures
            rolled(expr@, self.allow_comments_spec(), advantage, self.context_spec(), self.formatter_spec(), r),
    {
        let mut g = rng();
        self.roll_with_options(expr, self.allow_comments, advantage, &mut g)
    }

    /// Rolls a parsed expression with the given advantage using the default
    /// RNG.
    ///
    /// # Errors
    ///
    /// As [`Roller::roll_expr`].
    pub fn roll_expr_with_default_rng(&self, expr: ast::Expression, advantage: Advantage) -> (r: Result<
        RollResult<F>,
        Error,
    >)
        requires
            tree_wf(tree_of(Node::Expression(expr))),
            advantage != Advantage::Normal ==> adv_applies(tree_of(Node::Expression(expr))),
        ensures
            rolls_to(
                roll_tree(tree_of(Node::Expression(expr)), advantage),
                self.context_spec().rolls_spec(),
                self.context_spec().max_spec(),
                result_view(r),
            ),
            r matches Ok(res) ==> tree_of(Node::Expression(res.ast_spec())) == roll_tree(
                tree_of(Node::Expression(expr)),
                advantage,
            ) && cloned::<F>(self.formatter_spec(), res.formatter_spec()),
    {
        let mut g = rng();
        self.roll_expr(expr, advantage, &mut g)
    }
}

/// The expression of a node that is one.
fn expr_of(n: Node) -> (r: ast::Expression)
    requires
        n is Expression,
    ensures
        r == n->Expression_0,
{
    match n {
        Node::Expression(e) => e,
        _ => ast::Expression { roll: Box::new(n), comment: None },
    }
}

/// Whether `r` is a possible result of parsing and rolling the input: a
/// syntax error where it does not parse, else a possible outcome of rolling
/// the parsed tree (with advantage applied) from the counter `ctx`.
pub open spec fn rolled<F: Formatter + Clone>(
    input: Seq<char>,
    allow_comments: bool,
    advantage: Advantage,
    ctx: ExpressionContext,
    fmt: F,
    r: Result<RollResult<F>, Error>,
) -> bool {
    match parse_result(input, allow_comments) {
        Ok(t) => rolls_to(roll_tree(t, advantage), ctx.rolls_spec(), ctx.max_spec(), result_view(r)) && (r matches Ok(
            res,
        ) ==> tree_of(Node::Expression(res.ast_spec())) == roll_tree(t, advantage) && cloned::<F>(
            fmt,
            res.formatter_spec(),
        )),
        Err(p) => r matches Err(e) && e matches Error::Syntax(se) && se.position == p && se.found == found_at(
            input,
            p,
        ),
    }
}

/// Rolls a dice expression with the default roller and RNG.
///
/// # Errors
///
/// As [`Roller::roll_with_rng`].
pub fn roll(expr: &str) -> (r: Result<RollResult, Error>)
    ensures
        rolled(expr@, false, Advantage::Normal, ExpressionContext::new_spec(1000), SimpleFormatter, r),
{
    Roller::new().roll(expr)
}

/// Rolls a dice expression allowing comments, with the default roller and
/// RNG.
///
/// # Errors
///
/// As [`Roller::roll_with_rng`].
pub fn roll_with_comments(expr: &str) -> (r: Result<RollResult, Error>)
    ensures
        rolled(expr@, true, Advantage::Normal, ExpressionContext::new_spec(1000), SimpleFormatter, r),
{
    Roller::new().roll_with_comments(expr)
}

/// Rolls a parsed expression with the given advantage, the default roller
/// and RNG.
///
/// # Errors
///
/// As [`Roller::roll_expr`].
pub fn roll_expr_with_default_rng(expr: ast::Expression, advantage: Advantage) -> (r: Result<RollResult, Error>)
    requires
        tree_wf(tree_of(Node::Expression(expr))),
        advantage != Advantage::Normal ==> adv_applies(tree_of(Node::Expression(expr))),
    ensures
        rolls_to(roll_tree(tree_of(Node::Expression(expr)), advantage), 0, 1000, result_view(r)),
        r matches Ok(res) ==> tree_of(Node::Expression(res.ast_spec())) == roll_tree(
            tree_of(Node::Expression(expr)),
            advantage,
        ),
{
    Roller::new().roll_expr_with_default_rng(expr, advantage)
}

} // verus!
