//! The operator, selector and die kinds shared by the parsed tree and the
//! evaluated tree.
use vstd::prelude::*;

verus! {

/// A unary operator.
#[derive(Clone, Copy, PartialEq, Eq, Debug, Hash, Structural)]
pub enum UnOpKind {
    /// Negation (`-`)
    Neg,
    /// No-op (`+`)
    Pos,
}

impl UnOpKind {
    /// The source text of this operator.
    pub open spec fn text(self) -> Seq<char> {
        match self {
            UnOpKind::Neg => seq!['-'],
            UnOpKind::Pos => seq!['+'],
        }
    }

    /// The source text of this operator.
    pub fn as_str(self) -> (s: &'static str)
        ensures
            s@ == self.text(),
    {
        match self {
            UnOpKind::Neg => {
                proof {
                    reveal_strlit("-");
                }
                "-"
            },
            UnOpKind::Pos => {
                proof {
                    reveal_strlit("+");
                }
                "+"
            },
        }
    }
}

/// A binary operator.
#[derive(Clone, Copy, PartialEq, Eq, Debug, Hash, Structural)]
pub enum BinOpKind {
    /// Addition (`+`)
    Add,
    /// Subtraction (`-`)
    Sub,
    /// Multiplication (`*`)
    Mul,
    /// Euclidean Division (`/`)
    Div,
    /// Euclidean floor division (`//`)
    ///
    /// Like division, but discards the fractional part.
    FloorDiv,
    /// Euclidean modulo (`%`)
    Mod,
    /// Less than (`<`)
    Lt,
    /// Greater than (`>`)
    Gt,
    /// Equal to (`==`)
    Eq,
    /// Greater than or equal to (`>=`)
    Ge,
    /// Less than or equal to (`<=`)
    Le,
    /// Not equal to (`!=`)
    Ne,
}

impl BinOpKind {
    /// The source text of this operator.
    pub open spec fn text(self) -> Seq<char> {
        match self {
            BinOpKind::Add => seq!['+'],
            BinOpKind::Sub => seq!['-'],
            BinOpKind::Mul => seq!['*'],
            BinOpKind::Div => seq!['/'],
            BinOpKind::FloorDiv => seq!['/', '/'],
            BinOpKind::Mod => seq!['%'],
            BinOpKind::Lt => seq!['<'],
            BinOpKind::Gt => seq!['>'],
            BinOpKind::Eq => seq!['=', '='],
            BinOpKind::Ge => seq!['>', '='],
            BinOpKind::Le => seq!['<', '='],
            BinOpKind::Ne => seq!['!', '='],
        }
    }

    /// Whether this operator divides by its right operand.
    pub open spec fn is_division(self) -> bool {
        self == BinOpKind::Div || self == BinOpKind::FloorDiv || self == BinOpKind::Mod
    }

    /// The source text of this operator.
    pub fn as_str(self) -> (s: &'static str)
        ensures
            s@ == self.text(),
    {
        match self {
            BinOpKind::Add => {
                proof { reveal_strlit("+"); }
                "+"
            },
            BinOpKind::Sub => {
                proof { reveal_strlit("-"); }
                "-"
            },
            BinOpKind::Mul => {
                proof { reveal_strlit("*"); }
                "*"
            },
            BinOpKind::Div => {
                proof { reveal_strlit("/"); }
                "/"
            },
            BinOpKind::FloorDiv => {
                proof { reveal_strlit("//"); }
                "//"
            },
            BinOpKind::Mod => {
                proof { reveal_strlit("%"); }
                "%"
            },
            BinOpKind::Lt => {
                proof { reveal_strlit("<"); }
                "<"
            },
            BinOpKind::Gt => {
                proof { reveal_strlit(">"); }
                ">"
            },
            BinOpKind::Eq => {
                proof { reveal_strlit("=="); }
                "=="
            },
            BinOpKind::Ge => {
                proof { reveal_strlit(">="); }
                ">="
            },
            BinOpKind::Le => {
                proof { reveal_strlit("<="); }
                "<="
            },
            BinOpKind::Ne => {
                proof { reveal_strlit("!="); }
                "!="
            },
        }
    }
}

/// A selector type.
///
/// Combined with a number to create a set selector.
#[derive(Clone, Copy, PartialEq, Eq, Debug, Hash, Structural)]
pub enum SelCat {
    /// Select the lowest `n` values.
    Lo,
    /// Select the highest `n` values.
    Hi,
    /// Select values that match `n`.
    Lit,
    /// Select values less than `n`.
    Lt,
    /// Select values greater than `n`.
    Gt,
}

impl SelCat {
    /// The source text of this selector type.
    pub open spec fn text(self) -> Seq<char> {
        match self {
            SelCat::Lo => seq!['l'],
            SelCat::Hi => seq!['h'],
            SelCat::Lit => Seq::empty(),
            SelCat::Lt => seq!['<'],
            SelCat::Gt => seq!['>'],
        }
    }

    /// The source text of this selector type.
    pub fn as_str(self) -> (s: &'static str)
        ensures
            s@ == self.text(),
    {
        match self {
            SelCat::Lo => {
                proof { reveal_strlit("l"); }
                "l"
            },
            SelCat::Hi => {
                proof { reveal_strlit("h"); }
                "h"
            },
            SelCat::Lit => {
                proof { reveal_strlit(""); }
                ""
            },
            SelCat::Lt => {
                proof { reveal_strlit("<"); }
                "<"
            },
            SelCat::Gt => {
                proof { reveal_strlit(">"); }
                ">"
            },
        }
    }
}

/// A set operation action.
#[derive(Clone, Copy, PartialEq, Eq, Debug, Hash, Structural)]
pub enum SetOpKind {
    /// Keep values that match the selector.
    Keep,
    /// Drop values that match the selector.
    Drop,
    /// Reroll values that match the selector until they don't (dice only).
    Reroll,
    /// Reroll values that match the selector once (dice only).
    RerollOnce,
    /// Reroll the first value that matches the selector once, keeping the
    /// original roll and adding the new one to the total (dice only).
    ExplodeOnce,
    /// Reroll values that match the selector until they don't, accumulating the
    /// total (dice only).
    Explode,
    /// Clamp the values to the provided minimum (dice only).
    Min,
    /// Clamp the values to the provided maximum (dice only).
    Max,
}

impl SetOpKind {
    /// The text this operation is written with, as it is parsed.
    pub open spec fn text(self) -> Seq<char> {
        match self {
            SetOpKind::Keep => seq!['k'],
            SetOpKind::Drop => seq!['p'],
            SetOpKind::Reroll => seq!['r', 'r'],
            SetOpKind::RerollOnce => seq!['r', 'o'],
            SetOpKind::ExplodeOnce => seq!['r', 'a'],
            SetOpKind::Explode => seq!['e'],
            SetOpKind::Min => seq!['m', 'i'],
            SetOpKind::Max => seq!['m', 'a'],
        }
    }

    /// Whether this operation applies to any set, not only to dice.
    pub open spec fn for_any_set(self) -> bool {
        self == SetOpKind::Keep || self == SetOpKind::Drop
    }

    /// Whether consecutive operations of this kind are merged into one.
    pub open spec fn merges(self) -> bool {
        !(self == SetOpKind::Min || self == SetOpKind::Max)
    }

    /// The text this operation is written with when a tree is printed.
    pub fn as_str(self) -> (s: &'static str)
        ensures
            s@ == self.text(),
    {
        match self {
            SetOpKind::Keep => {
                proof { reveal_strlit("k"); }
                "k"
            },
            SetOpKind::Drop => {
                proof { reveal_strlit("p"); }
                "p"
            },
            SetOpKind::Reroll => {
                proof { reveal_strlit("rr"); }
                "rr"
            },
            SetOpKind::RerollOnce => {
                proof { reveal_strlit("ro"); }
                "ro"
            },
            SetOpKind::ExplodeOnce => {
                proof { reveal_strlit("ra"); }
                "ra"
            },
            SetOpKind::Explode => {
                proof { reveal_strlit("e"); }
                "e"
            },
            SetOpKind::Min => {
                proof { reveal_strlit("mi"); }
                "mi"
            },
            SetOpKind::Max => {
                proof { reveal_strlit("ma"); }
                "ma"
            },
        }
    }
}

/// A wrapper around the number of die sides.
#[derive(Clone, Copy, PartialEq, Eq, Debug, Hash, Structural)]
pub enum DieSides {
    /// Percentile die (`d%`)
    Percentile,
    /// Any other die (`d{n}`)
    Literal(u32),
}

impl DieSides {
    /// Whether this is a literal die with exactly `n` sides.
    pub fn is(self, n: u32) -> (r: bool)
        ensures
            r == (self == DieSides::Literal(n)),
    {
        match self {
            DieSides::Percentile => false,
            DieSides::Literal(m) => m == n,
        }
    }
}

/// Rolling with advantage or disadvantage.
#[derive(Clone, Copy, PartialEq, Eq, Debug, Hash, Structural)]
pub enum Advantage {
    /// Neither advantage nor disadvantage.
    Normal,
    /// Roll twice, keep the higher.
    Advantage,
    /// Roll twice, keep the lower.
    Disadvantage,
}

/// The critical result of a roll.
#[derive(Clone, Copy, PartialEq, Eq, Debug, Hash, Structural)]
pub enum Crit {
    /// Not a critical roll.
    Normal,
    /// A natural 20.
    Success,
    /// A natural 1.
    Failure,
}

} // verus!
