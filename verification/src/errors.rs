//! The error type of the parser and the evaluator.
use vstd::prelude::*;
use crate::num::nat_text;
use crate::text::push_char;

verus! {

/// Where parsing an expression stopped, and what was found there.
#[derive(Clone, Copy, PartialEq, Eq, Debug, Hash, Structural)]
pub struct SyntaxError {
    /// The character offset at which the input could not be parsed further.
    pub position: usize,
    /// The character found at that offset; `None` at the end of the input.
    pub found: Option<char>,
}

/// The character of the input at offset `p`; `None` past its end.
pub open spec fn found_at(input: Seq<char>, p: int) -> Option<char> {
    if 0 <= p < input.len() {
        Some(input[p])
    } else {
        None
    }
}

impl SyntaxError {
    /// The end of the span of the error: one past the offending character,
    /// or the offset itself at the end of the input.
    pub open spec fn span_end(self) -> nat {
        match self.found {
            Some(_) => self.position as nat + 1,
            None => self.position as nat,
        }
    }

    /// The text of what was found: the character, or `<EOF>`.
    pub open spec fn found_text(self) -> Seq<char> {
        match self.found {
            Some(c) => seq![c],
            None => "<EOF>"@,
        }
    }
}

/// Error type for the dice parser and evaluator.
#[derive(Clone, Copy, PartialEq, Eq, Debug)]
pub enum Error {
    /// A syntax error.
    Syntax(SyntaxError),
    /// A value error returned while evaluating the AST.
    Value(&'static str),
    /// Too many dice were rolled.
    RollLimitExceeded,
    /// An attempt to divide by zero.
    ZeroDivision,
}

impl Error {
    /// A human readable description of this error.
    pub fn message(&self) -> (s: String)
        ensures
            self is RollLimitExceeded ==> s@ == "roll limit exceeded"@,
            self is ZeroDivision ==> s@ == "attempt to divide by zero"@,
            self matches Error::Value(m) ==> s@ == m@,
            self matches Error::Syntax(e) ==> s@ == "unexpected input at "@ + nat_text(e.position as nat) + ".."@
                + nat_text(e.span_end()) + ": got "@ + e.found_text(),
    {
        match self {
            Error::Syntax(e) => {
                let mut s = String::from_str("unexpected input at ");
                let start = crate::num::nat_to_text(e.position as u128);
                s.append(start.as_str());
                s.append("..");
                let end: u128 = match e.found {
                    Some(_) => e.position as u128 + 1,
                    None => e.position as u128,
                };
                let end_text = crate::num::nat_to_text(end);
                s.append(end_text.as_str());
                s.append(": got ");
                match e.found {
                    Some(c) => push_char(&mut s, c),
                    None => s.append("<EOF>"),
                }
                proof {
                    reveal_strlit("unexpected input at ");
                    reveal_strlit("..");
                    reveal_strlit(": got ");
                    reveal_strlit("<EOF>");
                }
                s
            },
            Error::Value(m) => String::from_str(m),
            Error::RollLimitExceeded => String::from_str("roll limit exceeded"),
            Error::ZeroDivision => String::from_str("attempt to divide by zero"),
        }
    }
}

} // verus!
