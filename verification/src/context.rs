//! Limits on the number of rolls made while evaluating an expression.
use vstd::prelude::*;
use crate::errors::Error;

verus! {

/// A roll counter that caps the number of rolls in a single expression.
#[derive(Clone, Copy, Debug)]
pub struct ExpressionContext {
    max_rolls: usize,
    rolls: usize,
}

impl ExpressionContext {
    /// The greatest number of rolls allowed.
    pub closed spec fn max_spec(&self) -> nat {
        self.max_rolls as nat
    }

    /// The number of rolls counted so far.
    pub closed spec fn rolls_spec(&self) -> nat {
        self.rolls as nat
    }

    /// The counter that allows `max_rolls` rolls has none counted, and
    /// allows that many.
    pub proof fn lemma_new_spec(max_rolls: usize)
        ensures
            Self::new_spec(max_rolls).max_spec() == max_rolls,
            Self::new_spec(max_rolls).rolls_spec() == 0,
    {
    }

    /// The counter that allows `max_rolls` rolls, with none counted.
    pub closed spec fn new_spec(max_rolls: usize) -> Self {
        ExpressionContext { max_rolls, rolls: 0 }
    }

    /// Creates a new [`ExpressionContext`] that allows `max_rolls` rolls.
    pub fn new(max_rolls: usize) -> (r: Self)
        ensures
            r.max_spec() == max_rolls,
            r.rolls_spec() == 0,
            r == Self::new_spec(max_rolls),
    {
        ExpressionContext { max_rolls, rolls: 0 }
    }

    /// The greatest number of rolls allowed.
    pub fn max_rolls(&self) -> (r: usize)
        ensures
            r == self.max_spec(),
    {
        self.max_rolls
    }

    /// The number of rolls counted so far.
    pub fn rolls(&self) -> (r: usize)
        ensures
            r == self.rolls_spec(),
    {
        self.rolls
    }

    /// Counts `n` more rolls.
    ///
    /// # Errors
    ///
    /// If more rolls than allowed have now been counted,
    /// [`Error::RollLimitExceeded`] is returned.
    pub fn count_rolls(&mut self, n: usize) -> (r: Result<(), Error>)
        requires
            old(self).rolls_spec() + n <= usize::MAX,
        ensures
            final(self).max_spec() == old(self).max_spec(),
            final(self).rolls_spec() == old(self).rolls_spec() + n,
            r == (if old(self).rolls_spec() + n > old(self).max_spec() {
                Err::<(), Error>(Error::RollLimitExceeded)
            } else {
                Ok(())
            }),
    {
        self.rolls = self.rolls + n;
        if self.rolls > self.max_rolls {
            Err(Error::RollLimitExceeded)
        } else {
            Ok(())
        }
    }
}

impl Default for ExpressionContext {
    /// Creates a new [`ExpressionContext`] with a maximum of 1000 rolls per
    /// expression.
    fn default() -> (r: Self)
        ensures
            r.max_spec() == 1000,
            r.rolls_spec() == 0,
    {
        ExpressionContext::new(1000)
    }
}

} // verus!
