//! A configurable front door for compression.
use crate::budget::{budget_pieces, compress_to_budget, Budget};
use crate::cas::Cas;
use crate::compress::{offload_pieces, offload_whole_min, MIN_COMPRESS_BYTES};
use crate::doc::CompressedDoc;
use crate::tiling::{regions, stored_all, tiled, Piece};
use crate::tokens::TokenCounter;
use crate::text::{decimal, decimal_of};
use vstd::prelude::*;

verus! {

/// Why a compressor could not run.
#[derive(Clone, Copy, Debug, PartialEq, Eq, Structural)]
pub enum CompressError {
    /// A token or reduction budget was set without a token counter.
    CounterRequired {
        /// The budget that needs a counter.
        budget: Budget,
    },
}

/// A budget in words, given the text of its fraction, if it has one.
pub open spec fn budget_text(budget: Budget, fraction: Seq<char>) -> Seq<char> {
    match budget {
        Budget::Tokens(n) => "Tokens("@ + decimal(n as nat) + ")"@,
        Budget::Reduction(_) => "Reduction("@ + fraction + ")"@,
        Budget::MaxReduction => "MaxReduction"@,
    }
}

impl CompressError {
    /// What is wrong, in words, given the text of the budget's fraction, if it
    /// has one.
    pub fn message(&self, fraction: &str) -> (line: String)
        ensures
            line@ == "a "@ + budget_text(self->budget, fraction@)
                + " budget needs a token counter; set one with Compressor::counter"@,
    {
        let CompressError::CounterRequired { budget } = self;
        let shown = match budget {
            Budget::Tokens(n) => "Tokens(".to_owned().concat(decimal_of(*n).as_str()).concat(")"),
            Budget::Reduction(_) => "Reduction(".to_owned().concat(fraction).concat(")"),
            Budget::MaxReduction => "MaxReduction".to_owned(),
        };
        "a ".to_owned().concat(shown.as_str()).concat(
            " budget needs a token counter; set one with Compressor::counter",
        )
    }
}

/// The settings of a compression.
pub struct Compressor<'a, K: TokenCounter> {
    budget: Budget,
    counter: Option<&'a K>,
    min_bytes: usize,
}

impl<'a, K: TokenCounter> Compressor<'a, K> {
    /// The target.
    pub closed spec fn target(&self) -> Budget {
        self.budget
    }

    /// The token counter, if one was set.
    pub closed spec fn measure(&self) -> Option<&'a K> {
        self.counter
    }

    /// The size below which an input is passed through.
    pub closed spec fn threshold(&self) -> nat {
        self.min_bytes as nat
    }

    /// A compressor that reduces as far as it can, without a counter.
    pub fn new() -> (c: Self)
        ensures
            c.target() == Budget::MaxReduction,
            c.measure() is None,
            c.threshold() == MIN_COMPRESS_BYTES,
    {
        Compressor { budget: Budget::MaxReduction, counter: None, min_bytes: MIN_COMPRESS_BYTES }
    }

    /// Sets the target.
    pub fn budget(self, budget: Budget) -> (c: Self)
        ensures
            c.target() == budget,
            c.measure() == self.measure(),
            c.threshold() == self.threshold(),
    {
        Compressor { budget, counter: self.counter, min_bytes: self.min_bytes }
    }

    /// Sets the token counter.
    pub fn counter(self, counter: &'a K) -> (c: Self)
        ensures
            c.target() == self.target(),
            c.measure() == Some(counter),
            c.threshold() == self.threshold(),
    {
        Compressor { budget: self.budget, counter: Some(counter), min_bytes: self.min_bytes }
    }

    /// Sets the size below which an input is passed through. It matters only
    /// where the target is the maximal reduction.
    pub fn min_bytes(self, min_bytes: usize) -> (c: Self)
        ensures
            c.target() == self.target(),
            c.measure() == self.measure(),
            c.threshold() == min_bytes,
    {
        Compressor { budget: self.budget, counter: self.counter, min_bytes }
    }

    /// Compresses `input`, with what is offloaded put into `cas`. A token or
    /// reduction budget without a counter is refused, and nothing is stored.
    pub fn compress<C: Cas>(&self, input: &[u8], cas: &mut C) -> (out: Result<
        CompressedDoc,
        CompressError,
    >)
        ensures
            match out {
                Ok(doc) => {
                    &&& self.target() == Budget::MaxReduction ==> doc@ == tiled(
                        offload_pieces(input@, self.threshold()),
                    ) && final(cas).objects() == stored_all(
                        old(cas).objects(),
                        regions(offload_pieces(input@, self.threshold())),
                    )
                    &&& self.target() != Budget::MaxReduction ==> self.measure() is Some
                        && exists|found: Seq<Piece>|
                        #![trigger tiled(found)]
                        budget_pieces(input@, self.target(), self.measure()->0, found) && doc@
                            == tiled(found) && final(cas).objects() == stored_all(
                            old(cas).objects(),
                            regions(found),
                        )
                },
                Err(e) => {
                    &&& e == (CompressError::CounterRequired { budget: self.target() })
                    &&& self.target() != Budget::MaxReduction
                    &&& self.measure() is None
                    &&& final(cas).objects() == old(cas).objects()
                },
            },
    {
        match self.budget {
            Budget::MaxReduction => Ok(offload_whole_min(input, cas, self.min_bytes)),
            _ => match self.counter {
                None => Err(CompressError::CounterRequired { budget: self.budget }),
                Some(counter) => Ok(compress_to_budget(input, cas, self.budget, counter)),
            },
        }
    }
}

impl<'a, K: TokenCounter> Default for Compressor<'a, K> {
    fn default() -> (c: Self)
        ensures
            c.target() == Budget::MaxReduction,
            c.measure() is None,
            c.threshold() == MIN_COMPRESS_BYTES,
    {
        Compressor::new()
    }
}

/// How a budget is written.
pub proof fn law_budget_text(n: usize, bits: u32, fraction: Seq<char>)
    ensures
        budget_text(Budget::Tokens(n), fraction) == "Tokens("@ + decimal(n as nat) + ")"@,
        budget_text(Budget::Reduction(bits), fraction) == "Reduction("@ + fraction + ")"@,
        budget_text(Budget::MaxReduction, fraction) == "MaxReduction"@,
{
}

} // verus!
