//! Counting the tokens of a text.
use vstd::prelude::*;

verus! {

/// A token counter for one model.
pub trait TokenCounter {
    /// The number of tokens of a text. Only a counter that is itself verified
    /// has to say what it is.
    open spec fn tokens(&self, text: Seq<char>) -> nat {
        arbitrary()
    }

    /// The number of tokens of every text of this many characters, for a
    /// counter that looks at nothing but the number of characters.
    open spec fn char_tokens(&self, chars: nat) -> Option<nat> {
        None
    }

    /// The number of tokens of `text`.
    fn count(&self, text: &str) -> (n: usize)
        ensures
            n == self.tokens(text@),
    ;

    /// The number of tokens of a text of `chars` characters; nothing for a
    /// counter that looks at more than their number.
    fn count_for_char_count(&self, chars: usize) -> (n: Option<usize>)
        ensures
            match n {
                Some(t) => self.char_tokens(chars as nat) == Some(t as nat),
                None => self.char_tokens(chars as nat) is None,
            },
    ;

    /// The name of the model that the counter is for.
    fn model_label(&self) -> &'static str;
}

/// A token for every four characters begun.
#[derive(Clone, Copy, Debug)]
pub struct HeuristicCounter;

impl TokenCounter for HeuristicCounter {
    open spec fn tokens(&self, text: Seq<char>) -> nat {
        (text.len() + 3) / 4
    }

    open spec fn char_tokens(&self, chars: nat) -> Option<nat> {
        Some((chars + 3) / 4)
    }

    fn count(&self, text: &str) -> (n: usize) {
        quarter(text.unicode_len())
    }

    fn count_for_char_count(&self, chars: usize) -> (n: Option<usize>) {
        Some(quarter(chars))
    }

    fn model_label(&self) -> (label: &'static str)
        ensures
            label@ == "heuristic-chars/4"@,
    {
        "heuristic-chars/4"
    }
}

/// A quarter of `n`, rounded up.
fn quarter(n: usize) -> (q: usize)
    ensures
        q == (n + 3) / 4,
{
    if n % 4 == 0 {
        n / 4
    } else {
        n / 4 + 1
    }
}

/// The heuristic counts a token for every four characters, and one for what is
/// left, whatever the characters are.
pub proof fn law_four_characters_a_token(text: Seq<char>)
    ensures
        4 * HeuristicCounter.tokens(text) >= text.len(),
        4 * HeuristicCounter.tokens(text) < text.len() + 4,
        HeuristicCounter.char_tokens(text.len()) == Some(HeuristicCounter.tokens(text)),
{
}

} // verus!
