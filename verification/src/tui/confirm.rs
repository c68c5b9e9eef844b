//! Destructive-action confirmations: an explicit question, an explicit answer.
use vstd::prelude::*;
use crate::text::owned;

verus! {

/// A pending yes/no question. The first answer wins; later ones are ignored.
#[derive(Debug, Clone, PartialEq, Eq)]
pub struct Confirm {
    prompt: String,
    answer: Option<bool>,
}

/// The answer after `yes` is given to a question answered `answer` so far.
pub open spec fn resolved(answer: Option<bool>, yes: bool) -> Option<bool> {
    match answer {
        Some(a) => Some(a),
        None => Some(yes),
    }
}

impl Confirm {
    /// The question's text.
    pub closed spec fn prompt_text(&self) -> Seq<char> {
        self.prompt@
    }

    /// The answer recorded so far.
    pub closed spec fn answered(&self) -> Option<bool> {
        self.answer
    }

    /// Asks `prompt`, unanswered.
    pub fn ask(prompt: &str) -> (c: Confirm)
        ensures
            c.prompt_text() == prompt@,
            c.answered() is None,
    {
        Confirm { prompt: owned(prompt), answer: None }
    }

    pub fn prompt(&self) -> (r: &str)
        ensures
            r@ == self.prompt_text(),
    {
        self.prompt.as_str()
    }

    pub fn answer(&self) -> (r: Option<bool>)
        ensures
            r == self.answered(),
    {
        self.answer
    }

    /// Records the answer unless one was already given.
    pub fn resolve(&mut self, yes: bool)
        ensures
            final(self).answered() == resolved(old(self).answered(), yes),
            final(self).prompt_text() == old(self).prompt_text(),
    {
        if self.answer.is_none() {
            self.answer = Some(yes);
        }
    }
}

/// Law: the first answer wins: once answered, no later answer changes it.
pub proof fn lemma_first_answer_wins(answer: Option<bool>, first: bool, later: Seq<bool>)
    ensures
        later.fold_left(resolved(answer, first), |a: Option<bool>, y: bool| resolved(a, y))
            == resolved(answer, first),
    decreases later.len(),
{
    if later.len() > 0 {
        lemma_first_answer_wins(answer, first, later.drop_last());
    }
}

} // verus!
