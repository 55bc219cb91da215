//! Judging a learner's input against the accepted answers, and what follows
//! a wrong answer: the learner's overriding the verdict, or the solution.

use vstd::prelude::*;
use vstd::std_specs::iter::IteratorSpec;
use vstd::string::*;

use crate::parsing::Answer;
use crate::text::{join, join_strings};

verus! {

/// The verdict on one submitted answer.
#[derive(Debug, Clone, Copy, PartialEq, Eq)]
pub enum Correctness {
    Correct,
    Incorrect,
}

/// Whether one of `answers` holds a comma.
pub open spec fn any_holds_comma(answers: Seq<Seq<char>>) -> bool {
    exists|i: int| 0 <= i < answers.len() && (#[trigger] answers[i]).contains(',')
}

/// The sentence that shows the accepted answers: in the singular for one
/// answer, and with semicolons between the answers where one of them holds
/// a comma.
pub open spec fn solution_text(answers: Seq<Seq<char>>) -> Seq<char> {
    let opening = if answers.len() == 1 {
        "Correct answer was "@
    } else {
        "Correct answers were "@
    };
    let joiner = if any_holds_comma(answers) {
        "; "@
    } else {
        ", "@
    };
    opening + join(answers, joiner)
}

/// Whether the learner, asked if the answer was right after all, says yes:
/// the reply begins with `y`, small or capital.
pub fn is_override(reply: &str) -> (yes: bool)
    ensures
        yes == (reply@.len() > 0 && (reply@[0] == 'y' || reply@[0] == 'Y')),
{
    let mut rest = reply.chars();
    match rest.next() {
        Some(first) => first == 'y' || first == 'Y',
        None => false,
    }
}

/// Whether `text` holds a comma.
fn holds_comma(text: &str) -> (found: bool)
    ensures
        found == text@.contains(','),
{
    let mut rest = text.chars();
    let ghost mut seen: int = 0;
    loop
        invariant
            0 <= seen <= text@.len(),
            rest.remaining() == text@.skip(seen),
            forall|k: int| 0 <= k < seen ==> text@[k] != ',',
        decreases text@.len() - seen,
    {
        match rest.next() {
            Some(next) => {
                assert(next == text@[seen]);
                if next == ',' {
                    return true;
                }
                proof {
                    assert(text@.skip(seen).drop_first() == text@.skip(seen + 1));
                    seen = seen + 1;
                }
            },
            None => {
                return false;
            },
        }
    }
}

impl Answer {
    /// Judges `input` by exact membership among the accepted texts: no trimming,
    /// no folding of case.
    pub fn evaluate(&self, input: String) -> (verdict: Correctness)
        ensures
            verdict == (if self@.contains(input@) {
                Correctness::Correct
            } else {
                Correctness::Incorrect
            }),
    {
        let mut i: usize = 0;
        while i < self.correct.len()
            invariant
                i <= self.correct.len(),
                forall|k: int| 0 <= k < i ==> self@[k] != input@,
            decreases self.correct.len() - i,
        {
            if self.correct[i] == input {
                assert(self@[i as int] == input@);
                return Correctness::Correct;
            }
            i += 1;
        }
        Correctness::Incorrect
    }

    /// Accepts `input` from now on, behind the answers accepted so far.
    pub fn accept(&mut self, input: String)
        ensures
            final(self)@ == old(self)@.push(input@),
            final(self)@.contains(input@),
    {
        self.correct.push(input);
        assert(self@ =~= old(self)@.push(input@));
        assert(self@[self@.len() - 1] == input@);
    }

    /// The sentence that tells the learner what would have been accepted.
    pub fn solution(&self) -> (sentence: String)
        ensures
            sentence@ == solution_text(self@),
    {
        let mut with_comma = false;
        let mut i: usize = 0;
        while i < self.correct.len()
            invariant
                i <= self.correct.len(),
                with_comma == any_holds_comma(self@.take(i as int)),
            decreases self.correct.len() - i,
        {
            let found = holds_comma(self.correct[i].as_str());
            proof {
                let shorter = self@.take(i as int);
                let longer = self@.take(i + 1);
                assert(longer[i as int] == self.correct@[i as int]@);
                if any_holds_comma(longer) && !found {
                    let k = choose|k: int|
                        0 <= k < longer.len() && (#[trigger] longer[k]).contains(',');
                    assert(shorter[k] == longer[k]);
                }
                if any_holds_comma(shorter) {
                    let k = choose|k: int|
                        0 <= k < shorter.len() && (#[trigger] shorter[k]).contains(',');
                    assert(longer[k] == shorter[k]);
                }
            }
            with_comma = with_comma || found;
            i += 1;
        }
        assert(self@.take(i as int) == self@);
        let joiner = if with_comma {
            "; "
        } else {
            ", "
        };
        let mut sentence = if self.correct.len() == 1 {
            String::from_str("Correct answer was ")
        } else {
            String::from_str("Correct answers were ")
        };
        sentence.append(join_strings(self.correct.as_slice(), joiner).as_str());
        sentence
    }
}

} // verus!
