//! Assembling the lines of a deck file: a state machine over the lines, in order.
//!
//! A comment joins the header. A question waits for its answer, and no second
//! question may come while one waits. An answer takes the waiting question
//! and the two become an entry. The first line that is refused ends the
//! reading. A question still waiting when the lines run out is dropped.

use vstd::prelude::*;

use crate::error::ParseFailure;
use crate::parsing::{classify, LineText};

verus! {

/// What the assembler holds between two lines.
pub struct Assembly {
    /// The prompt of the question that waits for its answer, if one does.
    pub pending: Option<Seq<char>>,
    /// The comments met so far.
    pub comments: Seq<Seq<char>>,
    /// The entries completed so far: a prompt and its accepted answers.
    pub entries: Seq<(Seq<char>, Seq<Seq<char>>)>,
}

/// The state before the first line.
pub open spec fn assembly_start() -> Assembly {
    Assembly { pending: None, comments: Seq::empty(), entries: Seq::empty() }
}

/// The state after one more line, which is the `line_num`-th of the file, or
/// the reason for which that line is refused.
pub open spec fn assemble_line(state: Assembly, line: Seq<char>, line_num: nat) -> Result<
    Assembly,
    ParseFailure,
> {
    match classify(line) {
        None => Err(ParseFailure::Line { line }),
        Some(LineText::Comment(text)) => Ok(
            Assembly {
                pending: state.pending,
                comments: state.comments.push(text),
                entries: state.entries,
            },
        ),
        Some(LineText::Question(prompt)) => {
            if state.pending is Some {
                Err(ParseFailure::DoubleQuestion { line_num, line })
            } else {
                Ok(
                    Assembly {
                        pending: Some(prompt),
                        comments: state.comments,
                        entries: state.entries,
                    },
                )
            }
        },
        Some(LineText::Answer(accepted)) => {
            match state.pending {
                None => Err(ParseFailure::QuestionlessAnswer { line_num, line }),
                Some(prompt) => Ok(
                    Assembly {
                        pending: None,
                        comments: state.comments,
                        entries: state.entries.push((prompt, accepted)),
                    },
                ),
            }
        },
    }
}

/// The state after all of `lines`, or the first refusal among them.
pub open spec fn assemble(lines: Seq<Seq<char>>) -> Result<Assembly, ParseFailure>
    decreases lines.len(),
{
    if lines.len() == 0 {
        Ok(assembly_start())
    } else {
        match assemble(lines.drop_last()) {
            Err(failure) => Err(failure),
            Ok(state) => assemble_line(state, lines.last(), lines.len()),
        }
    }
}

/// The texts of the comment lines among `lines`, in the order of the lines.
pub open spec fn comments_of(lines: Seq<Seq<char>>) -> Seq<Seq<char>>
    decreases lines.len(),
{
    if lines.len() == 0 {
        Seq::empty()
    } else {
        match classify(lines.last()) {
            Some(LineText::Comment(text)) => comments_of(lines.drop_last()).push(text),
            _ => comments_of(lines.drop_last()),
        }
    }
}

/// A refusal is final: once the first `upto` lines are refused, so are all.
pub proof fn lemma_failure_is_final(lines: Seq<Seq<char>>, upto: int)
    requires
        0 <= upto <= lines.len(),
        assemble(lines.take(upto)) is Err,
    ensures
        assemble(lines) == assemble(lines.take(upto)),
    decreases lines.len() - upto,
{
    if upto == lines.len() {
        assert(lines.take(upto) == lines);
    } else {
        assert(lines.take(upto + 1).drop_last() == lines.take(upto));
        lemma_failure_is_final(lines, upto + 1);
    }
}

/// The header of a file that is accepted holds the comment lines in file
/// order, wherever they stand among the questions and answers.
pub proof fn lemma_comments_in_file_order(lines: Seq<Seq<char>>)
    requires
        assemble(lines) is Ok,
    ensures
        assemble(lines)->Ok_0.comments == comments_of(lines),
    decreases lines.len(),
{
    if lines.len() > 0 {
        lemma_comments_in_file_order(lines.drop_last());
    }
}

/// The question and answer lines among `lines`, in the order of the lines,
/// each by what it carries.
pub open spec fn dialogue(lines: Seq<Seq<char>>) -> Seq<LineText>
    decreases lines.len(),
{
    if lines.len() == 0 {
        Seq::empty()
    } else {
        match classify(lines.last()) {
            Some(LineText::Question(prompt)) => dialogue(lines.drop_last()).push(
                LineText::Question(prompt),
            ),
            Some(LineText::Answer(accepted)) => dialogue(lines.drop_last()).push(
                LineText::Answer(accepted),
            ),
            _ => dialogue(lines.drop_last()),
        }
    }
}

/// Whether questions and answers take turns in `turns`, a question first.
pub open spec fn takes_turns(turns: Seq<LineText>) -> bool {
    forall|j: int| 0 <= j < turns.len() ==> ((#[trigger] turns[j]) is Question <==> j % 2 == 0)
}

/// Whether every one of `lines` is a line of a deck.
pub open spec fn all_classified(lines: Seq<Seq<char>>) -> bool {
    forall|i: int| 0 <= i < lines.len() ==> classify(#[trigger] lines[i]) is Some
}

/// Whether `lines` make a deck file: each is a comment, a question or an
/// answer, and comments aside, questions and answers take turns.
pub open spec fn well_formed(lines: Seq<Seq<char>>) -> bool {
    all_classified(lines) && takes_turns(dialogue(lines))
}

/// The entries that `turns` make: each question with the answer behind it.
/// A question at the end, with no answer behind it, makes none.
pub open spec fn pairs_of(turns: Seq<LineText>) -> Seq<(Seq<char>, Seq<Seq<char>>)> {
    Seq::new(
        (turns.len() / 2) as nat,
        |i: int| (turns[2 * i]->Question_0, turns[2 * i + 1]->Answer_0),
    )
}

/// The prompt of the question at the end of `turns` that has no answer yet.
pub open spec fn waiting_of(turns: Seq<LineText>) -> Option<Seq<char>> {
    if turns.len() % 2 == 1 {
        Some(turns.last()->Question_0)
    } else {
        None
    }
}

/// The files that are accepted are those that are well formed, and the
/// entries of such a file are its questions, each with the answer that
/// follows it.
pub proof fn lemma_entries_pair_in_turn(lines: Seq<Seq<char>>)
    ensures
        assemble(lines) is Ok <==> well_formed(lines),
        assemble(lines) matches Ok(end) ==> end.entries == pairs_of(dialogue(lines))
            && end.pending == waiting_of(dialogue(lines)),
    decreases lines.len(),
{
    let turns = dialogue(lines);
    if lines.len() == 0 {
        assert(pairs_of(turns) =~= Seq::empty());
    } else {
        let earlier = lines.drop_last();
        let before = dialogue(earlier);
        lemma_entries_pair_in_turn(earlier);
        if well_formed(lines) {
            assert forall|i: int| 0 <= i < earlier.len() implies classify(
                #[trigger] earlier[i],
            ) is Some by {
                assert(earlier[i] == lines[i]);
            }
            assert forall|j: int| 0 <= j < before.len() implies ((#[trigger] before[j])
                is Question <==> j % 2 == 0) by {
                assert(before[j] == turns[j]);
            }
            assert(classify(lines[lines.len() - 1]) is Some);
        }
        match assemble(earlier) {
            Err(_) => {},
            Ok(state) => {
                assert forall|i: int| 0 <= i < lines.len() && classify(
                    lines.last(),
                ) is Some implies classify(#[trigger] lines[i]) is Some by {
                    if i < earlier.len() {
                        assert(earlier[i] == lines[i]);
                    }
                }
                match classify(lines.last()) {
                    Some(LineText::Question(prompt)) => {
                        if state.pending is Some {
                            assert(turns[before.len() as int] is Question);
                        } else {
                            assert forall|j: int| 0 <= j < turns.len() implies ((
                            #[trigger] turns[j]) is Question <==> j % 2 == 0) by {
                                if j < before.len() {
                                    assert(turns[j] == before[j]);
                                }
                            }
                            assert(pairs_of(turns) =~= pairs_of(before));
                        }
                    },
                    Some(LineText::Answer(accepted)) => {
                        if state.pending is None {
                            assert(!(turns[before.len() as int] is Question));
                        } else {
                            assert forall|j: int| 0 <= j < turns.len() implies ((
                            #[trigger] turns[j]) is Question <==> j % 2 == 0) by {
                                if j < before.len() {
                                    assert(turns[j] == before[j]);
                                }
                            }
                            assert(pairs_of(turns) =~= pairs_of(before).push(
                                (state.pending->Some_0, accepted),
                            ));
                        }
                    },
                    _ => {},
                }
            },
        }
    }
}

} // verus!
