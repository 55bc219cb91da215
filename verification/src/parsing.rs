//! Lines of a deck file and the records they are assembled into.

use std::convert::Infallible;

use vstd::prelude::*;
use vstd::seq_lib::{to_multiset_contains, to_multiset_len, to_multiset_remove};
use vstd::string::*;

use crate::assembler::{
    assemble, comments_of, dialogue, lemma_comments_in_file_order, lemma_entries_pair_in_turn,
    lemma_failure_is_final, pairs_of, well_formed,
};
use crate::error::{DoubleQuestionError, LineParseError, ParseError, QuestionlessAnswerError};
use crate::rejoin::{answer_texts, joined_line, lemma_join_restores_line, lemma_split_inverts_join};
use crate::splitter::{delimiter, is_backslash, split_answers};
use crate::text::{
    join, join_strings, lemma_concat_of_nonempty, lemma_piece_of_concat, occurs_in, slice_texts,
    texts_of,
};
use crate::trusted::{grapheme_clusters, graphemes, shuffle, unwrap_infallible};

verus! {

/// One question of the deck.
#[derive(Debug, Clone)]
pub struct Question {
    pub prompt: String,
}

/// The answers that are accepted for one question, in the order they were written.
#[derive(Debug, Clone)]
pub struct Answer {
    pub correct: Vec<String>,
}

/// One line of a deck file, by what it carries.
#[derive(Debug, Clone)]
pub enum Line {
    Question(Question),
    Answer(Answer),
    Comment(String),
}

/// A deck: the comments of its file, which make its header, and its entries.
#[derive(Debug, Clone)]
pub struct QuestionFile {
    pub comments: Vec<String>,
    pub entries: Vec<(Question, Answer)>,
}

/// A deck as plain text: the comments, and each entry as a prompt with its
/// accepted answers.
pub struct Deck {
    pub comments: Seq<Seq<char>>,
    pub entries: Seq<(Seq<char>, Seq<Seq<char>>)>,
}

/// What a line carries, as plain text.
pub enum LineText {
    Question(Seq<char>),
    Answer(Seq<Seq<char>>),
    Comment(Seq<char>),
}

impl View for Question {
    type V = Seq<char>;

    /// A question is its prompt.
    open spec fn view(&self) -> Seq<char> {
        self.prompt@
    }
}

impl View for Answer {
    type V = Seq<Seq<char>>;

    /// An answer is the list of accepted texts.
    open spec fn view(&self) -> Seq<Seq<char>> {
        texts_of(self.correct@)
    }
}

/// The prompts and accepted answers of a list of entries.
pub open spec fn entry_texts(entries: Seq<(Question, Answer)>) -> Seq<(Seq<char>, Seq<Seq<char>>)> {
    Seq::new(entries.len(), |i: int| (entries[i].0@, entries[i].1@))
}

impl View for QuestionFile {
    type V = Deck;

    open spec fn view(&self) -> Deck {
        Deck { comments: texts_of(self.comments@), entries: entry_texts(self.entries@) }
    }
}

impl View for Line {
    type V = LineText;

    open spec fn view(&self) -> LineText {
        match self {
            Line::Question(question) => LineText::Question(question@),
            Line::Answer(answer) => LineText::Answer(answer@),
            Line::Comment(text) => LineText::Comment(text@),
        }
    }
}

/// The three kinds of line.
pub enum Tag {
    Comment,
    Question,
    Answer,
}

/// The kind that the first three characters of `line` announce: `#`, `Q` or
/// `A`, the letters in either case, then a colon and a space. `None` where
/// the line is shorter or begins otherwise.
pub open spec fn tag_of(line: Seq<char>) -> Option<Tag> {
    if line.len() < 3 || line[1] != ':' || line[2] != ' ' {
        None
    } else if line[0] == '#' {
        Some(Tag::Comment)
    } else if line[0] == 'Q' || line[0] == 'q' {
        Some(Tag::Question)
    } else if line[0] == 'A' || line[0] == 'a' {
        Some(Tag::Answer)
    } else {
        None
    }
}

/// The accepted answers written on the rest of an answer line.
pub open spec fn accepted_answers(rest: Seq<char>) -> Seq<Seq<char>> {
    split_answers(grapheme_clusters(rest))
}

/// What `line` carries, or `None` where it is no line of a deck.
pub open spec fn classify(line: Seq<char>) -> Option<LineText> {
    match tag_of(line) {
        None => None,
        Some(Tag::Comment) => Some(LineText::Comment(line.skip(3))),
        Some(Tag::Question) => Some(LineText::Question(line.skip(3))),
        Some(Tag::Answer) => Some(LineText::Answer(accepted_answers(line.skip(3)))),
    }
}

impl Question {
    /// The question whose prompt is `s`, character for character.
    pub fn from_str(s: &str) -> (result: Result<Question, Infallible>)
        ensures
            result matches Ok(question) && question@ == s@,
    {
        Ok(Question { prompt: String::from_str(s) })
    }
}

impl Answer {
    /// The accepted answers written in `s`, the rest of an answer line.
    ///
    /// The text is cut into grapheme clusters and those are scanned once.
    /// There is always at least one answer, and the empty text holds one
    /// empty answer. Of a text without any backslash more is known: its
    /// answers, joined with the separator, are the text again, so that
    /// splitting what was joined changes nothing; and if it does not hold
    /// the separator either, it is its own single answer.
    pub fn from_str(s: &str) -> (result: Result<Answer, Infallible>)
        ensures
            result is Ok,
            result matches Ok(answer) ==> answer@ == accepted_answers(s@),
            result matches Ok(answer) ==> answer@.len() >= 1,
            result matches Ok(answer) ==> (s@.len() == 0 ==> answer@ == seq![Seq::<char>::empty()]),
            result matches Ok(answer) ==> (!s@.contains('\\') ==> join(answer@, delimiter())
                == s@),
            result matches Ok(answer) ==> (!s@.contains('\\') ==> accepted_answers(
                join(answer@, delimiter()),
            ) == answer@),
            result matches Ok(answer) ==> (!s@.contains('\\') && !occurs_in(delimiter(), s@)
                ==> answer@ == seq![s@]),
    {
        let clusters = graphemes(s);
        let answer = Answer::from_graphemes(clusters.as_slice());
        proof {
            let line = slice_texts(clusters@);
            if !s@.contains('\\') {
                assert forall|i: int| 0 <= i < line.len() implies !is_backslash(
                    #[trigger] line[i],
                ) by {
                    if is_backslash(line[i]) {
                        assert(line[i].contains('\\'));
                        lemma_piece_of_concat(line, i, '\\');
                    }
                }
                lemma_join_restores_line(line);
                if !occurs_in(delimiter(), s@) {
                    let alone = seq![line];
                    assert(joined_line(alone) == line);
                    lemma_split_inverts_join(alone);
                    assert(answer_texts(alone) =~= seq![s@]);
                }
            }
            if s@.len() == 0 {
                lemma_concat_of_nonempty(line);
                assert(answer@ =~= seq![Seq::<char>::empty()]);
            }
        }
        Ok(answer)
    }
}

impl Line {
    /// Classifies one line by its first three characters.
    ///
    /// A comment carries the rest of the line, a question has it as its
    /// prompt, and an answer line has it split into the accepted answers.
    /// Any other line is refused, and the error carries it whole. The
    /// prefix is counted in characters, so a line is never cut inside one.
    pub fn from_str(line: &str) -> (result: Result<Line, LineParseError>)
        ensures
            classify(line@) matches Some(carried) ==> (result matches Ok(parsed) && parsed@
                == carried),
            classify(line@) is None ==> (result matches Err(error) && error.line@ == line@),
            line@.len() >= 3 && (line@[0] == 'Q' || line@[0] == 'q') && line@[1] == ':' && line@[2]
                == ' ' ==> (result matches Ok(Line::Question(question)) && question@
                == line@.skip(3)),
    {
        let width: usize = line.unicode_len();
        if width < 3 {
            return Err(LineParseError { line: String::from_str(line) });
        }
        let tag = line.get_char(0);
        if line.get_char(1) != ':' || line.get_char(2) != ' ' {
            return Err(LineParseError { line: String::from_str(line) });
        }
        let rest = line.substring_char(3, width);
        assert(rest@ == line@.skip(3));
        if tag == '#' {
            Ok(Line::Comment(String::from_str(rest)))
        } else if tag == 'Q' || tag == 'q' {
            Ok(Line::Question(unwrap_infallible(Question::from_str(rest))))
        } else if tag == 'A' || tag == 'a' {
            Ok(Line::Answer(unwrap_infallible(Answer::from_str(rest))))
        } else {
            Err(LineParseError { line: String::from_str(line) })
        }
    }
}

/// Entries that are the same, each as often, have the same texts, each as
/// often: putting entries in another order does the same to their texts.
pub proof fn lemma_texts_of_rearranged(
    first: Seq<(Question, Answer)>,
    second: Seq<(Question, Answer)>,
)
    requires
        first.to_multiset() == second.to_multiset(),
    ensures
        entry_texts(first).to_multiset() == entry_texts(second).to_multiset(),
    decreases first.len(),
{
    broadcast use vstd::multiset::group_multiset_axioms;

    let first_texts = entry_texts(first);
    let second_texts = entry_texts(second);
    to_multiset_len(first);
    to_multiset_len(second);
    if first.len() == 0 {
        assert(first_texts =~= second_texts);
    } else {
        let last = first.len() - 1;
        let entry = first[last];
        to_multiset_contains(first, entry);
        to_multiset_contains(second, entry);
        let at = second.index_of(entry);
        to_multiset_remove(first, last);
        to_multiset_remove(second, at);
        lemma_texts_of_rearranged(first.remove(last), second.remove(at));
        assert(first_texts.remove(last) =~= entry_texts(first.remove(last)));
        assert(second_texts.remove(at) =~= entry_texts(second.remove(at)));
        to_multiset_remove(first_texts, last);
        to_multiset_remove(second_texts, at);
        let text = first_texts[last];
        assert(second_texts[at] == text);
        to_multiset_contains(first_texts, text);
        to_multiset_contains(second_texts, text);
        let first_bag = first_texts.to_multiset();
        let second_bag = second_texts.to_multiset();
        assert(first_bag.remove(text) == second_bag.remove(text));
        assert forall|other: (Seq<char>, Seq<Seq<char>>)|
            first_bag.count(other) == second_bag.count(other) by {
            assert(first_bag.remove(text).count(other) == second_bag.remove(text).count(other));
        }
        assert(first_bag =~= second_bag);
    }
}

/// The prompt of the question that waits, if one does.
pub open spec fn pending_text(question: Option<Question>) -> Option<Seq<char>> {
    match question {
        Some(waiting) => Some(waiting@),
        None => None,
    }
}

impl QuestionFile {
    /// Assembles a deck from the lines of its file, in order, each already
    /// without the white space around it.
    ///
    /// The deck holds what the assembler has gathered when the lines run
    /// out. The first line that is refused ends the reading, and its error
    /// comes back: with the line as it was handed over and, for the two
    /// pairing faults, its number, counted from one.
    pub fn parse(lines: &[&str]) -> (result: Result<QuestionFile, ParseError>)
        requires
            lines@.len() <= u32::MAX,
        ensures
            match assemble(slice_texts(lines@)) {
                Ok(end) => result matches Ok(file) && file@ == (Deck {
                    comments: end.comments,
                    entries: end.entries,
                }),
                Err(failure) => result matches Err(error) && error@ == failure,
            },
            result is Ok <==> well_formed(slice_texts(lines@)),
            result matches Ok(file) ==> file@.comments == comments_of(slice_texts(lines@)),
            result matches Ok(file) ==> file@.entries == pairs_of(dialogue(slice_texts(lines@))),
    {
        let ghost all = slice_texts(lines@);
        let mut question: Option<Question> = None;
        let mut entries: Vec<(Question, Answer)> = Vec::new();
        let mut comments: Vec<String> = Vec::new();
        let mut i: usize = 0;
        while i < lines.len()
            invariant
                i <= lines.len() <= u32::MAX,
                all == slice_texts(lines@),
                assemble(all.take(i as int)) matches Ok(state) && state.pending == pending_text(
                    question,
                ) && state.comments == texts_of(comments@) && state.entries == entry_texts(
                    entries@,
                ),
            decreases lines.len() - i,
        {
            let line: &str = lines[i];
            proof {
                assert(all.take(i + 1).drop_last() == all.take(i as int));
                assert(all.take(i + 1).last() == line@);
            }
            match Line::from_str(line) {
                Err(error) => {
                    proof {
                        lemma_failure_is_final(all, i + 1);
                        lemma_entries_pair_in_turn(all);
                    }
                    return Err(ParseError::Line(error));
                },
                Ok(Line::Comment(text)) => {
                    let ghost header = texts_of(comments@);
                    comments.push(text);
                    assert(texts_of(comments@) == header.push(text@));
                },
                Ok(Line::Question(parsed)) => {
                    if question.is_some() {
                        proof {
                            lemma_failure_is_final(all, i + 1);
                            lemma_entries_pair_in_turn(all);
                        }
                        return Err(
                            ParseError::DoubleQuestion(
                                DoubleQuestionError {
                                    line_num: (i + 1) as u32,
                                    line: String::from_str(line),
                                },
                            ),
                        );
                    }
                    question = Some(parsed);
                },
                Ok(Line::Answer(answer)) => {
                    match question.take() {
                        None => {
                            proof {
                                lemma_failure_is_final(all, i + 1);
                                lemma_entries_pair_in_turn(all);
                            }
                            return Err(
                                ParseError::QuestionlessAnswer(
                                    QuestionlessAnswerError {
                                        line_num: (i + 1) as u32,
                                        line: String::from_str(line),
                                    },
                                ),
                            );
                        },
                        Some(waiting) => {
                            let ghost paired = entry_texts(entries@);
                            entries.push((waiting, answer));
                            assert(entry_texts(entries@) == paired.push((waiting@, answer@)));
                        },
                    }
                },
            }
            i += 1;
        }
        proof {
            assert(all.take(i as int) == all);
            lemma_comments_in_file_order(all);
            lemma_entries_pair_in_turn(all);
        }
        Ok(QuestionFile { comments, entries })
    }

    /// The header of the deck: its comments, one to a line.
    pub fn comment_string(&self) -> (header: String)
        ensures
            header@ == join(self@.comments, seq!['\n']),
    {
        proof {
            reveal_strlit("\n");
            assert("\n"@ =~= seq!['\n']);
        }
        join_strings(self.comments.as_slice(), "\n")
    }

    /// Puts the entries in a random order. The comments stay as they are,
    /// and so does every entry: the same entries are there, each as often
    /// as before, and only their places may have changed.
    pub fn shuffle_entries(&mut self)
        ensures
            final(self).comments == old(self).comments,
            final(self).entries@.to_multiset() == old(self).entries@.to_multiset(),
            final(self)@.comments == old(self)@.comments,
            final(self)@.entries.to_multiset() == old(self)@.entries.to_multiset(),
            final(self)@.entries.len() == old(self)@.entries.len(),
    {
        let mut rng = rand::thread_rng();
        shuffle(&mut self.entries, &mut rng);
        proof {
            old(self).entries@.to_multiset_ensures();
            self.entries@.to_multiset_ensures();
            lemma_texts_of_rearranged(old(self).entries@, self.entries@);
        }
    }
}

} // verus!
