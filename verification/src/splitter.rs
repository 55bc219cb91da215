//! The answer splitter: one scan over the graphemes of an answer line.
//!
//! Answers are separated by a comma and a space. A grapheme that is a lone
//! backslash flips an escape flag; a backslash that switches the flag on is
//! dropped, and a separator met while the flag is on stays in the answer as
//! text.

use vstd::prelude::*;
use vstd::string::*;

use crate::parsing::Answer;
use crate::text::{slice_texts, texts_of};

verus! {

/// Whether `text` ends in a comma.
pub open spec fn ends_with_comma(text: Seq<char>) -> bool {
    text.len() >= 1 && text[text.len() - 1] == ','
}

/// Whether `text` ends in the separator, a comma and a space.
pub open spec fn ends_with_delimiter(text: Seq<char>) -> bool {
    text.len() >= 2 && text[text.len() - 2] == ',' && text[text.len() - 1] == ' '
}

/// Whether `grapheme` is a backslash and nothing else.
pub open spec fn is_backslash(grapheme: Seq<char>) -> bool {
    grapheme.len() == 1 && grapheme[0] == '\\'
}

/// The separator between two answers on a line.
pub open spec fn delimiter() -> Seq<char> {
    seq![',', ' ']
}

/// Whether one of `graphemes` is a lone backslash.
pub open spec fn has_lone_backslash(graphemes: Seq<Seq<char>>) -> bool {
    exists|i: int| 0 <= i < graphemes.len() && is_backslash(#[trigger] graphemes[i])
}

/// What the scan knows after some graphemes: the answers completed so far,
/// the text gathered for the answer in progress, and the escape flag.
pub struct SplitState {
    pub done: Seq<Seq<char>>,
    pub buffer: Seq<char>,
    pub escape: bool,
}

/// The state before the first grapheme.
pub open spec fn split_start() -> SplitState {
    SplitState { done: Seq::empty(), buffer: Seq::empty(), escape: false }
}

/// The state after one more grapheme.
pub open spec fn split_step(state: SplitState, grapheme: Seq<char>) -> SplitState {
    let escape = if is_backslash(grapheme) {
        !state.escape
    } else {
        state.escape
    };
    if is_backslash(grapheme) && escape {
        SplitState { done: state.done, buffer: state.buffer, escape: true }
    } else if ends_with_delimiter(state.buffer) {
        if escape {
            SplitState { done: state.done, buffer: state.buffer + grapheme, escape: false }
        } else {
            SplitState {
                done: state.done.push(state.buffer.take(state.buffer.len() - 2)),
                buffer: grapheme,
                escape: false,
            }
        }
    } else {
        SplitState { done: state.done, buffer: state.buffer + grapheme, escape }
    }
}

/// The state after `graphemes`, taken from left to right, when the scan was
/// in `state` before them.
pub open spec fn split_from(state: SplitState, graphemes: Seq<Seq<char>>) -> SplitState
    decreases graphemes.len(),
{
    if graphemes.len() == 0 {
        state
    } else {
        split_step(split_from(state, graphemes.drop_last()), graphemes.last())
    }
}

/// The state after all the graphemes of a line.
pub open spec fn split_scan(graphemes: Seq<Seq<char>>) -> SplitState {
    split_from(split_start(), graphemes)
}

/// The accepted answers that a line with these graphemes holds: the answers
/// that the scan completed, then whatever it was still gathering.
pub open spec fn split_answers(graphemes: Seq<Seq<char>>) -> Seq<Seq<char>> {
    let end = split_scan(graphemes);
    end.done.push(end.buffer)
}

impl Answer {
    /// Splits an answer line, given as its graphemes in order, into the
    /// accepted answers. Every list of graphemes is accepted, the empty one
    /// too, and at least one answer comes back.
    pub fn from_graphemes(graphemes: &[&str]) -> (answer: Answer)
        ensures
            answer@ == split_answers(slice_texts(graphemes@)),
            answer@.len() >= 1,
    {
        let ghost line = slice_texts(graphemes@);
        let mut correct: Vec<String> = Vec::new();
        let mut builder = String::new();
        let mut escape = false;
        // How `builder` ends, kept up to date with every grapheme that is
        // appended, so that the scan never has to look back into it.
        let mut after_comma = false;
        let mut after_delimiter = false;
        let mut i: usize = 0;
        while i < graphemes.len()
            invariant
                i <= graphemes.len(),
                line == slice_texts(graphemes@),
                texts_of(correct@) == split_scan(line.take(i as int)).done,
                builder@ == split_scan(line.take(i as int)).buffer,
                escape == split_scan(line.take(i as int)).escape,
                after_comma == ends_with_comma(builder@),
                after_delimiter == ends_with_delimiter(builder@),
            decreases graphemes.len() - i,
        {
            let grapheme: &str = graphemes[i];
            let ghost before = split_scan(line.take(i as int));
            proof {
                assert(line.take(i + 1).drop_last() == line.take(i as int));
                assert(line.take(i + 1).last() == grapheme@);
            }
            let width: usize = grapheme.unicode_len();
            let lone_backslash = width == 1 && grapheme.get_char(0) == '\\';
            if lone_backslash {
                escape = !escape;
            }
            // A backslash that has just switched the escape on is dropped.
            if !(lone_backslash && escape) {
                if after_delimiter {
                    if escape {
                        // The separator was escaped: it stays as text.
                        escape = false;
                    } else {
                        // The answer before the separator is complete.
                        let filled: usize = builder.as_str().unicode_len();
                        let finished = builder.as_str().substring_char(0, filled - 2);
                        correct.push(String::from_str(finished));
                        builder = String::new();
                        after_comma = false;
                        after_delimiter = false;
                        proof {
                            assert(finished@ == before.buffer.take(before.buffer.len() - 2));
                            assert(texts_of(correct@) == before.done.push(finished@));
                        }
                    }
                }
                builder.append(grapheme);
                if width >= 2 {
                    let last = grapheme.get_char(width - 1);
                    after_delimiter = last == ' ' && grapheme.get_char(width - 2) == ',';
                    after_comma = last == ',';
                } else if width == 1 {
                    let only = grapheme.get_char(0);
                    after_delimiter = after_comma && only == ' ';
                    after_comma = only == ',';
                }
            }
            i += 1;
        }
        proof {
            assert(line.take(i as int) == line);
        }
        let ghost end = split_scan(line);
        correct.push(builder);
        let answer = Answer { correct };
        proof {
            assert(answer@ == end.done.push(end.buffer));
        }
        answer
    }
}

} // verus!
