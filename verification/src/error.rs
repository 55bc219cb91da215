//! The ways in which the lines of a deck file can be refused.

use vstd::prelude::*;
use vstd::string::*;

use crate::text::{decimal, decimal_string};

verus! {

/// A line that is neither a comment, nor a question, nor an answer.
#[derive(Debug, Clone)]
pub struct LineParseError {
    pub line: String,
}

/// An answer line with no question waiting for it.
#[derive(Debug, Clone)]
pub struct QuestionlessAnswerError {
    pub line_num: u32,
    pub line: String,
}

/// A question line while the question before it still waits for its answer.
#[derive(Debug, Clone)]
pub struct DoubleQuestionError {
    pub line_num: u32,
    pub line: String,
}

/// Why a deck file was refused. Reading stops at the first such line.
#[derive(Debug, Clone)]
pub enum ParseError {
    Line(LineParseError),
    QuestionlessAnswer(QuestionlessAnswerError),
    DoubleQuestion(DoubleQuestionError),
}

/// A refusal as plain values: the line as it was handed over and, for the
/// two pairing faults, its number, counted from one.
pub enum ParseFailure {
    Line { line: Seq<char> },
    QuestionlessAnswer { line_num: nat, line: Seq<char> },
    DoubleQuestion { line_num: nat, line: Seq<char> },
}

impl View for ParseError {
    type V = ParseFailure;

    open spec fn view(&self) -> ParseFailure {
        match self {
            ParseError::Line(error) => ParseFailure::Line { line: error.line@ },
            ParseError::QuestionlessAnswer(error) => ParseFailure::QuestionlessAnswer {
                line_num: error.line_num as nat,
                line: error.line@,
            },
            ParseError::DoubleQuestion(error) => ParseFailure::DoubleQuestion {
                line_num: error.line_num as nat,
                line: error.line@,
            },
        }
    }
}

impl ParseFailure {
    /// The words in which this refusal is reported: what went wrong, the
    /// line's number where one is known, and the line between single quotes.
    pub open spec fn message(self) -> Seq<char> {
        match self {
            ParseFailure::Line { line } => {
                "could not parse the following as a comment (#: text), question (Q: text), or answer (A: text): '"@
                    + line + "'"@
            },
            ParseFailure::QuestionlessAnswer { line_num, line } => {
                "answer without preceding question on line "@ + decimal(line_num) + ": '"@ + line
                    + "'"@
            },
            ParseFailure::DoubleQuestion { line_num, line } => {
                "question right after a question on line "@ + decimal(line_num) + ": '"@ + line
                    + "'"@
            },
        }
    }
}

impl LineParseError {
    /// The report of this error, with the line quoted.
    pub fn message(&self) -> (text: String)
        ensures
            text@ == (ParseFailure::Line { line: self.line@ }).message(),
    {
        let mut text = String::from_str(
            "could not parse the following as a comment (#: text), question (Q: text), or answer (A: text): '",
        );
        text.append(self.line.as_str());
        text.append("'");
        text
    }
}

impl QuestionlessAnswerError {
    /// The report of this error, with the line's number and the line quoted.
    pub fn message(&self) -> (text: String)
        ensures
            text@ == (ParseFailure::QuestionlessAnswer {
                line_num: self.line_num as nat,
                line: self.line@,
            }).message(),
    {
        let mut text = String::from_str("answer without preceding question on line ");
        text.append(decimal_string(self.line_num).as_str());
        text.append(": '");
        text.append(self.line.as_str());
        text.append("'");
        text
    }
}

impl DoubleQuestionError {
    /// The report of this error, with the line's number and the line quoted.
    pub fn message(&self) -> (text: String)
        ensures
            text@ == (ParseFailure::DoubleQuestion {
                line_num: self.line_num as nat,
                line: self.line@,
            }).message(),
    {
        let mut text = String::from_str("question right after a question on line ");
        text.append(decimal_string(self.line_num).as_str());
        text.append(": '");
        text.append(self.line.as_str());
        text.append("'");
        text
    }
}

impl ParseError {
    /// The report of whichever error this is.
    pub fn message(&self) -> (text: String)
        ensures
            text@ == self@.message(),
    {
        match self {
            ParseError::Line(error) => error.message(),
            ParseError::QuestionlessAnswer(error) => error.message(),
            ParseError::DoubleQuestion(error) => error.message(),
        }
    }
}

} // verus!
