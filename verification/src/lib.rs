//! A deck of questions and answers for a quiz, read from annotated lines of
//! text.
//!
//! A deck file has one record to a line. A line begins with a tag of three
//! characters: `#: ` before a comment, `Q: ` before a question and `A: `
//! before the answers to the question above it; the letters may be small.
//! Several answers on a line are separated by a comma and a space, and a
//! backslash before the separator keeps it as text:
//!
//! ```text
//! #: Capitals
//! Q: What is the capital of France?
//! A: Paris
//! Q: Name a city on the Thames.
//! A: London, Oxford, Reading\, Berkshire
//! ```
//!
//! [`parsing::QuestionFile::parse`] assembles the deck from such lines,
//! [`parsing::Line::from_str`] classifies one line, and
//! [`parsing::Answer::from_str`] splits the answers of a line.
//! [`parsing::Answer::evaluate`] judges what a learner has typed.
//!
//! What each of them returns is stated in its contract and proved. The
//! calls into other crates stand in [`trusted`], with what is believed of
//! them.

pub mod assembler;
pub mod error;
pub mod evaluation;
pub mod parsing;
pub mod rejoin;
pub mod splitter;
pub mod text;
pub mod trusted;
