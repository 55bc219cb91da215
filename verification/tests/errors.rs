use quiz_deck::error::{DoubleQuestionError, LineParseError, ParseError, QuestionlessAnswerError};
use quiz_deck::parsing::QuestionFile;

#[test]
fn line_error_quotes_the_line() {
    let error = LineParseError { line: "nonsense".to_string() };
    assert_eq!(
        error.message(),
        "could not parse the following as a comment (#: text), question (Q: text), or answer (A: text): 'nonsense'"
    );
}

#[test]
fn questionless_answer_error_names_the_line() {
    let error = QuestionlessAnswerError { line_num: 12, line: "A: 4".to_string() };
    assert_eq!(error.message(), "answer without preceding question on line 12: 'A: 4'");
}

#[test]
fn double_question_error_names_the_line() {
    let error = DoubleQuestionError { line_num: 2, line: "Q: y".to_string() };
    assert_eq!(error.message(), "question right after a question on line 2: 'Q: y'");
}

#[test]
fn parse_error_reports_as_the_error_it_holds() {
    let error = ParseError::Line(LineParseError { line: "".to_string() });
    assert_eq!(
        error.message(),
        "could not parse the following as a comment (#: text), question (Q: text), or answer (A: text): ''"
    );
    let error = ParseError::QuestionlessAnswer(QuestionlessAnswerError {
        line_num: 4294967295,
        line: "a: x".to_string(),
    });
    assert_eq!(error.message(), "answer without preceding question on line 4294967295: 'a: x'");
    let error =
        ParseError::DoubleQuestion(DoubleQuestionError { line_num: 100, line: "q: ".to_string() });
    assert_eq!(error.message(), "question right after a question on line 100: 'q: '");
}

#[test]
fn refused_file_reports_its_line() {
    let error = QuestionFile::parse(&vec!["#: sums", "Q: 2+2", "#: easy", "Q: 3+3"]).unwrap_err();
    assert_eq!(error.message(), "question right after a question on line 4: 'Q: 3+3'");
}
