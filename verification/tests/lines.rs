use quiz_deck::parsing::{Line, Question};

#[test]
fn question_line_keeps_its_rest_verbatim() {
    for line in ["Q: What  is\t2+2 ?", "q: What  is\t2+2 ?"] {
        match Line::from_str(line) {
            Ok(Line::Question(question)) => assert_eq!(question.prompt, "What  is\t2+2 ?"),
            other => panic!("{:?}", other),
        }
    }
}

#[test]
fn question_line_may_have_an_empty_prompt() {
    match Line::from_str("Q: ") {
        Ok(Line::Question(question)) => assert_eq!(question.prompt, ""),
        other => panic!("{:?}", other),
    }
}

#[test]
fn comment_line_carries_its_rest() {
    match Line::from_str("#: Capitals of Europe, part 1") {
        Ok(Line::Comment(text)) => assert_eq!(text, "Capitals of Europe, part 1"),
        other => panic!("{:?}", other),
    }
}

#[test]
fn answer_line_is_split() {
    for line in ["A: Paris, London", "a: Paris, London"] {
        match Line::from_str(line) {
            Ok(Line::Answer(answer)) => assert_eq!(answer.correct, vec!["Paris", "London"]),
            other => panic!("{:?}", other),
        }
    }
}

#[test]
fn answer_line_with_nothing_behind_the_tag_has_one_empty_answer() {
    match Line::from_str("A: ") {
        Ok(Line::Answer(answer)) => assert_eq!(answer.correct, vec![""]),
        other => panic!("{:?}", other),
    }
}

#[test]
fn line_with_another_prefix_is_refused_whole() {
    for line in ["X: y", "Q:x", "Q : x", "Q:  ".trim_end(), "#:", "##: x", " Q: x", "Question", "A; 4"] {
        match Line::from_str(line) {
            Err(error) => assert_eq!(error.line, line),
            other => panic!("{:?}", other),
        }
    }
}

#[test]
fn line_shorter_than_three_characters_is_refused() {
    for line in ["", "Q", "Q:", "A:", "\u{e9}:"] {
        match Line::from_str(line) {
            Err(error) => assert_eq!(error.line, line),
            other => panic!("{:?}", other),
        }
    }
}

#[test]
fn prefix_is_taken_by_characters() {
    match Line::from_str("ab\u{20ac}") {
        Err(error) => assert_eq!(error.line, "ab\u{20ac}"),
        other => panic!("{:?}", other),
    }
    match Line::from_str("Q: \u{20ac}5") {
        Ok(Line::Question(question)) => assert_eq!(question.prompt, "\u{20ac}5"),
        other => panic!("{:?}", other),
    }
}

#[test]
fn question_is_made_from_any_text() {
    let question = Question::from_str("  2+2  ").unwrap();
    assert_eq!(question.prompt, "  2+2  ");
}
