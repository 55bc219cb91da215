use quiz_deck::evaluation::{is_override, Correctness};
use quiz_deck::parsing::Answer;

fn answer_of(texts: &[&str]) -> Answer {
    Answer { correct: texts.iter().map(|text| text.to_string()).collect() }
}

#[test]
fn reply_that_begins_with_y_overrides() {
    for reply in ["y", "Y", "y\n", "yes\n", "Yes, I am", "yolo"] {
        assert!(is_override(reply), "{:?}", reply);
    }
}

#[test]
fn any_other_reply_does_not_override() {
    for reply in ["", "\n", "n\n", "N", " y", "no, yes", "\u{ff}es", "1"] {
        assert!(!is_override(reply), "{:?}", reply);
    }
}

#[test]
fn accepted_input_goes_behind_the_other_answers() {
    let mut answer = answer_of(&["4", "four"]);
    answer.accept("IV".to_string());
    assert_eq!(answer.correct, vec!["4", "four", "IV"]);
    assert_eq!(answer.evaluate("IV".to_string()), Correctness::Correct);
}

#[test]
fn accepted_input_may_be_there_already() {
    let mut answer = answer_of(&["4"]);
    answer.accept("4".to_string());
    assert_eq!(answer.correct, vec!["4", "4"]);
}

#[test]
fn solution_of_one_answer_is_in_the_singular() {
    assert_eq!(answer_of(&["4"]).solution(), "Correct answer was 4");
    assert_eq!(answer_of(&["a,b"]).solution(), "Correct answer was a,b");
    assert_eq!(answer_of(&[""]).solution(), "Correct answer was ");
}

#[test]
fn solution_of_several_answers_joins_them_with_commas() {
    assert_eq!(answer_of(&["4", "four"]).solution(), "Correct answers were 4, four");
    assert_eq!(answer_of(&["a", "", "c"]).solution(), "Correct answers were a, , c");
}

#[test]
fn solution_uses_semicolons_where_an_answer_holds_a_comma() {
    assert_eq!(answer_of(&["1, 2", "3"]).solution(), "Correct answers were 1, 2; 3");
    assert_eq!(answer_of(&["x", "y", "z,"]).solution(), "Correct answers were x; y; z,");
}

#[test]
fn solution_of_no_answers_names_none() {
    assert_eq!(answer_of(&[]).solution(), "Correct answers were ");
}

#[test]
fn solution_of_a_split_line_shows_its_answers() {
    let answer = Answer::from_str("Paris\\, France, Paris").unwrap();
    assert_eq!(answer.solution(), "Correct answers were Paris, France; Paris");
}
