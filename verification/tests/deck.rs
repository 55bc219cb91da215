use quiz_deck::error::ParseError;
use quiz_deck::evaluation::Correctness;
use quiz_deck::parsing::{Answer, Question, QuestionFile};

fn parse_text(text: &str) -> Result<QuestionFile, ParseError> {
    let lines: Vec<&str> = text.lines().map(|line| line.trim()).collect();
    QuestionFile::parse(&lines)
}

#[test]
fn file_with_one_pair_gives_one_entry() {
    let file = parse_text("Q: 2+2\nA: 4\n").unwrap();
    assert_eq!(file.entries.len(), 1);
    assert_eq!(file.entries[0].0.prompt, "2+2");
    assert_eq!(file.entries[0].1.correct, vec!["4"]);
    assert!(file.comments.is_empty());
}

#[test]
fn answer_without_question_is_refused_at_its_line() {
    match parse_text("A: 4\n") {
        Err(ParseError::QuestionlessAnswer(error)) => {
            assert_eq!(error.line_num, 1);
            assert_eq!(error.line, "A: 4");
        }
        other => panic!("{:?}", other),
    }
}

#[test]
fn second_question_in_a_row_is_refused_at_its_line() {
    match parse_text("Q: x\nQ: y\nA: 1\n") {
        Err(ParseError::DoubleQuestion(error)) => {
            assert_eq!(error.line_num, 2);
            assert_eq!(error.line, "Q: y");
        }
        other => panic!("{:?}", other),
    }
}

#[test]
fn line_that_is_no_line_of_a_deck_is_refused() {
    match parse_text("Q: x\nA: 1\nnonsense\nQ: y\n") {
        Err(ParseError::Line(error)) => assert_eq!(error.line, "nonsense"),
        other => panic!("{:?}", other),
    }
}

#[test]
fn blank_line_is_refused() {
    match parse_text("Q: x\n\nA: 1\n") {
        Err(ParseError::Line(error)) => assert_eq!(error.line, ""),
        other => panic!("{:?}", other),
    }
}

#[test]
fn first_refusal_wins() {
    match parse_text("A: 1\nQ: x\nQ: y\nnonsense\n") {
        Err(ParseError::QuestionlessAnswer(error)) => assert_eq!(error.line_num, 1),
        other => panic!("{:?}", other),
    }
    match parse_text("nonsense\nA: 1\n") {
        Err(ParseError::Line(error)) => assert_eq!(error.line, "nonsense"),
        other => panic!("{:?}", other),
    }
}

#[test]
fn line_numbers_count_every_line() {
    match parse_text("#: one\n#: two\nQ: x\n#: four\nA: 1\n#: six\nA: 2\n") {
        Err(ParseError::QuestionlessAnswer(error)) => {
            assert_eq!(error.line_num, 7);
            assert_eq!(error.line, "A: 2");
        }
        other => panic!("{:?}", other),
    }
}

#[test]
fn second_answer_to_one_question_is_refused() {
    match parse_text("Q: x\nA: 1\nA: 2\n") {
        Err(ParseError::QuestionlessAnswer(error)) => assert_eq!(error.line_num, 3),
        other => panic!("{:?}", other),
    }
}

#[test]
fn question_left_waiting_at_the_end_is_dropped() {
    let file = parse_text("Q: x\nA: 1\nQ: y\n").unwrap();
    assert_eq!(file.entries.len(), 1);
    assert_eq!(file.entries[0].0.prompt, "x");
    let file = parse_text("Q: alone\n").unwrap();
    assert!(file.entries.is_empty());
}

#[test]
fn no_lines_give_an_empty_deck() {
    let file = QuestionFile::parse(&Vec::new()).unwrap();
    assert!(file.entries.is_empty());
    assert!(file.comments.is_empty());
    assert_eq!(file.comment_string(), "");
}

#[test]
fn comments_keep_file_order_among_questions_and_answers() {
    let file = parse_text("#: first\nQ: x\n#: second\nA: 1\n#: third\nQ: y\nA: 2, two\n#: fourth\n")
        .unwrap();
    assert_eq!(file.comments, vec!["first", "second", "third", "fourth"]);
    assert_eq!(file.entries.len(), 2);
    assert_eq!(file.entries[0].0.prompt, "x");
    assert_eq!(file.entries[0].1.correct, vec!["1"]);
    assert_eq!(file.entries[1].0.prompt, "y");
    assert_eq!(file.entries[1].1.correct, vec!["2", "two"]);
    assert_eq!(file.comment_string(), "first\nsecond\nthird\nfourth");
}

#[test]
fn comments_are_the_same_with_and_without_the_pairs() {
    let with_pairs = parse_text("#: a\nQ: x\n#: b\nA: 1\n#: c\n").unwrap();
    let alone = parse_text("#: a\n#: b\n#: c\n").unwrap();
    assert_eq!(with_pairs.comments, alone.comments);
}

#[test]
fn header_of_one_comment_has_no_line_break() {
    let file = parse_text("#: only\n").unwrap();
    assert_eq!(file.comment_string(), "only");
}

#[test]
fn header_keeps_empty_comments() {
    let file = QuestionFile::parse(&vec!["#: ", "#: x", "#: "]).unwrap();
    assert_eq!(file.comment_string(), "\nx\n");
}

#[test]
fn lines_are_taken_as_they_are_handed_over() {
    match QuestionFile::parse(&vec!["  Q: x"]) {
        Err(ParseError::Line(error)) => assert_eq!(error.line, "  Q: x"),
        other => panic!("{:?}", other),
    }
    let file = QuestionFile::parse(&vec!["Q: x  ", "A: 1 , 2  "]).unwrap();
    assert_eq!(file.entries[0].0.prompt, "x  ");
    assert_eq!(file.entries[0].1.correct, vec!["1 ", "2  "]);
}

#[test]
fn evaluation_is_exact_membership() {
    let answer = Answer { correct: vec!["4".to_string(), "four".to_string()] };
    assert_eq!(answer.evaluate("4".to_string()), Correctness::Correct);
    assert_eq!(answer.evaluate("four".to_string()), Correctness::Correct);
    assert_eq!(answer.evaluate("5".to_string()), Correctness::Incorrect);
}

#[test]
fn evaluation_does_not_fold_case_or_trim() {
    let answer = Answer { correct: vec!["Paris".to_string()] };
    assert_eq!(answer.evaluate("paris".to_string()), Correctness::Incorrect);
    assert_eq!(answer.evaluate(" Paris".to_string()), Correctness::Incorrect);
    assert_eq!(answer.evaluate("Paris ".to_string()), Correctness::Incorrect);
    assert_eq!(answer.evaluate("".to_string()), Correctness::Incorrect);
}

#[test]
fn evaluation_against_no_answers_is_incorrect() {
    let answer = Answer { correct: Vec::new() };
    assert_eq!(answer.evaluate("".to_string()), Correctness::Incorrect);
}

#[test]
fn evaluation_accepts_an_answer_added_later() {
    let mut file = parse_text("Q: 2+2\nA: 4\n").unwrap();
    assert_eq!(file.entries[0].1.evaluate("IV".to_string()), Correctness::Incorrect);
    file.entries[0].1.correct.push("IV".to_string());
    assert_eq!(file.entries[0].1.evaluate("IV".to_string()), Correctness::Correct);
}

fn numbered_deck(size: usize) -> QuestionFile {
    let mut entries = Vec::new();
    for number in 0..size {
        entries.push((
            Question { prompt: format!("q{}", number) },
            Answer { correct: vec![format!("a{}", number)] },
        ));
    }
    QuestionFile { comments: vec!["header".to_string()], entries }
}

fn pairs_of(file: &QuestionFile) -> Vec<(String, Vec<String>)> {
    file.entries.iter().map(|entry| (entry.0.prompt.clone(), entry.1.correct.clone())).collect()
}

#[test]
fn shuffling_keeps_every_entry_and_the_comments() {
    let mut file = numbered_deck(60);
    let mut before = pairs_of(&file);
    file.shuffle_entries();
    let mut after = pairs_of(&file);
    assert_eq!(file.comments, vec!["header"]);
    assert_eq!(after.len(), 60);
    before.sort();
    after.sort();
    assert_eq!(before, after);
}

#[test]
fn shuffling_changes_the_order_of_a_large_deck() {
    let mut file = numbered_deck(200);
    let before = pairs_of(&file);
    file.shuffle_entries();
    assert_ne!(pairs_of(&file), before);
}

#[test]
fn shuffling_an_empty_deck_leaves_it_empty() {
    let mut file = numbered_deck(0);
    file.shuffle_entries();
    assert!(file.entries.is_empty());
    let mut file = numbered_deck(1);
    file.shuffle_entries();
    assert_eq!(pairs_of(&file), pairs_of(&numbered_deck(1)));
}
