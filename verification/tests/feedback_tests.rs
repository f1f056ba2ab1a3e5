use wordle_solvrs::feedback::Feedback;
use wordle_solvrs::feedback::is_all_green;
use wordle_solvrs::feedback::parse_feedback;
use wordle_solvrs::oracle::generate_feedback;

#[test]
fn from_char_recognizes_the_three_symbols() {
    assert_eq!(Feedback::from_char('g'), Some(Feedback::Green));
    assert_eq!(Feedback::from_char('y'), Some(Feedback::Yellow));
    assert_eq!(Feedback::from_char('b'), Some(Feedback::Gray));
}

#[test]
fn from_char_is_case_insensitive() {
    assert_eq!(Feedback::from_char('G'), Some(Feedback::Green));
    assert_eq!(Feedback::from_char('Y'), Some(Feedback::Yellow));
    assert_eq!(Feedback::from_char('B'), Some(Feedback::Gray));
}

#[test]
fn from_char_rejects_everything_else() {
    assert_eq!(Feedback::from_char('x'), None);
    assert_eq!(Feedback::from_char('1'), None);
    assert_eq!(Feedback::from_char(' '), None);
    assert_eq!(Feedback::from_char(','), None);
}

#[test]
fn parse_feedback_accepts_a_clean_line() {
    let fb = parse_feedback("gybGG").unwrap();
    assert_eq!(
        fb,
        vec![
            Feedback::Green,
            Feedback::Yellow,
            Feedback::Gray,
            Feedback::Green,
            Feedback::Green
        ]
    );
}

#[test]
fn parse_feedback_rejects_wrong_length_and_bad_symbols() {
    assert!(parse_feedback("gybg").is_none());
    assert!(parse_feedback("gybggg").is_none());
    assert!(parse_feedback("gyxgg").is_none());
    assert!(parse_feedback("").is_none());
}

#[test]
fn all_green_detection() {
    let solved = vec![Feedback::Green; 5];
    assert!(is_all_green(&solved));
    let mut not_solved = vec![Feedback::Green; 5];
    not_solved[3] = Feedback::Yellow;
    assert!(!is_all_green(&not_solved));
}

#[test]
fn oracle_marks_an_exact_guess_all_green() {
    let fb = generate_feedback("reads", "reads");
    assert_eq!(fb, vec![Feedback::Green; 5]);
}

#[test]
fn oracle_consumes_repeated_letters_once_each() {
    // guess "allee" against answer "eagle": the second 'l' and the extra 'e'
    // must not be credited beyond the answer's true occurrence counts
    let fb = generate_feedback("allee", "eagle");
    assert_eq!(
        fb,
        vec![
            Feedback::Yellow,
            Feedback::Yellow,
            Feedback::Gray,
            Feedback::Yellow,
            Feedback::Green
        ]
    );
}

#[test]
fn oracle_marks_absent_letters_gray() {
    let fb = generate_feedback("crane", "trace");
    assert_eq!(
        fb,
        vec![
            Feedback::Yellow,
            Feedback::Green,
            Feedback::Green,
            Feedback::Gray,
            Feedback::Green
        ]
    );
}
