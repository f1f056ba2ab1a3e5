use wordle_solvrs::engine::RoundResult;
use wordle_solvrs::engine::Session;
use wordle_solvrs::feedback::Feedback;
use wordle_solvrs::filter::filter_candidates;
use wordle_solvrs::history::load_state;
use wordle_solvrs::oracle::generate_feedback;
use wordle_solvrs::select::select_guess;
use wordle_solvrs::state::apply_feedback;
use wordle_solvrs::state::ConstraintState;
use wordle_solvrs::words::filter_by_length;

fn dict(words: &[&str]) -> Vec<String> {
    words.iter().map(|w| w.to_string()).collect()
}

#[test]
fn filter_keeps_dictionary_order() {
    let words = dict(&["crane", "slate", "trace", "brace", "crate"]);
    let mut state = ConstraintState::new();
    // only the fixed letter 'e' at the last position
    state.green[4] = Some('e');
    let kept = filter_candidates(&words, &state);
    assert_eq!(kept, dict(&["crane", "slate", "trace", "brace", "crate"]));
    // exclude 's' and 'b': the survivors keep their relative order
    state.gray.push('s');
    state.gray.push('b');
    let kept = filter_candidates(&words, &state);
    assert_eq!(kept, dict(&["crane", "trace", "crate"]));
}

#[test]
fn filter_enforces_misplaced_letters() {
    let words = dict(&["crane", "slate", "trace", "brace"]);
    let mut state = ConstraintState::new();
    // 'c' is in the word but not at position 0
    state.yellow.push(('c', 0));
    let kept = filter_candidates(&words, &state);
    assert_eq!(kept, dict(&["trace", "brace"]));
}

#[test]
fn end_to_end_crane_against_trace() {
    let words = dict(&["crane", "slate", "trace", "brace"]);
    let fb = generate_feedback("crane", "trace");
    let mut state = ConstraintState::new();
    apply_feedback("crane", &fb, &mut state);
    let kept = filter_candidates(&words, &state);
    // "brace" also satisfies every accumulated constraint: 'r', 'a', 'e'
    // stand fixed, 'c' occurs away from position 0, and it has no 'n'
    assert_eq!(kept, dict(&["trace", "brace"]));
    // a second round on "brace" against "trace" pins the answer down
    let fb2 = generate_feedback("brace", "trace");
    apply_feedback("brace", &fb2, &mut state);
    let kept2 = filter_candidates(&words, &state);
    assert_eq!(kept2, dict(&["trace"]));
}

#[test]
fn minimum_count_retains_only_words_with_enough_occurrences() {
    // a round on "eerie" where two 'e's are credited records a minimum of 2
    let fb = vec![
        Feedback::Green,
        Feedback::Yellow,
        Feedback::Gray,
        Feedback::Gray,
        Feedback::Gray,
    ];
    let mut state = ConstraintState::new();
    apply_feedback("eerie", &fb, &mut state);
    assert!(state.min_counts.contains(&('e', 2)));
    let words = dict(&["eagle", "melee", "crane", "tepee", "slate"]);
    let mut min_state = ConstraintState::new();
    min_state.min_counts.push(('e', 2));
    let kept = filter_candidates(&words, &min_state);
    assert_eq!(kept, dict(&["eagle", "melee", "tepee"]));
}

#[test]
fn applying_the_same_feedback_twice_filters_the_same() {
    let words = dict(&["crane", "slate", "trace", "brace", "crate"]);
    let fb = generate_feedback("crane", "trace");
    let mut once = ConstraintState::new();
    apply_feedback("crane", &fb, &mut once);
    let mut twice = ConstraintState::new();
    apply_feedback("crane", &fb, &mut twice);
    apply_feedback("crane", &fb, &mut twice);
    assert_eq!(filter_candidates(&words, &once), filter_candidates(&words, &twice));
}

#[test]
fn selector_rewards_distinct_letters_and_vowels() {
    let words = dict(&["aaaaa", "abcde", "audio"]);
    let (guess, seen) = select_guess(&words).unwrap();
    assert_eq!(guess.as_str(), "audio");
    assert_eq!(seen, 3);
}

#[test]
fn selector_breaks_ties_by_first_occurrence() {
    // anagrams score identically, so the first one must win
    let words = dict(&["least", "slate", "stale"]);
    let (guess, _) = select_guess(&words).unwrap();
    assert_eq!(guess.as_str(), "least");
}

#[test]
fn selector_is_deterministic() {
    let words = dict(&["crane", "slate", "trace"]);
    let first = select_guess(&words).unwrap();
    let second = select_guess(&words).unwrap();
    assert_eq!(first, second);
}

#[test]
fn selector_reports_no_candidates_on_an_empty_list() {
    let words: Vec<String> = Vec::new();
    assert!(select_guess(&words).is_none());
}

#[test]
fn load_state_replays_a_history() {
    let mut replayed = ConstraintState::new();
    let mut remaining: usize = 6;
    let (applied, skipped) = load_state(
        "slateybbbb, pastsgbbbg",
        &mut replayed,
        &mut remaining,
    );
    assert_eq!(applied, 2);
    assert_eq!(skipped, 0);
    assert_eq!(remaining, 4);

    let mut direct = ConstraintState::new();
    apply_feedback(
        "slate",
        &vec![
            Feedback::Yellow,
            Feedback::Gray,
            Feedback::Gray,
            Feedback::Gray,
            Feedback::Gray,
        ],
        &mut direct,
    );
    apply_feedback(
        "pasts",
        &vec![
            Feedback::Green,
            Feedback::Gray,
            Feedback::Gray,
            Feedback::Gray,
            Feedback::Green,
        ],
        &mut direct,
    );
    assert_eq!(replayed.green, direct.green);
    assert_eq!(replayed.yellow, direct.yellow);
    assert_eq!(replayed.gray, direct.gray);
    assert_eq!(replayed.min_counts, direct.min_counts);
}

#[test]
fn load_state_skips_malformed_entries() {
    let mut state = ConstraintState::new();
    let mut remaining: usize = 6;
    let (applied, skipped) = load_state(
        "abc,slateybbbb,crateyyxyy,pastsgbbbg99",
        &mut state,
        &mut remaining,
    );
    assert_eq!(applied, 1);
    assert_eq!(skipped, 3);
    assert_eq!(remaining, 5);
}

#[test]
fn load_state_floors_the_budget_at_zero() {
    let mut state = ConstraintState::new();
    let mut remaining: usize = 1;
    let (applied, _) = load_state("slateybbbb,pastsgbbbg", &mut state, &mut remaining);
    assert_eq!(applied, 2);
    assert_eq!(remaining, 0);
}

#[test]
fn session_uses_the_opening_word_verbatim() {
    let words = dict(&["crane", "slate", "trace"]);
    let session = Session::new(6);
    let (guess, seen) = session.next_guess(&words, &"slate".to_string()).unwrap();
    assert_eq!(guess.as_str(), "slate");
    assert_eq!(seen, 3);
}

#[test]
fn session_solves_on_all_green() {
    let mut session = Session::new(6);
    let fb = vec![Feedback::Green; 5];
    assert_eq!(session.record_feedback("trace", &fb), RoundResult::Solved);
    assert_eq!(session.remaining, 6);
    assert_eq!(session.guesses_made, 1);
}

#[test]
fn session_exhausts_when_the_budget_runs_out() {
    let mut session = Session::new(1);
    let fb = generate_feedback("crane", "trace");
    assert_eq!(session.record_feedback("crane", &fb), RoundResult::Exhausted);
    assert_eq!(session.remaining, 0);
}

#[test]
fn session_continues_while_budget_is_left() {
    let words = dict(&["crane", "slate", "trace", "brace"]);
    let mut session = Session::new(6);
    let fb = generate_feedback("crane", "trace");
    assert_eq!(session.record_feedback("crane", &fb), RoundResult::Continue);
    assert_eq!(session.remaining, 5);
    // "trace" and "brace" both survive and tie on score: the earlier one wins
    let next = session.next_guess(&words, &"crane".to_string()).unwrap();
    assert_eq!(next.0.as_str(), "trace");
    assert_eq!(next.1, 2);
}

#[test]
fn excluded_letter_with_a_minimum_count_is_only_lower_bounded() {
    // a letter can be reported absent for its excess occurrence in one round
    // and still carry a minimum count from another: such a letter bans
    // nothing, it only demands its minimum
    let words = dict(&["eagle", "crane", "sting", "melee"]);
    let mut state = ConstraintState::new();
    state.gray.push('e');
    state.min_counts.push(('e', 1));
    let kept = filter_candidates(&words, &state);
    assert_eq!(kept, dict(&["eagle", "crane", "melee"]));
    // without the minimum, the exclusion bans the letter outright
    let mut banned = ConstraintState::new();
    banned.gray.push('e');
    let kept = filter_candidates(&words, &banned);
    assert_eq!(kept, dict(&["sting"]));
}

#[test]
fn load_state_on_an_empty_text_applies_nothing() {
    let mut state = ConstraintState::new();
    let mut remaining: usize = 6;
    let (applied, skipped) = load_state("", &mut state, &mut remaining);
    assert_eq!(applied, 0);
    assert_eq!(skipped, 1);
    assert_eq!(remaining, 6);
    assert_eq!(state.green, vec![None; 5]);
    assert!(state.yellow.is_empty());
    assert!(state.gray.is_empty());
    assert!(state.min_counts.is_empty());
}

#[test]
fn dictionary_filter_keeps_only_fixed_length_words() {
    let lines = dict(&["crane", "to", "slated", "trace", ""]);
    let kept = filter_by_length(&lines, 5);
    assert_eq!(kept, dict(&["crane", "trace"]));
}
