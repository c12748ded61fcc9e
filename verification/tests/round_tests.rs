use wordle::engine::{colour_guess, letter_counts};
use wordle::game::RoundResult;
use wordle::stats::{update_stats, GameStats};

fn chars(s: &str) -> Vec<char> {
    s.chars().collect()
}

#[test]
fn colour_guess_matches_wordle_rules() {
    assert_eq!(colour_guess(&chars("crane"), &chars("react")), chars("YYGRY"));
    assert_eq!(colour_guess(&chars("eerie"), &chars("there")), chars("YRYRG"));
    assert_eq!(colour_guess(&chars("speed"), &chars("abide")), chars("RRYRY"));
    assert_eq!(colour_guess(&chars("llama"), &chars("hello")), chars("YYRRR"));
    assert_eq!(colour_guess(&chars("hello"), &chars("hello")), chars("GGGGG"));
}

#[test]
fn found_letters_are_at_most_common_count() {
    let status = colour_guess(&chars("aaaaa"), &chars("abaca"));
    assert_eq!(status, chars("GRGRG"));
    let status2 = colour_guess(&chars("bbbaa"), &chars("aabbc"));
    assert_eq!(status2.iter().filter(|c| **c != 'R').count(), 4);
}

#[test]
fn letter_counts_of_answer() {
    let c = letter_counts(&chars("hello"));
    assert_eq!(c.len(), 26);
    assert_eq!(c[11], 2);
    assert_eq!(c[7], 1);
    assert_eq!(c[0], 0);
}

#[test]
fn update_stats_counts_round() {
    let mut stats = GameStats::default();
    let won = RoundResult { success: true, guess_count: 2, guesses: vec!["slate".to_string(), "crane".to_string()] };
    update_stats(&mut stats, &won);
    let lost = RoundResult { success: false, guess_count: 1, guesses: vec!["slate".to_string()] };
    update_stats(&mut stats, &lost);
    assert_eq!(stats.total_game_cnt, 2);
    assert_eq!(stats.success_game_cnt, 1);
    assert_eq!(stats.total_success_guess_try, 2);
    assert_eq!(stats.guess_frequency.get("slate"), Some(2));
    assert_eq!(stats.guess_frequency.get("crane"), Some(1));
}

use wordle::engine::{judge_guess, GuessVerdict};

fn words(list: &[&str]) -> Vec<String> {
    list.iter().map(|s| s.to_string()).collect()
}

#[test]
fn judge_refuses_unplayable_guesses() {
    let acc = words(&["crane", "slate", "react"]);
    let answer = chars("react");
    let none = vec!['X'; 5];
    let blank = vec!['a'; 5];
    assert!(matches!(judge_guess(&"zzzzz".to_string(), &answer, &acc, false, 0, &none, &blank), GuessVerdict::Invalid));
    assert!(matches!(judge_guess(&"Crane".to_string(), &answer, &acc, false, 0, &none, &blank), GuessVerdict::Invalid));
    assert!(matches!(judge_guess(&"cran".to_string(), &answer, &acc, false, 0, &none, &blank), GuessVerdict::Invalid));
}

#[test]
fn judge_colours_and_solves() {
    let acc = words(&["crane", "slate", "react"]);
    let answer = chars("react");
    let none = vec!['X'; 5];
    let blank = vec!['a'; 5];
    match judge_guess(&"crane".to_string(), &answer, &acc, false, 0, &none, &blank) {
        GuessVerdict::Accepted { status, solved } => {
            assert_eq!(status, chars("YYGRY"));
            assert!(!solved);
        }
        GuessVerdict::Invalid => panic!("crane should be playable"),
    }
    match judge_guess(&"react".to_string(), &answer, &acc, false, 1, &chars("YYGRY"), &chars("crane")) {
        GuessVerdict::Accepted { status, solved } => {
            assert_eq!(status, chars("GGGGG"));
            assert!(solved);
        }
        GuessVerdict::Invalid => panic!("react should be playable"),
    }
}

#[test]
fn judge_applies_hard_mode() {
    let acc = words(&["crane", "slate", "react"]);
    let answer = chars("react");
    let r = judge_guess(&"slate".to_string(), &answer, &acc, true, 1, &chars("YYGRY"), &chars("crane"));
    assert!(matches!(r, GuessVerdict::Invalid));
    let easy = judge_guess(&"slate".to_string(), &answer, &acc, false, 1, &chars("YYGRY"), &chars("crane"));
    assert!(matches!(easy, GuessVerdict::Accepted { .. }));
}

use wordle::game::{another_round, new_round, play_guess, round_summary, GuessOutcome};

fn scores() -> Vec<(char, i32)> {
    vec![('G', 10), ('Y', 5), ('R', 2), ('X', 1)]
}

fn status_of(outcome: &GuessOutcome) -> Option<&Vec<char>> {
    match outcome {
        GuessOutcome::Invalid => None,
        GuessOutcome::Continue(s) | GuessOutcome::Solved(s) | GuessOutcome::OutOfGuesses(s) => Some(s),
    }
}

#[test]
fn new_round_starts_blank() {
    let round = new_round();
    assert_eq!(round.guess_count, 0);
    assert!(round.guesses.is_empty());
    assert_eq!(round.keyboard, vec!['X'; 26]);
    assert_eq!(round.last_status, vec!['X'; 5]);
    assert_eq!(round.last_word, chars("aaaaa"));
}

#[test]
fn play_guess_refuses_and_keeps_the_round() {
    let acc = words(&["crane", "slate", "react"]);
    let answer = chars("react");
    let mut round = new_round();
    let out = play_guess(&mut round, "zzzzz".to_string(), &answer, &acc, false, &scores());
    assert!(matches!(out, GuessOutcome::Invalid));
    assert_eq!(round.guess_count, 0);
    assert!(round.guesses.is_empty());
    assert_eq!(round.keyboard, vec!['X'; 26]);
}

#[test]
fn play_guess_colours_and_lights_keyboard() {
    let acc = words(&["crane", "slate", "react"]);
    let answer = chars("react");
    let mut round = new_round();
    let out = play_guess(&mut round, "crane".to_string(), &answer, &acc, false, &scores());
    assert!(matches!(out, GuessOutcome::Continue(_)));
    assert_eq!(status_of(&out), Some(&chars("YYGRY")));
    assert_eq!(round.guess_count, 1);
    assert_eq!(round.guesses, words(&["crane"]));
    assert_eq!(round.last_status, chars("YYGRY"));
    assert_eq!(round.last_word, chars("crane"));
    assert_eq!(round.keyboard[0], 'G');
    assert_eq!(round.keyboard[2], 'Y');
    assert_eq!(round.keyboard[13], 'R');
    assert_eq!(round.keyboard[1], 'X');
    let won = play_guess(&mut round, "react".to_string(), &answer, &acc, false, &scores());
    assert!(matches!(won, GuessOutcome::Solved(_)));
    assert_eq!(status_of(&won), Some(&chars("GGGGG")));
    assert_eq!(round.guess_count, 2);
}

#[test]
fn play_guess_hard_mode_refuses_dropping_found_letters() {
    let acc = words(&["crane", "slate", "react"]);
    let answer = chars("react");
    let mut round = new_round();
    play_guess(&mut round, "crane".to_string(), &answer, &acc, true, &scores());
    let out = play_guess(&mut round, "slate".to_string(), &answer, &acc, true, &scores());
    assert!(matches!(out, GuessOutcome::Invalid));
    assert_eq!(round.guess_count, 1);
}

#[test]
fn play_guess_sixth_miss_ends_the_round() {
    let acc = words(&["crane", "slate", "react"]);
    let answer = chars("react");
    let mut round = new_round();
    for _ in 0..5 {
        let out = play_guess(&mut round, "slate".to_string(), &answer, &acc, false, &scores());
        assert!(matches!(out, GuessOutcome::Continue(_)));
    }
    let last = play_guess(&mut round, "slate".to_string(), &answer, &acc, false, &scores());
    assert!(matches!(last, GuessOutcome::OutOfGuesses(_)));
    assert_eq!(round.guess_count, 6);
    assert_eq!(round.guesses.len(), 6);
}

#[test]
fn round_summary_lines() {
    let won = RoundResult { success: true, guess_count: 3, guesses: words(&["slate", "crane", "react"]) };
    assert_eq!(round_summary(&"react".to_string(), &won), "CORRECT 3");
    let lost = RoundResult { success: false, guess_count: 6, guesses: vec![] };
    assert_eq!(round_summary(&"react".to_string(), &lost), "FAILED REACT");
    let odd = RoundResult { success: true, guess_count: -12, guesses: vec![] };
    assert_eq!(round_summary(&"react".to_string(), &odd), "CORRECT -12");
}

#[test]
fn another_round_unless_n() {
    assert!(another_round(Some("Y\n")));
    assert!(another_round(Some("\n")));
    assert!(another_round(Some("n\n")));
    assert!(!another_round(Some(" N \n")));
    assert!(!another_round(None));
}
