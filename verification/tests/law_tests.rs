use wordle::engine::update_keyboard_status;
use wordle::game::RoundResult;
use wordle::json::Json;
use wordle::stats::{count_words, GameStats, WordFreq};
use wordle::text::trim;
use wordle::utilities::{round_fits_check, state_fits_check, top_n_keys};

fn chars(s: &str) -> Vec<char> {
    s.chars().collect()
}

fn v(list: &[&str]) -> Vec<String> {
    list.iter().map(|s| s.to_string()).collect()
}

#[test]
fn trim_matches_str_trim() {
    for text in [
        "  crane \n",
        "\t\u{a0}slate\u{3000}",
        "\u{2009}x y\u{205f}",
        "   ",
        "",
        "no-space",
        "\u{200b}zero-width\u{200b}",
        "\u{85}\u{1680}a\u{2028}\u{2029}\u{202f}",
    ] {
        assert_eq!(trim(text), text.trim());
    }
}

#[test]
fn keyboard_second_update_changes_nothing() {
    let scores = vec![('G', 10), ('Y', 5), ('R', 2), ('X', 1)];
    let mut keyboard = vec!['X'; 26];
    update_keyboard_status(&mut keyboard, &chars("GRYYR"), &chars("eerie"), &scores);
    let once = keyboard.clone();
    update_keyboard_status(&mut keyboard, &chars("GRYYR"), &chars("eerie"), &scores);
    assert_eq!(keyboard, once);
}

fn freq(list: &[(&str, usize)]) -> WordFreq {
    let mut f = WordFreq::new();
    for (w, n) in list {
        for _ in 0..*n {
            f.add_one(w.to_string());
        }
    }
    f
}

#[test]
fn top_keys_grow_by_prefix_and_ignore_order() {
    let a = freq(&[("slate", 2), ("crane", 3), ("adieu", 2), ("pious", 1)]);
    let b = freq(&[("pious", 1), ("adieu", 2), ("slate", 2), ("crane", 3)]);
    for n in 0..6 {
        let small = top_n_keys(&a, n);
        let big = top_n_keys(&a, n + 1);
        assert_eq!(small[..], big[..small.len()]);
        assert_eq!(top_n_keys(&a, n), top_n_keys(&b, n));
    }
    assert_eq!(top_n_keys(&a, 4), top_n_keys(&a, 9));
}

#[test]
fn count_words_adds_each_word() {
    let mut f = freq(&[("crane", 1)]);
    count_words(&mut f, &v(&["crane", "slate", "crane"]));
    assert_eq!(f.get("crane"), Some(3));
    assert_eq!(f.get("slate"), Some(1));
}

#[test]
fn fits_checks() {
    let stats = GameStats::default();
    let state = Json::Object(vec![(
        "games".to_string(),
        Json::Array(vec![Json::Object(vec![
            ("answer".to_string(), Json::Str("crane".to_string())),
            ("guesses".to_string(), Json::Array(vec![Json::Str("crane".to_string())])),
        ])]),
    )]);
    assert!(state_fits_check(&stats, &state));
    assert!(state_fits_check(&stats, &Json::Null));
    let round = RoundResult { success: true, guess_count: 1, guesses: v(&["crane"]) };
    assert!(round_fits_check(&stats, &round));
    let mut full = GameStats::default();
    full.total_game_cnt = u64::MAX;
    assert!(!round_fits_check(&full, &round));
    let bad = RoundResult { success: true, guess_count: -1, guesses: v(&[]) };
    assert!(!round_fits_check(&stats, &bad));
    let mut big = GameStats::default();
    big.guess_frequency = freq(&[("crane", 1)]);
    big.success_game_cnt = u64::MAX;
    assert!(!state_fits_check(&big, &state));
}
