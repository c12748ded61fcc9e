use rand::seq::SliceRandom;
use rand::SeedableRng;
use wordle::game::{next_answer, shuffle_words, AnswerError};
use wordle::config::GameConfig;
use wordle::stats::{GameStats, WordFreq};
use wordle::text::{decimal, parse_decimal, str_less};
use wordle::utilities::{check_final_accept_cohe, top_n_keys, word_frequency_line, WordListError};
use wordle::words::{get_strings, parse_word_list, sort_words, split_lines};

fn v(list: &[&str]) -> Vec<String> {
    list.iter().map(|s| s.to_string()).collect()
}

#[test]
fn lines_split_like_str_lines() {
    assert_eq!(split_lines("a\nb\r\nc"), v(&["a", "b", "c"]));
    assert_eq!(split_lines("a\n\nb\n"), v(&["a", "", "b"]));
    assert_eq!(split_lines(""), v(&[]));
    assert_eq!(split_lines("\n"), v(&[""]));
    assert_eq!(split_lines("x\ry\r"), v(&["x\ry\r"]));
    for text in ["one\r\ntwo\n", "a\rb\n\r\n", "\r\n\r\n", "z"] {
        let expected: Vec<String> = text.lines().map(|l| l.to_string()).collect();
        assert_eq!(split_lines(text), expected);
    }
}

#[test]
fn word_list_lines_are_trimmed_and_lower_case() {
    assert_eq!(parse_word_list("  Apple \r\nBANANA\n\ncherry"), v(&["apple", "banana", "", "cherry"]));
}

#[test]
fn sort_orders_like_string_sort() {
    let input = v(&["pear", "apple", "Zebra", "app", "apple", "éclair"]);
    let mut expected = input.clone();
    expected.sort();
    assert_eq!(sort_words(input), expected);
}

#[test]
fn get_strings_reads_file_words_sorted() {
    let mut words = Vec::new();
    get_strings(&mut words, &"list.txt".to_string(), &["zzz"], v(&["cider", "apple", "brine"]));
    assert_eq!(words, v(&["apple", "brine", "cider"]));
}

#[test]
fn get_strings_uses_builtin_list() {
    let mut words = v(&["old"]);
    get_strings(&mut words, &String::new(), &["tiger", "apple"], v(&["ignored"]));
    assert_eq!(words, v(&["tiger", "apple"]));
}

#[test]
fn final_must_be_within_acceptable() {
    assert_eq!(check_final_accept_cohe(&v(&["apple"]), &v(&["pear", "apple"])), Ok(()));
    assert_eq!(check_final_accept_cohe(&v(&[]), &v(&[])), Ok(()));
    assert_eq!(check_final_accept_cohe(&v(&["apple", "plum"]), &v(&["apple"])), Err(WordListError::FinalNotSubset));
    assert_eq!(WordListError::FinalNotSubset.message(), "Error! FINAL is not a subset of ACCEPTABLE!");
}

fn freq(list: &[(&str, usize)]) -> WordFreq {
    let mut f = WordFreq::new();
    for (w, n) in list {
        for _ in 0..*n {
            f.add_one(w.to_string());
        }
    }
    f
}

#[test]
fn top_keys_by_count_then_text() {
    let f = freq(&[("slate", 2), ("crane", 3), ("adieu", 2), ("pious", 1)]);
    assert_eq!(top_n_keys(&f, 3), v(&["crane", "adieu", "slate"]));
    assert_eq!(top_n_keys(&f, 10), v(&["crane", "adieu", "slate", "pious"]));
    assert_eq!(top_n_keys(&f, 0), v(&[]));
}

#[test]
fn frequency_line_shows_top_five() {
    let mut stats = GameStats::default();
    stats.guess_frequency = freq(&[("slate", 2), ("crane", 3), ("adieu", 2), ("pious", 1), ("zebra", 1), ("about", 1)]);
    assert_eq!(word_frequency_line(&stats), "CRANE 3 ADIEU 2 SLATE 2 ABOUT 1 PIOUS 1");
    assert_eq!(word_frequency_line(&GameStats::default()), "");
}

#[test]
fn next_answer_random_mode_walks_days() {
    let words = v(&["apple", "pear"]);
    let mut config = GameConfig::default();
    config.random = true;
    assert_eq!(next_answer(&mut config, &words, None), Ok(Some("apple".to_string())));
    assert_eq!(config.day, 2);
    assert_eq!(next_answer(&mut config, &words, None), Ok(Some("pear".to_string())));
    assert_eq!(next_answer(&mut config, &words, None), Err(AnswerError::DayOutOfRange));
    config.day = 0;
    assert_eq!(next_answer(&mut config, &words, None), Err(AnswerError::DayOutOfRange));
    assert_eq!(AnswerError::DayOutOfRange.message(), "Error! day out of range");
}

#[test]
fn next_answer_word_and_input() {
    let mut config = GameConfig::default();
    config.has_word_arg = true;
    config.word = "  CrAnE\n".to_string();
    assert_eq!(next_answer(&mut config, &vec![], None), Ok(Some("crane".to_string())));
    let mut config2 = GameConfig::default();
    assert_eq!(next_answer(&mut config2, &vec![], Some(" SLATE \n".to_string())), Ok(Some("slate".to_string())));
    assert_eq!(next_answer(&mut config2, &vec![], None), Ok(None));
}

#[test]
fn shuffle_keeps_the_words() {
    let mut words = v(&["apple", "pear", "plum", "fig", "kiwi"]);
    shuffle_words(&mut words, 42);
    let mut again = v(&["apple", "pear", "plum", "fig", "kiwi"]);
    shuffle_words(&mut again, 42);
    assert_eq!(words, again);
    words.sort();
    assert_eq!(words, v(&["apple", "fig", "kiwi", "pear", "plum"]));
}

#[test]
fn shuffle_changes_the_order() {
    let original = v(&["a", "b", "c", "d", "e", "f", "g", "h", "i", "j", "k", "l"]);
    let mut words = original.clone();
    shuffle_words(&mut words, 7);
    assert_ne!(words, original);
    let mut other = original.clone();
    shuffle_words(&mut other, 8);
    assert_ne!(words, other);
}

#[test]
fn shuffle_is_the_seeded_rand_shuffle() {
    let original = v(&["apple", "pear", "plum", "fig", "kiwi", "lime", "date"]);
    let mut words = original.clone();
    shuffle_words(&mut words, 2022);
    let mut expected = original.clone();
    let mut rng = rand::rngs::StdRng::seed_from_u64(2022);
    expected.shuffle(&mut rng);
    assert_eq!(words, expected);
}

#[test]
fn decimal_numbers() {
    assert_eq!(parse_decimal("+12", 100), Some(12));
    assert_eq!(parse_decimal("101", 100), None);
    assert_eq!(parse_decimal("", 100), None);
    assert_eq!(parse_decimal("+", 100), None);
    assert_eq!(parse_decimal("1 ", 100), None);
    assert_eq!(parse_decimal("18446744073709551615", u64::MAX), Some(u64::MAX));
    assert_eq!(decimal(0), "0");
    assert_eq!(decimal(1234567890), "1234567890");
}

#[test]
fn text_order() {
    assert!(str_less("app", "apple"));
    assert!(!str_less("apple", "apple"));
    assert!(str_less("Zebra", "apple"));
    assert!(!str_less("b", "abc"));
}
