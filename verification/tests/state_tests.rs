use wordle::config::GameConfig;
use wordle::json::Json;
use wordle::state::{append_game_record, fresh_state, game_record, parse_states, StateError};
use wordle::stats::{GameStats, WordFreq};
use wordle::utilities::load_state_stats;

fn s(x: &str) -> String {
    x.to_string()
}

fn strs(list: &[&str]) -> Json {
    Json::Array(list.iter().map(|x| Json::Str(s(x))).collect())
}

fn game(answer: &str, guesses: &[&str]) -> Json {
    Json::Object(vec![(s("answer"), Json::Str(s(answer))), (s("guesses"), strs(guesses))])
}

fn state(games: Vec<Json>) -> Json {
    Json::Object(vec![(s("total_rounds"), Json::Number(s("2"))), (s("games"), Json::Array(games))])
}

fn config_with_state() -> GameConfig {
    let mut c = GameConfig::default();
    c.state = s("state.json");
    c
}

fn games_of(v: &Json) -> &Vec<Json> {
    match v {
        Json::Object(m) => match &m.iter().find(|(k, _)| k == "games").unwrap().1 {
            Json::Array(a) => a,
            _ => panic!("games is not an array"),
        },
        _ => panic!("state is not an object"),
    }
}

fn member<'a>(v: &'a Json, key: &str) -> &'a Json {
    match v {
        Json::Object(m) => &m.iter().find(|(k, _)| k == key).unwrap().1,
        _ => panic!("not an object"),
    }
}

#[test]
fn fresh_state_has_no_games() {
    let f = fresh_state();
    assert!(games_of(&f).is_empty());
    match member(&f, "total_rounds") {
        Json::Number(n) => assert_eq!(n, "0"),
        _ => panic!("total_rounds is not a number"),
    }
}

const SAVED: &str = r#"{"total_rounds":2,"games":[{"answer":"CRANE","guesses":["SLATE","CRANE"]}]}"#;

/// Whether the library's value and serde_json's value are the same JSON.
fn same_json(j: &Json, v: &serde_json::Value) -> bool {
    match (j, v) {
        (Json::Null, serde_json::Value::Null) => true,
        (Json::Bool(a), serde_json::Value::Bool(b)) => a == b,
        (Json::Number(a), serde_json::Value::Number(b)) => *a == b.to_string(),
        (Json::Str(a), serde_json::Value::String(b)) => a == b,
        (Json::Array(a), serde_json::Value::Array(b)) => {
            a.len() == b.len() && a.iter().zip(b.iter()).all(|(x, y)| same_json(x, y))
        }
        (Json::Object(a), serde_json::Value::Object(b)) => {
            a.len() == b.len() && a.iter().all(|(k, x)| b.get(k).map_or(false, |y| same_json(x, y)))
        }
        _ => false,
    }
}

#[test]
fn parse_states_without_state_file_is_fresh() {
    let c = GameConfig::default();
    let v = parse_states(&c, Some(SAVED)).unwrap();
    assert!(games_of(&v).is_empty());
    match member(&v, "total_rounds") {
        Json::Number(n) => assert_eq!(n, "0"),
        _ => panic!("total_rounds is not a number"),
    }
}

#[test]
fn parse_states_without_content_is_fresh() {
    let v = parse_states(&config_with_state(), None).unwrap();
    assert!(games_of(&v).is_empty());
}

#[test]
fn parse_states_empty_object_is_fresh() {
    let v = parse_states(&config_with_state(), Some(" { } ")).unwrap();
    assert!(games_of(&v).is_empty());
    match member(&v, "total_rounds") {
        Json::Number(n) => assert_eq!(n, "0"),
        _ => panic!("total_rounds is not a number"),
    }
}

#[test]
fn parse_states_keeps_loaded_content() {
    let v = parse_states(&config_with_state(), Some(SAVED)).unwrap();
    let games = games_of(&v);
    assert_eq!(games.len(), 1);
    match member(&games[0], "answer") {
        Json::Str(a) => assert_eq!(a, "CRANE"),
        _ => panic!("answer is not a string"),
    }
    match member(&v, "total_rounds") {
        Json::Number(n) => assert_eq!(n, "2"),
        _ => panic!("total_rounds is not a number"),
    }
}

#[test]
fn parse_states_gives_what_serde_json_parses() {
    let text = r#"{"total_rounds": 3, "games": [], "extra": [null, true, 1.5, "x", {"k": -2}]}"#;
    let v = parse_states(&config_with_state(), Some(text)).unwrap();
    let expected: serde_json::Value = serde_json::from_str(text).unwrap();
    assert!(same_json(&v, &expected));
}

#[test]
fn parse_states_keeps_a_value_that_is_not_an_object() {
    let v = parse_states(&config_with_state(), Some("[1, 2]")).unwrap();
    match v {
        Json::Array(items) => assert_eq!(items.len(), 2),
        _ => panic!("not the array"),
    }
}

#[test]
fn parse_states_refuses_invalid_json() {
    let r = parse_states(&config_with_state(), Some("{\"games\": ["));
    assert!(matches!(r, Err(StateError::InvalidJson)));
    assert_eq!(StateError::InvalidJson.message(), "Error! invalid state json");
}

#[test]
fn load_counts_games_and_guesses() {
    let mut st = state(vec![
        game("CRANE", &["SLATE", "CRANE"]),
        game("PIANO", &["SLATE", "CRANE", "PIOUS"]),
    ]);
    let mut stats = GameStats::default();
    assert_eq!(load_state_stats(&mut st, &config_with_state(), &mut stats), Ok(()));
    assert_eq!(stats.total_game_cnt, 2);
    assert_eq!(stats.success_game_cnt, 1);
    assert_eq!(stats.total_success_guess_try, 2);
    assert_eq!(stats.guess_frequency.get("slate"), Some(2));
    assert_eq!(stats.guess_frequency.get("crane"), Some(2));
    assert_eq!(stats.guess_frequency.get("pious"), Some(1));
    assert_eq!(stats.guess_frequency.get("piano"), None);
    assert_eq!(stats.guess_frequency.len(), 3);
}

#[test]
fn load_without_state_file_does_nothing() {
    let mut st = Json::Null;
    let mut stats = GameStats::default();
    assert_eq!(load_state_stats(&mut st, &GameConfig::default(), &mut stats), Ok(()));
    assert_eq!(stats.total_game_cnt, 0);
}

#[test]
fn load_errors() {
    let mut stats = GameStats::default();
    let mut bad_games = Json::Object(vec![(s("games"), Json::Null)]);
    assert_eq!(load_state_stats(&mut bad_games, &config_with_state(), &mut stats), Err(StateError::InvalidGames));
    let mut bad_answer = state(vec![Json::Object(vec![(s("guesses"), strs(&[]))])]);
    assert_eq!(load_state_stats(&mut bad_answer, &config_with_state(), &mut stats), Err(StateError::InvalidAnswer));
    let mut bad_guesses = state(vec![Json::Object(vec![(s("answer"), Json::Str(s("crane")))])]);
    assert_eq!(load_state_stats(&mut bad_guesses, &config_with_state(), &mut stats), Err(StateError::InvalidGuesses));
    let mut bad_guess = state(vec![Json::Object(vec![
        (s("answer"), Json::Str(s("crane"))),
        (s("guesses"), Json::Array(vec![Json::Str(s("slate")), Json::Bool(true)])),
    ])]);
    let mut stats2 = GameStats::default();
    assert_eq!(load_state_stats(&mut bad_guess, &config_with_state(), &mut stats2), Err(StateError::InvalidGuess));
    assert_eq!(stats2.guess_frequency.get("slate"), Some(1));
    assert_eq!(StateError::InvalidGuess.message(), "Error! invalid state guess");
}

#[test]
fn append_adds_record_and_rounds() {
    let mut st = fresh_state();
    let guesses = vec![s("slate"), s("crane")];
    assert_eq!(append_game_record(&mut st, "crane", &guesses), Ok(()));
    assert_eq!(append_game_record(&mut st, "piano", &vec![s("pious")]), Ok(()));
    let games = games_of(&st);
    assert_eq!(games.len(), 2);
    match member(&games[0], "answer") {
        Json::Str(a) => assert_eq!(a, "CRANE"),
        _ => panic!("answer is not a string"),
    }
    match member(&games[0], "guesses") {
        Json::Array(g) => match &g[1] {
            Json::Str(x) => assert_eq!(x, "CRANE"),
            _ => panic!("guess is not a string"),
        },
        _ => panic!("guesses is not an array"),
    }
    match member(&st, "total_rounds") {
        Json::Number(n) => assert_eq!(n, "2"),
        _ => panic!("total_rounds is not a number"),
    }
}

#[test]
fn append_adds_total_rounds_when_missing() {
    let mut st = Json::Object(vec![(s("games"), Json::Array(vec![])), (s("other"), Json::Bool(true))]);
    assert_eq!(append_game_record(&mut st, "crane", &vec![s("crane")]), Ok(()));
    match member(&st, "total_rounds") {
        Json::Number(n) => assert_eq!(n, "1"),
        _ => panic!("total_rounds is not a number"),
    }
    match member(&st, "other") {
        Json::Bool(b) => assert!(*b),
        _ => panic!("other member changed"),
    }
}

#[test]
fn append_refuses_state_without_games_array() {
    let mut st = Json::Object(vec![(s("games"), Json::Number(s("3")))]);
    assert_eq!(append_game_record(&mut st, "crane", &vec![]), Err(StateError::InvalidGames));
    let mut null = Json::Null;
    assert_eq!(append_game_record(&mut null, "crane", &vec![]), Err(StateError::InvalidGames));
}

#[test]
fn appended_game_is_loaded_back() {
    let mut st = fresh_state();
    append_game_record(&mut st, "crane", &vec![s("slate"), s("crane")]).unwrap();
    let mut stats = GameStats::default();
    assert_eq!(load_state_stats(&mut st, &config_with_state(), &mut stats), Ok(()));
    assert_eq!(stats.total_game_cnt, 1);
    assert_eq!(stats.success_game_cnt, 1);
    assert_eq!(stats.total_success_guess_try, 2);
}

#[test]
fn game_record_upper_cases() {
    let r = game_record("crane", &vec![s("slate")]);
    match member(&r, "answer") {
        Json::Str(a) => assert_eq!(a, "CRANE"),
        _ => panic!("answer is not a string"),
    }
}

#[test]
fn word_freq_counts() {
    let mut f = WordFreq::new();
    f.add_one(s("crane"));
    f.add_one(s("slate"));
    f.add_one(s("crane"));
    assert_eq!(f.get("crane"), Some(2));
    assert_eq!(f.get("slate"), Some(1));
    assert_eq!(f.get("other"), None);
    assert_eq!(f.len(), 2);
}

#[test]
fn game_stats_new_keeps_fields() {
    let g = GameStats::new(1, 2, 3, WordFreq::new());
    assert_eq!((g.success_game_cnt, g.total_game_cnt, g.total_success_guess_try), (1, 2, 3));
}
