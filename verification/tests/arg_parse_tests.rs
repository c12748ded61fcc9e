use wordle::arg_parse::{parse_args, ArgError};
use wordle::config::GameConfig;

fn args(list: &[&str]) -> Vec<String> {
    let mut v = vec!["wordle".to_string()];
    v.extend(list.iter().map(|s| s.to_string()));
    v
}

#[test]
fn no_arguments_keep_defaults() {
    let mut config = GameConfig::default();
    assert_eq!(parse_args(&mut config, &args(&[])), Ok(()));
    assert!(!config.random && !config.difficult && !config.stats);
    assert_eq!(config.day, 1);
}

#[test]
fn word_argument_sets_word() {
    let mut config = GameConfig::default();
    assert_eq!(parse_args(&mut config, &args(&["-w", "Crane", "-D", "--stats"])), Ok(()));
    assert_eq!(config.word, "Crane");
    assert!(config.has_word_arg && config.difficult && config.stats);
}

#[test]
fn random_mode_with_day_and_seed() {
    let mut config = GameConfig::default();
    assert_eq!(parse_args(&mut config, &args(&["--random", "--day", "5", "-s", "+42"])), Ok(()));
    assert!(config.random);
    assert_eq!(config.day, 5);
    assert_eq!(config.seed, 42);
}

#[test]
fn paths_are_taken() {
    let mut config = GameConfig::default();
    let r = parse_args(&mut config, &args(&["-f", "final.txt", "--acceptable-set", "acc.txt", "-S", "state.json", "-c", "cfg.json"]));
    assert_eq!(r, Ok(()));
    assert_eq!(config.final_set, "final.txt");
    assert_eq!(config.acceptable_set, "acc.txt");
    assert_eq!(config.state, "state.json");
    assert_eq!(config.config, "cfg.json");
}

#[test]
fn missing_values_are_errors() {
    let cases: [(&[&str], ArgError); 6] = [
        (&["-w"], ArgError::MissingWord),
        (&["-r", "-d"], ArgError::MissingDay),
        (&["-r", "-s"], ArgError::MissingSeed),
        (&["-a"], ArgError::MissingAcceptableSet),
        (&["-f"], ArgError::MissingFinalSet),
        (&["-S"], ArgError::MissingState),
    ];
    for (list, err) in cases.iter() {
        let mut config = GameConfig::default();
        assert_eq!(parse_args(&mut config, &args(list)), Err(*err));
    }
}

#[test]
fn missing_config_value_is_accepted() {
    let mut config = GameConfig::default();
    assert_eq!(parse_args(&mut config, &args(&["-c"])), Ok(()));
}

#[test]
fn word_conflicts_with_random_mode() {
    let mut config = GameConfig::default();
    assert_eq!(parse_args(&mut config, &args(&["-w", "crane", "-r"])), Err(ArgError::ConflictArguments));
}

#[test]
fn day_needs_random_mode() {
    let mut config = GameConfig::default();
    assert_eq!(parse_args(&mut config, &args(&["-d", "3"])), Err(ArgError::SeedDayRequireRandom));
}

#[test]
fn unreadable_numbers_are_errors() {
    let mut config = GameConfig::default();
    assert_eq!(parse_args(&mut config, &args(&["-r", "-d", "x1"])), Err(ArgError::InvalidDay));
    let mut config2 = GameConfig::default();
    assert_eq!(parse_args(&mut config2, &args(&["-r", "-s", "-1"])), Err(ArgError::InvalidSeed));
    let mut config3 = GameConfig::default();
    assert_eq!(parse_args(&mut config3, &args(&["-r", "-s", "18446744073709551616"])), Err(ArgError::InvalidSeed));
}

#[test]
fn missing_value_reported_before_conflicts() {
    let mut config = GameConfig::default();
    assert_eq!(parse_args(&mut config, &args(&["-d", "2", "-w"])), Err(ArgError::MissingWord));
}

#[test]
fn error_messages() {
    assert_eq!(ArgError::MissingWord.message(), "Error! Missing word argument");
    assert_eq!(ArgError::SeedDayRequireRandom.message(), "Error! seed/day require random mode");
}

#[test]
fn config_new_keeps_fields() {
    let c = GameConfig::new(true, false, true, 7, 9, "f".to_string(), "a".to_string(), "s".to_string(), "w".to_string(), true, "c".to_string());
    assert!(c.random && !c.difficult && c.stats && c.has_word_arg);
    assert_eq!((c.day, c.seed), (7, 9));
    assert_eq!(c.final_set, "f");
    assert_eq!(c.config, "c");
}
