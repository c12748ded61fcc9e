//! Command-line arguments.
use vstd::prelude::*;
use crate::config::GameConfig;
use crate::text::{parse_decimal, parse_unsigned, lemma_parse_unsigned_range};

verus! {

/// Why the command line was refused.
#[derive(Debug, Clone, Copy, PartialEq, Eq, Structural)]
pub enum ArgError {
    MissingWord,
    MissingDay,
    MissingSeed,
    MissingAcceptableSet,
    MissingFinalSet,
    MissingState,
    ConflictArguments,
    SeedDayRequireRandom,
    /// The value after `-d`/`--day` is not an unsigned number that fits.
    InvalidDay,
    /// The value after `-s`/`--seed` is not an unsigned number that fits.
    InvalidSeed,
}

impl ArgError {
    /// The message reported for this error.
    pub fn message(&self) -> (r: String)
        ensures
            r@ == arg_error_text(*self)@,
    {
        match self {
            ArgError::MissingWord => String::from_str("Error! Missing word argument"),
            ArgError::MissingDay => String::from_str("Error! Missing day argument"),
            ArgError::MissingSeed => String::from_str("Error! Missing seed argument"),
            ArgError::MissingAcceptableSet => String::from_str(
                "Error! Missing acceptable-set argument",
            ),
            ArgError::MissingFinalSet => String::from_str("Error! Missing final-set argument"),
            ArgError::MissingState => String::from_str("Error! Missing state argument"),
            ArgError::ConflictArguments => String::from_str("Error! conflict arguments"),
            ArgError::SeedDayRequireRandom => String::from_str(
                "Error! seed/day require random mode",
            ),
            ArgError::InvalidDay => String::from_str("Error! invalid day argument"),
            ArgError::InvalidSeed => String::from_str("Error! invalid seed argument"),
        }
    }
}

/// The message text of each error.
pub open spec fn arg_error_text(e: ArgError) -> &'static str {
    match e {
        ArgError::MissingWord => "Error! Missing word argument",
        ArgError::MissingDay => "Error! Missing day argument",
        ArgError::MissingSeed => "Error! Missing seed argument",
        ArgError::MissingAcceptableSet => "Error! Missing acceptable-set argument",
        ArgError::MissingFinalSet => "Error! Missing final-set argument",
        ArgError::MissingState => "Error! Missing state argument",
        ArgError::ConflictArguments => "Error! conflict arguments",
        ArgError::SeedDayRequireRandom => "Error! seed/day require random mode",
        ArgError::InvalidDay => "Error! invalid day argument",
        ArgError::InvalidSeed => "Error! invalid seed argument",
    }
}

/// Which option's value the next argument is.
#[derive(Debug, Clone, Copy, PartialEq, Eq, Structural)]
pub enum PendingValue {
    Nothing,
    Word,
    Day,
    Seed,
    FinalSet,
    AcceptableSet,
    State,
    Config,
}

/// State of the scan over the arguments.
pub struct ArgScan {
    pub config: GameConfig,
    pub pending: PendingValue,
    pub word_flag: bool,
    pub random_flag: bool,
    pub day_flag: bool,
    pub seed_flag: bool,
    pub error: Option<ArgError>,
}

/// Whether `arg` is the short or the long form of an option.
pub open spec fn is_option(arg: Seq<char>, short: &str, long: &str) -> bool {
    arg == short@ || arg == long@
}

/// The scan before any argument.
pub open spec fn scan_start(config: GameConfig) -> ArgScan {
    ArgScan {
        config,
        pending: PendingValue::Nothing,
        word_flag: false,
        random_flag: false,
        day_flag: false,
        seed_flag: false,
        error: None,
    }
}

/// The scan after one more argument: a pending option takes it as its
/// value; otherwise an option is recognised; anything else is skipped.
/// After an unreadable number the scan stops.
pub open spec fn scan_step(st: ArgScan, arg: String) -> ArgScan {
    if st.error is Some {
        st
    } else {
        match st.pending {
            PendingValue::Word => ArgScan {
                config: GameConfig { word: arg, has_word_arg: true, ..st.config },
                pending: PendingValue::Nothing,
                ..st
            },
            PendingValue::Day => match parse_unsigned(arg@, usize::MAX as int) {
                Some(v) => ArgScan {
                    config: GameConfig { day: v as usize, ..st.config },
                    pending: PendingValue::Nothing,
                    ..st
                },
                None => ArgScan { error: Some(ArgError::InvalidDay), ..st },
            },
            PendingValue::Seed => match parse_unsigned(arg@, u64::MAX as int) {
                Some(v) => ArgScan {
                    config: GameConfig { seed: v as u64, ..st.config },
                    pending: PendingValue::Nothing,
                    ..st
                },
                None => ArgScan { error: Some(ArgError::InvalidSeed), ..st },
            },
            PendingValue::FinalSet => ArgScan {
                config: GameConfig { final_set: arg, ..st.config },
                pending: PendingValue::Nothing,
                ..st
            },
            PendingValue::AcceptableSet => ArgScan {
                config: GameConfig { acceptable_set: arg, ..st.config },
                pending: PendingValue::Nothing,
                ..st
            },
            PendingValue::State => ArgScan {
                config: GameConfig { state: arg, ..st.config },
                pending: PendingValue::Nothing,
                ..st
            },
            PendingValue::Config => ArgScan {
                config: GameConfig { config: arg, ..st.config },
                pending: PendingValue::Nothing,
                ..st
            },
            PendingValue::Nothing => if is_option(arg@, "-w", "--word") {
                ArgScan { word_flag: true, pending: PendingValue::Word, ..st }
            } else if is_option(arg@, "-r", "--random") {
                ArgScan {
                    random_flag: true,
                    config: GameConfig { random: true, ..st.config },
                    ..st
                }
            } else if is_option(arg@, "-D", "--difficult") {
                ArgScan { config: GameConfig { difficult: true, ..st.config }, ..st }
            } else if is_option(arg@, "-t", "--stats") {
                ArgScan { config: GameConfig { stats: true, ..st.config }, ..st }
            } else if is_option(arg@, "-d", "--day") {
                ArgScan { day_flag: true, pending: PendingValue::Day, ..st }
            } else if is_option(arg@, "-s", "--seed") {
                ArgScan { seed_flag: true, pending: PendingValue::Seed, ..st }
            } else if is_option(arg@, "-f", "--final-set") {
                ArgScan { pending: PendingValue::FinalSet, ..st }
            } else if is_option(arg@, "-a", "--acceptable-set") {
                ArgScan { pending: PendingValue::AcceptableSet, ..st }
            } else if is_option(arg@, "-S", "--state") {
                ArgScan { pending: PendingValue::State, ..st }
            } else if is_option(arg@, "-c", "--config") {
                ArgScan { pending: PendingValue::Config, ..st }
            } else {
                st
            },
        }
    }
}

/// The scan over all of `args`, in order.
pub open spec fn scan_args(config: GameConfig, args: Seq<String>) -> ArgScan
    decreases args.len(),
{
    if args.len() == 0 {
        scan_start(config)
    } else {
        scan_step(scan_args(config, args.drop_last()), args.last())
    }
}

/// Verdict on a finished scan: an unreadable number, then an option left
/// without its value (configuration path excepted), then a word given
/// together with random-mode options, then a day or seed without random mode.
pub open spec fn scan_outcome(st: ArgScan) -> Result<(), ArgError> {
    if st.error is Some {
        Err(st.error.unwrap())
    } else if st.pending == PendingValue::Word {
        Err(ArgError::MissingWord)
    } else if st.pending == PendingValue::Day {
        Err(ArgError::MissingDay)
    } else if st.pending == PendingValue::Seed {
        Err(ArgError::MissingSeed)
    } else if st.pending == PendingValue::AcceptableSet {
        Err(ArgError::MissingAcceptableSet)
    } else if st.pending == PendingValue::FinalSet {
        Err(ArgError::MissingFinalSet)
    } else if st.pending == PendingValue::State {
        Err(ArgError::MissingState)
    } else if st.word_flag && (st.random_flag || st.day_flag || st.seed_flag) {
        Err(ArgError::ConflictArguments)
    } else if !st.random_flag && (st.day_flag || st.seed_flag) {
        Err(ArgError::SeedDayRequireRandom)
    } else {
        Ok(())
    }
}

proof fn lemma_scan_stops_after_error(config: GameConfig, args: Seq<String>, n: int)
    requires
        0 <= n <= args.len(),
        scan_args(config, args.take(n)).error is Some,
    ensures
        scan_args(config, args) == scan_args(config, args.take(n)),
    decreases args.len() - n,
{
    if n < args.len() {
        assert(args.take(n + 1).drop_last() =~= args.take(n));
        lemma_scan_stops_after_error(config, args, n + 1);
    } else {
        assert(args.take(n) =~= args);
    }
}

fn is_option_exec(arg: &String, short: &str, long: &str) -> (r: bool)
    ensures
        r == is_option(arg@, short, long),
{
    let s = String::from_str(short);
    let l = String::from_str(long);
    *arg == s || *arg == l
}

/// Applies the command-line arguments `args` (the program name first, as
/// the environment gives them) to `config`: options set flags, options with
/// a value take the next argument. The result is `scan_outcome` of the scan
/// and `config` ends as the scan left it.
pub fn parse_args(config: &mut GameConfig, args: &Vec<String>) -> (r: Result<(), ArgError>)
    ensures
        *final(config) == scan_args(*old(config), args@).config,
        r == scan_outcome(scan_args(*old(config), args@)),
{
    let ghost config0 = *config;
    let mut pending = PendingValue::Nothing;
    let mut word_flag = false;
    let mut random_flag = false;
    let mut day_flag = false;
    let mut seed_flag = false;
    let mut i: usize = 0;
    while i < args.len()
        invariant
            0 <= i <= args.len(),
            config0 == *old(config),
            scan_args(config0, args@.take(i as int)) == (ArgScan {
                config: *config,
                pending,
                word_flag,
                random_flag,
                day_flag,
                seed_flag,
                error: None,
            }),
        decreases args.len() - i,
    {
        let arg = &args[i];
        proof {
            assert(args@.take(i + 1).drop_last() =~= args@.take(i as int));
            assert(args@.take(i + 1).last() == args@[i as int]);
        }
        match pending {
            PendingValue::Word => {
                config.word = arg.clone();
                config.has_word_arg = true;
                pending = PendingValue::Nothing;
            },
            PendingValue::Day => {
                let max: u64 = usize::MAX as u64;
                assert(max as int == usize::MAX as int);
                match parse_decimal(arg.as_str(), max) {
                    Some(v) => {
                        config.day = v as usize;
                        pending = PendingValue::Nothing;
                    },
                    None => {
                        proof {
                            lemma_scan_stops_after_error(config0, args@, i + 1);
                        }
                        return Err(ArgError::InvalidDay);
                    },
                }
            },
            PendingValue::Seed => {
                match parse_decimal(arg.as_str(), u64::MAX) {
                    Some(v) => {
                        config.seed = v;
                        pending = PendingValue::Nothing;
                    },
                    None => {
                        proof {
                            lemma_scan_stops_after_error(config0, args@, i + 1);
                        }
                        return Err(ArgError::InvalidSeed);
                    },
                }
            },
            PendingValue::FinalSet => {
                config.final_set = arg.clone();
                pending = PendingValue::Nothing;
            },
            PendingValue::AcceptableSet => {
                config.acceptable_set = arg.clone();
                pending = PendingValue::Nothing;
            },
            PendingValue::State => {
                config.state = arg.clone();
                pending = PendingValue::Nothing;
            },
            PendingValue::Config => {
                config.config = arg.clone();
                pending = PendingValue::Nothing;
            },
            PendingValue::Nothing => {
                if is_option_exec(arg, "-w", "--word") {
                    word_flag = true;
                    pending = PendingValue::Word;
                } else if is_option_exec(arg, "-r", "--random") {
                    random_flag = true;
                    config.random = true;
                } else if is_option_exec(arg, "-D", "--difficult") {
                    config.difficult = true;
                } else if is_option_exec(arg, "-t", "--stats") {
                    config.stats = true;
                } else if is_option_exec(arg, "-d", "--day") {
                    day_flag = true;
                    pending = PendingValue::Day;
                } else if is_option_exec(arg, "-s", "--seed") {
                    seed_flag = true;
                    pending = PendingValue::Seed;
                } else if is_option_exec(arg, "-f", "--final-set") {
                    pending = PendingValue::FinalSet;
                } else if is_option_exec(arg, "-a", "--acceptable-set") {
                    pending = PendingValue::AcceptableSet;
                } else if is_option_exec(arg, "-S", "--state") {
                    pending = PendingValue::State;
                } else if is_option_exec(arg, "-c", "--config") {
                    pending = PendingValue::Config;
                }
            },
        }
        i = i + 1;
    }
    proof {
        assert(args@.take(args.len() as int) =~= args@);
    }
    if pending == PendingValue::Word {
        return Err(ArgError::MissingWord);
    }
    if pending == PendingValue::Day {
        return Err(ArgError::MissingDay);
    }
    if pending == PendingValue::Seed {
        return Err(ArgError::MissingSeed);
    }
    if pending == PendingValue::AcceptableSet {
        return Err(ArgError::MissingAcceptableSet);
    }
    if pending == PendingValue::FinalSet {
        return Err(ArgError::MissingFinalSet);
    }
    if pending == PendingValue::State {
        return Err(ArgError::MissingState);
    }
    if word_flag && (random_flag || day_flag || seed_flag) {
        return Err(ArgError::ConflictArguments);
    }
    if !random_flag && (day_flag || seed_flag) {
        return Err(ArgError::SeedDayRequireRandom);
    }
    Ok(())
}

/// The option spellings, letter by letter where they could be confused.
proof fn lemma_option_spellings()
    ensures
        "-w"@.len() == 2,
        "-w"@[1] == 'w',
        "--word"@.len() == 6,
        "--word"@[2] == 'w',
        "-r"@.len() == 2,
        "-r"@[1] == 'r',
        "--random"@.len() == 8,
        "--random"@[2] == 'r',
        "-D"@.len() == 2,
        "-D"@[1] == 'D',
        "--difficult"@.len() == 11,
        "--difficult"@[2] == 'd',
        "-t"@.len() == 2,
        "-t"@[1] == 't',
        "--stats"@.len() == 7,
        "--stats"@[2] == 's',
        "-d"@.len() == 2,
        "-d"@[1] == 'd',
        "--day"@.len() == 5,
        "--day"@[2] == 'd',
        "-s"@.len() == 2,
        "-s"@[1] == 's',
        "--seed"@.len() == 6,
        "--seed"@[2] == 's',
        "-f"@.len() == 2,
        "-f"@[1] == 'f',
        "--final-set"@.len() == 11,
        "--final-set"@[2] == 'f',
        "-a"@.len() == 2,
        "-a"@[1] == 'a',
        "--acceptable-set"@.len() == 16,
        "--acceptable-set"@[2] == 'a',
        "-S"@.len() == 2,
        "-S"@[1] == 'S',
        "--state"@.len() == 7,
        "--state"@[2] == 's',
        "-c"@.len() == 2,
        "-c"@[1] == 'c',
        "--config"@.len() == 8,
        "--config"@[2] == 'c',
        "--state"@[6] == 'e',
        "--stats"@[6] == 's',
{
    reveal_strlit("-w");
    reveal_strlit("--word");
    reveal_strlit("-r");
    reveal_strlit("--random");
    reveal_strlit("-D");
    reveal_strlit("--difficult");
    reveal_strlit("-t");
    reveal_strlit("--stats");
    reveal_strlit("-d");
    reveal_strlit("--day");
    reveal_strlit("-s");
    reveal_strlit("--seed");
    reveal_strlit("-f");
    reveal_strlit("--final-set");
    reveal_strlit("-a");
    reveal_strlit("--acceptable-set");
    reveal_strlit("-S");
    reveal_strlit("--state");
    reveal_strlit("-c");
    reveal_strlit("--config");
}

/// Once on, the switches stay on: a later argument never turns off random
/// mode, hard mode, statistics or the mark that a word was given.
proof fn lemma_switches_stay_on(config: GameConfig, args: Seq<String>, n: int)
    requires
        0 <= n <= args.len(),
    ensures
        scan_args(config, args.take(n)).config.random ==> scan_args(config, args).config.random,
        scan_args(config, args.take(n)).config.difficult ==> scan_args(
            config,
            args,
        ).config.difficult,
        scan_args(config, args.take(n)).config.stats ==> scan_args(config, args).config.stats,
        scan_args(config, args.take(n)).config.has_word_arg ==> scan_args(
            config,
            args,
        ).config.has_word_arg,
    decreases args.len() - n,
{
    if n < args.len() {
        assert(args.take(n + 1).drop_last() =~= args.take(n));
        assert(args.take(n + 1).last() == args[n]);
        lemma_switches_stay_on(config, args, n + 1);
    } else {
        assert(args.take(n) =~= args);
    }
}

/// The scan of the first `j + 1` arguments is the scan of the first `j`
/// followed by argument `j`.
proof fn lemma_scan_one_more(config: GameConfig, args: Seq<String>, j: int)
    requires
        0 <= j < args.len(),
    ensures
        scan_args(config, args.take(j + 1)) == scan_step(scan_args(config, args.take(j)), args[j]),
{
    assert(args.take(j + 1).drop_last() =~= args.take(j));
    assert(args.take(j + 1).last() == args[j]);
}

/// The switches: where no option waits for a value (and no number was
/// unreadable before), `-r`/`--random` turns random mode on, `-D`/
/// `--difficult` hard mode, and `-t`/`--stats` statistics, and each stays on
/// to the end of the arguments, whatever follows.
pub proof fn lemma_switch_options_turn_on(config: GameConfig, args: Seq<String>, j: int)
    requires
        0 <= j < args.len(),
        scan_args(config, args.take(j)).pending == PendingValue::Nothing,
        scan_args(config, args.take(j)).error is None,
    ensures
        args[j]@ == "-r"@ || args[j]@ == "--random"@ ==> scan_args(config, args).config.random,
        args[j]@ == "-D"@ || args[j]@ == "--difficult"@ ==> scan_args(config, args).config.difficult,
        args[j]@ == "-t"@ || args[j]@ == "--stats"@ ==> scan_args(config, args).config.stats,
{
    lemma_option_spellings();
    lemma_scan_one_more(config, args, j);
    lemma_switches_stay_on(config, args, j + 1);
}

/// The options with a value: where no option waits for a value (and no
/// number was unreadable before), `-w`/`--word`, `-f`/`--final-set`,
/// `-a`/`--acceptable-set`, `-S`/`--state` and `-c`/`--config` take the next
/// argument as their value, as it is. A word given this way also marks that
/// a word was given, to the end of the arguments.
pub proof fn lemma_value_options_take_next(config: GameConfig, args: Seq<String>, j: int)
    requires
        0 <= j,
        j + 1 < args.len(),
        scan_args(config, args.take(j)).pending == PendingValue::Nothing,
        scan_args(config, args.take(j)).error is None,
    ensures
        args[j]@ == "-w"@ || args[j]@ == "--word"@ ==> {
            &&& scan_args(config, args.take(j + 2)).config.word == args[j + 1]
            &&& scan_args(config, args.take(j + 2)).pending == PendingValue::Nothing
            &&& scan_args(config, args).config.has_word_arg
            &&& args.len() == j + 2 ==> scan_args(config, args).config.word == args[j + 1]
        },
        args[j]@ == "-f"@ || args[j]@ == "--final-set"@ ==> scan_args(
            config,
            args.take(j + 2),
        ).config.final_set == args[j + 1],
        args[j]@ == "-a"@ || args[j]@ == "--acceptable-set"@ ==> scan_args(
            config,
            args.take(j + 2),
        ).config.acceptable_set == args[j + 1],
        args[j]@ == "-S"@ || args[j]@ == "--state"@ ==> scan_args(
            config,
            args.take(j + 2),
        ).config.state == args[j + 1],
        args[j]@ == "-c"@ || args[j]@ == "--config"@ ==> scan_args(
            config,
            args.take(j + 2),
        ).config.config == args[j + 1],
{
    lemma_option_spellings();
    lemma_scan_one_more(config, args, j);
    lemma_scan_one_more(config, args, j + 1);
    lemma_switches_stay_on(config, args, j + 2);
    if args.len() == j + 2 {
        assert(args.take(j + 2) =~= args);
    }
}

/// The day and the seed: where no option waits for a value (and no number
/// was unreadable before), `-d`/`--day` and `-s`/`--seed` read the next
/// argument as an unsigned decimal number; one that reads sets the day or
/// the seed to its value, and one that does not is refused.
pub proof fn lemma_number_options_read_next(config: GameConfig, args: Seq<String>, j: int)
    requires
        0 <= j,
        j + 1 < args.len(),
        scan_args(config, args.take(j)).pending == PendingValue::Nothing,
        scan_args(config, args.take(j)).error is None,
    ensures
        args[j]@ == "-d"@ || args[j]@ == "--day"@ ==> match parse_unsigned(
            args[j + 1]@,
            usize::MAX as int,
        ) {
            Some(v) => scan_args(config, args.take(j + 2)).config.day == v,
            None => scan_outcome(scan_args(config, args)) == Err::<(), ArgError>(
                ArgError::InvalidDay,
            ),
        },
        args[j]@ == "-s"@ || args[j]@ == "--seed"@ ==> match parse_unsigned(
            args[j + 1]@,
            u64::MAX as int,
        ) {
            Some(v) => scan_args(config, args.take(j + 2)).config.seed == v,
            None => scan_outcome(scan_args(config, args)) == Err::<(), ArgError>(
                ArgError::InvalidSeed,
            ),
        },
{
    lemma_option_spellings();
    lemma_scan_one_more(config, args, j);
    lemma_scan_one_more(config, args, j + 1);
    lemma_parse_unsigned_range(args[j + 1]@, usize::MAX as int);
    lemma_parse_unsigned_range(args[j + 1]@, u64::MAX as int);
    if scan_args(config, args.take(j + 2)).error is Some {
        lemma_scan_stops_after_error(config, args, j + 2);
    }
}

/// Once raised, the marks of what was given stay: a later argument never
/// clears the marks of a word, random mode, a day or a seed.
proof fn lemma_marks_stay(config: GameConfig, args: Seq<String>, n: int)
    requires
        0 <= n <= args.len(),
    ensures
        scan_args(config, args.take(n)).word_flag ==> scan_args(config, args).word_flag,
        scan_args(config, args.take(n)).random_flag ==> scan_args(config, args).random_flag,
        scan_args(config, args.take(n)).day_flag ==> scan_args(config, args).day_flag,
        scan_args(config, args.take(n)).seed_flag ==> scan_args(config, args).seed_flag,
    decreases args.len() - n,
{
    if n < args.len() {
        lemma_scan_one_more(config, args, n);
        lemma_marks_stay(config, args, n + 1);
    } else {
        assert(args.take(n) =~= args);
    }
}

/// An option that needs a value and ends the arguments is refused, with
/// the error naming what is missing (the configuration path, not listed
/// here, is the one option exempt from this).
pub proof fn lemma_option_without_value_refused(config: GameConfig, args: Seq<String>)
    requires
        args.len() >= 1,
        scan_args(config, args.drop_last()).pending == PendingValue::Nothing,
        scan_args(config, args.drop_last()).error is None,
    ensures
        args.last()@ == "-w"@ || args.last()@ == "--word"@ ==> scan_outcome(scan_args(config, args))
            == Err::<(), ArgError>(ArgError::MissingWord),
        args.last()@ == "-d"@ || args.last()@ == "--day"@ ==> scan_outcome(scan_args(config, args))
            == Err::<(), ArgError>(ArgError::MissingDay),
        args.last()@ == "-s"@ || args.last()@ == "--seed"@ ==> scan_outcome(scan_args(config, args))
            == Err::<(), ArgError>(ArgError::MissingSeed),
        args.last()@ == "-a"@ || args.last()@ == "--acceptable-set"@ ==> scan_outcome(
            scan_args(config, args),
        ) == Err::<(), ArgError>(ArgError::MissingAcceptableSet),
        args.last()@ == "-f"@ || args.last()@ == "--final-set"@ ==> scan_outcome(
            scan_args(config, args),
        ) == Err::<(), ArgError>(ArgError::MissingFinalSet),
        args.last()@ == "-S"@ || args.last()@ == "--state"@ ==> scan_outcome(
            scan_args(config, args),
        ) == Err::<(), ArgError>(ArgError::MissingState),
{
    lemma_option_spellings();
}

/// A word given on the command line does not go with random mode: when the
/// arguments hold a word option and a random option, each where no option
/// waits for a value, and the scan ends without an unreadable number or a
/// missing value, the arguments are refused as conflicting.
pub proof fn lemma_word_conflicts_with_random(
    config: GameConfig,
    args: Seq<String>,
    j: int,
    k: int,
)
    requires
        0 <= j < args.len(),
        0 <= k < args.len(),
        args[j]@ == "-w"@ || args[j]@ == "--word"@,
        args[k]@ == "-r"@ || args[k]@ == "--random"@,
        scan_args(config, args.take(j)).pending == PendingValue::Nothing,
        scan_args(config, args.take(j)).error is None,
        scan_args(config, args.take(k)).pending == PendingValue::Nothing,
        scan_args(config, args.take(k)).error is None,
        scan_args(config, args).error is None,
        scan_args(config, args).pending == PendingValue::Nothing,
    ensures
        scan_outcome(scan_args(config, args)) == Err::<(), ArgError>(ArgError::ConflictArguments),
{
    lemma_option_spellings();
    lemma_scan_one_more(config, args, j);
    lemma_scan_one_more(config, args, k);
    lemma_marks_stay(config, args, j + 1);
    lemma_marks_stay(config, args, k + 1);
}

} // verus!
