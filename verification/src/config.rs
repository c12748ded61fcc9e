//! The game's settings.
use vstd::prelude::*;

verus! {

/// Settings of a game session, filled from defaults, the configuration file
/// and the command line.
pub struct GameConfig {
    pub random: bool,
    pub difficult: bool,
    pub stats: bool,
    pub day: usize,
    pub seed: u64,
    pub final_set: String,
    pub acceptable_set: String,
    pub state: String,
    pub word: String,
    pub has_word_arg: bool,
    pub config: String,
}

impl GameConfig {
    /// Settings with each field as given.
    pub fn new(
        random: bool,
        difficult: bool,
        stats: bool,
        day: usize,
        seed: u64,
        final_set: String,
        acceptable_set: String,
        state: String,
        word: String,
        has_word_arg: bool,
        config: String,
    ) -> (r: GameConfig)
        ensures
            r.random == random,
            r.difficult == difficult,
            r.stats == stats,
            r.day == day,
            r.seed == seed,
            r.final_set == final_set,
            r.acceptable_set == acceptable_set,
            r.state == state,
            r.word == word,
            r.has_word_arg == has_word_arg,
            r.config == config,
    {
        GameConfig {
            random,
            difficult,
            stats,
            day,
            seed,
            final_set,
            acceptable_set,
            state,
            word,
            has_word_arg,
            config,
        }
    }
}

impl Default for GameConfig {
    /// Word mode, no hard mode, no statistics, day 1, seed 0, and every path
    /// and word empty.
    fn default() -> (r: Self)
        ensures
            !r.random,
            !r.difficult,
            !r.stats,
            r.day == 1,
            r.seed == 0,
            r.final_set@ == Seq::<char>::empty(),
            r.acceptable_set@ == Seq::<char>::empty(),
            r.state@ == Seq::<char>::empty(),
            r.word@ == Seq::<char>::empty(),
            !r.has_word_arg,
            r.config@ == Seq::<char>::empty(),
    {
        Self {
            random: false,
            difficult: false,
            stats: false,
            day: 1,
            seed: 0,
            final_set: String::new(),
            acceptable_set: String::new(),
            state: String::new(),
            word: String::new(),
            has_word_arg: false,
            config: String::new(),
        }
    }
}

} // verus!
