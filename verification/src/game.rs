//! Choosing the answer of each round, and playing a round guess by guess.
use vstd::prelude::*;
use rand::SeedableRng;
use rand::seq::SliceRandom;
use crate::config::GameConfig;
use crate::words::texts;
use crate::engine::{
    judge_guess,
    update_keyboard_status,
    GuessVerdict,
    is_playable,
    is_lower_word,
    breaks_hard_mode,
    guess_colours,
    keyboard_after,
    WORD_LEN,
    ALPHABET,
};
use crate::text::{
    trim,
    to_lowercase,
    trimmed_text,
    lowercase_text,
    string_chars,
    to_uppercase,
    uppercase_text,
    push_decimal,
    decimal_text,
    push_char,
};

verus! {

/// Outcome of one round: whether the answer was found, in how many
/// guesses, and the guesses made.
pub struct RoundResult {
    pub success: bool,
    pub guess_count: i32,
    pub guesses: Vec<String>,
}

/// Why no answer could be chosen.
#[derive(Debug, Clone, Copy, PartialEq, Eq, Structural)]
pub enum AnswerError {
    /// The day is 0 or past the end of the final word list.
    DayOutOfRange,
}

impl AnswerError {
    /// The message reported for this error.
    pub fn message(&self) -> (r: String)
        ensures
            r@ == "Error! day out of range"@,
    {
        String::from_str("Error! day out of range")
    }
}

/// The answer of the next round. In random mode it is the final word of the
/// configured day (counted from 1), and the day moves on by one; with a word
/// given on the command line it is that word; otherwise it is `input_line`,
/// the next line read, with `None` for the end of input. A given word or
/// line is trimmed and put in lower case.
pub fn next_answer(
    config: &mut GameConfig,
    final_words: &Vec<String>,
    input_line: Option<String>,
) -> (r: Result<Option<String>, AnswerError>)
    requires
        final_words.len() < usize::MAX,
    ensures
        old(config).random ==> if old(config).day == 0 || old(config).day > final_words.len() {
            r == Err::<Option<String>, AnswerError>(AnswerError::DayOutOfRange) && *final(config)
                == *old(config)
        } else {
            &&& r matches Ok(Some(w)) && w == final_words@[old(config).day - 1]
            &&& *final(config) == GameConfig { day: (old(config).day + 1) as usize, ..*old(config) }
        },
        !old(config).random ==> *final(config) == *old(config),
        !old(config).random && old(config).has_word_arg ==> (r matches Ok(Some(w)) && w@
            == lowercase_text(trimmed_text(old(config).word@))),
        !old(config).random && !old(config).has_word_arg ==> match input_line {
            None => r == Ok::<Option<String>, AnswerError>(None),
            Some(line) => r matches Ok(Some(w)) && w@ == lowercase_text(trimmed_text(line@)),
        },
{
    if config.random {
        if config.day == 0 || config.day > final_words.len() {
            return Err(AnswerError::DayOutOfRange);
        }
        let word = final_words[config.day - 1].clone();
        config.day = config.day + 1;
        Ok(Some(word))
    } else if config.has_word_arg {
        let t = trim(config.word.as_str());
        Ok(Some(to_lowercase(t.as_str())))
    } else {
        match input_line {
            None => Ok(None),
            Some(line) => {
                let t = trim(line.as_str());
                Ok(Some(to_lowercase(t.as_str())))
            },
        }
    }
}

/// The order in which `SliceRandom::shuffle` leaves `words` when it draws
/// from `StdRng::seed_from_u64(seed)`. The generator is deterministic, so
/// with the `rand` version this crate is built with the order depends on the
/// words and the seed alone (`rand` does not promise the same order across
/// its versions).
pub uninterp spec fn seeded_order(words: Seq<Seq<char>>, seed: u64) -> Seq<Seq<char>>;

/// Calls `StdRng::seed_from_u64(seed)` and shuffles the words with it. The
/// shuffle only swaps elements, so the same words remain; their new order is
/// named `seeded_order`, not spelled out.
#[verifier::external_body]
fn shuffle_seeded(words: &mut Vec<String>, seed: u64)
    ensures
        final(words)@.to_multiset() == old(words)@.to_multiset(),
        texts(final(words)@) == seeded_order(texts(old(words)@), seed),
{
    let mut rng = rand::rngs::StdRng::seed_from_u64(seed);
    words.as_mut_slice().shuffle(&mut rng)
}

/// Shuffles the words with a generator seeded from `seed`: the same words
/// remain, in the order the seed determines.
pub fn shuffle_words(words: &mut Vec<String>, seed: u64)
    ensures
        final(words)@.to_multiset() == old(words)@.to_multiset(),
        final(words).len() == old(words).len(),
        texts(final(words)@) == seeded_order(texts(old(words)@), seed),
{
    shuffle_seeded(words, seed);
    proof {
        vstd::seq_lib::to_multiset_len(old(words)@);
        vstd::seq_lib::to_multiset_len(words@);
    }
}

/// Shuffling the same words with the same seed gives the same order: two
/// results of `shuffle_words` on equal words and one seed hold equal words,
/// place by place.
pub proof fn lemma_same_seed_same_order(
    before_a: Seq<String>,
    after_a: Seq<String>,
    before_b: Seq<String>,
    after_b: Seq<String>,
    seed: u64,
)
    requires
        texts(before_a) == texts(before_b),
        texts(after_a) == seeded_order(texts(before_a), seed),
        texts(after_b) == seeded_order(texts(before_b), seed),
    ensures
        texts(after_a) == texts(after_b),
{
}

/// Number of guesses a round allows.
pub const MAX_GUESSES: i32 = 6;

/// A round in play: the guesses taken so far, the previous guess and its
/// colours (which hard mode holds the next guess to), and the keyboard
/// shown to the player.
pub struct RoundState {
    pub guess_count: i32,
    pub guesses: Vec<String>,
    pub last_status: Vec<char>,
    pub last_word: Vec<char>,
    pub keyboard: Vec<char>,
}

/// What one guess did to the round.
pub enum GuessOutcome {
    /// Refused: not a playable word, or against hard mode. Nothing changed.
    Invalid,
    /// Taken, with its colours; the round goes on.
    Continue(Vec<char>),
    /// Taken, with its colours, and equal to the answer: the round is won.
    Solved(Vec<char>),
    /// Taken, with its colours, not the answer, and the last guess allowed:
    /// the round is lost.
    OutOfGuesses(Vec<char>),
}

/// A consistent round: as many guesses as counted, within the limit, a
/// keyboard of one status per letter and five colours for the last guess,
/// which is a word once a guess was taken.
pub open spec fn round_wf(s: RoundState) -> bool {
    &&& 0 <= s.guess_count <= MAX_GUESSES
    &&& s.guesses.len() == s.guess_count
    &&& s.keyboard.len() == ALPHABET
    &&& s.last_status.len() == WORD_LEN
    &&& s.guess_count >= 1 ==> is_lower_word(s.last_word@)
}

/// Whether the round takes `guess`: it is playable, and in hard mode it
/// keeps to what the previous guess found.
pub open spec fn takes_guess(
    s: RoundState,
    guess: Seq<char>,
    answer: Seq<char>,
    acceptable: Seq<String>,
    difficult: bool,
) -> bool {
    &&& is_playable(guess, acceptable)
    &&& !(difficult && breaks_hard_mode(
        s.guess_count,
        s.last_status@,
        s.last_word@,
        guess_colours(guess, answer),
        guess,
    ))
}

/// A round before its first guess: no guesses, every key and colour
/// unknown (`X`), and `aaaaa` as the previous word.
pub fn new_round() -> (r: RoundState)
    ensures
        round_wf(r),
        r.guess_count == 0,
        r.guesses@ == Seq::<String>::empty(),
        r.keyboard@ == Seq::new(ALPHABET as nat, |i: int| 'X'),
        r.last_status@ == Seq::new(WORD_LEN as nat, |i: int| 'X'),
        r.last_word@ == Seq::new(WORD_LEN as nat, |i: int| 'a'),
{
    let mut keyboard: Vec<char> = Vec::new();
    let mut i: usize = 0;
    while i < ALPHABET
        invariant
            0 <= i <= ALPHABET,
            keyboard@ == Seq::new(i as nat, |j: int| 'X'),
        decreases ALPHABET - i,
    {
        keyboard.push('X');
        i = i + 1;
    }
    let mut last_status: Vec<char> = Vec::new();
    let mut last_word: Vec<char> = Vec::new();
    let mut j: usize = 0;
    while j < WORD_LEN
        invariant
            0 <= j <= WORD_LEN,
            last_status@ == Seq::new(j as nat, |k: int| 'X'),
            last_word@ == Seq::new(j as nat, |k: int| 'a'),
        decreases WORD_LEN - j,
    {
        last_status.push('X');
        last_word.push('a');
        j = j + 1;
    }
    RoundState { guess_count: 0, guesses: Vec::new(), last_status, last_word, keyboard }
}

/// Plays one guess. A guess the round does not take (`takes_guess`) is
/// `Invalid` and changes nothing. A taken guess is counted and kept, its
/// colours light the keyboard and become the previous guess for hard mode;
/// the round is won when it is the answer, lost when it was the last guess
/// allowed, and goes on otherwise.
pub fn play_guess(
    state: &mut RoundState,
    guess: String,
    answer_chars: &Vec<char>,
    acceptable: &Vec<String>,
    difficult: bool,
    scores: &Vec<(char, i32)>,
) -> (r: GuessOutcome)
    requires
        round_wf(*old(state)),
        old(state).guess_count < MAX_GUESSES,
        is_lower_word(answer_chars@),
    ensures
        round_wf(*final(state)),
        !takes_guess(*old(state), guess@, answer_chars@, acceptable@, difficult) ==> r is Invalid
            && *final(state) == *old(state),
        takes_guess(*old(state), guess@, answer_chars@, acceptable@, difficult) ==> {
            let status = guess_colours(guess@, answer_chars@);
            &&& final(state).guess_count == old(state).guess_count + 1
            &&& final(state).guesses@ == old(state).guesses@.push(guess)
            &&& final(state).keyboard@ == keyboard_after(
                old(state).keyboard@,
                status,
                guess@,
                scores@,
                WORD_LEN as int,
            )
            &&& final(state).last_status@ == status
            &&& final(state).last_word@ == guess@
            &&& if guess@ == answer_chars@ {
                r matches GuessOutcome::Solved(s) && s@ == status
            } else if final(state).guess_count == MAX_GUESSES {
                r matches GuessOutcome::OutOfGuesses(s) && s@ == status
            } else {
                r matches GuessOutcome::Continue(s) && s@ == status
            }
        },
{
    let verdict = judge_guess(
        &guess,
        answer_chars,
        acceptable,
        difficult,
        state.guess_count,
        &state.last_status,
        &state.last_word,
    );
    match verdict {
        GuessVerdict::Invalid => GuessOutcome::Invalid,
        GuessVerdict::Accepted { status, solved } => {
            let guess_chars = string_chars(guess.as_str());
            update_keyboard_status(&mut state.keyboard, &status, &guess_chars, scores);
            state.guess_count = state.guess_count + 1;
            state.guesses.push(guess);
            state.last_status = status.clone();
            state.last_word = guess_chars;
            if solved {
                GuessOutcome::Solved(status)
            } else if state.guess_count == MAX_GUESSES {
                GuessOutcome::OutOfGuesses(status)
            } else {
                GuessOutcome::Continue(status)
            }
        },
    }
}

/// The decimal text of an integer, with a minus sign when it is negative.
pub open spec fn signed_decimal_text(n: int) -> Seq<char> {
    if n < 0 {
        seq!['-'] + decimal_text((-n) as nat)
    } else {
        decimal_text(n as nat)
    }
}

/// The line that ends a round: `CORRECT` and the number of guesses when the
/// answer was found, else `FAILED` and the answer in upper case.
pub fn round_summary(answer: &String, result: &RoundResult) -> (r: String)
    ensures
        r@ == if result.success {
            "CORRECT "@ + signed_decimal_text(result.guess_count as int)
        } else {
            "FAILED "@ + uppercase_text(answer@)
        },
{
    if result.success {
        let mut out = String::from_str("CORRECT ");
        let n = result.guess_count as i64;
        if n < 0 {
            push_char(&mut out, '-');
            push_decimal(&mut out, (-n) as u64);
            proof {
                reveal_strlit("CORRECT ");
                assert(out@ =~= "CORRECT "@ + signed_decimal_text(result.guess_count as int));
            }
        } else {
            push_decimal(&mut out, n as u64);
        }
        out
    } else {
        let mut out = String::from_str("FAILED ");
        let upper = to_uppercase(answer.as_str());
        out.append(upper.as_str());
        out
    }
}

/// Whether another round follows, given the player's reply to the question
/// (`None` at the end of input): any reply but `N`, once trimmed.
pub fn another_round(reply: Option<&str>) -> (r: bool)
    ensures
        r == (reply is Some && trimmed_text(reply->0@) != "N"@),
{
    match reply {
        None => false,
        Some(text) => {
            let t = trim(text);
            let no = String::from_str("N");
            !(t == no)
        },
    }
}

} // verus!
