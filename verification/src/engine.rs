//! Colouring of a guess against the answer, keyboard tracking and the
//! hard-mode rule.
use vstd::prelude::*;
use crate::text::string_chars;
use crate::words::texts;

verus! {

/// Number of letters in a guess.
pub const WORD_LEN: usize = 5;

/// Number of letters in the alphabet the game is played with.
pub const ALPHABET: usize = 26;

/// Position of a character in the alphabet, counted from `'a'`.
pub open spec fn letter_index(c: char) -> int {
    (c as int) - ('a' as int)
}

/// Number of positions `i < n` where the guess matches the answer with a
/// letter whose alphabet position is `l`.
pub open spec fn green_count(guess: Seq<char>, answer: Seq<char>, n: int, l: int) -> int
    decreases n,
{
    if n <= 0 {
        0
    } else {
        green_count(guess, answer, n - 1, l) + if guess[n - 1] == answer[n - 1]
            && letter_index(guess[n - 1]) == l {
            1int
        } else {
            0int
        }
    }
}

/// Alphabet position of a letter at or after `'a'`.
fn letter_pos(c: char) -> (r: usize)
    requires
        'a' <= c,
    ensures
        r as int == letter_index(c),
{
    (c as u32 - 'a' as u32) as usize
}

/// Among `n` positions there are between 0 and `n` greens of a letter.
pub proof fn lemma_green_count_bound(guess: Seq<char>, answer: Seq<char>, n: int, l: int)
    requires
        n >= 0,
    ensures
        0 <= green_count(guess, answer, n, l) <= n,
    decreases n,
{
    if n > 0 {
        lemma_green_count_bound(guess, answer, n - 1, l);
    }
}

proof fn lemma_green_count_mono(guess: Seq<char>, answer: Seq<char>, m: int, n: int, l: int)
    requires
        0 <= m <= n,
    ensures
        0 <= green_count(guess, answer, m, l) <= green_count(guess, answer, n, l),
    decreases n,
{
    if m < n {
        lemma_green_count_mono(guess, answer, m, n - 1, l);
    } else if n > 0 {
        lemma_green_count_mono(guess, answer, n - 1, n - 1, l);
    }
}

/// Statuses after `make_green`: each of the first five positions is `'G'`
/// where the guess matches the answer and `'R'` elsewhere; the rest stay.
pub open spec fn green_status(guess: Seq<char>, answer: Seq<char>, status: Seq<char>) -> Seq<
    char,
> {
    Seq::new(
        status.len(),
        |i: int|
            if i < WORD_LEN {
                if guess[i] == answer[i] {
                    'G'
                } else {
                    'R'
                }
            } else {
                status[i]
            },
    )
}

/// Letter counts after `make_green`: each letter's count grows by the number
/// of green positions holding it.
pub open spec fn green_colored(guess: Seq<char>, answer: Seq<char>, colored: Seq<i32>) -> Seq<
    i32,
> {
    Seq::new(
        colored.len(),
        |l: int| (colored[l] + green_count(guess, answer, WORD_LEN as int, l)) as i32,
    )
}

/// Marks each of the first five positions `'G'` where the guess matches the
/// answer and `'R'` elsewhere, and counts each green letter in `colored`.
pub fn make_green(
    user_status: &mut Vec<char>,
    colored: &mut Vec<i32>,
    guess_chars: &Vec<char>,
    answer_chars: &Vec<char>,
)
    requires
        old(user_status).len() >= WORD_LEN,
        guess_chars.len() >= WORD_LEN,
        answer_chars.len() >= WORD_LEN,
        forall|i: int|
            0 <= i < WORD_LEN && #[trigger] guess_chars[i] == answer_chars[i] ==> 'a' <= guess_chars[i]
                && letter_index(guess_chars[i]) < old(colored).len(),
        forall|j: int|
            0 <= j < old(colored).len() ==> #[trigger] old(colored)[j] + green_count(
                guess_chars@,
                answer_chars@,
                WORD_LEN as int,
                j,
            ) <= i32::MAX,
    ensures
        final(user_status)@ == green_status(guess_chars@, answer_chars@, old(user_status)@),
        final(colored)@ == green_colored(guess_chars@, answer_chars@, old(colored)@),
{
    let ghost colored0 = colored@;
    let ghost status0 = user_status@;
    let mut i: usize = 0;
    while i < WORD_LEN
        invariant
            0 <= i <= WORD_LEN,
            guess_chars.len() >= WORD_LEN,
            answer_chars.len() >= WORD_LEN,
            user_status.len() == status0.len(),
            status0.len() >= WORD_LEN,
            colored.len() == colored0.len(),
            forall|k: int|
                0 <= k < WORD_LEN && #[trigger] guess_chars[k] == answer_chars[k] ==> 'a'
                    <= guess_chars[k] && letter_index(guess_chars[k]) < colored0.len(),
            forall|j: int|
                0 <= j < colored0.len() ==> #[trigger] colored0[j] + green_count(
                    guess_chars@,
                    answer_chars@,
                    WORD_LEN as int,
                    j,
                ) <= i32::MAX,
            forall|k: int|
                0 <= k < i ==> #[trigger] user_status[k] == if guess_chars[k] == answer_chars[k] {
                    'G'
                } else {
                    'R'
                },
            forall|k: int| i <= k < status0.len() ==> #[trigger] user_status[k] == status0[k],
            forall|j: int|
                0 <= j < colored0.len() ==> #[trigger] colored[j] == colored0[j] + green_count(
                    guess_chars@,
                    answer_chars@,
                    i as int,
                    j,
                ),
        decreases WORD_LEN - i,
    {
        if guess_chars[i] == answer_chars[i] {
            assert(guess_chars[i as int] == answer_chars[i as int]);
            let idx = letter_pos(guess_chars[i]);
            proof {
                lemma_green_count_mono(guess_chars@, answer_chars@, i + 1, WORD_LEN as int, idx as int);
                assert(colored[idx as int] == colored0[idx as int] + green_count(
                    guess_chars@,
                    answer_chars@,
                    i as int,
                    idx as int,
                ));
            }
            colored.set(idx, colored[idx] + 1);
            user_status.set(i, 'G');
        } else {
            user_status.set(i, 'R');
        }
        i = i + 1;
    }
    assert(user_status@ =~= green_status(guess_chars@, answer_chars@, status0));
    assert(colored@ =~= green_colored(guess_chars@, answer_chars@, colored0));
}

/// Number of positions `j < n` that are not green and hold the letter with
/// alphabet position `l`.
pub open spec fn open_count(guess: Seq<char>, status: Seq<char>, n: int, l: int) -> int
    decreases n,
{
    if n <= 0 {
        0
    } else {
        open_count(guess, status, n - 1, l) + if status[n - 1] != 'G' && letter_index(
            guess[n - 1],
        ) == l {
            1int
        } else {
            0int
        }
    }
}

proof fn lemma_open_count_nonneg(guess: Seq<char>, status: Seq<char>, n: int, l: int)
    ensures
        open_count(guess, status, n, l) >= 0,
    decreases n,
{
    if n > 0 {
        lemma_open_count_nonneg(guess, status, n - 1, l);
    }
}

/// Whether `make_yellow` turns position `i` yellow: it is not green, its
/// letter occurs in the answer, and the non-green occurrences of that letter
/// before it, added to the count already coloured, stay below the answer's
/// count of that letter.
pub open spec fn becomes_yellow(
    guess: Seq<char>,
    status: Seq<char>,
    colored: Seq<i32>,
    answer_count: Seq<i32>,
    i: int,
) -> bool {
    let l = letter_index(guess[i]);
    &&& status[i] != 'G'
    &&& answer_count[l] > 0
    &&& colored[l] + open_count(guess, status, i, l) < answer_count[l]
}

/// Number of positions `i < n` with letter position `l` that `make_yellow`
/// turns yellow.
pub open spec fn yellow_count(
    guess: Seq<char>,
    status: Seq<char>,
    colored: Seq<i32>,
    answer_count: Seq<i32>,
    n: int,
    l: int,
) -> int
    decreases n,
{
    if n <= 0 {
        0
    } else {
        yellow_count(guess, status, colored, answer_count, n - 1, l) + if becomes_yellow(
            guess,
            status,
            colored,
            answer_count,
            n - 1,
        ) && letter_index(guess[n - 1]) == l {
            1int
        } else {
            0int
        }
    }
}

spec fn yellow_bound(
    guess: Seq<char>,
    status: Seq<char>,
    colored: Seq<i32>,
    answer_count: Seq<i32>,
    n: int,
    l: int,
) -> int {
    if 0 <= l < answer_count.len() && answer_count[l] > 0 {
        let room = if answer_count[l] - colored[l] > 0 {
            answer_count[l] - colored[l]
        } else {
            0
        };
        let seen = open_count(guess, status, n, l);
        if seen < room {
            seen
        } else {
            room
        }
    } else {
        0
    }
}

proof fn lemma_yellow_count_bound(
    guess: Seq<char>,
    status: Seq<char>,
    colored: Seq<i32>,
    answer_count: Seq<i32>,
    n: int,
    l: int,
)
    requires
        0 <= n,
        0 <= l,
        forall|k: int|
            0 <= k < n ==> 'a' <= #[trigger] guess[k] && (status[k] != 'G' ==> letter_index(guess[k])
                < answer_count.len()),
    ensures
        yellow_count(guess, status, colored, answer_count, n, l) == yellow_bound(
            guess,
            status,
            colored,
            answer_count,
            n,
            l,
        ),
    decreases n,
{
    if n > 0 {
        let m = n - 1;
        lemma_yellow_count_bound(guess, status, colored, answer_count, m, l);
        lemma_open_count_nonneg(guess, status, m, l);
        if l == letter_index(guess[m]) {
            if status[m] != 'G' {
                assert(open_count(guess, status, n, l) == open_count(guess, status, m, l) + 1);
            } else {
                assert(open_count(guess, status, n, l) == open_count(guess, status, m, l));
                assert(!becomes_yellow(guess, status, colored, answer_count, m));
            }
        } else {
            assert(open_count(guess, status, n, l) == open_count(guess, status, m, l));
        }
    }
}

/// Statuses after `make_yellow`: the first five positions that
/// `becomes_yellow` selects are `'Y'`; all others stay.
pub open spec fn yellow_status(
    guess: Seq<char>,
    status: Seq<char>,
    colored: Seq<i32>,
    answer_count: Seq<i32>,
) -> Seq<char> {
    Seq::new(
        status.len(),
        |i: int|
            if i < WORD_LEN && becomes_yellow(guess, status, colored, answer_count, i) {
                'Y'
            } else {
                status[i]
            },
    )
}

/// Letter counts after `make_yellow`: each letter's count grows by the number
/// of positions holding it that turned yellow.
pub open spec fn yellow_colored(
    guess: Seq<char>,
    status: Seq<char>,
    colored: Seq<i32>,
    answer_count: Seq<i32>,
) -> Seq<i32> {
    Seq::new(
        colored.len(),
        |l: int|
            (colored[l] + yellow_count(guess, status, colored, answer_count, WORD_LEN as int, l)) as i32,
    )
}

/// Turns yellow each of the first five non-green positions whose letter the
/// answer still has uncoloured occurrences of, and counts them in `colored`.
pub fn make_yellow(
    user_status: &mut Vec<char>,
    colored: &mut Vec<i32>,
    guess_chars: &Vec<char>,
    answer_count: &Vec<i32>,
)
    requires
        old(user_status).len() >= WORD_LEN,
        guess_chars.len() >= WORD_LEN,
        forall|i: int|
            0 <= i < WORD_LEN ==> 'a' <= #[trigger] guess_chars[i] && (old(user_status)[i] != 'G'
                ==> letter_index(guess_chars[i]) < answer_count.len() && (answer_count[letter_index(
                guess_chars[i],
            )] > 0 ==> letter_index(guess_chars[i]) < old(colored).len())),
    ensures
        final(user_status)@ == yellow_status(
            guess_chars@,
            old(user_status)@,
            old(colored)@,
            answer_count@,
        ),
        final(colored)@ == yellow_colored(
            guess_chars@,
            old(user_status)@,
            old(colored)@,
            answer_count@,
        ),
{
    let ghost c0 = colored@;
    let ghost s0 = user_status@;
    let ghost g = guess_chars@;
    let ghost ac = answer_count@;
    let mut i: usize = 0;
    while i < WORD_LEN
        invariant
            0 <= i <= WORD_LEN,
            g == guess_chars@,
            ac == answer_count@,
            g.len() >= WORD_LEN,
            s0.len() >= WORD_LEN,
            user_status.len() == s0.len(),
            colored.len() == c0.len(),
            forall|k: int|
                0 <= k < WORD_LEN ==> 'a' <= #[trigger] g[k] && (s0[k] != 'G' ==> letter_index(g[k])
                    < ac.len() && (ac[letter_index(g[k])] > 0 ==> letter_index(g[k]) < c0.len())),
            forall|k: int|
                0 <= k < i ==> #[trigger] user_status[k] == if becomes_yellow(g, s0, c0, ac, k) {
                    'Y'
                } else {
                    s0[k]
                },
            forall|k: int| i <= k < s0.len() ==> #[trigger] user_status[k] == s0[k],
            forall|l: int|
                0 <= l < c0.len() ==> #[trigger] colored[l] == c0[l] + yellow_count(
                    g,
                    s0,
                    c0,
                    ac,
                    i as int,
                    l,
                ),
        decreases WORD_LEN - i,
    {
        let ghost ii = i as int;
        let idx = letter_pos(guess_chars[i]);
        proof {
            lemma_yellow_count_bound(g, s0, c0, ac, ii, idx as int);
            lemma_open_count_nonneg(g, s0, ii, idx as int);
        }
        if user_status[i] != 'G' {
            if answer_count[idx] > 0 && colored[idx] < answer_count[idx] {
                user_status.set(i, 'Y');
                colored.set(idx, colored[idx] + 1);
            }
        }
        i = i + 1;
    }
    assert(user_status@ =~= yellow_status(g, s0, c0, ac));
    assert(colored@ =~= yellow_colored(g, s0, c0, ac));
}

/// Score of status character `c`: the value of its first entry in
/// `scores`, if any.
pub open spec fn score_of(scores: Seq<(char, i32)>, c: char) -> Option<i32> {
    score_in_prefix(scores, c, scores.len() as int)
}

/// Value of the first entry for `c` among the first `n` entries of `scores`.
pub open spec fn score_in_prefix(scores: Seq<(char, i32)>, c: char, n: int) -> Option<i32>
    decreases n,
{
    if n <= 0 {
        None
    } else {
        match score_in_prefix(scores, c, n - 1) {
            Some(v) => Some(v),
            None => if scores[n - 1].0 == c {
                Some(scores[n - 1].1)
            } else {
                None
            },
        }
    }
}

/// Order of optional scores: no score ranks below any score.
pub open spec fn score_less(a: Option<i32>, b: Option<i32>) -> bool {
    match (a, b) {
        (None, Some(_)) => true,
        (Some(x), Some(y)) => x < y,
        _ => false,
    }
}

/// Keyboard after the first `n` positions of a guess were applied: a key
/// takes the position's status when that status scores strictly higher than
/// the key's current one.
pub open spec fn keyboard_after(
    keyboard: Seq<char>,
    user_status: Seq<char>,
    guess: Seq<char>,
    scores: Seq<(char, i32)>,
    n: int,
) -> Seq<char>
    decreases n,
{
    if n <= 0 {
        keyboard
    } else {
        let k = keyboard_after(keyboard, user_status, guess, scores, n - 1);
        let idx = letter_index(guess[n - 1]);
        if score_less(score_of(scores, k[idx]), score_of(scores, user_status[n - 1])) {
            k.update(idx, user_status[n - 1])
        } else {
            k
        }
    }
}

proof fn lemma_score_prefix_stable(scores: Seq<(char, i32)>, c: char, m: int, n: int)
    requires
        0 <= m <= n,
        score_in_prefix(scores, c, m) is Some,
    ensures
        score_in_prefix(scores, c, n) == score_in_prefix(scores, c, m),
    decreases n,
{
    if m < n {
        lemma_score_prefix_stable(scores, c, m, n - 1);
    }
}

proof fn lemma_keyboard_never_lowers(
    keyboard: Seq<char>,
    user_status: Seq<char>,
    guess: Seq<char>,
    scores: Seq<(char, i32)>,
    n: int,
)
    requires
        0 <= n <= WORD_LEN,
        forall|i: int|
            0 <= i < WORD_LEN ==> 'a' <= #[trigger] guess[i] && letter_index(guess[i])
                < keyboard.len(),
    ensures
        keyboard_after(keyboard, user_status, guess, scores, n).len() == keyboard.len(),
        forall|l: int|
            0 <= l < keyboard.len() ==> !score_less(
                score_of(scores, #[trigger] keyboard_after(keyboard, user_status, guess, scores, n)[l]),
                score_of(scores, keyboard[l]),
            ),
    decreases n,
{
    if n > 0 {
        lemma_keyboard_never_lowers(keyboard, user_status, guess, scores, n - 1);
    }
}

/// Score of status character `c` in `scores`.
fn lookup_score(scores: &Vec<(char, i32)>, c: char) -> (r: Option<i32>)
    ensures
        r == score_of(scores@, c),
{
    let mut i: usize = 0;
    while i < scores.len()
        invariant
            0 <= i <= scores.len(),
            score_in_prefix(scores@, c, i as int) is None,
        decreases scores.len() - i,
    {
        if scores[i].0 == c {
            proof {
                lemma_score_prefix_stable(scores@, c, i + 1, scores.len() as int);
            }
            return Some(scores[i].1);
        }
        i = i + 1;
    }
    None
}

/// Raises the key of each of the first five guessed letters to the status
/// of that position when the status scores strictly higher.
pub fn update_keyboard_status(
    keyboard_status: &mut Vec<char>,
    user_status: &Vec<char>,
    guess_chars: &Vec<char>,
    scores: &Vec<(char, i32)>,
)
    requires
        user_status.len() >= WORD_LEN,
        guess_chars.len() >= WORD_LEN,
        forall|i: int|
            0 <= i < WORD_LEN ==> 'a' <= #[trigger] guess_chars[i] && letter_index(guess_chars[i])
                < old(keyboard_status).len(),
    ensures
        final(keyboard_status)@ == keyboard_after(
            old(keyboard_status)@,
            user_status@,
            guess_chars@,
            scores@,
            WORD_LEN as int,
        ),
        final(keyboard_status).len() == old(keyboard_status).len(),
        forall|l: int|
            0 <= l < old(keyboard_status).len() ==> !score_less(
                score_of(scores@, #[trigger] final(keyboard_status)[l]),
                score_of(scores@, old(keyboard_status)[l]),
            ),
{
    let ghost k0 = keyboard_status@;
    proof {
        lemma_keyboard_never_lowers(k0, user_status@, guess_chars@, scores@, WORD_LEN as int);
    }
    let mut i: usize = 0;
    while i < WORD_LEN
        invariant
            0 <= i <= WORD_LEN,
            user_status.len() >= WORD_LEN,
            guess_chars.len() >= WORD_LEN,
            keyboard_status.len() == k0.len(),
            forall|k: int|
                0 <= k < WORD_LEN ==> 'a' <= #[trigger] guess_chars[k] && letter_index(guess_chars[k])
                    < k0.len(),
            keyboard_status@ == keyboard_after(k0, user_status@, guess_chars@, scores@, i as int),
        decreases WORD_LEN - i,
    {
        let idx = letter_pos(guess_chars[i]);
        let old_score = lookup_score(scores, keyboard_status[idx]);
        let new_score = lookup_score(scores, user_status[i]);
        let raise = match (old_score, new_score) {
            (None, Some(_)) => true,
            (Some(x), Some(y)) => x < y,
            _ => false,
        };
        if raise {
            keyboard_status.set(idx, user_status[i]);
        }
        i = i + 1;
    }
}

/// Number of positions `i < n` holding the letter with alphabet position `l`
/// and marked yellow or green.
pub open spec fn present_count(word: Seq<char>, status: Seq<char>, n: int, l: int) -> int
    decreases n,
{
    if n <= 0 {
        0
    } else {
        present_count(word, status, n - 1, l) + if letter_index(word[n - 1]) == l && (status[n
            - 1] == 'Y' || status[n - 1] == 'G') {
            1int
        } else {
            0int
        }
    }
}

/// A green position of the last guess is not green in this one.
pub open spec fn drops_green(last_status: Seq<char>, status: Seq<char>) -> bool {
    exists|i: int| 0 <= i < WORD_LEN && last_status[i] == 'G' && status[i] != 'G'
}

/// Some letter was found (yellow or green) fewer times in this guess than in
/// the last one.
pub open spec fn drops_found_letter(
    last_word: Seq<char>,
    last_status: Seq<char>,
    word: Seq<char>,
    status: Seq<char>,
) -> bool {
    exists|l: int|
        0 <= l < ALPHABET && #[trigger] present_count(last_word, last_status, WORD_LEN as int, l)
            > present_count(word, status, WORD_LEN as int, l)
}

/// Whether a guess breaks the hard-mode rule: every green of the last guess
/// stays green, and after the first guess every letter found so far is
/// found at least as often again.
pub open spec fn breaks_hard_mode(
    total_guessing_count: i32,
    last_status: Seq<char>,
    last_word: Seq<char>,
    status: Seq<char>,
    word: Seq<char>,
) -> bool {
    drops_green(last_status, status) || (total_guessing_count >= 1 && drops_found_letter(
        last_word,
        last_status,
        word,
        status,
    ))
}

proof fn lemma_present_count_bound(word: Seq<char>, status: Seq<char>, n: int, l: int)
    requires
        n >= 0,
    ensures
        0 <= present_count(word, status, n, l) <= n,
    decreases n,
{
    if n > 0 {
        lemma_present_count_bound(word, status, n - 1, l);
    }
}

/// A letter found at some position among the first `n` is counted there.
proof fn lemma_present_count_positive(word: Seq<char>, status: Seq<char>, n: int, p: int)
    requires
        0 <= p < n,
        status[p] == 'Y' || status[p] == 'G',
    ensures
        present_count(word, status, n, letter_index(word[p])) >= 1,
    decreases n,
{
    if p < n - 1 {
        lemma_present_count_positive(word, status, n - 1, p);
        lemma_present_count_bound(word, status, n - 1, letter_index(word[p]));
    } else {
        lemma_present_count_bound(word, status, n - 1, letter_index(word[p]));
    }
}

/// A letter found at two different positions among the first `n` is
/// counted twice.
proof fn lemma_present_count_two(word: Seq<char>, status: Seq<char>, n: int, p: int, q: int)
    requires
        0 <= p < q < n,
        status[p] == 'Y' || status[p] == 'G',
        status[q] == 'Y' || status[q] == 'G',
        word[p] == word[q],
    ensures
        present_count(word, status, n, letter_index(word[p])) >= 2,
    decreases n,
{
    if q < n - 1 {
        lemma_present_count_two(word, status, n - 1, p, q);
    } else {
        lemma_present_count_positive(word, status, n - 1, p);
    }
}

/// A letter found at no position among the first `n`, except perhaps at
/// `r`, is counted at most once.
proof fn lemma_present_count_at_most_one(
    word: Seq<char>,
    status: Seq<char>,
    n: int,
    l: int,
    r: int,
)
    requires
        0 <= n,
        forall|i: int|
            0 <= i < n && i != r && letter_index(#[trigger] word[i]) == l ==> status[i] != 'Y'
                && status[i] != 'G',
    ensures
        present_count(word, status, n, l) <= if 0 <= r < n {
            1int
        } else {
            0int
        },
    decreases n,
{
    if n > 0 {
        lemma_present_count_at_most_one(word, status, n - 1, l, r);
    }
}

/// Hard mode keeps every green: when the previous guess was green at one of
/// the five positions and this guess is not green there (yellow or grey
/// alike), the guess breaks the rule, whatever else it does.
pub proof fn lemma_hard_mode_keeps_greens(
    total_guessing_count: i32,
    last_status: Seq<char>,
    last_word: Seq<char>,
    status: Seq<char>,
    word: Seq<char>,
    i: int,
)
    requires
        0 <= i < 5,
        last_status[i] == 'G',
        status[i] != 'G',
    ensures
        breaks_hard_mode(total_guessing_count, last_status, last_word, status, word),
{
    assert(drops_green(last_status, status));
}

/// Hard mode keeps every found letter: after the first guess, when the
/// previous guess found a letter (yellow or green) and this guess finds that
/// letter nowhere, the guess breaks the rule.
pub proof fn lemma_hard_mode_keeps_found_letters(
    total_guessing_count: i32,
    last_status: Seq<char>,
    last_word: Seq<char>,
    status: Seq<char>,
    word: Seq<char>,
    p: int,
)
    requires
        total_guessing_count >= 1,
        0 <= p < 5,
        last_status[p] == 'Y' || last_status[p] == 'G',
        'a' <= last_word[p] <= 'z',
        forall|i: int|
            0 <= i < 5 && letter_index(#[trigger] word[i]) == letter_index(last_word[p])
                ==> status[i] != 'Y' && status[i] != 'G',
    ensures
        breaks_hard_mode(total_guessing_count, last_status, last_word, status, word),
{
    let l = letter_index(last_word[p]);
    lemma_present_count_positive(last_word, last_status, 5, p);
    lemma_present_count_at_most_one(word, status, 5, l, -1);
    assert(present_count(last_word, last_status, WORD_LEN as int, l) > present_count(
        word,
        status,
        WORD_LEN as int,
        l,
    ));
    assert(drops_found_letter(last_word, last_status, word, status));
}

/// Hard mode keeps found letters as often as they were found: after the
/// first guess, when the previous guess found a letter at two positions and
/// this guess finds it at one position at most, the guess breaks the rule.
pub proof fn lemma_hard_mode_keeps_repeated_letters(
    total_guessing_count: i32,
    last_status: Seq<char>,
    last_word: Seq<char>,
    status: Seq<char>,
    word: Seq<char>,
    p: int,
    q: int,
    r: int,
)
    requires
        total_guessing_count >= 1,
        0 <= p < q < 5,
        last_status[p] == 'Y' || last_status[p] == 'G',
        last_status[q] == 'Y' || last_status[q] == 'G',
        last_word[p] == last_word[q],
        'a' <= last_word[p] <= 'z',
        forall|i: int|
            0 <= i < 5 && i != r && letter_index(#[trigger] word[i]) == letter_index(last_word[p])
                ==> status[i] != 'Y' && status[i] != 'G',
    ensures
        breaks_hard_mode(total_guessing_count, last_status, last_word, status, word),
{
    let l = letter_index(last_word[p]);
    lemma_present_count_two(last_word, last_status, 5, p, q);
    lemma_present_count_at_most_one(word, status, 5, l, r);
    assert(present_count(last_word, last_status, WORD_LEN as int, l) > present_count(
        word,
        status,
        WORD_LEN as int,
        l,
    ));
    assert(drops_found_letter(last_word, last_status, word, status));
}

/// The first guess of a round is free in hard mode: with no guess before
/// and no green on record, nothing is refused.
pub proof fn lemma_first_guess_is_free(
    last_status: Seq<char>,
    last_word: Seq<char>,
    status: Seq<char>,
    word: Seq<char>,
)
    requires
        forall|i: int| 0 <= i < 5 ==> last_status[i] != 'G',
    ensures
        !breaks_hard_mode(0, last_status, last_word, status, word),
{
}

/// Counts, for each letter, the positions marked yellow or green.
fn found_letter_counts(word: &Vec<char>, status: &Vec<char>) -> (r: Vec<i32>)
    requires
        word.len() >= WORD_LEN,
        status.len() >= WORD_LEN,
        forall|i: int|
            0 <= i < WORD_LEN ==> 'a' <= #[trigger] word[i] && letter_index(word[i]) < ALPHABET,
    ensures
        r.len() == ALPHABET,
        forall|l: int|
            0 <= l < ALPHABET ==> #[trigger] r[l] == present_count(
                word@,
                status@,
                WORD_LEN as int,
                l,
            ),
{
    let mut cnt: Vec<i32> = Vec::new();
    let mut l: usize = 0;
    while l < ALPHABET
        invariant
            0 <= l <= ALPHABET,
            cnt.len() == l,
            forall|k: int| 0 <= k < l ==> #[trigger] cnt[k] == 0,
        decreases ALPHABET - l,
    {
        cnt.push(0);
        l = l + 1;
    }
    let mut i: usize = 0;
    while i < WORD_LEN
        invariant
            0 <= i <= WORD_LEN,
            word.len() >= WORD_LEN,
            status.len() >= WORD_LEN,
            forall|k: int|
                0 <= k < WORD_LEN ==> 'a' <= #[trigger] word[k] && letter_index(word[k]) < ALPHABET,
            cnt.len() == ALPHABET,
            forall|k: int|
                0 <= k < ALPHABET ==> #[trigger] cnt[k] == present_count(word@, status@, i as int, k),
        decreases WORD_LEN - i,
    {
        let idx = letter_pos(word[i]);
        proof {
            lemma_present_count_bound(word@, status@, i as int, idx as int);
        }
        if status[i] == 'Y' || status[i] == 'G' {
            cnt.set(idx, cnt[idx] + 1);
        }
        i = i + 1;
    }
    cnt
}

/// Hard-mode check of a guess against the previous one: when hard mode is on
/// and the guess breaks the rule (see `breaks_hard_mode`), sets
/// `fail_difficult` to 1; otherwise leaves it unchanged.
pub fn check_difficult(
    difficult_on: &bool,
    fail_difficult: &mut i32,
    total_guessing_count: &i32,
    last_user_guess_status: &Vec<char>,
    last_user_guess_word: &Vec<char>,
    user_status: &Vec<char>,
    guess_chars: &Vec<char>,
)
    requires
        *difficult_on ==> last_user_guess_status.len() >= WORD_LEN && user_status.len()
            >= WORD_LEN,
        *difficult_on && *total_guessing_count >= 1 ==> {
            &&& last_user_guess_word.len() >= WORD_LEN
            &&& guess_chars.len() >= WORD_LEN
            &&& forall|i: int|
                0 <= i < WORD_LEN ==> 'a' <= #[trigger] last_user_guess_word[i] && letter_index(
                    last_user_guess_word[i],
                ) < ALPHABET
            &&& forall|i: int|
                0 <= i < WORD_LEN ==> 'a' <= #[trigger] guess_chars[i] && letter_index(
                    guess_chars[i],
                ) < ALPHABET
        },
    ensures
        *final(fail_difficult) == if *difficult_on && breaks_hard_mode(
            *total_guessing_count,
            last_user_guess_status@,
            last_user_guess_word@,
            user_status@,
            guess_chars@,
        ) {
            1
        } else {
            *old(fail_difficult)
        },
{
    if !*difficult_on {
        return;
    }
    let ghost f0 = *fail_difficult;
    let mut i: usize = 0;
    let mut green_lost = false;
    while i < WORD_LEN
        invariant
            0 <= i <= WORD_LEN,
            last_user_guess_status.len() >= WORD_LEN,
            user_status.len() >= WORD_LEN,
            green_lost == exists|k: int|
                0 <= k < i && last_user_guess_status[k] == 'G' && user_status[k] != 'G',
        decreases WORD_LEN - i,
    {
        if last_user_guess_status[i] == 'G' && user_status[i] != 'G' {
            green_lost = true;
        }
        i = i + 1;
    }
    if green_lost {
        *fail_difficult = 1;
    }
    if *total_guessing_count >= 1 {
        let last_cnt = found_letter_counts(last_user_guess_word, last_user_guess_status);
        let curr_cnt = found_letter_counts(guess_chars, user_status);
        let mut l: usize = 0;
        let mut letter_lost = false;
        while l < ALPHABET
            invariant
                0 <= l <= ALPHABET,
                last_cnt.len() == ALPHABET,
                curr_cnt.len() == ALPHABET,
                forall|k: int|
                    0 <= k < ALPHABET ==> #[trigger] last_cnt[k] == present_count(
                        last_user_guess_word@,
                        last_user_guess_status@,
                        WORD_LEN as int,
                        k,
                    ),
                forall|k: int|
                    0 <= k < ALPHABET ==> #[trigger] curr_cnt[k] == present_count(
                        guess_chars@,
                        user_status@,
                        WORD_LEN as int,
                        k,
                    ),
                letter_lost == exists|k: int| 0 <= k < l && #[trigger] last_cnt[k] > curr_cnt[k],
            decreases ALPHABET - l,
        {
            if last_cnt[l] > curr_cnt[l] {
                letter_lost = true;
            }
            l = l + 1;
        }
        if letter_lost {
            *fail_difficult = 1;
        }
        proof {
            if letter_lost {
                let k = choose|k: int| 0 <= k < ALPHABET && #[trigger] last_cnt[k] > curr_cnt[k];
                assert(present_count(
                    last_user_guess_word@,
                    last_user_guess_status@,
                    WORD_LEN as int,
                    k,
                ) > present_count(guess_chars@, user_status@, WORD_LEN as int, k));
            } else {
                assert forall|k: int| 0 <= k < ALPHABET implies !(#[trigger] present_count(
                    last_user_guess_word@,
                    last_user_guess_status@,
                    WORD_LEN as int,
                    k,
                ) > present_count(guess_chars@, user_status@, WORD_LEN as int, k)) by {
                    assert(!(last_cnt[k] > curr_cnt[k]));
                }
            }
        }
    }
    assert(f0 == *old(fail_difficult));
}

/// Number of positions `i < n` of `word` holding the letter with alphabet
/// position `l`.
pub open spec fn letter_count(word: Seq<char>, n: int, l: int) -> int
    decreases n,
{
    if n <= 0 {
        0
    } else {
        letter_count(word, n - 1, l) + if letter_index(word[n - 1]) == l {
            1int
        } else {
            0int
        }
    }
}

/// How often each letter of the alphabet occurs in the five letters of
/// `answer`.
pub open spec fn answer_letter_counts(answer: Seq<char>) -> Seq<i32> {
    Seq::new(ALPHABET as nat, |l: int| letter_count(answer, WORD_LEN as int, l) as i32)
}

/// Statuses of a guess coloured against an answer: green first, starting
/// from no coloured letters, then yellow against the answer's letter counts.
pub open spec fn colouring(guess: Seq<char>, answer: Seq<char>, status: Seq<char>) -> Seq<char> {
    let s1 = green_status(guess, answer, status);
    let c1 = green_colored(guess, answer, Seq::new(ALPHABET as nat, |l: int| 0i32));
    yellow_status(guess, s1, c1, answer_letter_counts(answer))
}

/// A word of five lower-case letters.
pub open spec fn is_lower_word(word: Seq<char>) -> bool {
    &&& word.len() == WORD_LEN
    &&& forall|i: int| 0 <= i < WORD_LEN ==> 'a' <= #[trigger] word[i] <= 'z'
}

proof fn lemma_letter_count_bound(word: Seq<char>, n: int, l: int)
    requires
        n >= 0,
    ensures
        0 <= letter_count(word, n, l) <= n,
    decreases n,
{
    if n > 0 {
        lemma_letter_count_bound(word, n - 1, l);
    }
}

proof fn lemma_green_within_answer(guess: Seq<char>, answer: Seq<char>, n: int, l: int)
    requires
        n >= 0,
    ensures
        green_count(guess, answer, n, l) <= letter_count(answer, n, l),
    decreases n,
{
    if n > 0 {
        lemma_green_within_answer(guess, answer, n - 1, l);
    }
}

proof fn lemma_open_plus_green(guess: Seq<char>, answer: Seq<char>, status: Seq<char>, n: int, l: int)
    requires
        0 <= n <= WORD_LEN,
        status.len() >= WORD_LEN,
    ensures
        open_count(guess, green_status(guess, answer, status), n, l) + green_count(
            guess,
            answer,
            n,
            l,
        ) == letter_count(guess, n, l),
    decreases n,
{
    if n > 0 {
        lemma_open_plus_green(guess, answer, status, n - 1, l);
    }
}

proof fn lemma_found_is_green_plus_yellow(
    guess: Seq<char>,
    answer: Seq<char>,
    status: Seq<char>,
    n: int,
    l: int,
)
    requires
        0 <= n <= WORD_LEN,
        status.len() >= WORD_LEN,
    ensures
        ({
            let s1 = green_status(guess, answer, status);
            let c1 = green_colored(guess, answer, Seq::new(ALPHABET as nat, |l: int| 0i32));
            let ac = answer_letter_counts(answer);
            present_count(guess, yellow_status(guess, s1, c1, ac), n, l) == green_count(
                guess,
                answer,
                n,
                l,
            ) + yellow_count(guess, s1, c1, ac, n, l)
        }),
    decreases n,
{
    if n > 0 {
        lemma_found_is_green_plus_yellow(guess, answer, status, n - 1, l);
    }
}

/// Wordle colouring: with no letter coloured yet and the answer's letter
/// counts, `make_green` followed by `make_yellow` marks green exactly the
/// positions where guess and answer agree, gives every position one of green,
/// yellow or grey (`'R'`), and finds each letter (green or yellow) as many
/// times as it occurs in the guess or in the answer, whichever is fewer.
pub proof fn lemma_colouring_finds_common_letters(
    guess: Seq<char>,
    answer: Seq<char>,
    status: Seq<char>,
)
    requires
        is_lower_word(guess),
        is_lower_word(answer),
        status.len() >= WORD_LEN,
    ensures
        forall|i: int|
            0 <= i < WORD_LEN ==> (#[trigger] colouring(guess, answer, status)[i] == 'G') == (
            guess[i] == answer[i]),
        forall|i: int|
            0 <= i < WORD_LEN ==> #[trigger] colouring(guess, answer, status)[i] == 'G'
                || colouring(guess, answer, status)[i] == 'Y' || colouring(guess, answer, status)[i]
                == 'R',
        forall|l: int|
            0 <= l < ALPHABET ==> #[trigger] present_count(
                guess,
                colouring(guess, answer, status),
                WORD_LEN as int,
                l,
            ) == if letter_count(guess, WORD_LEN as int, l) < letter_count(
                answer,
                WORD_LEN as int,
                l,
            ) {
                letter_count(guess, WORD_LEN as int, l)
            } else {
                letter_count(answer, WORD_LEN as int, l)
            },
{
    let n = WORD_LEN as int;
    let s1 = green_status(guess, answer, status);
    let zero = Seq::new(ALPHABET as nat, |l: int| 0i32);
    let c1 = green_colored(guess, answer, zero);
    let ac = answer_letter_counts(answer);
    assert forall|l: int| 0 <= l < ALPHABET implies #[trigger] present_count(
        guess,
        colouring(guess, answer, status),
        n,
        l,
    ) == if letter_count(guess, n, l) < letter_count(answer, n, l) {
        letter_count(guess, n, l)
    } else {
        letter_count(answer, n, l)
    } by {
        lemma_found_is_green_plus_yellow(guess, answer, status, n, l);
        lemma_open_plus_green(guess, answer, status, n, l);
        lemma_green_within_answer(guess, answer, n, l);
        lemma_green_count_mono(guess, answer, n, n, l);
        lemma_letter_count_bound(answer, n, l);
        lemma_letter_count_bound(guess, n, l);
        assert forall|k: int|
            0 <= k < n implies 'a' <= #[trigger] guess[k] && (s1[k] != 'G' ==> letter_index(guess[k])
            < ac.len()) by {}
        lemma_yellow_count_bound(guess, s1, c1, ac, n, l);
        assert(ac[l] == letter_count(answer, n, l));
        assert(c1[l] == green_count(guess, answer, n, l));
    }
}

/// Guessing the answer itself colours all five positions green.
pub proof fn lemma_answer_is_all_green(answer: Seq<char>, status: Seq<char>)
    requires
        is_lower_word(answer),
        status.len() >= WORD_LEN,
    ensures
        forall|i: int| 0 <= i < WORD_LEN ==> #[trigger] colouring(answer, answer, status)[i] == 'G',
{
    lemma_colouring_finds_common_letters(answer, answer, status);
}

/// Repeating the previous guess with the same colours never breaks the
/// hard-mode rule.
pub proof fn lemma_same_guess_keeps_hard_mode(
    total_guessing_count: i32,
    status: Seq<char>,
    word: Seq<char>,
)
    ensures
        !breaks_hard_mode(total_guessing_count, status, word, status, word),
{
}

/// How often each letter occurs in the five letters of `answer`.
pub fn letter_counts(answer: &Vec<char>) -> (r: Vec<i32>)
    requires
        is_lower_word(answer@),
    ensures
        r@ == answer_letter_counts(answer@),
{
    let mut counts: Vec<i32> = Vec::new();
    let mut l: usize = 0;
    while l < ALPHABET
        invariant
            0 <= l <= ALPHABET,
            counts.len() == l,
            forall|k: int| 0 <= k < l ==> #[trigger] counts[k] == 0,
        decreases ALPHABET - l,
    {
        counts.push(0);
        l = l + 1;
    }
    let mut i: usize = 0;
    while i < WORD_LEN
        invariant
            0 <= i <= WORD_LEN,
            is_lower_word(answer@),
            counts.len() == ALPHABET,
            forall|k: int| 0 <= k < ALPHABET ==> #[trigger] counts[k] == letter_count(answer@, i as int, k),
        decreases WORD_LEN - i,
    {
        let idx = letter_pos(answer[i]);
        proof {
            lemma_letter_count_bound(answer@, i as int, idx as int);
        }
        counts.set(idx, counts[idx] + 1);
        i = i + 1;
    }
    proof {
        assert forall|k: int| 0 <= k < ALPHABET implies #[trigger] counts@[k] == answer_letter_counts(answer@)[k] by {
            lemma_letter_count_bound(answer@, WORD_LEN as int, k);
        }
        assert(counts@ =~= answer_letter_counts(answer@));
    }
    counts
}

/// The colours of a guess against the answer: `make_green` then
/// `make_yellow`, starting from five grey positions and no coloured letter.
pub fn colour_guess(guess_chars: &Vec<char>, answer_chars: &Vec<char>) -> (r: Vec<char>)
    requires
        is_lower_word(guess_chars@),
        is_lower_word(answer_chars@),
    ensures
        r@ == colouring(guess_chars@, answer_chars@, Seq::new(WORD_LEN as nat, |i: int| 'R')),
{
    let mut status: Vec<char> = Vec::new();
    let mut colored: Vec<i32> = Vec::new();
    let mut i: usize = 0;
    while i < WORD_LEN
        invariant
            0 <= i <= WORD_LEN,
            status.len() == i,
            forall|k: int| 0 <= k < i ==> #[trigger] status[k] == 'R',
        decreases WORD_LEN - i,
    {
        status.push('R');
        i = i + 1;
    }
    let mut l: usize = 0;
    while l < ALPHABET
        invariant
            0 <= l <= ALPHABET,
            colored.len() == l,
            forall|k: int| 0 <= k < l ==> #[trigger] colored[k] == 0,
        decreases ALPHABET - l,
    {
        colored.push(0);
        l = l + 1;
    }
    let ghost s0 = status@;
    proof {
        assert(s0 =~= Seq::new(WORD_LEN as nat, |i: int| 'R'));
        assert(colored@ =~= Seq::new(ALPHABET as nat, |l: int| 0i32));
        assert forall|j: int| 0 <= j < colored.len() implies #[trigger] colored@[j] + green_count(
            guess_chars@,
            answer_chars@,
            WORD_LEN as int,
            j,
        ) <= i32::MAX by {
            lemma_green_count_mono(guess_chars@, answer_chars@, WORD_LEN as int, WORD_LEN as int, j);
            lemma_green_within_answer(guess_chars@, answer_chars@, WORD_LEN as int, j);
            lemma_letter_count_bound(answer_chars@, WORD_LEN as int, j);
        }
    }
    make_green(&mut status, &mut colored, guess_chars, answer_chars);
    let counts = letter_counts(answer_chars);
    make_yellow(&mut status, &mut colored, guess_chars, &counts);
    status
}

proof fn lemma_keyboard_covers_guess(
    keyboard: Seq<char>,
    user_status: Seq<char>,
    guess: Seq<char>,
    scores: Seq<(char, i32)>,
    n: int,
)
    requires
        0 <= n <= WORD_LEN,
        forall|i: int|
            0 <= i < WORD_LEN ==> 'a' <= #[trigger] guess[i] && letter_index(guess[i])
                < keyboard.len(),
    ensures
        keyboard_after(keyboard, user_status, guess, scores, n).len() == keyboard.len(),
        forall|i: int|
            0 <= i < n ==> !score_less(
                score_of(
                    scores,
                    keyboard_after(keyboard, user_status, guess, scores, n)[letter_index(
                        #[trigger] guess[i],
                    )],
                ),
                score_of(scores, user_status[i]),
            ),
    decreases n,
{
    if n > 0 {
        let m = n - 1;
        lemma_keyboard_covers_guess(keyboard, user_status, guess, scores, m);
        let k = keyboard_after(keyboard, user_status, guess, scores, m);
        let idx = letter_index(guess[m]);
        let kn = keyboard_after(keyboard, user_status, guess, scores, n);
        assert forall|i: int| 0 <= i < n implies !score_less(
            score_of(scores, kn[letter_index(#[trigger] guess[i])]),
            score_of(scores, user_status[i]),
        ) by {
            if i < m && letter_index(guess[i]) == idx && score_less(
                score_of(scores, k[idx]),
                score_of(scores, user_status[m]),
            ) {
                assert(kn[idx] == user_status[m]);
                assert(!score_less(score_of(scores, k[idx]), score_of(scores, user_status[i])));
            }
        }
    }
}

proof fn lemma_keyboard_settled(
    keyboard: Seq<char>,
    user_status: Seq<char>,
    guess: Seq<char>,
    scores: Seq<(char, i32)>,
    n: int,
)
    requires
        0 <= n <= WORD_LEN,
        forall|i: int|
            0 <= i < WORD_LEN ==> 'a' <= #[trigger] guess[i] && letter_index(guess[i])
                < keyboard.len(),
        forall|i: int|
            0 <= i < WORD_LEN ==> !score_less(
                score_of(scores, keyboard[letter_index(#[trigger] guess[i])]),
                score_of(scores, user_status[i]),
            ),
    ensures
        keyboard_after(keyboard, user_status, guess, scores, n) == keyboard,
    decreases n,
{
    if n > 0 {
        lemma_keyboard_settled(keyboard, user_status, guess, scores, n - 1);
        assert(!score_less(
            score_of(scores, keyboard[letter_index(guess[n - 1])]),
            score_of(scores, user_status[n - 1]),
        ));
    }
}

/// Applying the same guess to the keyboard a second time changes nothing:
/// after one application every guessed key already scores at least as high
/// as the status of each position holding its letter.
pub proof fn lemma_keyboard_update_idempotent(
    keyboard: Seq<char>,
    user_status: Seq<char>,
    guess: Seq<char>,
    scores: Seq<(char, i32)>,
)
    requires
        user_status.len() >= WORD_LEN,
        guess.len() >= WORD_LEN,
        forall|i: int|
            0 <= i < WORD_LEN ==> 'a' <= #[trigger] guess[i] && letter_index(guess[i])
                < keyboard.len(),
    ensures
        keyboard_after(
            keyboard_after(keyboard, user_status, guess, scores, WORD_LEN as int),
            user_status,
            guess,
            scores,
            WORD_LEN as int,
        ) == keyboard_after(keyboard, user_status, guess, scores, WORD_LEN as int),
{
    let k1 = keyboard_after(keyboard, user_status, guess, scores, WORD_LEN as int);
    lemma_keyboard_covers_guess(keyboard, user_status, guess, scores, WORD_LEN as int);
    lemma_keyboard_settled(k1, user_status, guess, scores, WORD_LEN as int);
}

/// What becomes of one guess in a round.
pub enum GuessVerdict {
    /// Not counted: not five lower-case letters, not an acceptable word, or
    /// (in hard mode) not using what earlier guesses found.
    Invalid,
    /// Counted, with its colours; `solved` when it is the answer.
    Accepted { status: Vec<char>, solved: bool },
}

/// A guess that can be played: five lower-case letters and an acceptable
/// word.
pub open spec fn is_playable(guess: Seq<char>, acceptable: Seq<String>) -> bool {
    is_lower_word(guess) && texts(acceptable).contains(guess)
}

/// The colours of a guess against the answer, from five grey positions.
pub open spec fn guess_colours(guess: Seq<char>, answer: Seq<char>) -> Seq<char> {
    colouring(guess, answer, Seq::new(WORD_LEN as nat, |i: int| 'R'))
}

fn is_lower_word_exec(cs: &Vec<char>) -> (r: bool)
    ensures
        r == is_lower_word(cs@),
{
    if cs.len() != WORD_LEN {
        return false;
    }
    let mut i: usize = 0;
    while i < WORD_LEN
        invariant
            cs.len() == WORD_LEN,
            0 <= i <= WORD_LEN,
            forall|k: int| 0 <= k < i ==> 'a' <= #[trigger] cs@[k] <= 'z',
        decreases WORD_LEN - i,
    {
        if !('a' <= cs[i] && cs[i] <= 'z') {
            return false;
        }
        i = i + 1;
    }
    true
}

/// Judges one guess of a round: it is refused unless `is_playable`, and in
/// hard mode when it breaks the rule against the previous guess (see
/// `breaks_hard_mode`, with `guess_count` guesses made so far); otherwise it
/// is coloured against the answer, and solved exactly when it is the answer.
pub fn judge_guess(
    guess: &String,
    answer_chars: &Vec<char>,
    acceptable: &Vec<String>,
    difficult: bool,
    guess_count: i32,
    last_status: &Vec<char>,
    last_word: &Vec<char>,
) -> (r: GuessVerdict)
    requires
        is_lower_word(answer_chars@),
        last_status.len() >= WORD_LEN,
        guess_count >= 1 ==> is_lower_word(last_word@),
    ensures
        !is_playable(guess@, acceptable@) ==> r is Invalid,
        is_playable(guess@, acceptable@) ==> if difficult && breaks_hard_mode(
            guess_count,
            last_status@,
            last_word@,
            guess_colours(guess@, answer_chars@),
            guess@,
        ) {
            r is Invalid
        } else {
            r matches GuessVerdict::Accepted { status, solved } && status@ == guess_colours(
                guess@,
                answer_chars@,
            ) && solved == (guess@ == answer_chars@)
        },
{
    let guess_chars = string_chars(guess.as_str());
    if !is_lower_word_exec(&guess_chars) {
        return GuessVerdict::Invalid;
    }
    let mut listed = false;
    let mut i: usize = 0;
    while i < acceptable.len()
        invariant
            0 <= i <= acceptable.len(),
            listed == exists|t: int| 0 <= t < i && #[trigger] acceptable@[t]@ == guess@,
        decreases acceptable.len() - i,
    {
        if acceptable[i] == *guess {
            listed = true;
        }
        i = i + 1;
    }
    proof {
        if listed {
            let t = choose|t: int| 0 <= t < i && #[trigger] acceptable@[t]@ == guess@;
            assert(texts(acceptable@)[t] == guess@);
        } else if texts(acceptable@).contains(guess@) {
            let t = choose|t: int|
                0 <= t < texts(acceptable@).len() && texts(acceptable@)[t] == guess@;
            assert(acceptable@[t]@ == guess@);
        }
    }
    if !listed {
        return GuessVerdict::Invalid;
    }
    let status = colour_guess(&guess_chars, answer_chars);
    let mut fail: i32 = 0;
    check_difficult(
        &difficult,
        &mut fail,
        &guess_count,
        last_status,
        last_word,
        &status,
        &guess_chars,
    );
    if fail == 1 {
        return GuessVerdict::Invalid;
    }
    let mut same = true;
    let mut k: usize = 0;
    while k < WORD_LEN
        invariant
            0 <= k <= WORD_LEN,
            guess_chars.len() == WORD_LEN,
            answer_chars.len() == WORD_LEN,
            same == forall|t: int| 0 <= t < k ==> guess_chars@[t] == answer_chars@[t],
        decreases WORD_LEN - k,
    {
        if guess_chars[k] != answer_chars[k] {
            same = false;
        }
        k = k + 1;
    }
    proof {
        if same {
            assert(guess_chars@ =~= answer_chars@);
        }
    }
    GuessVerdict::Accepted { status, solved: same }
}

} // verus!
