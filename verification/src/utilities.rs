//! Statistics helpers: the most guessed words, loading a saved state, and the
//! word-list coherence check.
use vstd::prelude::*;
use crate::stats::{
    WordFreq,
    entries_map,
    entries_wf,
    lemma_entries_map,
    lemma_counts_positive,
    count_in,
    occurrences,
    count_words,
};
use crate::text::{
    lex_less,
    lemma_lex_less_strict_total,
    str_less,
    lowercase_text,
    to_lowercase,
    to_uppercase,
    uppercase_text,
    decimal_text,
    push_decimal,
    push_char,
};
use crate::words::texts;
use crate::json::{Json, json_field, json_array, json_str, field, as_array, as_str, member_value};
use crate::state::StateError;
use crate::stats::GameStats;
use crate::config::GameConfig;

verus! {

/// `a` is listed before `b`: it was guessed more often, or as often and its
/// text comes first.
pub open spec fn ranks_before(m: Map<Seq<char>, i32>, a: Seq<char>, b: Seq<char>) -> bool {
    m[a] > m[b] || (m[a] == m[b] && lex_less(a, b))
}

/// `r` lists the first `n` words of `m` (all of them if there are fewer) in
/// the `ranks_before` order.
pub open spec fn is_top_keys(m: Map<Seq<char>, i32>, r: Seq<Seq<char>>, n: int) -> bool {
    &&& r.len() == if n < m.dom().len() {
        n
    } else {
        m.dom().len() as int
    }
    &&& forall|i: int| 0 <= i < r.len() ==> m.contains_key(#[trigger] r[i])
    &&& forall|i: int, j: int| 0 <= i < j < r.len() ==> ranks_before(m, #[trigger] r[i], #[trigger] r[j])
    &&& forall|k: Seq<char>|
        m.contains_key(k) && !r.contains(k) ==> forall|i: int|
            0 <= i < r.len() ==> ranks_before(m, #[trigger] r[i], k)
}

spec fn entry_before(x: (String, i32), y: (String, i32)) -> bool {
    x.1 > y.1 || (x.1 == y.1 && lex_less(x.0@, y.0@))
}

spec fn count_true(s: Seq<bool>) -> int
    decreases s.len(),
{
    if s.len() == 0 {
        0
    } else {
        count_true(s.drop_last()) + if s.last() {
            1int
        } else {
            0int
        }
    }
}

proof fn lemma_count_true_set(s: Seq<bool>, j: int)
    requires
        0 <= j < s.len(),
        !s[j],
    ensures
        count_true(s.update(j, true)) == count_true(s) + 1,
    decreases s.len(),
{
    if j < s.len() - 1 {
        assert(s.update(j, true).drop_last() =~= s.drop_last().update(j, true));
        lemma_count_true_set(s.drop_last(), j);
    } else {
        assert(s.update(j, true).drop_last() =~= s.drop_last());
    }
}

proof fn lemma_count_true_bound(s: Seq<bool>)
    ensures
        count_true(s) <= s.len(),
        count_true(s) < s.len() ==> exists|j: int| 0 <= j < s.len() && !#[trigger] s[j],
    decreases s.len(),
{
    if s.len() > 0 {
        lemma_count_true_bound(s.drop_last());
        if count_true(s) < s.len() && s.last() {
            let j = choose|j: int| 0 <= j < s.len() - 1 && !#[trigger] s.drop_last()[j];
            assert(!s[j]);
        }
        if !s.last() {
            assert(!s[s.len() - 1]);
        }
    }
}

proof fn lemma_entry_before_order(x: (String, i32), y: (String, i32), z: (String, i32))
    ensures
        !entry_before(x, x),
        entry_before(x, y) && entry_before(y, z) ==> entry_before(x, z),
        x.0@ != y.0@ && !entry_before(x, y) ==> entry_before(y, x),
{
    lemma_lex_less_strict_total(x.0@, y.0@, z.0@);
    lemma_lex_less_strict_total(y.0@, x.0@, x.0@);
}

fn entry_before_exec(x: &(String, i32), y: &(String, i32)) -> (r: bool)
    ensures
        r == entry_before(*x, *y),
{
    x.1 > y.1 || (x.1 == y.1 && str_less(x.0.as_str(), y.0.as_str()))
}

/// The `n` most guessed words, most guessed first and ties in text order
/// (all words if there are fewer than `n`).
pub fn top_n_keys(map: &WordFreq, n: usize) -> (r: Vec<String>)
    ensures
        is_top_keys(map@, r@.map_values(|s: String| s@), n as int),
{
    let entries = map.entries();
    let ghost e = entries@;
    let ghost m = map@;
    proof {
        lemma_entries_map(e);
    }
    let len = entries.len();
    let k = if n < len {
        n
    } else {
        len
    };
    let mut chosen: Vec<bool> = Vec::new();
    while chosen.len() < len
        invariant
            len == e.len(),
            chosen.len() <= len,
            forall|j: int| 0 <= j < chosen.len() ==> !#[trigger] chosen[j],
        decreases len - chosen.len(),
    {
        chosen.push(false);
    }
    proof {
        assert(count_true(chosen@) == 0) by {
            let s = chosen@;
            assert forall|t: int| 0 <= t <= s.len() implies count_true(#[trigger] s.take(t)) == 0 by {
                lemma_count_zero(s, t);
            }
            assert(s.take(s.len() as int) =~= s);
        }
    }
    let mut r: Vec<String> = Vec::new();
    let ghost mut picked: Seq<int> = Seq::empty();
    while r.len() < k
        invariant
            e == entries@,
            m == map@,
            m == entries_map(e),
            entries_wf(e),
            len == e.len(),
            k <= len,
            k <= n,
            chosen.len() == len,
            r.len() <= k,
            count_true(chosen@) == r.len(),
            picked.len() == r.len(),
            forall|i: int|
                0 <= i < r.len() ==> 0 <= #[trigger] picked[i] < len && r@[i]@ == e[picked[i]].0@,
            forall|j: int| 0 <= j < len ==> (#[trigger] chosen@[j] <==> picked.contains(j)),
            forall|a: int, b: int|
                0 <= a < b < r.len() ==> entry_before(e[#[trigger] picked[a]], e[#[trigger] picked[b]]),
            forall|j: int, i: int|
                0 <= j < len && !chosen@[j] && 0 <= i < r.len() ==> entry_before(
                    e[#[trigger] picked[i]],
                    #[trigger] e[j],
                ),
        decreases k - r.len(),
    {
        proof {
            lemma_count_true_bound(chosen@);
        }
        let mut best: usize = len;
        let mut j: usize = 0;
        while j < len
            invariant
                e == entries@,
                entries_wf(e),
                len == e.len(),
                chosen.len() == len,
                0 <= j <= len,
                best == len || (best < j && !chosen@[best as int]),
                best == len ==> forall|t: int| 0 <= t < j ==> #[trigger] chosen@[t],
                best < len ==> forall|t: int|
                    0 <= t < j && !chosen@[t] && t != best ==> entry_before(e[best as int], #[trigger] e[t]),
            decreases len - j,
        {
            if !chosen[j] {
                if best == len {
                    best = j;
                } else if entry_before_exec(&entries[j], &entries[best]) {
                    proof {
                        assert forall|t: int|
                            0 <= t < j + 1 && !chosen@[t] && t != j implies entry_before(
                            e[j as int],
                            #[trigger] e[t],
                        ) by {
                            lemma_entry_before_order(e[j as int], e[best as int], e[t]);
                        }
                    }
                    best = j;
                } else {
                    proof {
                        assert(e[j as int].0@ != e[best as int].0@) by {
                            if j < best {
                                assert(e[j as int].0@ != e[best as int].0@);
                            } else {
                                assert(e[best as int].0@ != e[j as int].0@);
                            }
                        }
                        lemma_entry_before_order(e[j as int], e[best as int], e[best as int]);
                    }
                }
            }
            j = j + 1;
        }
        proof {
            if best == len {
                let t = choose|t: int| 0 <= t < chosen@.len() && !#[trigger] chosen@[t];
                assert(chosen@[t]);
            }
            lemma_count_true_set(chosen@, best as int);
        }
        let ghost old_chosen = chosen@;
        let ghost old_picked = picked;
        chosen.set(best, true);
        r.push(entries[best].0.clone());
        proof {
            picked = picked.push(best as int);
            assert forall|t: int| 0 <= t < len implies (#[trigger] chosen@[t] <==> picked.contains(t)) by {
                if t == best {
                    assert(picked[picked.len() - 1] == t);
                } else {
                    if picked.contains(t) {
                        let u = choose|u: int| 0 <= u < picked.len() && picked[u] == t;
                        assert(old_picked[u] == t);
                    }
                    if old_picked.contains(t) {
                        let u = choose|u: int| 0 <= u < old_picked.len() && old_picked[u] == t;
                        assert(picked[u] == t);
                    }
                }
            }
            assert forall|a: int, b: int| 0 <= a < b < r.len() implies entry_before(
                e[#[trigger] picked[a]],
                e[#[trigger] picked[b]],
            ) by {
                if b == r.len() - 1 {
                    assert(old_picked[a] == picked[a]);
                    assert(!old_chosen[best as int]);
                } else {
                    assert(old_picked[a] == picked[a]);
                    assert(old_picked[b] == picked[b]);
                }
            }
            assert forall|t: int, i: int|
                0 <= t < len && !chosen@[t] && 0 <= i < r.len() implies entry_before(
                e[#[trigger] picked[i]],
                #[trigger] e[t],
            ) by {
                assert(t != best);
                if i == r.len() - 1 {
                    assert(!old_chosen[t]);
                } else {
                    assert(old_picked[i] == picked[i]);
                }
            }
        }
    }
    proof {
        let rv = r@.map_values(|s: String| s@);
        assert forall|i: int| 0 <= i < rv.len() implies m.contains_key(#[trigger] rv[i]) by {
            assert(rv[i] == e[picked[i]].0@);
        }
        assert forall|a: int, b: int| 0 <= a < b < rv.len() implies ranks_before(
            m,
            #[trigger] rv[a],
            #[trigger] rv[b],
        ) by {
            assert(rv[a] == e[picked[a]].0@);
            assert(rv[b] == e[picked[b]].0@);
            assert(entry_before(e[picked[a]], e[picked[b]]));
        }
        assert forall|key: Seq<char>| m.contains_key(key) && !rv.contains(key) implies forall|i: int|
            0 <= i < rv.len() ==> ranks_before(m, #[trigger] rv[i], key) by {
            let t = choose|t: int| 0 <= t < e.len() && #[trigger] e[t].0@ == key;
            if chosen@[t] {
                let u = choose|u: int| 0 <= u < picked.len() && picked[u] == t;
                assert(rv[u] == key);
            }
            assert forall|i: int| 0 <= i < rv.len() implies ranks_before(m, #[trigger] rv[i], key) by {
                assert(rv[i] == e[picked[i]].0@);
                assert(entry_before(e[picked[i]], e[t]));
            }
        }
    }
    r
}

proof fn lemma_count_zero(s: Seq<bool>, t: int)
    requires
        0 <= t <= s.len(),
        forall|j: int| 0 <= j < s.len() ==> !#[trigger] s[j],
    ensures
        count_true(s.take(t)) == 0,
    decreases t,
{
    if t > 0 {
        assert(s.take(t).drop_last() =~= s.take(t - 1));
        lemma_count_zero(s, t - 1);
    }
}

proof fn lemma_ranks_before_order(m: Map<Seq<char>, i32>, a: Seq<char>, b: Seq<char>)
    ensures
        !ranks_before(m, a, a),
        ranks_before(m, a, b) ==> !ranks_before(m, b, a),
        a != b ==> ranks_before(m, a, b) || ranks_before(m, b, a),
{
    lemma_lex_less_strict_total(a, b, b);
    lemma_lex_less_strict_total(b, a, a);
}

/// There is only one list of top words for a given count table and `n`.
pub proof fn lemma_top_keys_unique(
    m: Map<Seq<char>, i32>,
    r1: Seq<Seq<char>>,
    r2: Seq<Seq<char>>,
    n: int,
)
    requires
        is_top_keys(m, r1, n),
        is_top_keys(m, r2, n),
    ensures
        r1 == r2,
{
    assert forall|i: int| 0 <= i < r1.len() implies r1[i] == r2[i] by {
        lemma_top_keys_agree(m, r1, r2, n, i);
    }
    assert(r1 =~= r2);
}

proof fn lemma_top_keys_agree(
    m: Map<Seq<char>, i32>,
    r1: Seq<Seq<char>>,
    r2: Seq<Seq<char>>,
    n: int,
    i: int,
)
    requires
        is_top_keys(m, r1, n),
        is_top_keys(m, r2, n),
        0 <= i < r1.len(),
    ensures
        forall|j: int| 0 <= j <= i ==> r1[j] == r2[j],
    decreases i,
{
    if i > 0 {
        lemma_top_keys_agree(m, r1, r2, n, i - 1);
    }
    let a = r1[i];
    let b = r2[i];
    if a != b {
        lemma_ranks_before_order(m, a, b);
        // Where `a` stands in `r2` (if anywhere), and `b` in `r1`.
        assert(ranks_before(m, b, a)) by {
            if r2.contains(a) {
                let j = choose|j: int| 0 <= j < r2.len() && r2[j] == a;
                if j < i {
                    assert(r1[j] == r2[j]);
                    lemma_ranks_before_order(m, a, a);
                    assert(ranks_before(m, r1[j], r1[i]));
                } else if j > i {
                    assert(ranks_before(m, r2[i], r2[j]));
                } else {
                }
            } else {
                assert(m.contains_key(a));
            }
        }
        assert(ranks_before(m, a, b)) by {
            if r1.contains(b) {
                let j = choose|j: int| 0 <= j < r1.len() && r1[j] == b;
                if j < i {
                    assert(r1[j] == r2[j]);
                    lemma_ranks_before_order(m, b, b);
                    assert(ranks_before(m, r2[j], r2[i]));
                } else if j > i {
                    assert(ranks_before(m, r1[i], r1[j]));
                } else {
                }
            } else {
                assert(m.contains_key(b));
            }
        }
    }
}

/// The top `n` words are the first words of the top `n + 1`: asking for one
/// more word only adds one at the end, if there is one left.
pub proof fn lemma_top_keys_prefix(
    m: Map<Seq<char>, i32>,
    r1: Seq<Seq<char>>,
    r2: Seq<Seq<char>>,
    n: int,
)
    requires
        n >= 0,
        is_top_keys(m, r1, n),
        is_top_keys(m, r2, n + 1),
    ensures
        r1.len() <= r2.len(),
        r1 == r2.take(r1.len() as int),
{
    let p = r2.take(r1.len() as int);
    assert forall|i: int, j: int| 0 <= i < j < p.len() implies ranks_before(
        m,
        #[trigger] p[i],
        #[trigger] p[j],
    ) by {
        assert(ranks_before(m, r2[i], r2[j]));
    }
    assert forall|k: Seq<char>| m.contains_key(k) && !p.contains(k) implies forall|i: int|
        0 <= i < p.len() ==> ranks_before(m, #[trigger] p[i], k) by {
        if r2.contains(k) {
            let j = choose|j: int| 0 <= j < r2.len() && r2[j] == k;
            assert(j >= p.len()) by {
                if j < p.len() {
                    assert(p[j] == k);
                }
            }
            assert forall|i: int| 0 <= i < p.len() implies ranks_before(m, #[trigger] p[i], k) by {
                assert(ranks_before(m, r2[i], r2[j]));
            }
        } else {
            assert forall|i: int| 0 <= i < p.len() implies ranks_before(m, #[trigger] p[i], k) by {
                assert(p[i] == r2[i]);
            }
        }
    }
    assert forall|i: int| 0 <= i < p.len() implies m.contains_key(#[trigger] p[i]) by {
        assert(p[i] == r2[i]);
    }
    lemma_top_keys_unique(m, r1, p, n);
}

/// Asking for at least as many words as there are gives every word once.
pub proof fn lemma_top_keys_all(m: Map<Seq<char>, i32>, r: Seq<Seq<char>>, n: int)
    requires
        m.dom().finite(),
        n >= m.dom().len(),
        is_top_keys(m, r, n),
    ensures
        r.len() == m.dom().len(),
        r.no_duplicates(),
        forall|k: Seq<char>| m.contains_key(k) ==> r.contains(k),
{
    assert(r.no_duplicates()) by {
        assert forall|i: int, j: int| 0 <= i < r.len() && 0 <= j < r.len() && i != j implies r[i]
            != r[j] by {
            if i < j {
                assert(ranks_before(m, r[i], r[j]));
                lemma_ranks_before_order(m, r[i], r[j]);
            } else {
                assert(ranks_before(m, r[j], r[i]));
                lemma_ranks_before_order(m, r[j], r[i]);
            }
        }
    }
    r.unique_seq_to_set();
    assert(r.to_set().subset_of(m.dom())) by {
        assert forall|k: Seq<char>| r.to_set().contains(k) implies m.dom().contains(k) by {
            assert(r.contains(k));
            let i = choose|i: int| 0 <= i < r.len() && r[i] == k;
            assert(m.contains_key(r[i]));
        }
    }
    vstd::set_lib::lemma_len_subset(r.to_set(), m.dom());
    vstd::set_lib::lemma_subset_equality(r.to_set(), m.dom());
    assert forall|k: Seq<char>| m.contains_key(k) implies r.contains(k) by {
        assert(r.to_set().contains(k));
    }
}

/// The top words depend only on the words and their counts, not on the
/// order in which the counts were recorded.
pub proof fn lemma_top_keys_ignore_entry_order(
    a: WordFreq,
    b: WordFreq,
    ra: Seq<Seq<char>>,
    rb: Seq<Seq<char>>,
    n: int,
)
    requires
        a@ == b@,
        is_top_keys(a@, ra, n),
        is_top_keys(b@, rb, n),
    ensures
        ra == rb,
{
    lemma_top_keys_unique(a@, ra, rb, n);
}

/// Running totals while a saved state is read.
pub struct Tally {
    pub success: int,
    pub tries: int,
    pub freq: Map<Seq<char>, i32>,
    pub error: Option<StateError>,
}

/// The totals of `stats` before anything is read.
pub open spec fn tally_of(stats: GameStats) -> Tally {
    Tally {
        success: stats.success_game_cnt as int,
        tries: stats.total_success_guess_try as int,
        freq: stats.guess_frequency@,
        error: None,
    }
}

/// One more guess: a string counts once more under its lower-case text;
/// anything else is an error. After an error nothing changes.
pub open spec fn count_guess(t: Tally, guess: Json) -> Tally {
    if t.error is Some {
        t
    } else {
        match json_str(guess) {
            None => Tally { error: Some(StateError::InvalidGuess), ..t },
            Some(g) => {
                let k = lowercase_text(g);
                Tally {
                    freq: t.freq.insert(
                        k,
                        if t.freq.contains_key(k) {
                            (t.freq[k] + 1) as i32
                        } else {
                            1i32
                        },
                    ),
                    ..t
                }
            },
        }
    }
}

/// The guesses of one game, in order.
pub open spec fn count_guesses(t: Tally, guesses: Seq<Json>) -> Tally
    decreases guesses.len(),
{
    if guesses.len() == 0 {
        t
    } else {
        count_guess(count_guesses(t, guesses.drop_last()), guesses.last())
    }
}

/// A game is won when its last guess, lower-cased, equals its lower-cased
/// answer.
pub open spec fn is_won(answer: Seq<char>, guesses: Seq<Json>) -> bool {
    guesses.len() > 0 && json_str(guesses.last()) is Some && lowercase_text(
        json_str(guesses.last())->0,
    ) == lowercase_text(answer)
}

/// One saved game: its answer must be a string and its guesses an array of
/// strings; a won game counts as a success with its number of guesses.
pub open spec fn count_game(t: Tally, game: Json) -> Tally {
    if t.error is Some {
        t
    } else {
        match json_str(json_field(game, "answer"@)) {
            None => Tally { error: Some(StateError::InvalidAnswer), ..t },
            Some(answer) => match json_array(json_field(game, "guesses"@)) {
                None => Tally { error: Some(StateError::InvalidGuesses), ..t },
                Some(guesses) => {
                    let t2 = count_guesses(t, guesses);
                    if t2.error is None && is_won(answer, guesses) {
                        Tally {
                            success: t2.success + 1,
                            tries: t2.tries + guesses.len(),
                            ..t2
                        }
                    } else {
                        t2
                    }
                },
            },
        }
    }
}

/// All saved games, in order.
pub open spec fn count_games(t: Tally, games: Seq<Json>) -> Tally
    decreases games.len(),
{
    if games.len() == 0 {
        t
    } else {
        count_game(count_games(t, games.drop_last()), games.last())
    }
}

/// Number of guesses over all saved games whose guesses are an array.
pub open spec fn guess_total(games: Seq<Json>) -> int
    decreases games.len(),
{
    if games.len() == 0 {
        0
    } else {
        guess_total(games.drop_last()) + match json_array(json_field(games.last(), "guesses"@)) {
            Some(g) => g.len() as int,
            None => 0int,
        }
    }
}

/// Number of string guesses among `guesses` whose lower-case text is `k`.
pub open spec fn guess_word_count(guesses: Seq<Json>, k: Seq<char>) -> int
    decreases guesses.len(),
{
    if guesses.len() == 0 {
        0
    } else {
        guess_word_count(guesses.drop_last(), k) + if json_str(guesses.last()) is Some
            && lowercase_text(json_str(guesses.last())->0) == k {
            1int
        } else {
            0int
        }
    }
}

/// Number of string guesses, over all saved games whose guesses are an
/// array, whose lower-case text is `k`.
pub open spec fn state_word_count(games: Seq<Json>, k: Seq<char>) -> int
    decreases games.len(),
{
    if games.len() == 0 {
        0
    } else {
        state_word_count(games.drop_last(), k) + match json_array(
            json_field(games.last(), "guesses"@),
        ) {
            Some(g) => guess_word_count(g, k),
            None => 0int,
        }
    }
}

/// Lower-case texts of guesses that are all strings.
pub open spec fn lowered_texts(guesses: Seq<Json>) -> Seq<Seq<char>> {
    guesses.map_values(|g: Json| lowercase_text(json_str(g)->0))
}

/// The counters of `stats` have room for everything the saved `state` can
/// add to them: each word's count, and the game and guess totals.
pub open spec fn state_fits(stats: GameStats, state: Json) -> bool {
    match json_array(json_field(state, "games"@)) {
        None => true,
        Some(games) => {
            &&& stats.success_game_cnt + games.len() <= u64::MAX
            &&& stats.total_success_guess_try + guess_total(games) <= u64::MAX
            &&& forall|k: Seq<char>|
                count_in(stats.guess_frequency@, k) + #[trigger] state_word_count(games, k)
                    <= i32::MAX
        },
    }
}

proof fn lemma_guess_word_count_nonneg(guesses: Seq<Json>, k: Seq<char>)
    ensures
        guess_word_count(guesses, k) >= 0,
    decreases guesses.len(),
{
    if guesses.len() > 0 {
        lemma_guess_word_count_nonneg(guesses.drop_last(), k);
    }
}

proof fn lemma_guess_word_count_prefix(guesses: Seq<Json>, n: int, k: Seq<char>)
    requires
        0 <= n <= guesses.len(),
    ensures
        0 <= guess_word_count(guesses.take(n), k) <= guess_word_count(guesses, k),
    decreases guesses.len() - n,
{
    if n < guesses.len() {
        lemma_guess_word_count_prefix(guesses, n + 1, k);
        assert(guesses.take(n + 1).drop_last() =~= guesses.take(n));
        lemma_guess_word_count_nonneg(guesses.take(n), k);
    } else {
        assert(guesses.take(n) =~= guesses);
        lemma_guess_word_count_nonneg(guesses, k);
    }
}

proof fn lemma_state_word_count_nonneg(games: Seq<Json>, k: Seq<char>)
    ensures
        state_word_count(games, k) >= 0,
    decreases games.len(),
{
    if games.len() > 0 {
        lemma_state_word_count_nonneg(games.drop_last(), k);
        match json_array(json_field(games.last(), "guesses"@)) {
            Some(g) => lemma_guess_word_count_nonneg(g, k),
            None => {},
        }
    }
}

proof fn lemma_state_word_count_prefix(games: Seq<Json>, n: int, k: Seq<char>)
    requires
        0 <= n <= games.len(),
    ensures
        0 <= state_word_count(games.take(n), k) <= state_word_count(games, k),
    decreases games.len() - n,
{
    if n < games.len() {
        lemma_state_word_count_prefix(games, n + 1, k);
        assert(games.take(n + 1).drop_last() =~= games.take(n));
        lemma_state_word_count_nonneg(games.take(n), k);
        match json_array(json_field(games.take(n + 1).last(), "guesses"@)) {
            Some(g) => lemma_guess_word_count_nonneg(g, k),
            None => {},
        }
    } else {
        assert(games.take(n) =~= games);
        lemma_state_word_count_nonneg(games, k);
    }
}

/// For string guesses, counting them in order adds their lower-case texts
/// to the counts, and the words counted are those `guess_word_count` counts.
proof fn lemma_string_guesses_count(t: Tally, guesses: Seq<Json>)
    requires
        t.error is None,
        forall|j: int| 0 <= j < guesses.len() ==> json_str(#[trigger] guesses[j]) is Some,
    ensures
        count_guesses(t, guesses) == (Tally {
            freq: crate::stats::add_words(t.freq, lowered_texts(guesses)),
            ..t
        }),
        forall|k: Seq<char>|
            #[trigger] occurrences(lowered_texts(guesses), k) == guess_word_count(guesses, k),
    decreases guesses.len(),
{
    if guesses.len() > 0 {
        let p = guesses.drop_last();
        lemma_string_guesses_count(t, p);
        assert(lowered_texts(guesses).drop_last() =~= lowered_texts(p));
        assert(json_str(guesses[guesses.len() - 1]) is Some);
        assert(lowered_texts(guesses).last() == lowercase_text(json_str(guesses.last())->0));
        assert forall|k: Seq<char>| #[trigger] occurrences(lowered_texts(guesses), k)
            == guess_word_count(guesses, k) by {
            assert(occurrences(lowered_texts(p), k) == guess_word_count(p, k));
        }
    } else {
        assert(lowered_texts(guesses) =~= Seq::<Seq<char>>::empty());
    }
}

proof fn lemma_guess_total_prefix(games: Seq<Json>, i: int)
    requires
        0 <= i <= games.len(),
    ensures
        0 <= guess_total(games.take(i)) <= guess_total(games),
    decreases games.len() - i,
{
    if i < games.len() {
        lemma_guess_total_prefix(games, i + 1);
        assert(games.take(i + 1).drop_last() =~= games.take(i));
        lemma_guess_total_nonneg(games.take(i));
        assert(guess_total(games.take(i + 1)) >= guess_total(games.take(i)));
    } else {
        assert(games.take(i) =~= games);
        lemma_guess_total_nonneg(games);
    }
}

proof fn lemma_guess_total_nonneg(games: Seq<Json>)
    ensures
        guess_total(games) >= 0,
    decreases games.len(),
{
    if games.len() > 0 {
        lemma_guess_total_nonneg(games.drop_last());
    }
}

proof fn lemma_count_games_stops(t: Tally, games: Seq<Json>, n: int)
    requires
        0 <= n <= games.len(),
        count_games(t, games.take(n)).error is Some,
    ensures
        count_games(t, games) == count_games(t, games.take(n)),
    decreases games.len() - n,
{
    if n < games.len() {
        assert(games.take(n + 1).drop_last() =~= games.take(n));
        lemma_count_games_stops(t, games, n + 1);
    } else {
        assert(games.take(n) =~= games);
    }
}

proof fn lemma_count_guesses_stops(t: Tally, guesses: Seq<Json>, n: int)
    requires
        0 <= n <= guesses.len(),
        count_guesses(t, guesses.take(n)).error is Some,
    ensures
        count_guesses(t, guesses) == count_guesses(t, guesses.take(n)),
        count_guesses(t, guesses).error is Some,
    decreases guesses.len() - n,
{
    if n < guesses.len() {
        assert(guesses.take(n + 1).drop_last() =~= guesses.take(n));
        lemma_count_guesses_stops(t, guesses, n + 1);
    } else {
        assert(guesses.take(n) =~= guesses);
    }
}

/// Reading one more saved game after some games that read cleanly, when its
/// answer is a string and its guesses are strings, at least one: if the last
/// guess, lower-cased, equals the lower-cased answer, the game adds exactly
/// one success and its number of guesses to the tries; otherwise it adds
/// neither. Either way it reads cleanly.
pub proof fn lemma_saved_game_result_counts(
    t: Tally,
    games: Seq<Json>,
    game: Json,
    answer: Seq<char>,
    guesses: Seq<Json>,
)
    requires
        count_games(t, games).error is None,
        json_str(json_field(game, "answer"@)) == Some(answer),
        json_array(json_field(game, "guesses"@)) == Some(guesses),
        guesses.len() >= 1,
        forall|j: int| 0 <= j < guesses.len() ==> json_str(#[trigger] guesses[j]) is Some,
    ensures
        ({
            let before = count_games(t, games);
            let after = count_games(t, games.push(game));
            &&& after.error is None
            &&& if lowercase_text(json_str(guesses[guesses.len() - 1])->0) == lowercase_text(
                answer,
            ) {
                after.success == before.success + 1 && after.tries == before.tries
                    + guesses.len()
            } else {
                after.success == before.success && after.tries == before.tries
            }
        }),
{
    let before = count_games(t, games);
    assert(games.push(game).drop_last() =~= games);
    assert(games.push(game).last() == game);
    lemma_string_guesses_count(before, guesses);
    assert(guesses.last() == guesses[guesses.len() - 1]);
}

/// Reading one more saved game after some games that read cleanly: an
/// answer that is not a string, or guesses that are not an array, or a
/// guess that is not a string, stops the reading with the matching error;
/// when every guess is a string, each word's count rises by the number of
/// guesses whose lower-case text it is.
pub proof fn lemma_saved_game_guesses_count(t: Tally, games: Seq<Json>, game: Json, k: Seq<char>)
    requires
        count_games(t, games).error is None,
        count_in(count_games(t, games).freq, k) >= 0,
    ensures
        ({
            let before = count_games(t, games);
            let after = count_games(t, games.push(game));
            &&& json_str(json_field(game, "answer"@)) is None ==> after.error == Some(
                StateError::InvalidAnswer,
            )
            &&& json_str(json_field(game, "answer"@)) is Some ==> match json_array(
                json_field(game, "guesses"@),
            ) {
                None => after.error == Some(StateError::InvalidGuesses),
                Some(g) => {
                    &&& (exists|j: int| 0 <= j < g.len() && json_str(#[trigger] g[j]) is None)
                        ==> after.error == Some(StateError::InvalidGuess)
                    &&& (forall|j: int| 0 <= j < g.len() ==> json_str(#[trigger] g[j]) is Some)
                        && count_in(before.freq, k) + guess_word_count(g, k) <= i32::MAX
                        ==> after.error is None && count_in(after.freq, k) == count_in(
                        before.freq,
                        k,
                    ) + guess_word_count(g, k)
                },
            }
        }),
{
    let before = count_games(t, games);
    assert(games.push(game).drop_last() =~= games);
    assert(games.push(game).last() == game);
    if json_str(json_field(game, "answer"@)) is Some {
        if let Some(g) = json_array(json_field(game, "guesses"@)) {
            if exists|j: int| 0 <= j < g.len() && json_str(#[trigger] g[j]) is None {
                let j = choose|j: int| 0 <= j < g.len() && json_str(#[trigger] g[j]) is None;
                lemma_first_non_string_guess(before, g, j);
            }
            if forall|j: int| 0 <= j < g.len() ==> json_str(#[trigger] g[j]) is Some {
                lemma_string_guesses_count(before, g);
                if count_in(before.freq, k) + guess_word_count(g, k) <= i32::MAX {
                    crate::stats::lemma_add_words_counts(before.freq, lowered_texts(g), k);
                }
            }
        }
    }
}

/// Reading guesses stops with `InvalidGuess` at a guess that is not a string.
proof fn lemma_first_non_string_guess(t: Tally, guesses: Seq<Json>, j: int)
    requires
        t.error is None,
        0 <= j < guesses.len(),
        json_str(guesses[j]) is None,
    ensures
        count_guesses(t, guesses).error == Some(StateError::InvalidGuess),
    decreases guesses.len(),
{
    if j < guesses.len() - 1 {
        let p = guesses.drop_last();
        assert(p[j] == guesses[j]);
        lemma_first_non_string_guess(t, p, j);
    } else {
        lemma_count_guesses_error_kind(t, guesses.drop_last());
    }
}

/// Reading guesses either stays clean or stops with `InvalidGuess`.
proof fn lemma_count_guesses_error_kind(t: Tally, guesses: Seq<Json>)
    requires
        t.error is None,
    ensures
        count_guesses(t, guesses).error is None || count_guesses(t, guesses).error == Some(
            StateError::InvalidGuess,
        ),
    decreases guesses.len(),
{
    if guesses.len() > 0 {
        lemma_count_guesses_error_kind(t, guesses.drop_last());
    }
}

/// Reads the saved games into `stats` when a state file is configured: the
/// number of games replaces the total, and each game's guesses and result are
/// counted (see `count_games`). Stops at the first malformed game or guess;
/// the counts gathered until then stay.
pub fn load_state_stats(
    game_state: &mut Json,
    config: &GameConfig,
    stats: &mut GameStats,
) -> (r: Result<(), StateError>)
    requires
        config.state@.len() != 0 ==> state_fits(*old(stats), *old(game_state)),
    ensures
        *final(game_state) == *old(game_state),
        final(stats).success_game_cnt <= old(stats).success_game_cnt + final(stats).total_game_cnt,
        config.state@.len() == 0 ==> r is Ok && *final(stats) == *old(stats),
        config.state@.len() != 0 ==> match json_array(json_field(*old(game_state), "games"@)) {
            None => r == Err::<(), StateError>(StateError::InvalidGames) && *final(stats) == *old(
                stats,
            ),
            Some(games) => {
                let t = count_games(tally_of(*old(stats)), games);
                &&& final(stats).total_game_cnt == games.len()
                &&& final(stats).success_game_cnt == t.success
                &&& final(stats).total_success_guess_try == t.tries
                &&& final(stats).guess_frequency@ == t.freq
                &&& r == match t.error {
                    Some(e) => Err::<(), StateError>(e),
                    None => Ok(()),
                }
            },
        },
{
    if config.state.as_str().unicode_len() == 0 {
        return Ok(());
    }
    let ghost stats0 = *stats;
    let ghost t0 = tally_of(*stats);
    let games = match field(game_state, "games") {
        Some(v) => match as_array(v) {
            Some(a) => a,
            None => {
                return Err(StateError::InvalidGames);
            },
        },
        None => {
            return Err(StateError::InvalidGames);
        },
    };
    let ghost gs_all = games@;
    let ghost f0 = stats0.guess_frequency@;
    stats.total_game_cnt = games.len() as u64;
    let mut i: usize = 0;
    while i < games.len()
        invariant
            0 <= i <= games.len(),
            config.state@.len() != 0,
            stats0 == *old(stats),
            f0 == stats0.guess_frequency@,
            gs_all == games@,
            stats.total_game_cnt == games.len(),
            state_fits(stats0, *old(game_state)),
            json_array(json_field(*old(game_state), "games"@)) == Some(gs_all),
            t0 == tally_of(stats0),
            stats.success_game_cnt <= stats0.success_game_cnt + i,
            stats.total_success_guess_try <= stats0.total_success_guess_try + guess_total(
                gs_all.take(i as int),
            ),
            forall|k: Seq<char>|
                #[trigger] count_in(stats.guess_frequency@, k) <= count_in(f0, k)
                    + state_word_count(gs_all.take(i as int), k),
            count_games(t0, gs_all.take(i as int)) == (Tally {
                success: stats.success_game_cnt as int,
                tries: stats.total_success_guess_try as int,
                freq: stats.guess_frequency@,
                error: None,
            }),
        decreases games.len() - i,
    {
        let game = &games[i];
        proof {
            assert(gs_all.take(i + 1).drop_last() =~= gs_all.take(i as int));
            assert(gs_all.take(i + 1).last() == *game);
            lemma_guess_total_prefix(gs_all, i + 1);
            lemma_guess_total_prefix(gs_all, i as int);
        }
        let answer = match field(game, "answer") {
            Some(v) => match as_str(v) {
                Some(a) => to_lowercase(a.as_str()),
                None => {
                    proof {
                        lemma_count_games_stops(t0, gs_all, i + 1);
                    }
                    return Err(StateError::InvalidAnswer);
                },
            },
            None => {
                proof {
                    lemma_count_games_stops(t0, gs_all, i + 1);
                }
                return Err(StateError::InvalidAnswer);
            },
        };
        let guesses = match field(game, "guesses") {
            Some(v) => match as_array(v) {
                Some(a) => a,
                None => {
                    proof {
                        lemma_count_games_stops(t0, gs_all, i + 1);
                    }
                    return Err(StateError::InvalidGuesses);
                },
            },
            None => {
                proof {
                    lemma_count_games_stops(t0, gs_all, i + 1);
                }
                return Err(StateError::InvalidGuesses);
            },
        };
        let ghost tg = count_games(t0, gs_all.take(i as int));
        let ghost gs = guesses@;
        let mut lowered: Vec<String> = Vec::new();
        let mut p: usize = 0;
        let mut bad = false;
        while p < guesses.len() && !bad
            invariant
                0 <= p <= guesses.len(),
                gs == guesses@,
                bad ==> p < guesses.len() && json_str(gs[p as int]) is None,
                forall|j: int| 0 <= j < p ==> json_str(#[trigger] gs[j]) is Some,
                texts(lowered@) == lowered_texts(gs.take(p as int)),
            decreases guesses.len() - p + if bad {
                0int
            } else {
                1int
            },
        {
            match as_str(&guesses[p]) {
                Some(g) => {
                    let ghost before = texts(lowered@);
                    lowered.push(to_lowercase(g.as_str()));
                    proof {
                        assert(texts(lowered@) =~= before.push(lowercase_text(g@)));
                        assert(lowered_texts(gs.take(p + 1)) =~= lowered_texts(gs.take(p as int)).push(
                            lowercase_text(g@),
                        ));
                    }
                    p = p + 1;
                },
                None => {
                    bad = true;
                },
            }
        }
        let ghost taken = gs.take(p as int);
        proof {
            assert forall|j: int| 0 <= j < taken.len() implies json_str(#[trigger] taken[j]) is Some by {
                assert(taken[j] == gs[j]);
            }
            lemma_string_guesses_count(tg, taken);
            assert forall|k: Seq<char>| count_in(stats.guess_frequency@, k) + #[trigger] occurrences(
                texts(lowered@),
                k,
            ) <= i32::MAX by {
                lemma_guess_word_count_prefix(gs, p as int, k);
                lemma_state_word_count_prefix(gs_all, i + 1, k);
                assert(state_word_count(gs_all.take(i + 1), k) == state_word_count(
                    gs_all.take(i as int),
                    k,
                ) + guess_word_count(gs, k));
                assert(count_in(stats.guess_frequency@, k) <= count_in(f0, k) + state_word_count(
                    gs_all.take(i as int),
                    k,
                ));
                assert(count_in(f0, k) + state_word_count(gs_all, k) <= i32::MAX);
            }
        }
        let ghost fbefore = stats.guess_frequency@;
        count_words(&mut stats.guess_frequency, &lowered);
        proof {
            assert forall|k: Seq<char>| #[trigger] count_in(stats.guess_frequency@, k) <= count_in(
                f0,
                k,
            ) + state_word_count(gs_all.take(i + 1), k) by {
                lemma_guess_word_count_prefix(gs, p as int, k);
                assert(count_in(fbefore, k) <= count_in(f0, k) + state_word_count(
                    gs_all.take(i as int),
                    k,
                ));
                assert(state_word_count(gs_all.take(i + 1), k) == state_word_count(
                    gs_all.take(i as int),
                    k,
                ) + guess_word_count(gs, k));
            }
        }
        if bad {
            proof {
                assert(gs.take(p + 1).drop_last() =~= taken);
                assert(gs.take(p + 1).last() == gs[p as int]);
                lemma_count_guesses_stops(tg, gs, p + 1);
                lemma_count_games_stops(t0, gs_all, i + 1);
            }
            return Err(StateError::InvalidGuess);
        }
        proof {
            assert(taken =~= gs);
        }
        if guesses.len() > 0 {
            let last = as_str(&guesses[guesses.len() - 1]);
            match last {
                Some(g) => {
                    let lowered_last = to_lowercase(g.as_str());
                    if lowered_last == answer {
                        stats.success_game_cnt = stats.success_game_cnt + 1;
                        stats.total_success_guess_try = stats.total_success_guess_try
                            + guesses.len() as u64;
                    }
                },
                None => {},
            }
        }
        i = i + 1;
    }
    proof {
        assert(gs_all.take(games.len() as int) =~= gs_all);
    }
    Ok(())
}

proof fn lemma_guess_word_count_len(guesses: Seq<Json>, k: Seq<char>)
    ensures
        guess_word_count(guesses, k) <= guesses.len(),
    decreases guesses.len(),
{
    if guesses.len() > 0 {
        lemma_guess_word_count_len(guesses.drop_last(), k);
    }
}

proof fn lemma_state_word_count_total(games: Seq<Json>, k: Seq<char>)
    ensures
        state_word_count(games, k) <= guess_total(games),
    decreases games.len(),
{
    if games.len() > 0 {
        lemma_state_word_count_total(games.drop_last(), k);
        match json_array(json_field(games.last(), "guesses"@)) {
            Some(g) => lemma_guess_word_count_len(g, k),
            None => {},
        }
    }
}

/// The lower-case text of guess `b` of saved game `a`, when that game's
/// guesses are an array and that guess is a string.
pub open spec fn saved_guess_word(games: Seq<Json>, a: int, b: int) -> Option<Seq<char>> {
    match json_array(json_field(games[a], "guesses"@)) {
        Some(g) => if 0 <= b < g.len() && json_str(g[b]) is Some {
            Some(lowercase_text(json_str(g[b])->0))
        } else {
            None
        },
        None => None,
    }
}

/// A word counted among some guesses is the lower-case text of one of them.
proof fn lemma_counted_guess_is_listed(guesses: Seq<Json>, k: Seq<char>)
    requires
        guess_word_count(guesses, k) > 0,
    ensures
        exists|b: int|
            0 <= b < guesses.len() && json_str(#[trigger] guesses[b]) is Some && lowercase_text(
                json_str(guesses[b])->0,
            ) == k,
    decreases guesses.len(),
{
    let b = guesses.len() - 1;
    if json_str(guesses[b]) is Some && lowercase_text(json_str(guesses[b])->0) == k {
    } else {
        lemma_counted_guess_is_listed(guesses.drop_last(), k);
        let c = choose|c: int|
            0 <= c < guesses.drop_last().len() && json_str(#[trigger] guesses.drop_last()[c]) is Some
                && lowercase_text(json_str(guesses.drop_last()[c])->0) == k;
        assert(guesses.drop_last()[c] == guesses[c]);
    }
}

/// A word counted in the saved games is the lower-case text of one of their
/// guesses.
proof fn lemma_counted_word_is_saved(games: Seq<Json>, k: Seq<char>)
    requires
        state_word_count(games, k) > 0,
    ensures
        exists|a: int, b: int|
            0 <= a < games.len() && #[trigger] saved_guess_word(games, a, b) == Some(k),
    decreases games.len(),
{
    let a = games.len() - 1;
    let p = games.drop_last();
    let in_last = match json_array(json_field(games.last(), "guesses"@)) {
        Some(g) => guess_word_count(g, k),
        None => 0int,
    };
    if in_last > 0 {
        let g = json_array(json_field(games[a], "guesses"@))->0;
        lemma_counted_guess_is_listed(g, k);
        let b = choose|b: int|
            0 <= b < g.len() && json_str(#[trigger] g[b]) is Some && lowercase_text(json_str(g[b])->0)
                == k;
        assert(saved_guess_word(games, a, b) == Some(k));
    } else {
        lemma_counted_word_is_saved(p, k);
        let (c, b) = choose|c: int, b: int|
            0 <= c < p.len() && #[trigger] saved_guess_word(p, c, b) == Some(k);
        assert(p[c] == games[c]);
        assert(saved_guess_word(games, c, b) == Some(k));
    }
}

/// Counts the string guesses among `guesses` whose lower-case text is `k`.
fn guess_word_count_of(guesses: &Vec<Json>, k: &String) -> (r: u64)
    ensures
        r == guess_word_count(guesses@, k@),
{
    let mut count: u64 = 0;
    let mut j: usize = 0;
    while j < guesses.len()
        invariant
            0 <= j <= guesses.len(),
            count == guess_word_count(guesses@.take(j as int), k@),
        decreases guesses.len() - j,
    {
        proof {
            assert(guesses@.take(j + 1).drop_last() =~= guesses@.take(j as int));
            assert(guesses@.take(j + 1).last() == guesses@[j as int]);
            lemma_guess_word_count_len(guesses@.take(j as int), k@);
        }
        match as_str(&guesses[j]) {
            Some(text) => {
                let lowered = to_lowercase(text.as_str());
                if lowered == *k {
                    count = count + 1;
                }
            },
            None => {},
        }
        j = j + 1;
    }
    proof {
        assert(guesses@.take(guesses.len() as int) =~= guesses@);
    }
    count
}

/// Counts the string guesses of the saved games whose lower-case text is `k`.
fn state_word_count_of(games: &Vec<Json>, k: &String) -> (r: u64)
    requires
        guess_total(games@) <= u64::MAX,
    ensures
        r == state_word_count(games@, k@),
{
    let mut count: u64 = 0;
    let mut i: usize = 0;
    while i < games.len()
        invariant
            0 <= i <= games.len(),
            guess_total(games@) <= u64::MAX,
            count == state_word_count(games@.take(i as int), k@),
        decreases games.len() - i,
    {
        proof {
            assert(games@.take(i + 1).drop_last() =~= games@.take(i as int));
            assert(games@.take(i + 1).last() == games@[i as int]);
            lemma_state_word_count_total(games@.take(i + 1), k@);
            lemma_guess_total_prefix(games@, i + 1);
        }
        let n: u64 = match field(&games[i], "guesses") {
            Some(v) => match as_array(v) {
                Some(g) => guess_word_count_of(g, k),
                None => 0,
            },
            None => 0,
        };
        count = count + n;
        i = i + 1;
    }
    proof {
        assert(games@.take(games.len() as int) =~= games@);
    }
    count
}

/// A check that the counters of `stats` have room for the saved `state`:
/// passes exactly when `state_fits` holds, that is when every word's count
/// plus its saved guesses stays within `i32`, and the game and guess totals
/// within `u64`.
pub fn state_fits_check(stats: &GameStats, state: &Json) -> (r: bool)
    ensures
        r == state_fits(*stats, *state),
{
    let games = match field(state, "games") {
        Some(v) => match as_array(v) {
            Some(a) => a,
            None => {
                return true;
            },
        },
        None => {
            return true;
        },
    };
    let ghost gs_all = games@;
    let mut total: u64 = 0;
    let mut i: usize = 0;
    while i < games.len()
        invariant
            0 <= i <= games.len(),
            gs_all == games@,
            json_array(json_field(*state, "games"@)) == Some(gs_all),
            total as int == guess_total(gs_all.take(i as int)),
        decreases games.len() - i,
    {
        proof {
            assert(gs_all.take(i + 1).drop_last() =~= gs_all.take(i as int));
            assert(gs_all.take(i + 1).last() == gs_all[i as int]);
        }
        let n: usize = match field(&games[i], "guesses") {
            Some(v) => match as_array(v) {
                Some(a) => a.len(),
                None => 0,
            },
            None => 0,
        };
        if total > u64::MAX - n as u64 {
            proof {
                lemma_guess_total_prefix(gs_all, i + 1);
                assert(guess_total(gs_all.take(i + 1)) == total + n);
            }
            return false;
        }
        total = total + n as u64;
        i = i + 1;
    }
    proof {
        assert(gs_all.take(games.len() as int) =~= gs_all);
    }
    if stats.success_game_cnt > u64::MAX - games.len() as u64 {
        return false;
    }
    if stats.total_success_guess_try > u64::MAX - total {
        return false;
    }
    let mut a: usize = 0;
    while a < games.len()
        invariant
            0 <= a <= games.len(),
            gs_all == games@,
            json_array(json_field(*state, "games"@)) == Some(gs_all),
            guess_total(gs_all) <= u64::MAX,
            forall|x: int, y: int|
                #![trigger saved_guess_word(gs_all, x, y)]
                0 <= x < a && saved_guess_word(gs_all, x, y) is Some ==> count_in(
                    stats.guess_frequency@,
                    saved_guess_word(gs_all, x, y)->0,
                ) + state_word_count(gs_all, saved_guess_word(gs_all, x, y)->0) <= i32::MAX,
        decreases games.len() - a,
    {
        let guesses = match field(&games[a], "guesses") {
            Some(v) => as_array(v),
            None => None,
        };
        match guesses {
            Some(g) => {
                let mut b: usize = 0;
                while b < g.len()
                    invariant
                        0 <= b <= g.len(),
                        0 <= a < games.len(),
                        gs_all == games@,
                        json_array(json_field(*state, "games"@)) == Some(gs_all),
                        json_array(json_field(gs_all[a as int], "guesses"@)) == Some(g@),
                        guess_total(gs_all) <= u64::MAX,
                        forall|x: int, y: int|
                            #![trigger saved_guess_word(gs_all, x, y)]
                            (0 <= x < a || (x == a && y < b)) && saved_guess_word(gs_all, x, y) is Some
                                ==> count_in(
                                stats.guess_frequency@,
                                saved_guess_word(gs_all, x, y)->0,
                            ) + state_word_count(gs_all, saved_guess_word(gs_all, x, y)->0) <= i32::MAX,
                    decreases g.len() - b,
                {
                    match as_str(&g[b]) {
                        Some(text) => {
                            let lowered = to_lowercase(text.as_str());
                            let c = state_word_count_of(games, &lowered);
                            let f: i32 = match stats.guess_frequency.get(lowered.as_str()) {
                                Some(n) => n,
                                None => 0,
                            };
                            assert(saved_guess_word(gs_all, a as int, b as int) == Some(lowered@));
                            if f as i128 + c as i128 > i32::MAX as i128 {
                                return false;
                            }
                        },
                        None => {
                            assert(saved_guess_word(gs_all, a as int, b as int) is None);
                        },
                    }
                    b = b + 1;
                }
            },
            None => {
                assert forall|y: int| #[trigger] saved_guess_word(gs_all, a as int, y) is None by {}
            },
        }
        a = a + 1;
    }
    proof {
        assert forall|k: Seq<char>| count_in(stats.guess_frequency@, k) + #[trigger] state_word_count(
            gs_all,
            k,
        ) <= i32::MAX by {
            if state_word_count(gs_all, k) > 0 {
                lemma_counted_word_is_saved(gs_all, k);
                let (x, y) = choose|x: int, y: int|
                    0 <= x < gs_all.len() && #[trigger] saved_guess_word(gs_all, x, y) == Some(k);
            }
        }
    }
    true
}

/// Counts the words equal to `k`.
fn occurrences_of(words: &Vec<String>, k: &String) -> (r: usize)
    ensures
        r == occurrences(texts(words@), k@),
{
    let mut count: usize = 0;
    let mut j: usize = 0;
    while j < words.len()
        invariant
            0 <= j <= words.len(),
            count == occurrences(texts(words@).take(j as int), k@),
        decreases words.len() - j,
    {
        proof {
            assert(texts(words@).take(j + 1).drop_last() =~= texts(words@).take(j as int));
            crate::stats::lemma_occurrences_len(texts(words@).take(j as int), k@);
        }
        if words[j] == *k {
            count = count + 1;
        }
        j = j + 1;
    }
    proof {
        assert(texts(words@).take(words.len() as int) =~= texts(words@));
    }
    count
}

/// A word that occurs among `words` is one of them.
proof fn lemma_occurring_word_is_listed(words: Seq<Seq<char>>, k: Seq<char>)
    requires
        occurrences(words, k) > 0,
    ensures
        exists|i: int| 0 <= i < words.len() && #[trigger] words[i] == k,
    decreases words.len(),
{
    if words.last() != k {
        lemma_occurring_word_is_listed(words.drop_last(), k);
        let i = choose|i: int| 0 <= i < words.drop_last().len() && #[trigger] words.drop_last()[i] == k;
        assert(words[i] == k);
    } else {
        assert(words[words.len() - 1] == k);
    }
}

/// A check that `update_stats` can count `result` into `stats`: passes
/// exactly when each guessed word's count has room for its guesses in the
/// round, and the counters have room for one more game.
pub fn round_fits_check(stats: &GameStats, result: &crate::game::RoundResult) -> (r: bool)
    ensures
        r == {
            &&& stats.total_game_cnt < u64::MAX
            &&& result.success ==> stats.success_game_cnt < u64::MAX && 0 <= result.guess_count
                && stats.total_success_guess_try + result.guess_count <= u64::MAX
            &&& forall|k: Seq<char>|
                count_in(stats.guess_frequency@, k) + #[trigger] occurrences(
                    texts(result.guesses@),
                    k,
                ) <= i32::MAX
        },
{
    if stats.total_game_cnt == u64::MAX {
        return false;
    }
    if result.success {
        if stats.success_game_cnt == u64::MAX || result.guess_count < 0 {
            return false;
        }
        if stats.total_success_guess_try > u64::MAX - result.guess_count as u64 {
            return false;
        }
    }
    let words = &result.guesses;
    let ghost ws = texts(words@);
    let mut i: usize = 0;
    while i < words.len()
        invariant
            0 <= i <= words.len(),
            ws == texts(words@),
            words@ == result.guesses@,
            forall|x: int|
                0 <= x < i ==> count_in(stats.guess_frequency@, #[trigger] ws[x]) + occurrences(
                    ws,
                    ws[x],
                ) <= i32::MAX,
        decreases words.len() - i,
    {
        let c = occurrences_of(words, &words[i]);
        let f: i32 = match stats.guess_frequency.get(words[i].as_str()) {
            Some(n) => n,
            None => 0,
        };
        assert(ws[i as int] == words@[i as int]@);
        if f as i128 + c as i128 > i32::MAX as i128 {
            assert(count_in(stats.guess_frequency@, ws[i as int]) + occurrences(
                texts(result.guesses@),
                ws[i as int],
            ) > i32::MAX);
            return false;
        }
        i = i + 1;
    }
    proof {
        assert forall|k: Seq<char>| count_in(stats.guess_frequency@, k) + #[trigger] occurrences(
            ws,
            k,
        ) <= i32::MAX by {
            if occurrences(ws, k) > 0 {
                lemma_occurring_word_is_listed(ws, k);
                let x = choose|x: int| 0 <= x < ws.len() && #[trigger] ws[x] == k;
            }
        }
    }
    true
}

/// Why the word lists do not fit together.
#[derive(Debug, Clone, Copy, PartialEq, Eq, Structural)]
pub enum WordListError {
    /// Some final word is not an acceptable word.
    FinalNotSubset,
}

impl WordListError {
    /// The message reported for this error.
    pub fn message(&self) -> (r: String)
        ensures
            r@ == "Error! FINAL is not a subset of ACCEPTABLE!"@,
    {
        String::from_str("Error! FINAL is not a subset of ACCEPTABLE!")
    }
}

/// Succeeds exactly when every final word is also an acceptable word.
pub fn check_final_accept_cohe(
    final_words: &Vec<String>,
    acceptable_words: &Vec<String>,
) -> (r: Result<(), WordListError>)
    ensures
        r is Ok <==> forall|i: int|
            0 <= i < final_words.len() ==> texts(acceptable_words@).contains(
                #[trigger] final_words@[i]@,
            ),
        r is Err ==> r == Err::<(), WordListError>(WordListError::FinalNotSubset),
{
    let mut i: usize = 0;
    while i < final_words.len()
        invariant
            0 <= i <= final_words.len(),
            forall|k: int|
                0 <= k < i ==> texts(acceptable_words@).contains(#[trigger] final_words@[k]@),
        decreases final_words.len() - i,
    {
        let mut found = false;
        let mut j: usize = 0;
        while j < acceptable_words.len()
            invariant
                0 <= j <= acceptable_words.len(),
                0 <= i < final_words.len(),
                found == exists|t: int|
                    0 <= t < j && #[trigger] acceptable_words@[t]@ == final_words@[i as int]@,
            decreases acceptable_words.len() - j,
        {
            if acceptable_words[j] == final_words[i] {
                found = true;
            }
            j = j + 1;
        }
        if !found {
            proof {
                if texts(acceptable_words@).contains(final_words@[i as int]@) {
                    let t = choose|t: int|
                        0 <= t < texts(acceptable_words@).len() && texts(acceptable_words@)[t]
                            == final_words@[i as int]@;
                    assert(acceptable_words@[t]@ == final_words@[i as int]@);
                }
            }
            return Err(WordListError::FinalNotSubset);
        }
        proof {
            let t = choose|t: int|
                0 <= t < j && #[trigger] acceptable_words@[t]@ == final_words@[i as int]@;
            assert(texts(acceptable_words@)[t] == final_words@[i as int]@);
        }
        i = i + 1;
    }
    Ok(())
}

/// One entry of the word-frequency line: the word in upper case, a space,
/// and its count.
pub open spec fn frequency_entry(word: Seq<char>, count: i32) -> Seq<char> {
    uppercase_text(word) + seq![' '] + decimal_text(count as nat)
}

/// The entries of `words`, separated by single spaces.
pub open spec fn frequency_text(words: Seq<Seq<char>>, m: Map<Seq<char>, i32>) -> Seq<char>
    decreases words.len(),
{
    if words.len() == 0 {
        Seq::empty()
    } else if words.len() == 1 {
        frequency_entry(words[0], m[words[0]])
    } else {
        frequency_text(words.drop_last(), m) + seq![' '] + frequency_entry(words.last(), m[words.last()])
    }
}

/// The word-frequency line of the statistics: the five most guessed words
/// (see `top_n_keys`), each in upper case followed by its count.
pub fn word_frequency_line(stats: &GameStats) -> (r: String)
    ensures
        exists|top: Seq<Seq<char>>|
            is_top_keys(stats.guess_frequency@, top, 5) && r@ == frequency_text(
                top,
                stats.guess_frequency@,
            ),
{
    let m = &stats.guess_frequency;
    let top = top_n_keys(m, 5);
    let ghost tv = texts(top@);
    let e = m.entries();
    proof {
        lemma_counts_positive(e@);
    }
    let mut out = String::new();
    let mut i: usize = 0;
    while i < top.len()
        invariant
            0 <= i <= top.len(),
            tv == texts(top@),
            is_top_keys(m@, tv, 5),
            forall|k: Seq<char>| #[trigger] m@.contains_key(k) ==> m@[k] >= 1,
            out@ == frequency_text(tv.take(i as int), m@),
        decreases top.len() - i,
    {
        proof {
            assert(tv.take(i + 1).drop_last() =~= tv.take(i as int));
            assert(tv.take(i + 1).last() == top@[i as int]@);
            assert(m@.contains_key(tv[i as int]));
        }
        if i > 0 {
            push_char(&mut out, ' ');
        }
        let upper = to_uppercase(top[i].as_str());
        out.append(upper.as_str());
        push_char(&mut out, ' ');
        let count = match m.get(top[i].as_str()) {
            Some(c) => c,
            None => 0,
        };
        push_decimal(&mut out, count as u64);
        proof {
            if i == 0 {
                assert(tv.take(1) =~= seq![tv[0]]);
            }
            assert(out@ =~= frequency_text(tv.take(i + 1), m@));
        }
        i = i + 1;
    }
    proof {
        assert(tv.take(top.len() as int) =~= tv);
    }
    out
}

/// A fresh state holds no games: it always fits, and loading it leaves every
/// count as it was (and sets the number of games to zero).
pub proof fn lemma_fresh_state_loads_nothing(state: Json, stats: GameStats)
    requires
        crate::state::is_fresh_state(state),
    ensures
        json_array(json_field(state, "games"@)) == Some(Seq::<Json>::empty()),
        count_games(tally_of(stats), Seq::<Json>::empty()) == tally_of(stats),
        state_fits(stats, state),
{
    reveal_strlit("games");
    reveal_strlit("total_rounds");
    match state {
        Json::Object(members) => {
            assert("total_rounds"@.len() != "games"@.len());
            assert(members@[0].0@ != "games"@);
            assert(member_value(members@.drop_first(), "games"@) == members@[1].1);
            match members@[1].1 {
                Json::Array(items) => {
                    assert(items@ =~= Seq::<Json>::empty());
                },
                _ => {},
            }
        },
        _ => {},
    }
}

proof fn lemma_string_guesses_count_cleanly(t: Tally, guesses: Seq<Json>)
    requires
        t.error is None,
        forall|i: int| 0 <= i < guesses.len() ==> json_str(#[trigger] guesses[i]) is Some,
    ensures
        count_guesses(t, guesses).error is None,
        count_guesses(t, guesses).success == t.success,
        count_guesses(t, guesses).tries == t.tries,
    decreases guesses.len(),
{
    if guesses.len() > 0 {
        lemma_string_guesses_count_cleanly(t, guesses.drop_last());
        assert(json_str(guesses[guesses.len() - 1]) is Some);
    }
}

/// A saved game can always be read back: after `append_game_record`, loading
/// the state reads one more game, and that game adds no error to a state that
/// read cleanly before.
pub proof fn lemma_appended_game_reads_back(
    before: Json,
    after: Json,
    answer: Seq<char>,
    guesses: Seq<String>,
    stats: GameStats,
)
    requires
        crate::state::is_appended(before, after, answer, guesses),
    ensures
        ({
            let games = json_array(json_field(before, "games"@))->0;
            let now = json_array(json_field(after, "games"@))->0;
            &&& now.len() == games.len() + 1
            &&& count_games(tally_of(stats), games).error is None ==> count_games(
                tally_of(stats),
                now,
            ).error is None
        }),
{
    reveal_strlit("answer");
    reveal_strlit("guesses");
    let games = json_array(json_field(before, "games"@))->0;
    let now = json_array(json_field(after, "games"@))->0;
    let t = count_games(tally_of(stats), games);
    assert(now.drop_last() =~= now.take(games.len() as int));
    if t.error is None {
        let rec = now.last();
        match rec {
            Json::Object(members) => {
                assert("answer"@.len() != "guesses"@.len());
                assert(member_value(members@, "answer"@) == members@[0].1);
                assert(member_value(members@.drop_first(), "guesses"@) == members@[1].1);
                assert(json_field(rec, "guesses"@) == members@[1].1);
                let gs = json_array(members@[1].1)->0;
                lemma_string_guesses_count_cleanly(t, gs);
            },
            _ => {},
        }
    }
}

} // verus!
