//! Game statistics: counters and how often each word was guessed.
use vstd::prelude::*;
use crate::game::RoundResult;
use crate::words::texts;

verus! {

/// The map described by a list of (word, count) entries.
pub open spec fn entries_map(e: Seq<(String, i32)>) -> Map<Seq<char>, i32>
    decreases e.len(),
{
    if e.len() == 0 {
        Map::empty()
    } else {
        entries_map(e.drop_last()).insert(e.last().0@, e.last().1)
    }
}

/// Entries with pairwise different words and positive counts.
pub open spec fn entries_wf(e: Seq<(String, i32)>) -> bool {
    &&& forall|i: int, j: int| 0 <= i < j < e.len() ==> #[trigger] e[i].0@ != #[trigger] e[j].0@
    &&& forall|i: int| 0 <= i < e.len() ==> #[trigger] e[i].1 >= 1
}

/// How often each guessed word was seen. The view maps each word's text to
/// its count.
pub struct WordFreq {
    entries: Vec<(String, i32)>,
}

impl View for WordFreq {
    type V = Map<Seq<char>, i32>;

    closed spec fn view(&self) -> Map<Seq<char>, i32> {
        entries_map(self.entries@)
    }
}

/// Every entry's word maps to its count, every word in the map has an
/// entry, and the map has as many words as there are entries.
pub proof fn lemma_entries_map(e: Seq<(String, i32)>)
    requires
        entries_wf(e),
    ensures
        entries_map(e).dom().finite(),
        entries_map(e).dom().len() == e.len(),
        forall|i: int|
            0 <= i < e.len() ==> #[trigger] entries_map(e).contains_key(e[i].0@) && entries_map(
                e,
            )[e[i].0@] == e[i].1,
        forall|k: Seq<char>|
            #[trigger] entries_map(e).contains_key(k) ==> exists|i: int|
                0 <= i < e.len() && #[trigger] e[i].0@ == k,
    decreases e.len(),
{
    if e.len() > 0 {
        let p = e.drop_last();
        assert(entries_wf(p)) by {
            assert forall|i: int, j: int| 0 <= i < j < p.len() implies #[trigger] p[i].0@
                != #[trigger] p[j].0@ by {
                assert(e[i].0@ != e[j].0@);
            }
        }
        lemma_entries_map(p);
        let m = entries_map(p);
        let last = e.last().0@;
        assert(!m.contains_key(last)) by {
            if m.contains_key(last) {
                let i = choose|i: int| 0 <= i < p.len() && #[trigger] p[i].0@ == last;
                assert(e[i].0@ != e[e.len() - 1].0@);
            }
        }
        assert forall|k: Seq<char>| #[trigger] entries_map(e).contains_key(k) implies exists|i: int|
            0 <= i < e.len() && #[trigger] e[i].0@ == k by {
            if k != last {
                let i = choose|i: int| 0 <= i < p.len() && #[trigger] p[i].0@ == k;
                assert(e[i].0@ == k);
            } else {
                assert(e[e.len() - 1].0@ == k);
            }
        }
        assert forall|i: int| 0 <= i < e.len() implies #[trigger] entries_map(e).contains_key(
            e[i].0@,
        ) && entries_map(e)[e[i].0@] == e[i].1 by {
            if i < e.len() - 1 {
                assert(p[i] == e[i]);
                assert(e[i].0@ != e[e.len() - 1].0@);
            }
        }
    }
}

/// Every count of well-formed entries is at least 1.
pub proof fn lemma_counts_positive(e: Seq<(String, i32)>)
    requires
        entries_wf(e),
    ensures
        forall|k: Seq<char>| #[trigger] entries_map(e).contains_key(k) ==> entries_map(e)[k] >= 1,
{
    lemma_entries_map(e);
    assert forall|k: Seq<char>| #[trigger] entries_map(e).contains_key(k) implies entries_map(e)[k]
        >= 1 by {
        let i = choose|i: int| 0 <= i < e.len() && #[trigger] e[i].0@ == k;
    }
}

impl WordFreq {
    /// Entries with different words and positive counts.
    #[verifier::type_invariant]
    spec fn well_formed(self) -> bool {
        entries_wf(self.entries@)
    }

    /// The entries, one per word seen, in the order the words were first
    /// seen.
    pub closed spec fn entry_list(&self) -> Seq<(String, i32)> {
        self.entries@
    }

    /// The view is the map the entries describe.
    pub proof fn lemma_view_is_entries(&self)
        ensures
            self@ == entries_map(self.entry_list()),
    {
    }

    /// No word seen yet.
    pub fn new() -> (r: WordFreq)
        ensures
            r@ == Map::<Seq<char>, i32>::empty(),
            r.entry_list() == Seq::<(String, i32)>::empty(),
    {
        WordFreq { entries: Vec::new() }
    }

    /// The entries: different words with positive counts, describing the
    /// view.
    pub fn entries(&self) -> (r: &Vec<(String, i32)>)
        ensures
            r@ == self.entry_list(),
            entries_wf(r@),
            self@ == entries_map(r@),
    {
        proof {
            use_type_invariant(self);
        }
        &self.entries
    }

    /// Number of different words seen.
    pub fn len(&self) -> (r: usize)
        ensures
            r == self@.dom().len(),
    {
        proof {
            use_type_invariant(self);
            lemma_entries_map(self.entries@);
        }
        self.entries.len()
    }

    /// How often `word` was seen, if at all.
    pub fn get(&self, word: &str) -> (r: Option<i32>)
        ensures
            r == if self@.contains_key(word@) {
                Some(self@[word@])
            } else {
                None::<i32>
            },
    {
        proof {
            use_type_invariant(self);
            lemma_entries_map(self.entries@);
        }
        match find_entry(&self.entries, word) {
            Some(i) => Some(self.entries[i].1),
            None => None,
        }
    }

    /// Counts one more sighting of `word`.
    pub fn add_one(&mut self, word: String)
        requires
            old(self)@.contains_key(word@) ==> old(self)@[word@] < i32::MAX,
        ensures
            final(self)@ == old(self)@.insert(
                word@,
                if old(self)@.contains_key(word@) {
                    (old(self)@[word@] + 1) as i32
                } else {
                    1i32
                },
            ),
    {
        proof {
            use_type_invariant(&*self);
        }
        let ghost e0 = self.entries@;
        proof {
            lemma_entries_map(e0);
        }
        let mut entries: Vec<(String, i32)> = Vec::new();
        std::mem::swap(&mut entries, &mut self.entries);
        assert(entries@ == e0);
        match find_entry(&entries, word.as_str()) {
            Some(i) => {
                let c = entries[i].1;
                entries.set(i, (word, c + 1));
                proof {
                    let e1 = entries@;
                    assert(entries_wf(e1)) by {
                        assert forall|a: int, b: int| 0 <= a < b < e1.len() implies #[trigger] e1[a].0@
                            != #[trigger] e1[b].0@ by {
                            assert(e0[a].0@ != e0[b].0@);
                        }
                    }
                    lemma_entries_map(e1);
                    let want = entries_map(e0).insert(word@, (c + 1) as i32);
                    assert forall|k: Seq<char>| #[trigger] entries_map(e1).contains_key(k)
                        == want.contains_key(k) by {
                        if entries_map(e1).contains_key(k) {
                            let j = choose|j: int| 0 <= j < e1.len() && #[trigger] e1[j].0@ == k;
                            assert(e0[j].0@ == k);
                        }
                        if entries_map(e0).contains_key(k) {
                            let j = choose|j: int| 0 <= j < e0.len() && #[trigger] e0[j].0@ == k;
                            assert(e1[j].0@ == k);
                        }
                    }
                    assert forall|k: Seq<char>| #[trigger] entries_map(e1).contains_key(k) implies
                        entries_map(e1)[k] == want[k] by {
                        let j = choose|j: int| 0 <= j < e1.len() && #[trigger] e1[j].0@ == k;
                        if j != i {
                            assert(e0[j].0@ == k);
                        }
                    }
                    assert(entries_map(e1) =~= want);
                }
            },
            None => {
                entries.push((word, 1));
                proof {
                    let e1 = entries@;
                    assert(e1.drop_last() =~= e0);
                }
            },
        }
        self.entries = entries;
    }
}

/// Index of the entry for `word` among well-formed entries, if any.
fn find_entry(entries: &Vec<(String, i32)>, word: &str) -> (r: Option<usize>)
    requires
        entries_wf(entries@),
    ensures
        match r {
            Some(i) => i < entries.len() && entries@[i as int].0@ == word@,
            None => forall|k: int|
                0 <= k < entries.len() ==> #[trigger] entries@[k].0@ != word@,
        },
        r is None <==> !entries_map(entries@).contains_key(word@),
{
    proof {
        lemma_entries_map(entries@);
    }
    let w = String::from_str(word);
    let mut i: usize = 0;
    while i < entries.len()
        invariant
            0 <= i <= entries.len(),
            entries_wf(entries@),
            w@ == word@,
            forall|k: int| 0 <= k < i ==> #[trigger] entries@[k].0@ != word@,
        decreases entries.len() - i,
    {
        if entries[i].0 == w {
            proof {
                lemma_entries_map(entries@);
                assert(entries_map(entries@).contains_key(entries@[i as int].0@));
            }
            return Some(i);
        }
        i = i + 1;
    }
    proof {
        if entries_map(entries@).contains_key(word@) {
            let k = choose|k: int| 0 <= k < entries@.len() && #[trigger] entries@[k].0@ == word@;
        }
    }
    None
}

/// Counters of a session and the guessed-word counts.
pub struct GameStats {
    pub success_game_cnt: u64,
    pub total_game_cnt: u64,
    pub total_success_guess_try: u64,
    pub guess_frequency: WordFreq,
}

impl GameStats {
    /// Statistics with each field as given.
    pub fn new(
        success_game_cnt: u64,
        total_game_cnt: u64,
        total_success_guess_try: u64,
        guess_frequency: WordFreq,
    ) -> (r: GameStats)
        ensures
            r.success_game_cnt == success_game_cnt,
            r.total_game_cnt == total_game_cnt,
            r.total_success_guess_try == total_success_guess_try,
            r.guess_frequency == guess_frequency,
    {
        GameStats { success_game_cnt, total_game_cnt, total_success_guess_try, guess_frequency }
    }
}

impl Default for GameStats {
    /// All counters zero and no word seen.
    fn default() -> (r: Self)
        ensures
            r.success_game_cnt == 0,
            r.total_game_cnt == 0,
            r.total_success_guess_try == 0,
            r.guess_frequency@ == Map::<Seq<char>, i32>::empty(),
    {
        GameStats {
            success_game_cnt: 0,
            total_game_cnt: 0,
            total_success_guess_try: 0,
            guess_frequency: WordFreq::new(),
        }
    }
}

/// `m` after one more sighting of each of `words`, in order.
pub open spec fn add_words(m: Map<Seq<char>, i32>, words: Seq<Seq<char>>) -> Map<Seq<char>, i32>
    decreases words.len(),
{
    if words.len() == 0 {
        m
    } else {
        let p = add_words(m, words.drop_last());
        let w = words.last();
        p.insert(
            w,
            if p.contains_key(w) {
                (p[w] + 1) as i32
            } else {
                1i32
            },
        )
    }
}

/// How many of `words` equal `k`.
pub open spec fn occurrences(words: Seq<Seq<char>>, k: Seq<char>) -> int
    decreases words.len(),
{
    if words.len() == 0 {
        0
    } else {
        occurrences(words.drop_last(), k) + if words.last() == k {
            1int
        } else {
            0int
        }
    }
}

/// The count of `k` in `m`, zero when `k` is absent.
pub open spec fn count_in(m: Map<Seq<char>, i32>, k: Seq<char>) -> int {
    if m.contains_key(k) {
        m[k] as int
    } else {
        0
    }
}

/// Counting words adds, for every word, how often it occurs: a word seen
/// `n` more times has its count raised by exactly `n` (from 0 when it was
/// absent), as long as the count fits in `i32`.
pub proof fn lemma_add_words_counts(m: Map<Seq<char>, i32>, words: Seq<Seq<char>>, k: Seq<char>)
    requires
        count_in(m, k) + occurrences(words, k) <= i32::MAX,
        count_in(m, k) >= 0,
    ensures
        count_in(add_words(m, words), k) == count_in(m, k) + occurrences(words, k),
    decreases words.len(),
{
    if words.len() > 0 {
        let p = words.drop_last();
        lemma_occurrences_nonneg(p, k);
        lemma_add_words_counts(m, p, k);
    }
}

/// Occurrences never decrease as more words are looked at.
pub proof fn lemma_occurrences_prefix(words: Seq<Seq<char>>, n: int, k: Seq<char>)
    requires
        0 <= n <= words.len(),
    ensures
        0 <= occurrences(words.take(n), k) <= occurrences(words, k),
    decreases words.len() - n,
{
    if n < words.len() {
        lemma_occurrences_prefix(words, n + 1, k);
        assert(words.take(n + 1).drop_last() =~= words.take(n));
        lemma_occurrences_nonneg(words.take(n), k);
    } else {
        assert(words.take(n) =~= words);
        lemma_occurrences_nonneg(words, k);
    }
}

/// A word occurs at most as often as there are words.
pub proof fn lemma_occurrences_len(words: Seq<Seq<char>>, k: Seq<char>)
    ensures
        occurrences(words, k) <= words.len(),
    decreases words.len(),
{
    if words.len() > 0 {
        lemma_occurrences_len(words.drop_last(), k);
    }
}

proof fn lemma_occurrences_nonneg(words: Seq<Seq<char>>, k: Seq<char>)
    ensures
        occurrences(words, k) >= 0,
    decreases words.len(),
{
    if words.len() > 0 {
        lemma_occurrences_nonneg(words.drop_last(), k);
    }
}

/// Counts one more sighting of each of `words`, in order. Each word's count
/// grows by the number of times it occurs in `words`.
pub fn count_words(freq: &mut WordFreq, words: &Vec<String>)
    requires
        forall|k: Seq<char>|
            count_in(old(freq)@, k) + #[trigger] occurrences(texts(words@), k) <= i32::MAX,
    ensures
        final(freq)@ == add_words(old(freq)@, texts(words@)),
        forall|k: Seq<char>|
            #[trigger] count_in(final(freq)@, k) == count_in(old(freq)@, k) + occurrences(
                texts(words@),
                k,
            ),
{
    let ghost f0 = freq@;
    let ghost ws = texts(words@);
    let mut i: usize = 0;
    while i < words.len()
        invariant
            0 <= i <= words.len(),
            f0 == old(freq)@,
            ws == texts(words@),
            freq@ == add_words(f0, ws.take(i as int)),
            forall|k: Seq<char>| count_in(f0, k) + #[trigger] occurrences(ws, k) <= i32::MAX,
            forall|k: Seq<char>|
                #[trigger] count_in(freq@, k) == count_in(f0, k) + occurrences(ws.take(i as int), k),
        decreases words.len() - i,
    {
        let ghost before = freq@;
        let ghost w = words@[i as int]@;
        proof {
            assert(ws.take(i + 1).drop_last() =~= ws.take(i as int));
            assert(ws.take(i + 1).last() == w);
            lemma_occurrences_prefix(ws, i + 1, w);
            assert(count_in(before, w) == count_in(f0, w) + occurrences(ws.take(i as int), w));
            assert(occurrences(ws.take(i + 1), w) == occurrences(ws.take(i as int), w) + 1);
            assert(count_in(f0, w) + occurrences(ws, w) <= i32::MAX);
        }
        freq.add_one(words[i].clone());
        proof {
            assert forall|k: Seq<char>| #[trigger] count_in(freq@, k) == count_in(f0, k) + occurrences(
                ws.take(i + 1),
                k,
            ) by {
                assert(count_in(before, k) == count_in(f0, k) + occurrences(ws.take(i as int), k));
            }
        }
        i = i + 1;
    }
    proof {
        assert(ws.take(words.len() as int) =~= ws);
    }
}

/// Counts a finished round: one more game, each guess seen once more, and
/// for a found answer one more success with its number of guesses.
pub fn update_stats(stats: &mut GameStats, result: &RoundResult)
    requires
        old(stats).total_game_cnt < u64::MAX,
        result.success ==> old(stats).success_game_cnt < u64::MAX && 0 <= result.guess_count
            && old(stats).total_success_guess_try + result.guess_count <= u64::MAX,
        forall|k: Seq<char>|
            count_in(old(stats).guess_frequency@, k) + #[trigger] occurrences(
                texts(result.guesses@),
                k,
            ) <= i32::MAX,
    ensures
        final(stats).total_game_cnt == old(stats).total_game_cnt + 1,
        final(stats).success_game_cnt == old(stats).success_game_cnt + if result.success {
            1int
        } else {
            0int
        },
        final(stats).total_success_guess_try == old(stats).total_success_guess_try + if result.success {
            result.guess_count as int
        } else {
            0int
        },
        final(stats).guess_frequency@ == add_words(
            old(stats).guess_frequency@,
            texts(result.guesses@),
        ),
{
    stats.total_game_cnt = stats.total_game_cnt + 1;
    count_words(&mut stats.guess_frequency, &result.guesses);
    if result.success {
        stats.success_game_cnt = stats.success_game_cnt + 1;
        stats.total_success_guess_try = stats.total_success_guess_try + result.guess_count as u64;
    }
}

} // verus!
