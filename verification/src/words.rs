//! Word lists: reading them from text and choosing between a file and the
//! built-in list.
use vstd::prelude::*;
use vstd::relations::{sorted_by, total_ordering};
use crate::text::{
    lex_less,
    lemma_lex_less_strict_total,
    str_less,
    trim,
    to_lowercase,
    push_char,
    trimmed_text,
    lowercase_text,
};

verus! {

/// The texts of a list of strings.
pub open spec fn texts(v: Seq<String>) -> Seq<Seq<char>> {
    v.map_values(|s: String| s@)
}

/// The order of `String`: `a` does not come after `b`.
pub open spec fn text_leq() -> spec_fn(Seq<char>, Seq<char>) -> bool {
    |a: Seq<char>, b: Seq<char>| !lex_less(b, a)
}

/// `text_leq` is a total order.
pub proof fn lemma_text_leq_total()
    ensures
        total_ordering(text_leq()),
{
    let leq = text_leq();
    assert forall|x: Seq<char>| #[trigger] leq(x, x) by {
        lemma_lex_less_strict_total(x, x, x);
    }
    assert forall|x: Seq<char>, y: Seq<char>| #[trigger] leq(x, y) && #[trigger] leq(y, x) implies x
        == y by {
        lemma_lex_less_strict_total(x, y, y);
    }
    assert forall|x: Seq<char>, y: Seq<char>, z: Seq<char>| #[trigger] leq(x, y) && #[trigger] leq(
        y,
        z,
    ) implies leq(x, z) by {
        lemma_lex_less_strict_total(z, y, x);
        lemma_lex_less_strict_total(x, y, z);
        lemma_lex_less_strict_total(y, x, z);
        lemma_lex_less_strict_total(z, x, y);
    }
    assert forall|x: Seq<char>, y: Seq<char>| #[trigger] leq(x, y) || #[trigger] leq(y, x) by {
        lemma_lex_less_strict_total(x, y, x);
    }
}

/// Index at which `w` goes into the sorted `r`: after every text that does
/// not come after it.
fn insertion_point(r: &Vec<String>, w: &String) -> (p: usize)
    requires
        sorted_by(texts(r@), text_leq()),
    ensures
        p <= r.len(),
        forall|k: int| 0 <= k < p ==> !lex_less(w@, #[trigger] r@[k]@),
        forall|k: int| p <= k < r.len() ==> lex_less(w@, #[trigger] r@[k]@),
{
    proof {
        lemma_text_leq_total();
    }
    let mut lo: usize = 0;
    let mut hi: usize = r.len();
    while lo < hi
        invariant
            0 <= lo <= hi <= r.len(),
            sorted_by(texts(r@), text_leq()),
            total_ordering(text_leq()),
            forall|k: int| 0 <= k < lo ==> !lex_less(w@, #[trigger] r@[k]@),
            forall|k: int| hi <= k < r.len() ==> lex_less(w@, #[trigger] r@[k]@),
        decreases hi - lo,
    {
        let mid = lo + (hi - lo) / 2;
        if str_less(w.as_str(), r[mid].as_str()) {
            proof {
                assert forall|k: int| mid <= k < r.len() implies lex_less(w@, #[trigger] r@[k]@) by {
                    if k > mid {
                        assert(text_leq()(texts(r@)[mid as int], texts(r@)[k]));
                        lemma_lex_less_strict_total(w@, r@[mid as int]@, r@[k]@);
                        if r@[mid as int]@ != r@[k]@ {
                            lemma_lex_less_strict_total(r@[mid as int]@, r@[k]@, r@[k]@);
                        }
                    }
                }
            }
            hi = mid;
        } else {
            proof {
                assert forall|k: int| 0 <= k < mid + 1 implies !lex_less(w@, #[trigger] r@[k]@) by {
                    if k < mid {
                        assert(text_leq()(texts(r@)[k], texts(r@)[mid as int]));
                        lemma_lex_less_strict_total(w@, r@[k]@, r@[mid as int]@);
                        lemma_lex_less_strict_total(r@[k]@, r@[mid as int]@, r@[mid as int]@);
                    }
                }
            }
            lo = mid + 1;
        }
    }
    lo
}

/// The words in `String` order, as `sort` leaves them.
pub fn sort_words(words: Vec<String>) -> (r: Vec<String>)
    ensures
        texts(r@) == texts(words@).sort_by(text_leq()),
{
    proof {
        lemma_text_leq_total();
    }
    let mut r: Vec<String> = Vec::new();
    let mut i: usize = 0;
    proof {
        assert(texts(r@) =~= texts(words@).take(0));
    }
    while i < words.len()
        invariant
            0 <= i <= words.len(),
            total_ordering(text_leq()),
            sorted_by(texts(r@), text_leq()),
            texts(r@).to_multiset() == texts(words@).take(i as int).to_multiset(),
        decreases words.len() - i,
    {
        let w = words[i].clone();
        let p = insertion_point(&r, &w);
        let ghost before = texts(r@);
        r.insert(p, w);
        proof {
            let t = texts(r@);
            assert(t =~= before.insert(p as int, words@[i as int]@));
            vstd::seq_lib::to_multiset_insert(before, p as int, words@[i as int]@);
            assert(texts(words@).take(i + 1) =~= texts(words@).take(i as int).push(
                words@[i as int]@,
            ));
            vstd::seq_lib::to_multiset_build(texts(words@).take(i as int), words@[i as int]@);
            assert forall|a: int, b: int| 0 <= a < b < t.len() implies #[trigger] text_leq()(
                t[a],
                t[b],
            ) by {
                if b < p {
                    assert(t[a] == before[a] && t[b] == before[b]);
                } else if b == p {
                    assert(t[a] == before[a]);
                    assert(!lex_less(words@[i as int]@, r@[a]@));
                } else if a == p {
                    assert(t[b] == before[b - 1]);
                    assert(lex_less(words@[i as int]@, before[b - 1]));
                    lemma_lex_less_strict_total(words@[i as int]@, before[b - 1], before[b - 1]);
                } else if a < p {
                    assert(t[a] == before[a] && t[b] == before[b - 1]);
                } else {
                    assert(t[a] == before[a - 1] && t[b] == before[b - 1]);
                }
            }
        }
        i = i + 1;
    }
    proof {
        assert(texts(words@).take(words.len() as int) =~= texts(words@));
        texts(words@).lemma_sort_by_ensures(text_leq());
        vstd::seq_lib::lemma_sorted_unique(
            texts(r@),
            texts(words@).sort_by(text_leq()),
            text_leq(),
        );
    }
    r
}

/// Pieces of `s` between newline characters; there is always at least one.
pub open spec fn newline_pieces(s: Seq<char>) -> Seq<Seq<char>>
    decreases s.len(),
{
    if s.len() == 0 {
        seq![Seq::<char>::empty()]
    } else {
        let p = newline_pieces(s.drop_last());
        if s.last() == '\n' {
            p.push(Seq::<char>::empty())
        } else {
            p.update(p.len() - 1, p.last().push(s.last()))
        }
    }
}

/// A line without the `'\r'` of a `"\r\n"` ending.
pub open spec fn strip_cr(l: Seq<char>) -> Seq<char> {
    if l.len() > 0 && l.last() == '\r' {
        l.drop_last()
    } else {
        l
    }
}

/// The lines of `s` as `str::lines` gives them: split at `"\n"` or
/// `"\r\n"`, the line ending not included, and no empty line after a final
/// line ending.
pub open spec fn text_lines(s: Seq<char>) -> Seq<Seq<char>> {
    let p = newline_pieces(s);
    let ended = p.drop_last().map_values(|l: Seq<char>| strip_cr(l));
    if p.last().len() == 0 {
        ended
    } else {
        ended.push(p.last())
    }
}

proof fn lemma_newline_pieces_len(s: Seq<char>)
    ensures
        newline_pieces(s).len() >= 1,
    decreases s.len(),
{
    if s.len() > 0 {
        lemma_newline_pieces_len(s.drop_last());
    }
}

/// The lines of `s` (see `text_lines`).
pub fn split_lines(s: &str) -> (r: Vec<String>)
    ensures
        texts(r@) == text_lines(s@),
{
    let mut lines: Vec<String> = Vec::new();
    let mut cur = String::new();
    let mut pending_cr = false;
    proof {
        assert(s@.take(0) =~= Seq::<char>::empty());
        assert(texts(lines@) =~= newline_pieces(s@.take(0)).drop_last().map_values(
            |l: Seq<char>| strip_cr(l),
        ));
    }
    for c in it: s.chars()
        invariant
            it.seq() == s@,
            0 <= it.index() <= s@.len(),
            ({
                let p = newline_pieces(s@.take(it.index() as int));
                &&& p.len() >= 1
                &&& texts(lines@) == p.drop_last().map_values(|l: Seq<char>| strip_cr(l))
                &&& cur@ == if pending_cr {
                    p.last().drop_last()
                } else {
                    p.last()
                }
                &&& pending_cr ==> p.last().len() > 0 && p.last().last() == '\r'
                &&& !pending_cr ==> p.last().len() == 0 || p.last().last() != '\r'
            }),
    {
        let ghost k = it.index() as int;
        let ghost p0 = newline_pieces(s@.take(k));
        proof {
            assert(c == s@[k]);
            assert(s@.take(k + 1).drop_last() =~= s@.take(k));
            assert(s@.take(k + 1).last() == c);
            lemma_newline_pieces_len(s@.take(k + 1));
        }
        if c == '\n' {
            let ghost old_lines = texts(lines@);
            let done = cur;
            cur = String::new();
            lines.push(done);
            pending_cr = false;
            proof {
                let p1 = newline_pieces(s@.take(k + 1));
                assert(p1 == p0.push(Seq::<char>::empty()));
                assert(p1.drop_last() =~= p0);
                assert(p0 =~= p0.drop_last().push(p0.last()));
                assert(texts(lines@) =~= old_lines.push(strip_cr(p0.last())));
                assert(p0.map_values(|l: Seq<char>| strip_cr(l)) =~= p0.drop_last().map_values(
                    |l: Seq<char>| strip_cr(l),
                ).push(strip_cr(p0.last())));
            }
        } else {
            if pending_cr {
                push_char(&mut cur, '\r');
            }
            if c == '\r' {
                pending_cr = true;
            } else {
                push_char(&mut cur, c);
                pending_cr = false;
            }
            proof {
                let p1 = newline_pieces(s@.take(k + 1));
                assert(p1 == p0.update(p0.len() - 1, p0.last().push(c)));
                assert(p1.drop_last() =~= p0.drop_last());
                assert(p1.last() == p0.last().push(c));
                if p0.last().len() > 0 && p0.last().last() == '\r' {
                    assert(p0.last() =~= p0.last().drop_last().push('\r'));
                }
                assert(p1.last().drop_last() =~= p0.last());
            }
        }
    }
    proof {
        assert(s@.take(s@.len() as int) =~= s@);
    }
    let ghost p = newline_pieces(s@);
    if pending_cr {
        push_char(&mut cur, '\r');
        proof {
            assert(p.last() =~= p.last().drop_last().push('\r'));
        }
    }
    if cur.as_str().unicode_len() > 0 {
        lines.push(cur);
    }
    lines
}

/// The words of a word-list text: each line, trimmed and in lower case.
pub fn parse_word_list(content: &str) -> (r: Vec<String>)
    ensures
        texts(r@) == text_lines(content@).map_values(
            |l: Seq<char>| lowercase_text(trimmed_text(l)),
        ),
{
    let lines = split_lines(content);
    let mut words: Vec<String> = Vec::new();
    let mut i: usize = 0;
    while i < lines.len()
        invariant
            0 <= i <= lines.len(),
            texts(lines@) == text_lines(content@),
            words.len() == i,
            forall|k: int|
                0 <= k < i ==> #[trigger] words@[k]@ == lowercase_text(trimmed_text(lines@[k]@)),
        decreases lines.len() - i,
    {
        let t = trim(lines[i].as_str());
        words.push(to_lowercase(t.as_str()));
        i = i + 1;
    }
    proof {
        assert(texts(words@) =~= text_lines(content@).map_values(
            |l: Seq<char>| lowercase_text(trimmed_text(l)),
        ));
    }
    words
}

/// Fills `words` with the word list: when `source` names a file, the words
/// `listed` in it (as `parse_word_list` reads them), in `String` order;
/// otherwise the built-in `default_source`, in its order.
pub fn get_strings(
    words: &mut Vec<String>,
    source: &String,
    default_source: &[&str],
    listed: Vec<String>,
)
    ensures
        source@.len() != 0 ==> texts(final(words)@) == texts(listed@).sort_by(text_leq()),
        source@.len() == 0 ==> texts(final(words)@) == default_source@.map_values(
            |w: &str| w@,
        ),
{
    if source.as_str().unicode_len() != 0 {
        *words = sort_words(listed);
    } else {
        let mut v: Vec<String> = Vec::new();
        let mut i: usize = 0;
        while i < default_source.len()
            invariant
                0 <= i <= default_source.len(),
                v.len() == i,
                forall|k: int| 0 <= k < i ==> #[trigger] v@[k]@ == default_source@[k]@,
            decreases default_source.len() - i,
        {
            v.push(String::from_str(default_source[i]));
            i = i + 1;
        }
        proof {
            assert(texts(v@) =~= default_source@.map_values(|w: &str| w@));
        }
        *words = v;
    }
}

} // verus!
