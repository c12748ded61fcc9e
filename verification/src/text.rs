//! Text helpers: decimal numbers, case mapping and trimming.
use vstd::prelude::*;

verus! {

/// An ASCII decimal digit.
pub open spec fn is_digit(c: char) -> bool {
    '0' <= c <= '9'
}

/// Value of a sequence of decimal digits, most significant first.
pub open spec fn digits_value(s: Seq<char>) -> int
    decreases s.len(),
{
    if s.len() == 0 {
        0
    } else {
        digits_value(s.drop_last()) * 10 + ((s.last() as int) - ('0' as int))
    }
}

/// The digits of an unsigned number: the text without one leading `'+'`.
pub open spec fn unsigned_digits(s: Seq<char>) -> Seq<char> {
    if s.len() > 0 && s[0] == '+' {
        s.drop_first()
    } else {
        s
    }
}

/// Unsigned decimal reading of `s` bounded by `max`: an optional `'+'`
/// followed by at least one digit and nothing else, of value at most `max`.
pub open spec fn parse_unsigned(s: Seq<char>, max: int) -> Option<int> {
    let d = unsigned_digits(s);
    if d.len() > 0 && (forall|i: int| 0 <= i < d.len() ==> is_digit(#[trigger] d[i]))
        && digits_value(d) <= max {
        Some(digits_value(d))
    } else {
        None
    }
}

proof fn lemma_digits_value_nonneg(s: Seq<char>)
    requires
        forall|i: int| 0 <= i < s.len() ==> is_digit(#[trigger] s[i]),
    ensures
        digits_value(s) >= 0,
    decreases s.len(),
{
    if s.len() > 0 {
        lemma_digits_value_nonneg(s.drop_last());
    }
}

/// A number that reads is between 0 and the bound.
pub proof fn lemma_parse_unsigned_range(s: Seq<char>, max: int)
    ensures
        parse_unsigned(s, max) matches Some(v) ==> 0 <= v <= max,
{
    let d = unsigned_digits(s);
    if parse_unsigned(s, max) is Some {
        lemma_digits_value_nonneg(d);
    }
}

proof fn lemma_digits_value_grows(s: Seq<char>, n: int)
    requires
        0 <= n <= s.len(),
        forall|i: int| 0 <= i < s.len() ==> is_digit(#[trigger] s[i]),
    ensures
        digits_value(s.take(n)) <= digits_value(s),
    decreases s.len() - n,
{
    if n < s.len() {
        lemma_digits_value_grows(s, n + 1);
        let t = s.take(n + 1);
        assert(t.drop_last() =~= s.take(n));
        lemma_digits_value_nonneg(s.take(n));
        assert(digits_value(t) == digits_value(s.take(n)) * 10 + ((t.last() as int) - ('0' as int)));
        assert(digits_value(s.take(n)) <= digits_value(t)) by (nonlinear_arith)
            requires
                digits_value(t) == digits_value(s.take(n)) * 10 + ((t.last() as int) - ('0' as int)),
                digits_value(s.take(n)) >= 0,
                (t.last() as int) - ('0' as int) >= 0,
        ;
    } else {
        assert(s.take(n) =~= s);
    }
}

/// Reads `s` as an unsigned decimal number of value at most `max`, the way
/// the standard library parses unsigned integers.
pub fn parse_decimal(s: &str, max: u64) -> (r: Option<u64>)
    ensures
        r == match parse_unsigned(s@, max as int) {
            Some(v) => Some(v as u64),
            None => None::<u64>,
        },
        r matches Some(v) ==> parse_unsigned(s@, max as int) == Some(v as int),
{
    let n = s.unicode_len();
    let mut start: usize = 0;
    if n > 0 && s.get_char(0) == '+' {
        start = 1;
    }
    let ghost d = unsigned_digits(s@);
    assert(d =~= s@.subrange(start as int, n as int));
    if start == n {
        return None;
    }
    let mut acc: u64 = 0;
    let mut i: usize = start;
    while i < n
        invariant
            start <= i <= n,
            n == s@.len(),
            start < n,
            d =~= s@.subrange(start as int, n as int),
            d == unsigned_digits(s@),
            forall|k: int| 0 <= k < i - start ==> is_digit(#[trigger] d[k]),
            acc as int == digits_value(d.take(i - start)),
            acc <= max,
        decreases n - i,
    {
        let c = s.get_char(i);
        proof {
            assert(d[i - start] == c);
        }
        if !('0' <= c && c <= '9') {
            proof {
                assert(!is_digit(d[i - start]));
            }
            return None;
        }
        let v = (c as u32 - '0' as u32) as u64;
        let ghost k = (i - start) as int;
        proof {
            assert(d.take(k + 1).drop_last() =~= d.take(k));
            assert(d.take(k + 1).last() == c);
        }
        if v > max || acc > (max - v) / 10 {
            proof {
                assert(acc * 10 + v > max) by (nonlinear_arith)
                    requires
                        v > max || acc > (max - v) / 10,
                        v <= 9,
                ;
                if forall|j: int| 0 <= j < d.len() ==> is_digit(#[trigger] d[j]) {
                    lemma_digits_value_grows(d, k + 1);
                }
            }
            return None;
        }
        proof {
            assert(acc * 10 + v <= max) by (nonlinear_arith)
                requires
                    acc <= (max - v) / 10,
                    v <= 9,
            ;
        }
        acc = acc * 10 + v;
        i = i + 1;
    }
    proof {
        assert(d.take(n - start) =~= d);
        lemma_digits_value_nonneg(d);
    }
    Some(acc)
}

/// What `str::to_lowercase` returns for a text (Unicode case mapping).
pub uninterp spec fn lowercase_text(s: Seq<char>) -> Seq<char>;

/// What `str::to_uppercase` returns for a text (Unicode case mapping).
pub uninterp spec fn uppercase_text(s: Seq<char>) -> Seq<char>;

/// A character with the Unicode White_Space property, which `str::trim`
/// removes.
pub open spec fn is_white_space(c: char) -> bool {
    let v = c as int;
    ||| 0x9 <= v <= 0xD
    ||| v == 0x20
    ||| v == 0x85
    ||| v == 0xA0
    ||| v == 0x1680
    ||| 0x2000 <= v <= 0x200A
    ||| v == 0x2028
    ||| v == 0x2029
    ||| v == 0x202F
    ||| v == 0x205F
    ||| v == 0x3000
}

/// The text without its leading white space.
pub open spec fn trim_start_text(s: Seq<char>) -> Seq<char>
    decreases s.len(),
{
    if s.len() > 0 && is_white_space(s[0]) {
        trim_start_text(s.drop_first())
    } else {
        s
    }
}

/// The text without its trailing white space.
pub open spec fn trim_end_text(s: Seq<char>) -> Seq<char>
    decreases s.len(),
{
    if s.len() > 0 && is_white_space(s.last()) {
        trim_end_text(s.drop_last())
    } else {
        s
    }
}

/// What `str::trim` leaves of a text: leading and trailing white space
/// removed.
pub open spec fn trimmed_text(s: Seq<char>) -> Seq<char> {
    trim_end_text(trim_start_text(s))
}

fn is_white_space_exec(c: char) -> (r: bool)
    ensures
        r == is_white_space(c),
{
    let v = c as u32;
    (0x9 <= v && v <= 0xD) || v == 0x20 || v == 0x85 || v == 0xA0 || v == 0x1680 || (0x2000 <= v
        && v <= 0x200A) || v == 0x2028 || v == 0x2029 || v == 0x202F || v == 0x205F || v == 0x3000
}

/// Calls `str::to_lowercase`; the result is the text's lower-case mapping,
/// which is named, not spelled out.
#[verifier::external_body]
pub(crate) fn to_lowercase(s: &str) -> (r: String)
    ensures
        r@ == lowercase_text(s@),
{
    s.to_lowercase()
}

/// Calls `str::to_uppercase`; the result is the text's upper-case mapping,
/// which is named, not spelled out.
#[verifier::external_body]
pub(crate) fn to_uppercase(s: &str) -> (r: String)
    ensures
        r@ == uppercase_text(s@),
{
    s.to_uppercase()
}

/// The characters of a text.
pub fn string_chars(s: &str) -> (r: Vec<char>)
    ensures
        r@ == s@,
{
    let mut cs: Vec<char> = Vec::new();
    for c in it: s.chars()
        invariant
            it.seq() == s@,
            0 <= it.index() <= s@.len(),
            cs@ == s@.take(it.index() as int),
    {
        proof {
            assert(s@.take(it.index() + 1) =~= s@.take(it.index() as int).push(c));
        }
        cs.push(c);
    }
    proof {
        assert(s@.take(s@.len() as int) =~= s@);
    }
    cs
}

/// The text with leading and trailing white space removed, as `str::trim`
/// leaves it.
pub fn trim(s: &str) -> (r: String)
    ensures
        r@ == trimmed_text(s@),
{
    let cs = string_chars(s);
    let n = cs.len();
    proof {
        assert(s@.skip(0) =~= s@);
    }
    let mut a: usize = 0;
    while a < n && is_white_space_exec(cs[a])
        invariant
            n == cs.len(),
            cs@ == s@,
            0 <= a <= n,
            trim_start_text(s@) == trim_start_text(s@.skip(a as int)),
        decreases n - a,
    {
        proof {
            assert(s@.skip(a as int).drop_first() =~= s@.skip(a + 1));
        }
        a = a + 1;
    }
    let ghost t = s@.skip(a as int);
    proof {
        if a == n {
            assert(t.len() == 0);
        }
        assert(trim_start_text(s@) == t);
        assert(t.take(n - a) =~= t);
    }
    let mut b: usize = n;
    while b > a && is_white_space_exec(cs[b - 1])
        invariant
            n == cs.len(),
            cs@ == s@,
            0 <= a <= b <= n,
            t == s@.skip(a as int),
            trim_end_text(t) == trim_end_text(t.take(b - a)),
        decreases b,
    {
        proof {
            assert(t.take(b - a).drop_last() =~= t.take(b - a - 1));
            assert(t.take(b - a).last() == cs@[b - 1]);
        }
        b = b - 1;
    }
    proof {
        if b > a {
            assert(t.take(b - a).last() == cs@[b - 1]);
        }
        assert(trim_end_text(t) == t.take(b - a));
    }
    let mut out = String::new();
    let mut i: usize = a;
    while i < b
        invariant
            n == cs.len(),
            cs@ == s@,
            a <= i <= b <= n,
            out@ == s@.subrange(a as int, i as int),
        decreases b - i,
    {
        push_char(&mut out, cs[i]);
        proof {
            assert(s@.subrange(a as int, i + 1) =~= s@.subrange(a as int, i as int).push(cs@[i as int]));
        }
        i = i + 1;
    }
    proof {
        assert(t.take(b - a) =~= s@.subrange(a as int, b as int));
    }
    out
}

/// Calls `String::push`: appends one character.
#[verifier::external_body]
pub(crate) fn push_char(s: &mut String, c: char)
    ensures
        final(s)@ == old(s)@.push(c),
{
    s.push(c)
}

/// The decimal digit character for `d < 10`.
pub open spec fn digit_char(d: int) -> char {
    if d == 0 {
        '0'
    } else if d == 1 {
        '1'
    } else if d == 2 {
        '2'
    } else if d == 3 {
        '3'
    } else if d == 4 {
        '4'
    } else if d == 5 {
        '5'
    } else if d == 6 {
        '6'
    } else if d == 7 {
        '7'
    } else if d == 8 {
        '8'
    } else {
        '9'
    }
}

/// Decimal text of a natural number, without leading zeros (`"0"` for
/// zero).
pub open spec fn decimal_text(n: nat) -> Seq<char>
    decreases n,
{
    if n < 10 {
        seq![digit_char(n as int)]
    } else {
        decimal_text(n / 10).push(digit_char((n % 10) as int))
    }
}

fn digit_of(d: u64) -> (c: char)
    requires
        d < 10,
    ensures
        c == digit_char(d as int),
{
    if d == 0 {
        '0'
    } else if d == 1 {
        '1'
    } else if d == 2 {
        '2'
    } else if d == 3 {
        '3'
    } else if d == 4 {
        '4'
    } else if d == 5 {
        '5'
    } else if d == 6 {
        '6'
    } else if d == 7 {
        '7'
    } else if d == 8 {
        '8'
    } else {
        '9'
    }
}

/// Appends the decimal text of `n` to `out`.
pub fn push_decimal(out: &mut String, n: u64)
    ensures
        final(out)@ == old(out)@ + decimal_text(n as nat),
    decreases n,
{
    if n < 10 {
        push_char(out, digit_of(n));
        assert(decimal_text(n as nat) =~= seq![digit_char(n as int)]);
    } else {
        push_decimal(out, n / 10);
        push_char(out, digit_of(n % 10));
    }
}

/// Decimal text of `n`, as `Display` writes an unsigned integer.
pub fn decimal(n: u64) -> (r: String)
    ensures
        r@ == decimal_text(n as nat),
{
    let mut out = String::new();
    push_decimal(&mut out, n);
    assert(out@ =~= decimal_text(n as nat));
    out
}

/// Lexicographic order of texts by character code, the order of `String`'s
/// `Ord` (UTF-8 byte order follows code point order).
pub open spec fn lex_less(a: Seq<char>, b: Seq<char>) -> bool
    decreases a.len(),
{
    if a.len() == 0 {
        b.len() > 0
    } else if b.len() == 0 {
        false
    } else if a[0] != b[0] {
        (a[0] as int) < (b[0] as int)
    } else {
        lex_less(a.drop_first(), b.drop_first())
    }
}

/// `lex_less` is a strict total order: irreflexive, transitive, and any two
/// different texts are related one way.
pub proof fn lemma_lex_less_strict_total(a: Seq<char>, b: Seq<char>, c: Seq<char>)
    ensures
        !lex_less(a, a),
        lex_less(a, b) && lex_less(b, c) ==> lex_less(a, c),
        a != b ==> lex_less(a, b) || lex_less(b, a),
        lex_less(a, b) ==> !lex_less(b, a),
    decreases a.len(),
{
    if a.len() > 0 && b.len() > 0 && c.len() > 0 {
        lemma_lex_less_strict_total(a.drop_first(), b.drop_first(), c.drop_first());
    }
    if a.len() > 0 {
        lemma_lex_less_strict_total(a.drop_first(), a.drop_first(), a.drop_first());
    }
    if a.len() > 0 && b.len() > 0 {
        lemma_lex_less_strict_total(a.drop_first(), b.drop_first(), b.drop_first());
        if a != b && a[0] == b[0] {
            assert(a.drop_first() != b.drop_first()) by {
                if a.drop_first() == b.drop_first() {
                    assert(a =~= seq![a[0]] + a.drop_first());
                    assert(b =~= seq![b[0]] + b.drop_first());
                }
            }
        }
    }
    if a.len() == 0 && b.len() == 0 {
        assert(a =~= b);
    }
}

proof fn lemma_lex_less_skip(a: Seq<char>, b: Seq<char>, i: int)
    requires
        0 <= i <= a.len(),
        i <= b.len(),
        a.take(i) =~= b.take(i),
    ensures
        lex_less(a, b) == lex_less(a.skip(i), b.skip(i)),
    decreases i,
{
    if i > 0 {
        assert(a.drop_first().take(i - 1) =~= b.drop_first().take(i - 1)) by {
            assert forall|k: int| 0 <= k < i - 1 implies a.drop_first()[k] == b.drop_first()[k] by {
                assert(a.take(i)[k + 1] == b.take(i)[k + 1]);
            }
        }
        assert(a.take(i)[0] == b.take(i)[0]);
        lemma_lex_less_skip(a.drop_first(), b.drop_first(), i - 1);
        assert(a.drop_first().skip(i - 1) =~= a.skip(i));
        assert(b.drop_first().skip(i - 1) =~= b.skip(i));
    } else {
        assert(a.skip(0) =~= a);
        assert(b.skip(0) =~= b);
    }
}

/// Whether `a` comes before `b` in `String` order.
pub fn str_less(a: &str, b: &str) -> (r: bool)
    ensures
        r == lex_less(a@, b@),
{
    let na = a.unicode_len();
    let nb = b.unicode_len();
    let mut i: usize = 0;
    while i < na && i < nb
        invariant
            na == a@.len(),
            nb == b@.len(),
            0 <= i <= na,
            i <= nb,
            a@.take(i as int) =~= b@.take(i as int),
        decreases na - i,
    {
        let ca = a.get_char(i);
        let cb = b.get_char(i);
        if ca != cb {
            proof {
                lemma_lex_less_skip(a@, b@, i as int);
                assert(a@.skip(i as int)[0] == ca);
                assert(b@.skip(i as int)[0] == cb);
            }
            return (ca as u32) < (cb as u32);
        }
        proof {
            assert(a@.take(i + 1) =~= a@.take(i as int).push(ca));
            assert(b@.take(i + 1) =~= b@.take(i as int).push(cb));
        }
        i = i + 1;
    }
    proof {
        lemma_lex_less_skip(a@, b@, i as int);
    }
    i == na && i < nb
}

} // verus!
