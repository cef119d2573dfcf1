//! Where a sentence ends inside a line of PDF text, so that a text object can
//! be cut between two reading blocks.
use vstd::prelude::*;
use crate::chars::{
    boundary_index, char_index_of_byte, is_boundary, lemma_utf8_len_append, lemma_utf8_len_push, lemma_utf8_len_ge_len, string_of, sub_vec, to_chars, trim, trim_bounds, utf8_len,
    utf8_len_of, word_bounds, words,
};
use crate::speechd::contains_text;

verus! {

/// Whether `c` is an ASCII digit.
pub open spec fn is_ascii_digit(c: char) -> bool {
    '0' <= c && c <= '9'
}

/// The index of the last `c` in `s`, or -1.
pub open spec fn last_index_of(s: Seq<char>, c: char) -> int
    decreases s.len(),
{
    if s.len() == 0 {
        -1
    } else if s.last() == c {
        s.len() - 1
    } else {
        last_index_of(s.drop_last(), c)
    }
}

/// The number of times `c` occurs in `s`.
pub open spec fn count_of(s: Seq<char>, c: char) -> nat
    decreases s.len(),
{
    if s.len() == 0 {
        0
    } else {
        count_of(s.drop_last(), c) + if s.last() == c { 1nat } else { 0nat }
    }
}

/// Whether the period at index `j` of the trimmed text `t` does not end a
/// sentence: it is in an e-mail address or a link, between digits, or part of
/// a dotted number.
pub open spec fn period_is_not_sentence_end(t: Seq<char>, j: int) -> bool {
    let ws = words(t);
    let before = t.take(j);
    let after = t.skip(j + 1);
    ||| (contains_text(t, "@"@) && ws.len() > 0 && contains_text(ws.last(), "@"@) && contains_text(ws.last(), "."@))
    ||| (ws.len() > 0 && contains_text(ws.last(), "http"@))
    ||| (j > 0 && is_ascii_digit(before.last()) && forall|k: int| 0 <= k < after.len() ==> is_ascii_digit(#[trigger] after[k]))
    ||| (count_of(t, '.') > 1 && forall|k: int| 0 <= k < t.len() ==> (#[trigger] t[k] == '.' || is_ascii_digit(t[k])))
}

/// The byte index after which a PDF text is cut in two sentences, or 0 when it
/// is not: its last period must not end the trimmed text nor belong to an
/// address, a link or a number. The index is counted as
/// `text.len() - (trimmed.len() - position of the period in trimmed) + 1`.
pub open spec fn sentence_end_index(s: Seq<char>) -> int {
    let t = trim(s);
    let j = last_index_of(t, '.');
    if !contains_text(s, "."@) || j < 0 || j == t.len() - 1 || period_is_not_sentence_end(t, j) {
        0
    } else {
        utf8_len(s) - (utf8_len(t) - utf8_len(t.take(j))) + 1
    }
}

pub(crate) proof fn lemma_last_index(s: Seq<char>, c: char, j: int)
    requires
        0 <= j < s.len(),
        s[j] == c,
        forall|k: int| j < k < s.len() ==> s[k] != c,
    ensures
        last_index_of(s, c) == j,
    decreases s.len(),
{
    if s.len() - 1 != j {
        assert(s.drop_last()[j] == c);
        lemma_last_index(s.drop_last(), c, j);
    }
}

proof fn lemma_no_index(s: Seq<char>, c: char)
    requires
        forall|k: int| 0 <= k < s.len() ==> s[k] != c,
    ensures
        last_index_of(s, c) == -1,
    decreases s.len(),
{
    if s.len() > 0 {
        lemma_no_index(s.drop_last(), c);
    }
}

fn has_char(v: &Vec<char>, c: char) -> (r: bool)
    ensures
        r == exists|k: int| 0 <= k < v.len() && v@[k] == c,
{
    let mut i: usize = 0;
    while i < v.len()
        invariant
            i <= v.len(),
            forall|k: int| 0 <= k < i ==> v@[k] != c,
        decreases v.len() - i,
    {
        if v[i] == c {
            return true;
        }
        i = i + 1;
    }
    false
}

pub(crate) proof fn lemma_contains_one(s: Seq<char>, c: char)
    ensures
        contains_text(s, seq![c]) == exists|k: int| 0 <= k < s.len() && s[k] == c,
{
    if exists|k: int| 0 <= k < s.len() && s[k] == c {
        let k = choose|k: int| 0 <= k < s.len() && s[k] == c;
        assert(s.subrange(k, k + 1) =~= seq![c]);
    }
    if contains_text(s, seq![c]) {
        let i = choose|i: int| 0 <= i && i + seq![c].len() <= s.len() && #[trigger] s.subrange(i, i + seq![c].len()) == seq![c];
        assert(s.subrange(i, i + 1)[0] == s[i]);
    }
}

fn has_text(v: &Vec<char>, p: &str) -> (r: bool)
    ensures
        r == contains_text(v@, p@),
{
    let pc = to_chars(p);
    let n = v.len();
    let m = pc.len();
    if m > n {
        return false;
    }
    let mut i: usize = 0;
    while i <= n - m
        invariant
            m == pc.len() <= n == v.len(),
            pc@ == p@,
            i <= n - m + 1,
            forall|j: int| 0 <= j < i ==> #[trigger] v@.subrange(j, j + m) != pc@,
        decreases n - m + 1 - i,
    {
        let mut k: usize = 0;
        while k < m && v[i + k] == pc[k]
            invariant
                i + m <= n,
                k <= m,
                m == pc.len(),
                n == v.len(),
                forall|q: int| 0 <= q < k ==> v@[i + q] == pc@[q],
            decreases m - k,
        {
            k = k + 1;
        }
        if k == m {
            proof {
                assert(v@.subrange(i as int, i + m) =~= pc@);
            }
            return true;
        }
        proof {
            assert(v@.subrange(i as int, i + m)[k as int] != pc@[k as int]);
        }
        i = i + 1;
    }
    proof {
        assert forall|j: int| 0 <= j && j + p@.len() <= v.len() implies #[trigger] v@.subrange(j, j + p@.len()) != p@ by {
            assert(j < i);
        }
    }
    false
}

/// The index of the last period of `t`.
fn last_period(t: &Vec<char>) -> (r: Option<usize>)
    ensures
        match r {
            Some(p) => p < t.len() && last_index_of(t@, '.') == p,
            None => last_index_of(t@, '.') == -1,
        },
{
    let tl = t.len();
    let mut j: usize = tl;
    while j > 0 && t[j - 1] != '.'
        invariant
            j <= tl == t.len(),
            forall|k: int| j <= k < tl ==> t@[k] != '.',
        decreases j,
    {
        j = j - 1;
    }
    if j == 0 {
        proof {
            lemma_no_index(t@, '.');
        }
        None
    } else {
        proof {
            lemma_last_index(t@, '.', j - 1);
        }
        Some(j - 1)
    }
}

/// Whether the last word of `t` is an e-mail address (when `t` has an `@`) or a link.
fn address_or_link(t: &Vec<char>) -> (r: bool)
    ensures
        r == ((contains_text(t@, "@"@) && words(t@).len() > 0 && contains_text(words(t@).last(), "@"@)
            && contains_text(words(t@).last(), "."@)) || (words(t@).len() > 0 && contains_text(
            words(t@).last(),
            "http"@,
        ))),
{
    proof {
        reveal_strlit(".");
        reveal_strlit("@");
        assert("."@ =~= seq!['.']);
        assert("@"@ =~= seq!['@']);
        lemma_contains_one(t@, '@');
    }
    let ws = word_bounds(t);
    if ws.len() == 0 {
        return false;
    }
    let (x, y) = ws[ws.len() - 1];
    let last = sub_vec(t, x, y);
    assert(last@ == words(t@).last());
    proof {
        lemma_contains_one(last@, '@');
        lemma_contains_one(last@, '.');
    }
    (has_char(t, '@') && has_char(&last, '@') && has_char(&last, '.')) || has_text(&last, "http")
}

/// Whether the period at `p` follows a digit and only digits follow it.
fn between_digits(t: &Vec<char>, p: usize) -> (r: bool)
    requires
        p < t.len(),
    ensures
        r == (p > 0 && is_ascii_digit(t@.take(p as int).last()) && forall|k: int|
            0 <= k < t@.skip(p + 1).len() ==> is_ascii_digit(#[trigger] t@.skip(p + 1)[k])),
{
    let tl = t.len();
    if p == 0 {
        return false;
    }
    assert(t@.take(p as int).last() == t@[p - 1]);
    if !(t[p - 1] >= '0' && t[p - 1] <= '9') {
        return false;
    }
    let mut k = p + 1;
    while k < tl && t[k] >= '0' && t[k] <= '9'
        invariant
            p + 1 <= k <= tl == t.len(),
            forall|q: int| p + 1 <= q < k ==> is_ascii_digit(#[trigger] t@[q]),
        decreases tl - k,
    {
        k = k + 1;
    }
    if k == tl {
        proof {
            assert forall|q: int| 0 <= q < t@.skip(p + 1).len() implies is_ascii_digit(#[trigger] t@.skip(p + 1)[q]) by {
                assert(t@.skip(p + 1)[q] == t@[p + 1 + q]);
            }
        }
        true
    } else {
        proof {
            let q = k - (p + 1);
            assert(t@.skip(p + 1)[q] == t@[k as int]);
        }
        false
    }
}

/// Whether `t` is a dotted number: more than one period, and only periods and digits.
fn dotted_number(t: &Vec<char>) -> (r: bool)
    ensures
        r == (count_of(t@, '.') > 1 && forall|q: int| 0 <= q < t.len() ==> (#[trigger] t@[q] == '.' || is_ascii_digit(t@[q]))),
{
    let tl = t.len();
    let mut dots: usize = 0;
    let mut only = true;
    let mut k: usize = 0;
    while k < tl
        invariant
            k <= tl == t.len(),
            dots == count_of(t@.take(k as int), '.'),
            dots <= k,
            only == forall|q: int| 0 <= q < k ==> (#[trigger] t@[q] == '.' || is_ascii_digit(t@[q])),
        decreases tl - k,
    {
        proof {
            assert(t@.take(k + 1).drop_last() =~= t@.take(k as int));
            assert(t@.take(k + 1).last() == t@[k as int]);
        }
        if t[k] == '.' {
            dots = dots + 1;
        } else if !(t[k] >= '0' && t[k] <= '9') {
            only = false;
        }
        k = k + 1;
    }
    proof {
        assert(t@.take(tl as int) =~= t@);
    }
    dots > 1 && only
}

/// The byte index after the period that ends the first sentence of a PDF text
/// object, or 0 when the text should stay whole (see `sentence_end_index`).
#[verifier::rlimit(50)]
pub fn find_sentence_end_index(text: &str) -> (r: usize)
    requires
        text@.len() <= usize::MAX / 4,
    ensures
        r == sentence_end_index(text@),
{
    let s = to_chars(text);
    let n = s.len();
    proof {
        reveal_strlit(".");
        assert("."@ =~= seq!['.']);
        lemma_contains_one(s@, '.');
    }
    if !has_char(&s, '.') {
        return 0;
    }
    let (a, b) = trim_bounds(&s, 0, n);
    proof {
        assert(s@.subrange(0, n as int) =~= s@);
    }
    let t = sub_vec(&s, a, b);
    let tl = t.len();
    let p = match last_period(&t) {
        Some(p) => p,
        None => {
            return 0;
        },
    };
    if p == tl - 1 {
        return 0;
    }
    if address_or_link(&t) || between_digits(&t, p) || dotted_number(&t) {
        return 0;
    }
    proof {
        assert(t@ =~= t@.take(p as int) + t@.skip(p as int));
        lemma_utf8_len_append(t@.take(p as int), t@.skip(p as int));
        assert(s@ =~= s@.take(a as int) + t@ + s@.skip(b as int));
        lemma_utf8_len_append(s@.take(a as int), t@);
        lemma_utf8_len_append(s@.take(a as int) + t@, s@.skip(b as int));
        lemma_utf8_len_ge_len(s@);
    }
    let total = utf8_len_of(&s, 0, n);
    let tb = utf8_len_of(&t, 0, tl);
    let pb = utf8_len_of(&t, 0, p);
    proof {
        assert(t@.subrange(0, tl as int) =~= t@);
        assert(t@.subrange(0, p as int) =~= t@.take(p as int));
    }
    total - (tb - pb) + 1
}

/// Whether `char::is_alphanumeric` holds of `c` (the Unicode `Alphabetic` or
/// `Numeric` properties).
pub uninterp spec fn alphanumeric(c: char) -> bool;

/// Whether `char::is_numeric` holds of `c` (the Unicode `Numeric` property).
pub uninterp spec fn numeric(c: char) -> bool;

/// Calls `char::is_alphanumeric`; its result is the name `alphanumeric`.
#[verifier::external_body]
fn is_alphanumeric(c: char) -> (r: bool)
    ensures
        r == alphanumeric(c),
{
    c.is_alphanumeric()
}

/// Calls `char::is_numeric`; its result is the name `numeric`.
#[verifier::external_body]
fn is_numeric(c: char) -> (r: bool)
    ensures
        r == numeric(c),
{
    c.is_numeric()
}

/// `s` without its leading characters that are not alphanumeric.
pub open spec fn skip_non_alnum(s: Seq<char>) -> Seq<char>
    decreases s.len(),
{
    if s.len() > 0 && !alphanumeric(s[0]) {
        skip_non_alnum(s.drop_first())
    } else {
        s
    }
}

/// The text of a PDF text object as it is read: trimmed, and without the
/// characters before its first alphanumeric one.
pub open spec fn block_text(raw: Seq<char>) -> Seq<char> {
    skip_non_alnum(trim(raw))
}

/// Whether a text has something to read: a character that is alphanumeric
/// but not numeric.
pub open spec fn readable(text: Seq<char>) -> bool {
    exists|k: int| 0 <= k < text.len() && alphanumeric(#[trigger] text[k]) && !numeric(text[k])
}

/// Whether cutting a text after its sentence end falls on a character boundary
/// (`str::split_at` panics otherwise).
pub open spec fn splittable(text: Seq<char>) -> bool {
    sentence_end_index(text) == 0 || is_boundary(text, sentence_end_index(text))
}

proof fn lemma_last_index_bounds(s: Seq<char>, c: char)
    ensures
        -1 <= last_index_of(s, c) < s.len(),
        last_index_of(s, c) >= 0 ==> s[last_index_of(s, c)] == c,
    decreases s.len(),
{
    if s.len() > 0 && s.last() != c {
        lemma_last_index_bounds(s.drop_last(), c);
    }
}

/// A text with no whitespace at either end is cut after its sentence end on a
/// character boundary.
pub proof fn trimmed_text_splittable(text: Seq<char>)
    requires
        trim(text) == text,
    ensures
        splittable(text),
{
    let j = last_index_of(text, '.');
    lemma_last_index_bounds(text, '.');
    if sentence_end_index(text) != 0 {
        assert(text.take(j + 1) =~= text.take(j).push(text[j]));
        lemma_utf8_len_push(text.take(j), '.');
        assert(utf8_len(text.take(j + 1)) == sentence_end_index(text));
    }
}

/// The text of a PDF text object as it is read (`block_text`).
pub fn clean_block_text(raw: &str) -> (r: String)
    ensures
        r@ == block_text(raw@),
{
    let c = to_chars(raw);
    let (a, b) = trim_bounds(&c, 0, c.len());
    proof {
        assert(c@.subrange(0, c.len() as int) =~= c@);
    }
    let mut i = a;
    while i < b && !is_alphanumeric(c[i])
        invariant
            a <= i <= b <= c.len(),
            skip_non_alnum(c@.subrange(a as int, b as int)) == skip_non_alnum(c@.subrange(i as int, b as int)),
        decreases b - i,
    {
        proof {
            assert(c@.subrange(i as int, b as int).drop_first() =~= c@.subrange(i + 1, b as int));
        }
        i = i + 1;
    }
    string_of(&c, i, b)
}

/// Whether the trimmed text of a PDF text object has something to read
/// (`readable`); an object is read when it has and its font size is not zero.
pub fn has_readable_text(text: &str) -> (r: bool)
    ensures
        r == readable(trim(text@)),
{
    let c = to_chars(text);
    let (a, b) = trim_bounds(&c, 0, c.len());
    proof {
        assert(c@.subrange(0, c.len() as int) =~= c@);
    }
    let ghost t = c@.subrange(a as int, b as int);
    assert(t == trim(text@));
    let mut i = a;
    while i < b
        invariant
            a <= i <= b <= c.len(),
            t == c@.subrange(a as int, b as int),
            t == trim(text@),
            forall|k: int| 0 <= k < i - a ==> !(alphanumeric(#[trigger] t[k]) && !numeric(t[k])),
        decreases b - i,
    {
        let ch = c[i];
        if is_alphanumeric(ch) && !is_numeric(ch) {
            proof {
                assert(t[i - a] == ch);
                assert(alphanumeric(t[i - a]) && !numeric(t[i - a]));
            }
            return true;
        }
        proof {
            assert(t[i - a] == ch);
        }
        i = i + 1;
    }
    proof {
        assert(t == trim(text@));
    }
    false
}

/// A PDF text cut after the end of its first sentence, each part trimmed, or
/// `None` when it stays whole (see `sentence_end_index`).
pub fn split_at_sentence_end(text: &str) -> (r: Option<(String, String)>)
    requires
        text@.len() <= usize::MAX / 4,
        splittable(text@),
    ensures
        r is None <==> sentence_end_index(text@) == 0,
        r matches Some(p) ==> {
            let k = char_index_of_byte(text@, sentence_end_index(text@));
            &&& p.0@ == trim(text@.take(k))
            &&& p.1@ == trim(text@.skip(k))
        },
{
    let idx = find_sentence_end_index(text);
    if idx == 0 {
        return None;
    }
    let c = to_chars(text);
    match boundary_index(&c, idx) {
        Some(k) => {
            let (a, b) = trim_bounds(&c, 0, k);
            let (x, y) = trim_bounds(&c, k, c.len());
            proof {
                assert(c@.subrange(0, k as int) =~= c@.take(k as int));
                assert(c@.subrange(k as int, c.len() as int) =~= c@.skip(k as int));
            }
            Some((string_of(&c, a, b), string_of(&c, x, y)))
        },
        None => None,
    }
}

} // verus!
