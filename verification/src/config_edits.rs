//! What an edit of a configuration text does to what is read from it.
use vstd::prelude::*;
use crate::chars::{
    first_from, has_prefix, is_newline, is_ws, join, lemma_first_from_at, lemma_first_from_bounds,
    lemma_trim_end_at, lemma_trim_end_keeps, lemma_trim_is_subrange, lemma_trim_start_at, lines, lines_from,
    strip_cr, trim, trim_end, trim_start,
    words, words_from,
};
use crate::speechd::{
    contains_text, default_voice_in, first_line_with, lines_without, upsert_edit, upsert_line, voice_template,
};

verus! {

pub(crate) proof fn lemma_first_from_shift(x: Seq<char>, y: Seq<char>, i: int, p: spec_fn(char) -> bool)
    requires
        0 <= i <= y.len(),
    ensures
        first_from(x + y, x.len() + i, p) == x.len() + first_from(y, i, p),
    decreases y.len() - i,
{
    if i < y.len() {
        assert((x + y)[x.len() + i] == y[i]);
        if !p(y[i]) {
            lemma_first_from_shift(x, y, i + 1, p);
        }
    }
}

pub(crate) proof fn lemma_lines_shift(x: Seq<char>, y: Seq<char>, i: int)
    requires
        0 <= i <= y.len(),
    ensures
        lines_from(x + y, x.len() + i) == lines_from(y, i),
    decreases y.len() - i,
{
    let s = x + y;
    if i < y.len() {
        let nl = |c: char| is_newline(c);
        lemma_first_from_shift(x, y, i, nl);
        lemma_first_from_bounds(y, i, nl);
        let j = first_from(y, i, nl);
        assert(s.subrange(x.len() + i, x.len() + j) =~= y.subrange(i, j));
        if j < y.len() {
            lemma_lines_shift(x, y, j + 1);
        } else {
            assert(s.subrange(x.len() + i, s.len() as int) =~= y.subrange(i, y.len() as int));
        }
    }
}

pub(crate) proof fn lemma_join_prepend(ls: Seq<Seq<char>>, sep: Seq<char>)
    requires
        ls.len() >= 2,
    ensures
        join(ls, sep) == ls[0] + sep + join(ls.drop_first(), sep),
    decreases ls.len(),
{
    if ls.len() == 2 {
        assert(ls.drop_last().len() == 1);
        assert(ls.drop_first().len() == 1);
        assert(join(ls.drop_first(), sep) == ls.drop_first()[0]);
        assert(join(ls.drop_last(), sep) == ls.drop_last()[0]);
    } else {
        lemma_join_prepend(ls.drop_last(), sep);
        assert(ls.drop_last().drop_first() =~= ls.drop_first().drop_last());
        assert(ls.drop_first().last() == ls.last());
        assert(ls[0] + sep + join(ls.drop_first().drop_last(), sep) + sep + ls.last() =~= ls[0] + sep + (join(ls.drop_first().drop_last(), sep) + sep + ls.last()));
    }
}

/// Text with no newline.
pub open spec fn no_newline(l: Seq<char>) -> bool {
    forall|k: int| 0 <= k < l.len() ==> l[k] != '\n'
}

/// Lines without newlines, joined with newlines, are read back as the same
/// lines (each perhaps without a carriage return at its end), but for a last
/// empty line.
pub(crate) proof fn lemma_lines_of_join(ls: Seq<Seq<char>>)
    requires
        forall|k: int| 0 <= k < ls.len() ==> no_newline(#[trigger] ls[k]),
    ensures
        lines(join(ls, "\n"@)).len() == if ls.len() > 0 && ls.last().len() == 0 {
            ls.len() - 1
        } else {
            ls.len() as int
        },
        forall|j: int| 0 <= j < lines(join(ls, "\n"@)).len() ==> #[trigger] lines(join(ls, "\n"@))[j]
            == strip_cr(ls[j]) || lines(join(ls, "\n"@))[j] == ls[j],
    decreases ls.len(),
{
    reveal_strlit("\n");
    let nl = |c: char| is_newline(c);
    if ls.len() == 0 {
        assert(lines(join(ls, "\n"@)) =~= Seq::<Seq<char>>::empty());
    } else if ls.len() == 1 {
        let a = ls[0];
        assert(join(ls, "\n"@) == a);
        if a.len() > 0 {
            assert(no_newline(ls[0]));
            lemma_first_from_at(a, 0, a.len() as int, nl);
            assert(a.subrange(0, a.len() as int) =~= a);
            assert(lines(a) =~= seq![a]);
        } else {
            assert(lines(a) =~= Seq::<Seq<char>>::empty());
        }
    } else {
        let a = ls[0];
        let rest = ls.drop_first();
        assert(no_newline(ls[0]));
        assert forall|k: int| 0 <= k < rest.len() implies no_newline(#[trigger] rest[k]) by {
            assert(rest[k] == ls[k + 1]);
        }
        lemma_lines_of_join(rest);
        lemma_join_prepend(ls, "\n"@);
        let j = join(rest, "\n"@);
        let s = a + "\n"@ + j;
        assert(s[a.len() as int] == '\n');
        assert forall|k: int| 0 <= k < a.len() implies !nl(#[trigger] s[k]) by {
            assert(s[k] == a[k]);
        }
        lemma_first_from_at(s, 0, a.len() as int, nl);
        assert(s.subrange(0, a.len() as int) =~= a);
        assert(s =~= (a + "\n"@) + j);
        lemma_lines_shift(a + "\n"@, j, 0);
        assert(lines_from(s, (a.len() + 1) as int) == lines(j));
        let r = lines(s);
        assert(r == seq![strip_cr(a)] + lines(j));
        assert(rest.last() == ls.last());
        assert forall|i: int| 0 <= i < r.len() implies #[trigger] r[i] == strip_cr(ls[i]) || r[i] == ls[i] by {
            if i > 0 {
                assert(r[i] == lines(j)[i - 1]);
                assert(rest[i - 1] == ls[i]);
            }
        }
    }
}

/// Dropping whitespace at the end of a text does not change its trimmed text.
proof fn lemma_trim_push_ws(x: Seq<char>, c: char)
    requires
        is_ws(c),
    ensures
        trim(x.push(c)) == trim(x),
    decreases x.len(),
{
    let y = x.push(c);
    assert(y.drop_last() =~= x);
    if x.len() == 0 {
        assert(trim_start(y.drop_first()) == trim_start(Seq::<char>::empty()));
        assert(y.drop_first() =~= Seq::<char>::empty());
    } else if is_ws(x[0]) {
        assert(y.drop_first() =~= x.drop_first().push(c));
        lemma_trim_push_ws(x.drop_first(), c);
    } else {
        assert(y[0] == x[0]);
    }
}

proof fn lemma_trim_strip_cr(l: Seq<char>)
    ensures
        trim(strip_cr(l)) == trim(l),
{
    if l.len() > 0 && l.last() == '\r' {
        assert(l.drop_last().push('\r') =~= l);
        lemma_trim_push_ws(l.drop_last(), '\r');
    }
}

/// Text found in a part of a text is found in the text.
pub(crate) proof fn lemma_contains_in_subrange(s: Seq<char>, lo: int, hi: int, k: Seq<char>)
    requires
        0 <= lo <= hi <= s.len(),
        contains_text(s.subrange(lo, hi), k),
    ensures
        contains_text(s, k),
{
    let t = s.subrange(lo, hi);
    let i = choose|i: int| 0 <= i && i + k.len() <= t.len() && #[trigger] t.subrange(i, i + k.len()) == k;
    assert(s.subrange(lo + i, lo + i + k.len()) =~= t.subrange(i, i + k.len()));
}

/// A text that holds a word (no whitespace at either end of it) still holds it
/// when trimmed.
proof fn lemma_trim_keeps_word(l: Seq<char>, k: Seq<char>)
    requires
        k.len() > 0,
        !is_ws(k[0]),
        !is_ws(k.last()),
        contains_text(l, k),
    ensures
        contains_text(trim(l), k),
{
    let i = choose|i: int| 0 <= i && i + k.len() <= l.len() && #[trigger] l.subrange(i, i + k.len()) == k;
    assert(l[i] == l.subrange(i, i + k.len())[0]);
    let non_ws = |c: char| !is_ws(c);
    lemma_first_from_bounds(l, 0, non_ws);
    let a = first_from(l, 0, non_ws);
    assert(a <= i) by {
        if a > i {
            assert(!non_ws(l[i]));
        }
    }
    lemma_trim_start_at(l, a);
    let t = l.skip(a);
    let e = i - a + k.len();
    assert(t[e - 1] == l.subrange(i, i + k.len())[k.len() - 1]);
    lemma_trim_end_keeps(t, e);
    let r = trim(l);
    assert(r == trim_end(t));
    assert(r.take(e) == t.take(e));
    assert(r.len() >= e);
    assert(r.subrange(i - a, e) =~= r.take(e).subrange(i - a, e));
    assert(t.subrange(i - a, e) =~= t.take(e).subrange(i - a, e));
    assert(r.subrange(i - a, i - a + k.len()) =~= t.subrange(i - a, e));
    assert(t.subrange(i - a, e) =~= l.subrange(i, i + k.len()));
}

/// A text that starts with a word holds it.
proof fn lemma_prefix_contained(l: Seq<char>, k: Seq<char>)
    requires
        has_prefix(l, k),
    ensures
        contains_text(l, k),
{
    assert(l.subrange(0, 0 + k.len() as int) =~= l.take(k.len() as int));
}

pub(crate) proof fn lemma_first_line_with(ls: Seq<Seq<char>>, key: Seq<char>, i: int)
    requires
        0 <= i <= ls.len(),
    ensures
        first_line_with(ls, key, i) == -1 || (i <= first_line_with(ls, key, i) < ls.len()
            && contains_text(trim(ls[first_line_with(ls, key, i)]), key)),
        forall|j: int| i <= j < ls.len() && (j < first_line_with(ls, key, i) || first_line_with(ls, key, i) == -1)
            ==> !contains_text(trim(#[trigger] ls[j]), key),
    decreases ls.len() - i,
{
    if i < ls.len() && !contains_text(trim(ls[i]), key) {
        lemma_first_line_with(ls, key, i + 1);
    }
}

pub(crate) proof fn lemma_first_line_with_at(ls: Seq<Seq<char>>, key: Seq<char>, i: int, k: int)
    requires
        0 <= i <= k < ls.len(),
        forall|j: int| i <= j < k ==> !contains_text(trim(#[trigger] ls[j]), key),
        contains_text(trim(ls[k]), key),
    ensures
        first_line_with(ls, key, i) == k,
    decreases k - i,
{
    if i < k {
        lemma_first_line_with_at(ls, key, i + 1, k);
    }
}

/// A word, a space and a word are read as those two words.
pub(crate) proof fn lemma_two_words(k: Seq<char>, v: Seq<char>)
    requires
        k.len() > 0,
        v.len() > 0,
        forall|i: int| 0 <= i < k.len() ==> !is_ws(#[trigger] k[i]),
        forall|i: int| 0 <= i < v.len() ==> !is_ws(#[trigger] v[i]),
    ensures
        words(k + seq![' '] + v) == seq![k, v],
{
    let s = k + seq![' '] + v;
    let ws = |c: char| is_ws(c);
    let n = k.len() as int;
    assert(s[0] == k[0]);
    assert(s[n] == ' ');
    assert forall|i: int| 0 <= i < n implies !ws(#[trigger] s[i]) by {
        assert(s[i] == k[i]);
    }
    lemma_first_from_at(s, 0, n, ws);
    assert(s.subrange(0, n) =~= k);
    assert(words_from(s, 0) == seq![k] + words_from(s, n));
    assert(words_from(s, n) == words_from(s, n + 1));
    assert(s[n + 1] == v[0]);
    assert forall|i: int| n + 1 <= i < s.len() implies !ws(#[trigger] s[i]) by {
        assert(s[i] == v[i - n - 1]);
    }
    lemma_first_from_at(s, n + 1, s.len() as int, ws);
    assert(s.subrange(n + 1, s.len() as int) =~= v);
    assert(words_from(s, s.len() as int) =~= Seq::<Seq<char>>::empty());
    assert(words_from(s, n + 1) =~= seq![v]);
}

/// A word, a space and a word is already trimmed.
pub(crate) proof fn lemma_trimmed_pair(k: Seq<char>, v: Seq<char>)
    requires
        k.len() > 0,
        v.len() > 0,
        !is_ws(k[0]),
        !is_ws(v.last()),
    ensures
        trim(k + seq![' '] + v) == k + seq![' '] + v,
{
    let s = k + seq![' '] + v;
    assert(s[0] == k[0]);
    lemma_trim_start_at(s, 0);
    assert(s.skip(0) =~= s);
    assert(s[s.len() - 1] == v.last());
    lemma_trim_end_at(s, s.len() as int);
    assert(s.take(s.len() as int) =~= s);
}

/// Each character of each line of `s[i..]` is a character of `s[i..]` that is not a newline.
proof fn lemma_line_chars(s: Seq<char>, i: int)
    requires
        0 <= i <= s.len(),
    ensures
        forall|k: int, m: int|
            0 <= k < lines_from(s, i).len() && 0 <= m < lines_from(s, i)[k].len() ==> (exists|t: int|
                i <= t < s.len() && s[t] != '\n' && #[trigger] lines_from(s, i)[k][m] == s[t]),
    decreases s.len() - i,
{
    let nl = |c: char| is_newline(c);
    if i < s.len() {
        lemma_first_from_bounds(s, i, nl);
        let j = first_from(s, i, nl);
        let all = lines_from(s, i);
        if j < s.len() {
            lemma_line_chars(s, j + 1);
            let rest = lines_from(s, j + 1);
            let l0 = strip_cr(s.subrange(i, j));
            assert(all == seq![l0] + rest);
            assert forall|k: int, m: int| 0 <= k < all.len() && 0 <= m < all[k].len() implies (exists|t: int|
                i <= t < s.len() && s[t] != '\n' && #[trigger] all[k][m] == s[t]) by {
                if k == 0 {
                    assert(all[0][m] == s[i + m]);
                    assert(!nl(s[i + m]));
                } else {
                    assert(all[k] == rest[k - 1]);
                }
            }
        } else {
            let l0 = s.subrange(i, s.len() as int);
            assert(all == seq![l0]);
            assert forall|k: int, m: int| 0 <= k < all.len() && 0 <= m < all[k].len() implies (exists|t: int|
                i <= t < s.len() && s[t] != '\n' && #[trigger] all[k][m] == s[t]) by {
                assert(all[0][m] == s[i + m]);
                assert(!nl(s[i + m]));
            }
        }
    }
}

/// No line of a text holds a newline.
proof fn lemma_lines_no_newline(s: Seq<char>)
    ensures
        forall|k: int| 0 <= k < lines(s).len() ==> no_newline(#[trigger] lines(s)[k]),
{
    lemma_line_chars(s, 0);
    assert forall|k: int| 0 <= k < lines(s).len() implies no_newline(#[trigger] lines(s)[k]) by {
        let l = lines(s)[k];
        assert forall|m: int| 0 <= m < l.len() implies l[m] != '\n' by {
            let t = choose|t: int| 0 <= t < s.len() && s[t] != '\n' && #[trigger] lines_from(s, 0)[k][m] == s[t];
        }
    }
}

/// The lines of a text followed by a newline and a last line `m`: lines lying
/// in the text, then `m`.
proof fn lemma_lines_before_last(x: Seq<char>, m: Seq<char>, i: int)
    requires
        0 <= i <= x.len(),
        m.len() > 0,
        forall|k: int| 0 <= k < m.len() ==> m[k] != '\n',
    ensures
        lines_from(x + seq!['\n'] + m, i).len() >= 1,
        lines_from(x + seq!['\n'] + m, i).last() == m,
        forall|k: int| 0 <= k < lines_from(x + seq!['\n'] + m, i).len() - 1 ==> exists|a: int, b: int|
            i <= a <= b <= x.len() && #[trigger] lines_from(x + seq!['\n'] + m, i)[k] == x.subrange(a, b),
    decreases x.len() - i,
{
    let s = x + seq!['\n'] + m;
    let nl = |c: char| is_newline(c);
    let n = x.len() as int;
    assert(s[n] == '\n');
    lemma_first_from_bounds(s, i, nl);
    let j = first_from(s, i, nl);
    assert(j <= n) by {
        if j > n {
            assert(!nl(s[n]));
        }
    }
    let l0 = strip_cr(s.subrange(i, j));
    assert(s.subrange(i, j) =~= x.subrange(i, j));
    let all = lines_from(s, i);
    assert(all == seq![l0] + lines_from(s, j + 1));
    assert(l0 == x.subrange(i, j) || l0 == x.subrange(i, j - 1));
    if j < n {
        lemma_lines_before_last(x, m, j + 1);
        let rest = lines_from(s, j + 1);
        assert forall|k: int| 0 <= k < all.len() - 1 implies exists|a: int, b: int|
            i <= a <= b <= x.len() && #[trigger] all[k] == x.subrange(a, b) by {
            if k == 0 {
                if l0 == x.subrange(i, j) {
                    assert(all[0] == x.subrange(i, j));
                } else {
                    assert(all[0] == x.subrange(i, j - 1));
                }
            } else {
                assert(all[k] == rest[k - 1]);
                let (a, b) = choose|a: int, b: int| j + 1 <= a <= b <= x.len() && #[trigger] rest[k - 1] == x.subrange(a, b);
            }
        }
        assert(all.last() == rest.last());
    } else {
        assert(s =~= (x + seq!['\n']) + m);
        lemma_lines_shift(x + seq!['\n'], m, 0);
        lemma_first_from_at(m, 0, m.len() as int, nl);
        assert(m.subrange(0, m.len() as int) =~= m);
        assert(lines(m) =~= seq![m]);
        assert(lines_from(s, n + 1) == seq![m]);
        assert forall|k: int| 0 <= k < all.len() - 1 implies exists|a: int, b: int|
            i <= a <= b <= x.len() && #[trigger] all[k] == x.subrange(a, b) by {
            if l0 == x.subrange(i, j) {
                assert(all[0] == x.subrange(i, j));
            } else {
                assert(all[0] == x.subrange(i, j - 1));
            }
        }
    }
}

/// A word of a text that holds no newline and ends in no carriage return lies
/// in one of the text's lines.
proof fn lemma_line_holding(s: Seq<char>, k: Seq<char>, p: int, i: int)
    requires
        0 <= p <= i,
        i + k.len() <= s.len(),
        s.subrange(i, i + k.len()) == k,
        k.len() > 0,
        no_newline(k),
        k.last() != '\r',
    ensures
        exists|j: int| 0 <= j < lines_from(s, p).len() && contains_text(#[trigger] lines_from(s, p)[j], k),
    decreases s.len() - p,
{
    let nl = |c: char| is_newline(c);
    lemma_first_from_bounds(s, p, nl);
    let j = first_from(s, p, nl);
    let n = k.len() as int;
    let all = lines_from(s, p);
    if j < s.len() && j < i + n {
        assert(j < i) by {
            if j >= i {
                assert(s[j] == s.subrange(i, i + n)[j - i]);
            }
        }
        lemma_line_holding(s, k, j + 1, i);
        let rest = lines_from(s, j + 1);
        assert(all == seq![strip_cr(s.subrange(p, j))] + rest);
        let q = choose|q: int| 0 <= q < rest.len() && contains_text(#[trigger] rest[q], k);
        assert(all[q + 1] == rest[q]);
    } else {
        let e = if j < s.len() { j } else { s.len() as int };
        let raw = s.subrange(p, e);
        let l0 = if j < s.len() { strip_cr(raw) } else { raw };
        assert(all[0] == l0);
        assert(l0.len() >= i - p + n) by {
            if j < s.len() && raw.len() > 0 && raw.last() == '\r' && raw.len() == i - p + n {
                assert(raw.last() == s.subrange(i, i + n)[n - 1]);
            }
        }
        assert(l0.subrange(i - p, i - p + n) =~= s.subrange(i, i + n));
    }
}

/// A text that holds `DefaultVoice` has a line whose trimmed text holds it.
proof fn lemma_setting_line_exists(c: Seq<char>)
    requires
        contains_text(c, "DefaultVoice"@),
    ensures
        first_line_with(lines(c), "DefaultVoice"@, 0) >= 0,
{
    reveal_strlit("DefaultVoice");
    let key = "DefaultVoice"@;
    let i = choose|i: int| 0 <= i && i + key.len() <= c.len() && #[trigger] c.subrange(i, i + key.len()) == key;
    lemma_line_holding(c, key, 0, i);
    let ls = lines(c);
    let q = choose|q: int| 0 <= q < ls.len() && contains_text(#[trigger] ls[q], key);
    lemma_trim_keeps_word(ls[q], key);
    lemma_first_line_with(ls, key, 0);
}

/// A line that sets `DefaultVoice`: it starts with the word `DefaultVoice`,
/// followed by a value.
pub open spec fn sets_default_voice(line: Seq<char>) -> bool {
    &&& has_prefix(line, "DefaultVoice"@)
    &&& words(line).len() >= 2
    &&& words(line)[0] == "DefaultVoice"@
}

/// The configuration text after an edit.
pub open spec fn edited(content: Seq<char>, e: (bool, Seq<char>)) -> Seq<char> {
    if e.0 {
        content + e.1
    } else {
        e.1
    }
}

/// Setting the default voice, then reading it back, gives the voice that was
/// set: the voice is one word, and where the text already mentions
/// `DefaultVoice`, the first line that does sets it.
pub proof fn default_voice_read_after_set(c: Seq<char>, v: Seq<char>)
    requires
        v.len() > 0,
        forall|i: int| 0 <= i < v.len() ==> !is_ws(#[trigger] v[i]),
        first_line_with(lines(c), "DefaultVoice"@, 0) >= 0 ==> sets_default_voice(
            lines(c)[first_line_with(lines(c), "DefaultVoice"@, 0)],
        ),
    ensures
        default_voice_in(edited(c, upsert_edit(c, "DefaultVoice"@, v))) == Some(v),
{
    reveal_strlit("DefaultVoice");
    reveal_strlit(" ");
    reveal_strlit("\n");
    let key = "DefaultVoice"@;
    let m = key + " "@ + v;
    assert(m =~= key + seq![' '] + v);
    assert forall|i: int| 0 <= i < key.len() implies !is_ws(#[trigger] key[i]) by {}
    lemma_two_words(key, v);
    lemma_trimmed_pair(key, v);
    assert(m.last() == v.last());
    assert(no_newline(m)) by {
        assert forall|i: int| 0 <= i < m.len() implies m[i] != '\n' by {
            if i < key.len() {
                assert(m[i] == key[i]);
            } else if i > key.len() {
                assert(m[i] == v[i - key.len() - 1]);
            }
        }
    }
    assert(contains_text(trim(m), key)) by {
        assert(m.subrange(0, 0 + key.len() as int) =~= key);
    }
    if !contains_text(c, key) {
        let s = edited(c, upsert_edit(c, key, v));
        assert(s =~= c + seq!['\n'] + m);
        lemma_lines_before_last(c, m, 0);
        let ls = lines(s);
        let last = ls.len() - 1;
        assert forall|j: int| 0 <= j < last implies !contains_text(trim(#[trigger] ls[j]), key) by {
            let (a, b) = choose|a: int, b: int| 0 <= a <= b <= c.len() && #[trigger] lines_from(s, 0)[j] == c.subrange(a, b);
            lemma_trim_is_subrange(ls[j]);
            let (lo, hi) = choose|lo: int, hi: int| 0 <= lo <= hi <= ls[j].len() && trim(ls[j]) == ls[j].subrange(lo, hi);
            if contains_text(trim(ls[j]), key) {
                assert(ls[j].subrange(lo, hi) == c.subrange(a + lo, a + hi));
                lemma_contains_in_subrange(c, a + lo, a + hi, key);
            }
        }
        lemma_first_line_with_at(ls, key, 0, last);
    } else {
        lemma_setting_line_exists(c);
        let ls = lines(c);
        let k0 = first_line_with(ls, key, 0);
        lemma_first_line_with(ls, key, 0);
        let ls2 = ls.map_values(|l: Seq<char>| upsert_line(l, key, v));
        let s = edited(c, upsert_edit(c, key, v));
        assert(s == join(ls2, "\n"@));
        lemma_lines_no_newline(c);
        assert forall|j: int| 0 <= j < ls2.len() implies no_newline(#[trigger] ls2[j]) by {
            assert(no_newline(ls[j]));
        }
        lemma_lines_of_join(ls2);
        let r = lines(s);
        assert(ls2[k0] == m);
        assert(k0 < r.len());
        assert(strip_cr(m) == m);
        assert(r[k0] == m);
        assert forall|j: int| 0 <= j < k0 implies !contains_text(trim(#[trigger] r[j]), key) by {
            assert(!contains_text(trim(ls[j]), key));
            if has_prefix(ls[j], key) {
                lemma_prefix_contained(ls[j], key);
                lemma_trim_keeps_word(ls[j], key);
            }
            assert(ls2[j] == ls[j]);
            lemma_trim_strip_cr(ls[j]);
        }
        lemma_first_line_with_at(r, key, 0, k0);
    }
}

/// The lines kept by `lines_without` are lines of the text whose trimmed text
/// differs from that of the removed line.
proof fn lemma_lines_without(ls: Seq<Seq<char>>, line: Seq<char>)
    requires
        forall|k: int| 0 <= k < ls.len() ==> no_newline(#[trigger] ls[k]),
    ensures
        forall|k: int| 0 <= k < lines_without(ls, line).len() ==> no_newline(#[trigger] lines_without(ls, line)[k])
            && trim(lines_without(ls, line)[k]) != trim(line),
    decreases ls.len(),
{
    if ls.len() > 0 {
        let d = ls.drop_last();
        assert forall|k: int| 0 <= k < d.len() implies no_newline(#[trigger] d[k]) by {
            assert(d[k] == ls[k]);
        }
        lemma_lines_without(d, line);
        assert(no_newline(ls[ls.len() - 1]));
        let prev = lines_without(d, line);
        let all = lines_without(ls, line);
        if trim(ls.last()) == trim(line) {
            assert(all == prev);
        } else {
            assert(all == prev.push(ls.last()));
            assert forall|k: int| 0 <= k < all.len() implies no_newline(#[trigger] all[k]) && trim(all[k]) != trim(line) by {
                if k < prev.len() {
                    assert(all[k] == prev[k]);
                }
            }
        }
    }
}

/// Once a voice is removed from the module configuration, no line of the
/// configuration declares it any more.
pub proof fn removed_voice_not_declared(c: Seq<char>, language: Seq<char>, name: Seq<char>, id: Seq<char>)
    ensures
        forall|k: int|
            0 <= k < lines(join(lines_without(lines(c), voice_template(language, name, id)), "\n"@)).len() ==> trim(
                #[trigger] lines(join(lines_without(lines(c), voice_template(language, name, id)), "\n"@))[k],
            ) != trim(voice_template(language, name, id)),
{
    let t = voice_template(language, name, id);
    let ls = lines(c);
    lemma_lines_no_newline(c);
    lemma_lines_without(ls, t);
    let kept = lines_without(ls, t);
    lemma_lines_of_join(kept);
    let r = lines(join(kept, "\n"@));
    assert forall|k: int| 0 <= k < r.len() implies trim(#[trigger] r[k]) != trim(t) by {
        lemma_trim_strip_cr(kept[k]);
    }
}

/// `lines_without` keeps, in order, exactly the lines whose trimmed text
/// differs from that of the removed line.
proof fn lemma_lines_without_filter(ls: Seq<Seq<char>>, line: Seq<char>)
    ensures
        lines_without(ls, line) == ls.filter(|l: Seq<char>| trim(l) != trim(line)),
    decreases ls.len(),
{
    reveal(Seq::filter);
    if ls.len() > 0 {
        lemma_lines_without_filter(ls.drop_last(), line);
    }
}

/// Removing a voice keeps every other line of the module configuration, in
/// order: the lines left are those of the configuration that do not declare
/// the voice, and each is read back from the written text as it was (but for
/// a carriage return at its end), an empty last line aside.
pub proof fn removal_keeps_other_lines(c: Seq<char>, language: Seq<char>, name: Seq<char>, id: Seq<char>)
    ensures
        lines_without(lines(c), voice_template(language, name, id)) == lines(c).filter(
            |l: Seq<char>| trim(l) != trim(voice_template(language, name, id)),
        ),
        lines(join(lines_without(lines(c), voice_template(language, name, id)), "\n"@)).len() == if lines_without(
            lines(c),
            voice_template(language, name, id),
        ).len() > 0 && lines_without(lines(c), voice_template(language, name, id)).last().len() == 0 {
            lines_without(lines(c), voice_template(language, name, id)).len() - 1
        } else {
            lines_without(lines(c), voice_template(language, name, id)).len() as int
        },
        forall|j: int|
            0 <= j < lines(join(lines_without(lines(c), voice_template(language, name, id)), "\n"@)).len() ==> {
                let kept = lines_without(lines(c), voice_template(language, name, id));
                let back = #[trigger] lines(join(lines_without(lines(c), voice_template(language, name, id)), "\n"@))[j];
                back == kept[j] || back == strip_cr(kept[j])
            },
{
    let t = voice_template(language, name, id);
    let ls = lines(c);
    lemma_lines_no_newline(c);
    lemma_lines_without(ls, t);
    lemma_lines_without_filter(ls, t);
    lemma_lines_of_join(lines_without(ls, t));
}

} // verus!
