//! Character-level model of text: whitespace, trimming, UTF-8 byte length,
//! and the conversions between `&str`/`String` and vectors of characters.
use vstd::prelude::*;

verus! {

/// The Unicode `White_Space` property, which `char::is_whitespace` tests.
pub open spec fn is_ws(c: char) -> bool {
    let u = c as u32;
    ||| (0x09 <= u && u <= 0x0D)
    ||| u == 0x20
    ||| u == 0x85
    ||| u == 0xA0
    ||| u == 0x1680
    ||| (0x2000 <= u && u <= 0x200A)
    ||| u == 0x2028
    ||| u == 0x2029
    ||| u == 0x202F
    ||| u == 0x205F
    ||| u == 0x3000
}

/// Number of bytes of the UTF-8 encoding of one character.
pub open spec fn char_width(c: char) -> nat {
    let u = c as u32;
    if u < 0x80 {
        1
    } else if u < 0x800 {
        2
    } else if u < 0x10000 {
        3
    } else {
        4
    }
}

/// Number of bytes of the UTF-8 encoding of a character sequence
/// (what `str::len` returns).
pub open spec fn utf8_len(s: Seq<char>) -> nat
    decreases s.len(),
{
    if s.len() == 0 {
        0
    } else {
        utf8_len(s.drop_last()) + char_width(s.last())
    }
}

/// `s` with its leading whitespace removed.
pub open spec fn trim_start(s: Seq<char>) -> Seq<char>
    decreases s.len(),
{
    if s.len() > 0 && is_ws(s[0]) {
        trim_start(s.drop_first())
    } else {
        s
    }
}

/// `s` with its trailing whitespace removed.
pub open spec fn trim_end(s: Seq<char>) -> Seq<char>
    decreases s.len(),
{
    if s.len() > 0 && is_ws(s.last()) {
        trim_end(s.drop_last())
    } else {
        s
    }
}

/// `s` with leading and trailing whitespace removed (what `str::trim` returns).
pub open spec fn trim(s: Seq<char>) -> Seq<char> {
    trim_end(trim_start(s))
}

pub proof fn lemma_utf8_len_append(a: Seq<char>, b: Seq<char>)
    ensures
        utf8_len(a + b) == utf8_len(a) + utf8_len(b),
    decreases b.len(),
{
    if b.len() == 0 {
        assert(a + b =~= a);
    } else {
        assert((a + b).drop_last() =~= a + b.drop_last());
        assert((a + b).last() == b.last());
        lemma_utf8_len_append(a, b.drop_last());
    }
}

pub proof fn lemma_utf8_len_ge_len(s: Seq<char>)
    ensures
        utf8_len(s) >= s.len(),
        utf8_len(s) <= 4 * s.len(),
    decreases s.len(),
{
    if s.len() > 0 {
        lemma_utf8_len_ge_len(s.drop_last());
    }
}

pub proof fn lemma_utf8_len_push(s: Seq<char>, c: char)
    ensures
        utf8_len(s.push(c)) == utf8_len(s) + char_width(c),
{
    assert(s.push(c).drop_last() =~= s);
}

/// A prefix that is whitespace up to the first non-whitespace character is what
/// `trim_start` drops.
pub proof fn lemma_trim_start_at(s: Seq<char>, k: int)
    requires
        0 <= k <= s.len(),
        forall|i: int| 0 <= i < k ==> is_ws(#[trigger] s[i]),
        k == s.len() || !is_ws(s[k]),
    ensures
        trim_start(s) == s.skip(k),
    decreases k,
{
    if k == 0 {
        assert(s.skip(0) =~= s);
    } else {
        assert(is_ws(s[0]));
        let t = s.drop_first();
        assert forall|i: int| 0 <= i < k - 1 implies is_ws(#[trigger] t[i]) by {
            assert(t[i] == s[i + 1]);
        }
        if k - 1 < t.len() {
            assert(t[k - 1] == s[k]);
        }
        lemma_trim_start_at(t, k - 1);
        assert(t.skip(k - 1) =~= s.skip(k));
    }
}

/// A suffix that is whitespace back to the last non-whitespace character is what
/// `trim_end` drops.
pub proof fn lemma_trim_end_at(s: Seq<char>, k: int)
    requires
        0 <= k <= s.len(),
        forall|i: int| k <= i < s.len() ==> is_ws(#[trigger] s[i]),
        k == 0 || !is_ws(s[k - 1]),
    ensures
        trim_end(s) == s.take(k),
    decreases s.len() - k,
{
    if k == s.len() {
        assert(s.take(k) =~= s);
    } else {
        assert(is_ws(s.last()));
        let t = s.drop_last();
        assert forall|i: int| k <= i < t.len() implies is_ws(#[trigger] t[i]) by {
            assert(t[i] == s[i]);
        }
        if k > 0 {
            assert(t[k - 1] == s[k - 1]);
        }
        lemma_trim_end_at(t, k);
        assert(t.take(k) =~= s.take(k));
    }
}

/// `char::is_whitespace`.
pub fn is_whitespace(c: char) -> (r: bool)
    ensures
        r == is_ws(c),
{
    let u = c as u32;
    (0x09 <= u && u <= 0x0D) || u == 0x20 || u == 0x85 || u == 0xA0 || u == 0x1680 || (0x2000
        <= u && u <= 0x200A) || u == 0x2028 || u == 0x2029 || u == 0x202F || u == 0x205F || u
        == 0x3000
}

/// `char::len_utf8`.
pub fn width_of(c: char) -> (r: usize)
    ensures
        r == char_width(c),
{
    let u = c as u32;
    if u < 0x80 {
        1
    } else if u < 0x800 {
        2
    } else if u < 0x10000 {
        3
    } else {
        4
    }
}

/// The bounds of `v[lo..hi]` once leading and trailing whitespace is removed.
pub fn trim_bounds(v: &Vec<char>, lo: usize, hi: usize) -> (r: (usize, usize))
    requires
        lo <= hi <= v.len(),
    ensures
        lo <= r.0 <= r.1 <= hi,
        v@.subrange(r.0 as int, r.1 as int) == trim(v@.subrange(lo as int, hi as int)),
{
    let ghost s = v@.subrange(lo as int, hi as int);
    let mut a = lo;
    while a < hi && is_whitespace(v[a])
        invariant
            lo <= a <= hi <= v.len(),
            s == v@.subrange(lo as int, hi as int),
            forall|i: int| lo <= i < a ==> is_ws(#[trigger] v@[i]),
        decreases hi - a,
    {
        a = a + 1;
    }
    proof {
        assert forall|i: int| 0 <= i < a - lo implies is_ws(#[trigger] s[i]) by {
            assert(s[i] == v@[lo + i]);
        }
        if a < hi {
            assert(s[a - lo] == v@[a as int]);
        }
        lemma_trim_start_at(s, a - lo);
        assert(s.skip(a - lo) =~= v@.subrange(a as int, hi as int));
    }
    let ghost t = v@.subrange(a as int, hi as int);
    let mut b = hi;
    while b > a && is_whitespace(v[b - 1])
        invariant
            lo <= a <= b <= hi <= v.len(),
            t == v@.subrange(a as int, hi as int),
            forall|i: int| b <= i < hi ==> is_ws(#[trigger] v@[i]),
        decreases b - a,
    {
        b = b - 1;
    }
    proof {
        assert forall|i: int| b - a <= i < t.len() implies is_ws(#[trigger] t[i]) by {
            assert(t[i] == v@[a + i]);
        }
        if b > a {
            assert(t[b - a - 1] == v@[b - 1]);
        }
        lemma_trim_end_at(t, b - a);
        assert(t.take(b - a) =~= v@.subrange(a as int, b as int));
    }
    (a, b)
}

/// Byte length of the UTF-8 encoding of `v[lo..hi]`.
pub fn utf8_len_of(v: &Vec<char>, lo: usize, hi: usize) -> (r: usize)
    requires
        lo <= hi <= v.len(),
        4 * v.len() <= usize::MAX,
    ensures
        r == utf8_len(v@.subrange(lo as int, hi as int)),
{
    let mut n: usize = 0;
    let mut i = lo;
    while i < hi
        invariant
            lo <= i <= hi <= v.len(),
            4 * v.len() <= usize::MAX,
            n == utf8_len(v@.subrange(lo as int, i as int)),
        decreases hi - i,
    {
        proof {
            assert(v@.subrange(lo as int, i + 1) =~= v@.subrange(lo as int, i as int).push(v@[i as int]));
            lemma_utf8_len_push(v@.subrange(lo as int, i as int), v@[i as int]);
            lemma_utf8_len_ge_len(v@.subrange(lo as int, i as int));
        }
        n = n + width_of(v[i]);
        i = i + 1;
    }
    n
}

/// Calls `String::push`, which appends one character to the string.
#[verifier::external_body]
pub(crate) fn push_char(s: &mut String, c: char)
    ensures
        final(s)@ == old(s)@.push(c),
{
    s.push(c);
}

/// The characters of `s`, in order.
pub fn to_chars(s: &str) -> (r: Vec<char>)
    ensures
        r@ == s@,
{
    let mut r: Vec<char> = Vec::new();
    for c in it: s.chars()
        invariant
            r@ == it.seq().take(it.index() as int),
            it.seq() == s@,
        ensures
            r@ == s@,
    {
        proof {
            assert(it.seq().take(it.index() + 1) =~= r@.push(c));
        }
        r.push(c);
    }
    r
}

/// The string made of `v[lo..hi]`.
pub fn string_of(v: &Vec<char>, lo: usize, hi: usize) -> (r: String)
    requires
        lo <= hi <= v.len(),
    ensures
        r@ == v@.subrange(lo as int, hi as int),
{
    let mut r = String::new();
    let mut i = lo;
    while i < hi
        invariant
            lo <= i <= hi <= v.len(),
            r@ == v@.subrange(lo as int, i as int),
        decreases hi - i,
    {
        push_char(&mut r, v[i]);
        proof {
            assert(v@.subrange(lo as int, i + 1) =~= v@.subrange(lo as int, i as int).push(v@[i as int]));
        }
        i = i + 1;
    }
    r
}

/// The first index at or after `i` whose character satisfies `p`, or `s.len()`.
pub open spec fn first_from(s: Seq<char>, i: int, p: spec_fn(char) -> bool) -> int
    decreases s.len() - i,
{
    if i >= s.len() {
        s.len() as int
    } else if p(s[i]) {
        i
    } else {
        first_from(s, i + 1, p)
    }
}

/// Whether `c` ends a line.
pub open spec fn is_newline(c: char) -> bool {
    c == '\n'
}

/// The line `s[i..j]` ended by a newline at `j`, without a carriage return just
/// before that newline.
pub open spec fn strip_cr(l: Seq<char>) -> Seq<char> {
    if l.len() > 0 && l.last() == '\r' {
        l.drop_last()
    } else {
        l
    }
}

/// The lines of `s[i..]`, as `str::lines` yields them: split at `\n`, a `\r`
/// before the `\n` dropped, no empty line after a final `\n`.
pub open spec fn lines_from(s: Seq<char>, i: int) -> Seq<Seq<char>>
    decreases s.len() - i,
{
    if i >= s.len() || i < 0 {
        seq![]
    } else {
        let j = first_from(s, i, |c: char| is_newline(c));
        proof {
            lemma_first_from_bounds(s, i, |c: char| is_newline(c));
        }
        if j < s.len() {
            seq![strip_cr(s.subrange(i, j))] + lines_from(s, j + 1)
        } else {
            seq![s.subrange(i, s.len() as int)]
        }
    }
}

/// The lines of `s`.
pub open spec fn lines(s: Seq<char>) -> Seq<Seq<char>> {
    lines_from(s, 0)
}

/// The whitespace-separated words of `s[i..]`, as `str::split_whitespace` yields them.
pub open spec fn words_from(s: Seq<char>, i: int) -> Seq<Seq<char>>
    decreases s.len() - i,
{
    if i >= s.len() || i < 0 {
        seq![]
    } else if is_ws(s[i]) {
        words_from(s, i + 1)
    } else {
        let j = first_from(s, i, |c: char| is_ws(c));
        proof {
            lemma_first_from_bounds(s, i, |c: char| is_ws(c));
        }
        seq![s.subrange(i, j)] + words_from(s, j)
    }
}

/// The whitespace-separated words of `s`.
pub open spec fn words(s: Seq<char>) -> Seq<Seq<char>> {
    words_from(s, 0)
}

/// `parts` joined with `sep` between consecutive parts (what `join` returns).
pub open spec fn join(parts: Seq<Seq<char>>, sep: Seq<char>) -> Seq<char>
    decreases parts.len(),
{
    if parts.len() == 0 {
        seq![]
    } else if parts.len() == 1 {
        parts[0]
    } else {
        join(parts.drop_last(), sep) + sep + parts.last()
    }
}

pub proof fn lemma_first_from_bounds(s: Seq<char>, i: int, p: spec_fn(char) -> bool)
    requires
        0 <= i <= s.len(),
    ensures
        i <= first_from(s, i, p) <= s.len(),
        first_from(s, i, p) < s.len() ==> p(s[first_from(s, i, p)]),
        forall|k: int| i <= k < first_from(s, i, p) ==> !p(#[trigger] s[k]),
    decreases s.len() - i,
{
    if i < s.len() && !p(s[i]) {
        lemma_first_from_bounds(s, i + 1, p);
    }
}

pub proof fn lemma_first_from_at(s: Seq<char>, i: int, j: int, p: spec_fn(char) -> bool)
    requires
        0 <= i <= j <= s.len(),
        forall|k: int| i <= k < j ==> !p(#[trigger] s[k]),
        j == s.len() || p(s[j]),
    ensures
        first_from(s, i, p) == j,
    decreases j - i,
{
    if i < j {
        lemma_first_from_at(s, i + 1, j, p);
    }
}

/// The first index at or after `i` holding a newline, or `v.len()`.
pub fn scan_to_newline(v: &Vec<char>, i: usize) -> (r: usize)
    requires
        i <= v.len(),
    ensures
        r == first_from(v@, i as int, |c: char| is_newline(c)),
        i <= r <= v.len(),
{
    let ghost p = |c: char| is_newline(c);
    let mut j = i;
    while j < v.len() && v[j] != '\n'
        invariant
            i <= j <= v.len(),
            p == (|c: char| is_newline(c)),
            forall|k: int| i <= k < j ==> !p(#[trigger] v@[k]),
        decreases v.len() - j,
    {
        j = j + 1;
    }
    proof {
        lemma_first_from_at(v@, i as int, j as int, p);
    }
    j
}

/// The first index at or after `i` holding whitespace, or `v.len()`.
pub fn scan_to_ws(v: &Vec<char>, i: usize) -> (r: usize)
    requires
        i <= v.len(),
    ensures
        r == first_from(v@, i as int, |c: char| is_ws(c)),
        i <= r <= v.len(),
{
    let ghost p = |c: char| is_ws(c);
    let mut j = i;
    while j < v.len() && !is_whitespace(v[j])
        invariant
            i <= j <= v.len(),
            p == (|c: char| is_ws(c)),
            forall|k: int| i <= k < j ==> !p(#[trigger] v@[k]),
        decreases v.len() - j,
    {
        j = j + 1;
    }
    proof {
        lemma_first_from_at(v@, i as int, j as int, p);
    }
    j
}

/// The bounds of the lines of `v`, in order.
pub fn line_bounds(v: &Vec<char>) -> (r: Vec<(usize, usize)>)
    ensures
        r.len() == lines(v@).len(),
        forall|k: int| 0 <= k < r.len() ==> #[trigger] r@[k].0 <= r@[k].1 <= v.len(),
        forall|k: int|
            0 <= k < r.len() ==> v@.subrange(r@[k].0 as int, r@[k].1 as int) == #[trigger] lines(v@)[k],
{
    let ghost nl = |c: char| is_newline(c);
    let mut r: Vec<(usize, usize)> = Vec::new();
    let mut i: usize = 0;
    let ghost mut done: Seq<Seq<char>> = seq![];
    while i < v.len()
        invariant
            i <= v.len(),
            nl == (|c: char| is_newline(c)),
            done + lines_from(v@, i as int) == lines(v@),
            r.len() == done.len(),
            forall|k: int| 0 <= k < r.len() ==> #[trigger] r@[k].0 <= r@[k].1 <= v.len(),
            forall|k: int|
                0 <= k < r.len() ==> v@.subrange(r@[k].0 as int, r@[k].1 as int) == #[trigger] done[k],
        decreases v.len() - i,
    {
        let j = scan_to_newline(v, i);
        if j < v.len() {
            let e = if j > i && v[j - 1] == '\r' { j - 1 } else { j };
            proof {
                assert(v@.subrange(i as int, e as int) =~= strip_cr(v@.subrange(i as int, j as int)));
                assert(lines_from(v@, i as int) == seq![strip_cr(v@.subrange(i as int, j as int))]
                    + lines_from(v@, j + 1));
                assert(done + lines_from(v@, i as int) =~= done.push(strip_cr(v@.subrange(i as int, j as int))) + lines_from(v@, j + 1));
            }
            let ghost old_r = r@;
            let ghost old_done = done;
            r.push((i, e));
            proof {
                done = done.push(strip_cr(v@.subrange(i as int, j as int)));
                assert forall|k: int| 0 <= k < r.len() implies #[trigger] r@[k].0 <= r@[k].1 <= v.len() by {
                    if k < old_r.len() { assert(r@[k] == old_r[k]); }
                }
                assert forall|k: int| 0 <= k < r.len() implies v@.subrange(
                    r@[k].0 as int, r@[k].1 as int) == #[trigger] done[k] by {
                    if k < old_r.len() { assert(r@[k] == old_r[k]); assert(done[k] == old_done[k]); } else { assert(r@[k] == (i, e)); }
                }
            }
            i = j + 1;
        } else {
            proof {
                assert(lines_from(v@, v.len() as int) =~= seq![]);
                assert(done + lines_from(v@, i as int) =~= done.push(v@.subrange(i as int, v.len() as int)) + lines_from(v@, v.len() as int));
            }
            let ghost old_r = r@;
            let ghost old_done = done;
            r.push((i, v.len()));
            proof {
                done = done.push(v@.subrange(i as int, v.len() as int));
                assert forall|k: int| 0 <= k < r.len() implies #[trigger] r@[k].0 <= r@[k].1 <= v.len() by {
                    if k < old_r.len() { assert(r@[k] == old_r[k]); }
                }
                assert forall|k: int| 0 <= k < r.len() implies v@.subrange(
                    r@[k].0 as int, r@[k].1 as int) == #[trigger] done[k] by {
                    if k < old_r.len() { assert(r@[k] == old_r[k]); assert(done[k] == old_done[k]); } else { assert(r@[k] == (i, v.len())); }
                }
            }
            i = v.len();
        }
    }
    proof {
        assert(lines_from(v@, i as int) =~= seq![]);
        assert(done + lines_from(v@, i as int) =~= done);
    }
    r
}

/// The bounds of the whitespace-separated words of `v[lo..hi]`, in order.
pub fn word_bounds(v: &Vec<char>) -> (r: Vec<(usize, usize)>)
    ensures
        r.len() == words(v@).len(),
        forall|k: int| 0 <= k < r.len() ==> #[trigger] r@[k].0 <= r@[k].1 <= v.len(),
        forall|k: int|
            0 <= k < r.len() ==> v@.subrange(r@[k].0 as int, r@[k].1 as int) == #[trigger] words(v@)[k],
{
    let ghost ws = |c: char| is_ws(c);
    let mut r: Vec<(usize, usize)> = Vec::new();
    let mut i: usize = 0;
    let ghost mut done: Seq<Seq<char>> = seq![];
    while i < v.len()
        invariant
            i <= v.len(),
            ws == (|c: char| is_ws(c)),
            done + words_from(v@, i as int) == words(v@),
            r.len() == done.len(),
            forall|k: int| 0 <= k < r.len() ==> #[trigger] r@[k].0 <= r@[k].1 <= v.len(),
            forall|k: int|
                0 <= k < r.len() ==> v@.subrange(r@[k].0 as int, r@[k].1 as int) == #[trigger] done[k],
        decreases v.len() - i,
    {
        if is_whitespace(v[i]) {
            i = i + 1;
        } else {
            let j = scan_to_ws(v, i);
            proof {
                assert(words_from(v@, i as int) == seq![v@.subrange(i as int, j as int)]
                    + words_from(v@, j as int));
                assert(done + words_from(v@, i as int) =~= done.push(v@.subrange(i as int, j as int)) + words_from(v@, j as int));
            }
            let ghost old_r = r@;
            let ghost old_done = done;
            r.push((i, j));
            proof {
                done = done.push(v@.subrange(i as int, j as int));
                assert forall|k: int| 0 <= k < r.len() implies #[trigger] r@[k].0 <= r@[k].1 <= v.len() by {
                    if k < old_r.len() { assert(r@[k] == old_r[k]); }
                }
                assert forall|k: int| 0 <= k < r.len() implies v@.subrange(
                    r@[k].0 as int, r@[k].1 as int) == #[trigger] done[k] by {
                    if k < old_r.len() { assert(r@[k] == old_r[k]); assert(done[k] == old_done[k]); } else { assert(r@[k] == (i, j)); }
                }
            }
            i = j;
        }
    }
    proof {
        assert(words_from(v@, i as int) =~= seq![]);
        assert(done + words_from(v@, i as int) =~= done);
    }
    r
}

/// The views of a sequence of strings.
pub open spec fn str_views(v: Seq<String>) -> Seq<Seq<char>> {
    v.map_values(|s: String| s@)
}

pub proof fn lemma_str_views_push(v: Seq<String>, x: String)
    ensures
        str_views(v.push(x)) == str_views(v).push(x@),
{
    assert(str_views(v.push(x)) =~= str_views(v).push(x@));
}

pub proof fn lemma_str_views_add(v: Seq<String>, w: Seq<String>)
    ensures
        str_views(v + w) == str_views(v) + str_views(w),
{
    assert(str_views(v + w) =~= str_views(v) + str_views(w));
}

/// A copy of `v[lo..hi]`.
pub fn sub_vec(v: &Vec<char>, lo: usize, hi: usize) -> (r: Vec<char>)
    requires
        lo <= hi <= v.len(),
    ensures
        r@ == v@.subrange(lo as int, hi as int),
{
    let mut r: Vec<char> = Vec::new();
    let mut i = lo;
    while i < hi
        invariant
            lo <= i <= hi <= v.len(),
            r@ == v@.subrange(lo as int, i as int),
        decreases hi - i,
    {
        r.push(v[i]);
        proof {
            assert(v@.subrange(lo as int, i + 1) =~= v@.subrange(lo as int, i as int).push(v@[i as int]));
        }
        i = i + 1;
    }
    r
}

/// Appends `v[lo..hi]` to `dst`.
pub fn append_chars(dst: &mut Vec<char>, v: &Vec<char>, lo: usize, hi: usize)
    requires
        lo <= hi <= v.len(),
    ensures
        final(dst)@ == old(dst)@ + v@.subrange(lo as int, hi as int),
{
    let mut i = lo;
    while i < hi
        invariant
            lo <= i <= hi <= v.len(),
            dst@ == old(dst)@ + v@.subrange(lo as int, i as int),
        decreases hi - i,
    {
        dst.push(v[i]);
        proof {
            assert(old(dst)@ + v@.subrange(lo as int, i + 1) =~= old(dst)@ + v@.subrange(lo as int, i as int) + seq![v@[i as int]]);
        }
        i = i + 1;
    }
}


/// Whether two strings hold the same text.
pub fn same_text(a: &str, b: &str) -> (r: bool)
    ensures
        r == (a@ == b@),
{
    let x = to_chars(a);
    let y = to_chars(b);
    if x.len() != y.len() {
        return false;
    }
    let mut i: usize = 0;
    while i < x.len()
        invariant
            i <= x.len() == y.len(),
            x@ == a@,
            y@ == b@,
            forall|k: int| 0 <= k < i ==> x@[k] == y@[k],
        decreases x.len() - i,
    {
        if x[i] != y[i] {
            proof {
                if x@ == y@ {
                    assert(x@[i as int] == y@[i as int]);
                }
            }
            return false;
        }
        i = i + 1;
    }
    proof {
        assert(x@ =~= y@);
    }
    true
}

/// Whether `s` starts with `p`.
pub open spec fn has_prefix(s: Seq<char>, p: Seq<char>) -> bool {
    p.len() <= s.len() && s.take(p.len() as int) == p
}

/// `str::starts_with`.
pub fn starts_with(s: &str, p: &str) -> (r: bool)
    ensures
        r == has_prefix(s@, p@),
{
    let x = to_chars(s);
    let y = to_chars(p);
    if y.len() > x.len() {
        return false;
    }
    let mut i: usize = 0;
    while i < y.len()
        invariant
            i <= y.len() <= x.len(),
            x@ == s@,
            y@ == p@,
            forall|k: int| 0 <= k < i ==> x@[k] == y@[k],
        decreases y.len() - i,
    {
        if x[i] != y[i] {
            proof {
                assert(x@.take(y.len() as int)[i as int] == x@[i as int]);
                if x@.take(y.len() as int) == y@ {
                    assert(x@.take(y.len() as int)[i as int] == y@[i as int]);
                }
            }
            return false;
        }
        i = i + 1;
    }
    proof {
        assert(x@.take(y.len() as int) =~= y@);
    }
    true
}

pub proof fn lemma_prefix_bytes_strict(s: Seq<char>, a: int, b: int)
    requires
        0 <= a < b <= s.len(),
    ensures
        utf8_len(s.take(a)) < utf8_len(s.take(b)),
{
    assert(s.take(b) =~= s.take(a) + s.subrange(a, b));
    lemma_utf8_len_append(s.take(a), s.subrange(a, b));
    lemma_utf8_len_ge_len(s.subrange(a, b));
}

/// Whether a character boundary of `s` lies at byte `b`.
pub open spec fn is_boundary(s: Seq<char>, b: int) -> bool {
    exists|k: int| 0 <= k <= s.len() && utf8_len(s.take(k)) == b
}

/// The number of characters before byte `b` of `s`, when `b` is a boundary.
pub open spec fn char_index_of_byte(s: Seq<char>, b: int) -> int {
    choose|k: int| 0 <= k <= s.len() && utf8_len(s.take(k)) == b
}

/// `s.get(a..b)`: the characters between bytes `a` and `b`, when both are
/// character boundaries in order.
pub open spec fn byte_get(s: Seq<char>, a: int, b: int) -> Option<Seq<char>> {
    if is_boundary(s, a) && is_boundary(s, b) && char_index_of_byte(s, a) <= char_index_of_byte(s, b) {
        Some(s.subrange(char_index_of_byte(s, a), char_index_of_byte(s, b)))
    } else {
        None
    }
}

/// `s.get(a..)`: the characters after byte `a`, when it is a character boundary.
pub open spec fn byte_get_from(s: Seq<char>, a: int) -> Option<Seq<char>> {
    if is_boundary(s, a) {
        Some(s.skip(char_index_of_byte(s, a)))
    } else {
        None
    }
}

/// The character index at byte `b` of `v`, when a character boundary lies there.
pub fn boundary_index(v: &Vec<char>, b: usize) -> (r: Option<usize>)
    ensures
        r is Some <==> is_boundary(v@, b as int),
        r matches Some(k) ==> k == char_index_of_byte(v@, b as int) && k <= v.len() && utf8_len(
            v@.take(k as int),
        ) == b,
{
    let mut k: usize = 0;
    let mut bytes: usize = 0;
    while k < v.len() && bytes < b
        invariant
            k <= v.len(),
            bytes == utf8_len(v@.take(k as int)),
            bytes <= b || k == 0,
            forall|j: int| 0 <= j < k ==> utf8_len(v@.take(j)) < b,
        decreases v.len() - k,
    {
        proof {
            assert(v@.take(k + 1) =~= v@.take(k as int).push(v@[k as int]));
            lemma_utf8_len_push(v@.take(k as int), v@[k as int]);
        }
        let w = width_of(v[k]);
        if w > b - bytes {
            proof {
                assert forall|j: int| 0 <= j <= v.len() implies utf8_len(v@.take(j)) != b by {
                    if j <= k {
                        if j < k {
                            assert(utf8_len(v@.take(j)) < b);
                        }
                    } else {
                        lemma_prefix_bytes_strict(v@, k as int, j);
                        if j > k + 1 {
                            lemma_prefix_bytes_strict(v@, k + 1, j);
                        }
                    }
                }
            }
            return None;
        }
        bytes = bytes + w;
        k = k + 1;
    }
    if bytes == b {
        proof {
            assert forall|j: int| 0 <= j <= v.len() && utf8_len(v@.take(j)) == b implies j == k by {
                if j < k {
                    assert(utf8_len(v@.take(j)) < b);
                } else if j > k {
                    lemma_prefix_bytes_strict(v@, k as int, j);
                }
            }
            assert(utf8_len(v@.take(k as int)) == b);
        }
        Some(k)
    } else {
        proof {
            assert forall|j: int| 0 <= j <= v.len() implies utf8_len(v@.take(j)) != b by {
                if j < k {
                    assert(utf8_len(v@.take(j)) < b);
                } else if j > k {
                    lemma_prefix_bytes_strict(v@, k as int, j);
                }
            }
        }
        None
    }
}

/// The predicate of being `sep`.
pub open spec fn eq_char(sep: char) -> spec_fn(char) -> bool {
    |c: char| c == sep
}

/// The pieces of `s[i..]` separated by `sep`, as `str::split` yields them
/// (an empty piece where two separators meet or at either end).
pub open spec fn split_from(s: Seq<char>, sep: char, i: int) -> Seq<Seq<char>>
    decreases s.len() - i + 1,
{
    if i < 0 || i > s.len() {
        seq![]
    } else {
        let j = first_from(s, i, eq_char(sep));
        proof {
            lemma_first_from_bounds(s, i, eq_char(sep));
        }
        if j < s.len() {
            seq![s.subrange(i, j)] + split_from(s, sep, j + 1)
        } else {
            seq![s.subrange(i, s.len() as int)]
        }
    }
}

/// The pieces of `s` separated by `sep`.
pub open spec fn split_on(s: Seq<char>, sep: char) -> Seq<Seq<char>> {
    split_from(s, sep, 0)
}

/// The first index at or after `i` holding `sep`, or `v.len()`.
pub fn scan_to_char(v: &Vec<char>, i: usize, sep: char) -> (r: usize)
    requires
        i <= v.len(),
    ensures
        r == first_from(v@, i as int, eq_char(sep)),
        i <= r <= v.len(),
{
    let ghost p = eq_char(sep);
    let mut j = i;
    while j < v.len() && v[j] != sep
        invariant
            i <= j <= v.len(),
            p == (eq_char(sep)),
            forall|k: int| i <= k < j ==> !p(#[trigger] v@[k]),
        decreases v.len() - j,
    {
        j = j + 1;
    }
    proof {
        lemma_first_from_at(v@, i as int, j as int, p);
    }
    j
}

/// The bounds of the pieces of `v` separated by `sep`, in order.
pub fn split_bounds(v: &Vec<char>, sep: char) -> (r: Vec<(usize, usize)>)
    ensures
        r.len() == split_on(v@, sep).len(),
        forall|k: int| 0 <= k < r.len() ==> #[trigger] r@[k].0 <= r@[k].1 <= v.len(),
        forall|k: int|
            0 <= k < r.len() ==> v@.subrange(r@[k].0 as int, r@[k].1 as int) == #[trigger] split_on(
                v@,
                sep,
            )[k],
{
    let mut r: Vec<(usize, usize)> = Vec::new();
    let mut i: usize = 0;
    let ghost mut done: Seq<Seq<char>> = seq![];
    loop
        invariant
            i <= v.len(),
            done + split_from(v@, sep, i as int) == split_on(v@, sep),
            r.len() == done.len(),
            forall|k: int| 0 <= k < r.len() ==> #[trigger] r@[k].0 <= r@[k].1 <= v.len(),
            forall|k: int|
                0 <= k < r.len() ==> v@.subrange(r@[k].0 as int, r@[k].1 as int) == #[trigger] done[k],
        decreases v.len() - i,
    {
        let j = scan_to_char(v, i, sep);
        let ghost old_r = r@;
        let ghost old_done = done;
        r.push((i, j));
        proof {
            done = done.push(v@.subrange(i as int, j as int));
            assert forall|k: int| 0 <= k < r.len() implies #[trigger] r@[k].0 <= r@[k].1 <= v.len() by {
                if k < old_r.len() { assert(r@[k] == old_r[k]); }
            }
            assert forall|k: int| 0 <= k < r.len() implies v@.subrange(
                r@[k].0 as int, r@[k].1 as int) == #[trigger] done[k] by {
                if k < old_r.len() { assert(r@[k] == old_r[k]); assert(done[k] == old_done[k]); }
                else { assert(r@[k] == (i, j)); }
            }
        }
        if j < v.len() {
            proof {
                assert(split_from(v@, sep, i as int) == seq![v@.subrange(i as int, j as int)] + split_from(v@, sep, j + 1));
                assert(old_done + split_from(v@, sep, i as int) =~= done + split_from(v@, sep, j + 1));
            }
            i = j + 1;
        } else {
            proof {
                assert(split_from(v@, sep, i as int) == seq![v@.subrange(i as int, j as int)]);
                assert(old_done + split_from(v@, sep, i as int) =~= done);
            }
            return r;
        }
    }
}

/// What `trim_end` keeps of a text up to a character that is not whitespace.
pub proof fn lemma_trim_end_keeps(s: Seq<char>, m: int)
    requires
        0 < m <= s.len(),
        !is_ws(s[m - 1]),
    ensures
        trim_end(s).len() >= m,
        trim_end(s).take(m) == s.take(m),
    decreases s.len(),
{
    if s.len() > 0 && is_ws(s.last()) {
        assert(s.len() > m);
        let d = s.drop_last();
        assert(d[m - 1] == s[m - 1]);
        lemma_trim_end_keeps(d, m);
        assert(d.take(m) =~= s.take(m));
    }
}

/// `trim` keeps a contiguous part of the text.
pub proof fn lemma_trim_is_subrange(s: Seq<char>)
    ensures
        exists|lo: int, hi: int| 0 <= lo <= hi <= s.len() && trim(s) == s.subrange(lo, hi),
{
    let a = lemma_trim_start_skip(s);
    let t = s.skip(a);
    let b = lemma_trim_end_take(t);
    assert(trim(s) == t.take(b));
    assert(t.take(b) =~= s.subrange(a, a + b));
}

pub proof fn lemma_trim_start_skip(s: Seq<char>) -> (a: int)
    ensures
        0 <= a <= s.len(),
        trim_start(s) == s.skip(a),
    decreases s.len(),
{
    if s.len() > 0 && is_ws(s[0]) {
        let a0 = lemma_trim_start_skip(s.drop_first());
        assert(s.drop_first().skip(a0) =~= s.skip(a0 + 1));
        a0 + 1
    } else {
        assert(s.skip(0) =~= s);
        0
    }
}

pub proof fn lemma_trim_end_take(s: Seq<char>) -> (b: int)
    ensures
        0 <= b <= s.len(),
        trim_end(s) == s.take(b),
    decreases s.len(),
{
    if s.len() > 0 && is_ws(s.last()) {
        let b0 = lemma_trim_end_take(s.drop_last());
        assert(s.drop_last().take(b0) =~= s.take(b0));
        b0
    } else {
        assert(s.take(s.len() as int) =~= s);
        s.len() as int
    }
}

/// Whether `s` is not empty and neither starts nor ends with whitespace.
pub open spec fn is_trimmed_text(s: Seq<char>) -> bool {
    s.len() > 0 && !is_ws(s[0]) && !is_ws(s.last())
}

proof fn lemma_trim_start_first(x: Seq<char>)
    ensures
        trim_start(x).len() > 0 ==> !is_ws(trim_start(x)[0]),
    decreases x.len(),
{
    if x.len() > 0 && is_ws(x[0]) {
        lemma_trim_start_first(x.drop_first());
    }
}

proof fn lemma_trim_end_last(x: Seq<char>)
    ensures
        trim_end(x).len() > 0 ==> !is_ws(trim_end(x).last()),
    decreases x.len(),
{
    if x.len() > 0 && is_ws(x.last()) {
        lemma_trim_end_last(x.drop_last());
    }
}

/// A trimmed text is empty or starts and ends with a character that is not
/// whitespace.
pub proof fn lemma_trim_shape(x: Seq<char>)
    ensures
        trim(x).len() == 0 || is_trimmed_text(trim(x)),
{
    let t = trim_start(x);
    lemma_trim_start_first(x);
    lemma_trim_end_last(t);
    let b = lemma_trim_end_take(t);
    if trim(x).len() > 0 {
        assert(trim(x)[0] == t[0]);
    }
}

/// A text that neither starts nor ends with whitespace is its own trimmed text.
pub proof fn lemma_trimmed_fixed(y: Seq<char>)
    requires
        is_trimmed_text(y),
    ensures
        trim(y) == y,
{
    lemma_trim_start_at(y, 0);
    assert(y.skip(0) =~= y);
    lemma_trim_end_at(y, y.len() as int);
    assert(y.take(y.len() as int) =~= y);
}

} // verus!
