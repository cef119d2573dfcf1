//! Reading blocks of a plain-text document: the text is cut after sentence
//! terminators that are followed by a capitalised word, and the pieces are
//! gathered into blocks of at least a minimum length, each with the byte
//! offsets used to highlight it while it is read aloud.
use vstd::prelude::*;
use crate::chars::{
    append_chars, lemma_str_views_add, lemma_str_views_push, str_views, sub_vec,
    first_from, is_ws, lemma_first_from_bounds, lemma_utf8_len_append, lemma_utf8_len_ge_len,
    lemma_utf8_len_push, string_of, to_chars, trim_end, trim_bounds, utf8_len,
    utf8_len_of, width_of,
};
use crate::patterns::{
    break_at, break_spans_from, find_matches, is_term, match_spans, BLOCK_BREAK_PATTERN,
    SENTENCE_PATTERN,
};

verus! {

/// A block of text with the byte offsets at which highlighting starts and ends.
#[derive(Debug)]
pub struct ReadBlock {
    pub block: String,
    pub start_offset: i32,
    pub end_offset: i32,
}

/// The text a document buffer holds, with every double quote turned into a
/// single quote (double quotes would break the speech script).
pub open spec fn sanitized(text: Seq<char>) -> Seq<char> {
    text.map_values(|c: char| if c == '"' { '\'' } else { c })
}

/// The concatenation of `ss`.
pub open spec fn concat(ss: Seq<Seq<char>>) -> Seq<char>
    decreases ss.len(),
{
    if ss.len() == 0 {
        seq![]
    } else {
        concat(ss.drop_last()) + ss.last()
    }
}

/// The pieces of `s` cut after the terminator of each break from `bs[i..]` on,
/// the current piece starting at `start`; empty pieces are left out and the
/// rest of the text after the last break is the last piece.
pub open spec fn raw_from(s: Seq<char>, bs: Seq<(int, int)>, i: int, start: int) -> Seq<Seq<char>>
    decreases bs.len() - i,
{
    if i < 0 || i >= bs.len() {
        if start < s.len() {
            seq![s.subrange(start, s.len() as int)]
        } else {
            seq![]
        }
    } else {
        let end = bs[i].0 + 1;
        let b = s.subrange(start, end);
        if b.len() > 0 {
            seq![b] + raw_from(s, bs, i + 1, end)
        } else {
            raw_from(s, bs, i + 1, end)
        }
    }
}

/// The pieces of `s` cut at its block breaks.
pub open spec fn raw_blocks(s: Seq<char>) -> Seq<Seq<char>> {
    raw_from(s, break_spans_from(s, 0), 0, 0)
}

/// Consecutive pieces from `ss[i..]` gathered, after `cur`, until a block has at
/// least `min` bytes; the last piece closes the last block.
pub open spec fn combine_from(ss: Seq<Seq<char>>, min: int, i: int, cur: Seq<char>) -> Seq<Seq<char>>
    decreases ss.len() - i,
{
    if i < 0 || i >= ss.len() {
        seq![]
    } else {
        let c = cur + ss[i];
        if (utf8_len(c) >= min || i == ss.len() - 1) && c.len() > 0 {
            seq![c] + combine_from(ss, min, i + 1, seq![])
        } else {
            combine_from(ss, min, i + 1, c)
        }
    }
}

/// The reading blocks of a buffer's text, each of at least `min` bytes but
/// perhaps the last.
pub open spec fn text_blocks(text: Seq<char>, min: int) -> Seq<Seq<char>> {
    combine_from(raw_blocks(sanitized(text)), min, 0, seq![])
}

/// Each block with its highlight offsets: from the byte length of the blocks
/// before it, to there plus its own byte length and the byte length of its
/// trailing whitespace.
pub open spec fn offsets_from(bs: Seq<Seq<char>>, i: int, off: int) -> Seq<(Seq<char>, int, int)>
    decreases bs.len() - i,
{
    if i < 0 || i >= bs.len() {
        seq![]
    } else {
        let b = bs[i];
        let len = utf8_len(b);
        let te = len - utf8_len(trim_end(b));
        seq![(b, off, off + len + te)] + offsets_from(bs, i + 1, off + len)
    }
}

/// A reading block as its text and its highlight offsets.
pub open spec fn read_block_view(r: ReadBlock) -> (Seq<char>, int, int) {
    (r.block@, r.start_offset as int, r.end_offset as int)
}

pub proof fn lemma_concat_prepend(x: Seq<char>, ss: Seq<Seq<char>>)
    ensures
        concat(seq![x] + ss) == x + concat(ss),
    decreases ss.len(),
{
    if ss.len() == 0 {
        assert(seq![x] + ss =~= seq![x]);
        assert(seq![x].drop_last() =~= Seq::<Seq<char>>::empty());
        assert(concat(seq![x]) == concat(seq![x].drop_last()) + x);
        assert(x + concat(ss) =~= x);
        assert(concat(Seq::<Seq<char>>::empty()) + x =~= x);
    } else {
        assert((seq![x] + ss).drop_last() =~= seq![x] + ss.drop_last());
        assert((seq![x] + ss).last() == ss.last());
        lemma_concat_prepend(x, ss.drop_last());
        assert(x + concat(ss.drop_last()) + ss.last() =~= x + (concat(ss.drop_last()) + ss.last()));
    }
}

pub proof fn lemma_concat_push(ss: Seq<Seq<char>>, x: Seq<char>)
    ensures
        concat(ss.push(x)) == concat(ss) + x,
{
    assert(ss.push(x).drop_last() =~= ss);
}

pub proof fn lemma_concat_skip(ss: Seq<Seq<char>>, i: int)
    requires
        0 <= i < ss.len(),
    ensures
        concat(ss.skip(i)) == ss[i] + concat(ss.skip(i + 1)),
{
    assert(ss.skip(i) =~= seq![ss[i]] + ss.skip(i + 1));
    lemma_concat_prepend(ss[i], ss.skip(i + 1));
}

/// The spans of block breaks are in order, do not overlap, and lie in the text.
pub proof fn lemma_break_spans(s: Seq<char>, p: int)
    requires
        0 <= p <= s.len(),
    ensures
        forall|k: int|
            0 <= k < break_spans_from(s, p).len() ==> p <= (#[trigger] break_spans_from(s, p)[k]).0
                < break_spans_from(s, p)[k].1 <= s.len(),
        forall|k: int, l: int|
            0 <= k < l < break_spans_from(s, p).len() ==> (#[trigger] break_spans_from(s, p)[k]).1
                <= (#[trigger] break_spans_from(s, p)[l]).0,
    decreases s.len() - p,
{
    if p < s.len() {
        if break_at(s, p) {
            let q = first_from(s, p + 1, |c: char| !is_ws(c));
            lemma_first_from_bounds(s, p + 1, |c: char| !is_ws(c));
            lemma_break_spans(s, q + 1);
            let rest = break_spans_from(s, q + 1);
            let all = break_spans_from(s, p);
            assert(all == seq![(p, q + 1)] + rest);
            assert forall|k: int| 0 <= k < all.len() implies p <= (#[trigger] all[k]).0 < all[k].1
                <= s.len() by {
                if k > 0 {
                    assert(all[k] == rest[k - 1]);
                }
            }
            assert forall|k: int, l: int| 0 <= k < l < all.len() implies (#[trigger] all[k]).1
                <= (#[trigger] all[l]).0 by {
                assert(all[l] == rest[l - 1]);
                if k > 0 {
                    assert(all[k] == rest[k - 1]);
                }
            }
        } else {
            lemma_break_spans(s, p + 1);
            assert(break_spans_from(s, p) == break_spans_from(s, p + 1));
        }
    } else {
        assert(break_spans_from(s, p).len() == 0);
    }
}

/// The pieces cut at the breaks concatenate back to the text from `start` on.
pub proof fn lemma_raw_concat(s: Seq<char>, bs: Seq<(int, int)>, i: int, start: int)
    requires
        0 <= i <= bs.len(),
        0 <= start <= s.len(),
        forall|k: int| i <= k < bs.len() ==> start <= (#[trigger] bs[k]).0 < bs[k].1 <= s.len(),
        forall|k: int, l: int| i <= k < l < bs.len() ==> (#[trigger] bs[k]).1 <= (#[trigger] bs[l]).0,
    ensures
        concat(raw_from(s, bs, i, start)) == s.skip(start),
        forall|k: int|
            0 <= k < raw_from(s, bs, i, start).len() ==> (#[trigger] raw_from(s, bs, i, start)[k]).len()
                > 0,
    decreases bs.len() - i,
{
    if i >= bs.len() {
        if start < s.len() {
            assert(seq![s.subrange(start, s.len() as int)] =~= Seq::<Seq<char>>::empty().push(
                s.subrange(start, s.len() as int),
            ));
            lemma_concat_push(Seq::<Seq<char>>::empty(), s.subrange(start, s.len() as int));
            assert(Seq::<char>::empty() + s.subrange(start, s.len() as int) =~= s.skip(start));
        } else {
            assert(s.skip(start) =~= Seq::<char>::empty());
        }
    } else {
        let end = bs[i].0 + 1;
        assert forall|k: int| i + 1 <= k < bs.len() implies end <= (#[trigger] bs[k]).0 < bs[k].1
            <= s.len() by {
            assert(bs[i].1 <= bs[k].0);
        }
        lemma_raw_concat(s, bs, i + 1, end);
        let rest = raw_from(s, bs, i + 1, end);
        let b = s.subrange(start, end);
        if b.len() > 0 {
            lemma_concat_prepend(b, rest);
            assert(b + s.skip(end) =~= s.skip(start));
            let all = raw_from(s, bs, i, start);
            assert(all == seq![b] + rest);
            assert forall|k: int| 0 <= k < all.len() implies (#[trigger] all[k]).len() > 0 by {
                if k > 0 {
                    assert(all[k] == rest[k - 1]);
                }
            }
        } else {
            assert(s.skip(end) =~= s.skip(start));
        }
    }
}

/// Gathering pieces into blocks keeps their concatenation.
pub proof fn lemma_combine_concat(ss: Seq<Seq<char>>, min: int, i: int, cur: Seq<char>)
    requires
        0 <= i <= ss.len(),
        i < ss.len() || cur.len() == 0,
    ensures
        concat(combine_from(ss, min, i, cur)) == cur + concat(ss.skip(i)),
    decreases ss.len() - i,
{
    if i >= ss.len() {
        assert(ss.skip(i) =~= Seq::<Seq<char>>::empty());
        assert(cur + concat(ss.skip(i)) =~= Seq::<char>::empty());
    } else {
        let c = cur + ss[i];
        lemma_concat_skip(ss, i);
        if (utf8_len(c) >= min || i == ss.len() - 1) && c.len() > 0 {
            lemma_combine_concat(ss, min, i + 1, seq![]);
            lemma_concat_prepend(c, combine_from(ss, min, i + 1, seq![]));
            assert(c + (Seq::<char>::empty() + concat(ss.skip(i + 1))) =~= cur + concat(ss.skip(i)));
        } else {
            lemma_combine_concat(ss, min, i + 1, c);
            assert(c + concat(ss.skip(i + 1)) =~= cur + concat(ss.skip(i)));
        }
    }
}

/// The reading blocks of a text concatenate back to the text (with double quotes
/// turned into single quotes): no character is lost, repeated or moved.
pub proof fn blocks_cover_text(text: Seq<char>, min: int)
    ensures
        concat(text_blocks(text, min)) == sanitized(text),
{
    let s = sanitized(text);
    lemma_break_spans(s, 0);
    lemma_raw_concat(s, break_spans_from(s, 0), 0, 0);
    let raw = raw_blocks(s);
    if raw.len() == 0 {
        assert(combine_from(raw, min, 0, seq![]) =~= Seq::<Seq<char>>::empty());
        assert(s.skip(0) =~= s);
    } else {
        lemma_combine_concat(raw, min, 0, seq![]);
        assert(raw.skip(0) =~= raw);
        assert(s.skip(0) =~= s);
        assert(Seq::<char>::empty() + concat(raw) =~= concat(raw));
    }
}

pub proof fn lemma_concat_split(bs: Seq<Seq<char>>, k: int)
    requires
        0 <= k <= bs.len(),
    ensures
        concat(bs) == concat(bs.take(k)) + concat(bs.skip(k)),
    decreases bs.len(),
{
    if k == bs.len() {
        assert(bs.take(k) =~= bs);
        assert(bs.skip(k) =~= Seq::<Seq<char>>::empty());
        assert(concat(bs) + Seq::<char>::empty() =~= concat(bs));
    } else {
        let d = bs.drop_last();
        assert(bs.take(k) =~= d.take(k));
        lemma_concat_split(d, k);
        assert(bs.skip(k) =~= d.skip(k).push(bs.last()));
        lemma_concat_push(d.skip(k), bs.last());
        assert(concat(d.take(k)) + concat(d.skip(k)) + bs.last() =~= concat(d.take(k)) + (concat(
            d.skip(k),
        ) + bs.last()));
    }
}

proof fn lemma_offsets_at(bs: Seq<Seq<char>>, i: int, off: int, k: int)
    requires
        0 <= i,
        0 <= k < bs.len() - i,
    ensures
        offsets_from(bs, i, off).len() == bs.len() - i,
        offsets_from(bs, i, off)[k].0 == bs[i + k],
        offsets_from(bs, i, off)[k].1 == off + utf8_len(concat(bs.subrange(i, i + k))),
    decreases k,
{
    let b = bs[i];
    let len = utf8_len(b);
    lemma_offsets_len(bs, i + 1, off + len);
    if k == 0 {
        assert(bs.subrange(i, i) =~= Seq::<Seq<char>>::empty());
    } else {
        lemma_offsets_at(bs, i + 1, off + len, k - 1);
        assert(bs.subrange(i, i + k) =~= seq![b] + bs.subrange(i + 1, i + k));
        lemma_concat_prepend(b, bs.subrange(i + 1, i + k));
        crate::chars::lemma_utf8_len_append(b, concat(bs.subrange(i + 1, i + k)));
    }
}

proof fn lemma_offsets_len(bs: Seq<Seq<char>>, i: int, off: int)
    requires
        0 <= i,
    ensures
        offsets_from(bs, i, off).len() == if i < bs.len() { bs.len() - i } else { 0 },
    decreases bs.len() - i,
{
    if i < bs.len() {
        lemma_offsets_len(bs, i + 1, off + utf8_len(bs[i]));
    }
}

/// The highlighting of each reading block starts at the byte where that block
/// begins in the text that is read, and the block is the text from there on.
pub proof fn highlight_starts_at_block(text: Seq<char>, min: int, k: int)
    requires
        0 <= k < text_blocks(text, min).len(),
    ensures
        offsets_from(text_blocks(text, min), 0, 0)[k].0 == text_blocks(text, min)[k],
        offsets_from(text_blocks(text, min), 0, 0)[k].1 == utf8_len(concat(text_blocks(text, min).take(k))),
        sanitized(text) == concat(text_blocks(text, min).take(k)) + text_blocks(text, min)[k] + concat(
            text_blocks(text, min).skip(k + 1),
        ),
{
    let bs = text_blocks(text, min);
    lemma_offsets_at(bs, 0, 0, k);
    assert(bs.subrange(0, k) =~= bs.take(k));
    blocks_cover_text(text, min);
    lemma_concat_split(bs, k);
    lemma_concat_skip(bs, k);
    assert(concat(bs.take(k)) + (bs[k] + concat(bs.skip(k + 1))) =~= concat(bs.take(k)) + bs[k] + concat(bs.skip(k + 1)));
}

pub proof fn lemma_sanitized_len(t: Seq<char>)
    ensures
        utf8_len(sanitized(t)) == utf8_len(t),
        sanitized(t).len() == t.len(),
    decreases t.len(),
{
    if t.len() > 0 {
        assert(sanitized(t).drop_last() =~= sanitized(t.drop_last()));
        lemma_sanitized_len(t.drop_last());
    }
}

/// `v` with every double quote turned into a single quote.
fn sanitize(v: &Vec<char>) -> (r: Vec<char>)
    ensures
        r@ == sanitized(v@),
{
    let mut r: Vec<char> = Vec::new();
    let mut i: usize = 0;
    while i < v.len()
        invariant
            i <= v.len(),
            r@ == sanitized(v@.take(i as int)),
        decreases v.len() - i,
    {
        let c = if v[i] == '"' {
            '\''
        } else {
            v[i]
        };
        r.push(c);
        proof {
            assert(sanitized(v@.take(i + 1)) =~= sanitized(v@.take(i as int)).push(c));
        }
        i = i + 1;
    }
    proof {
        assert(v@.take(v.len() as int) =~= v@);
    }
    r
}

/// The text of a document buffer as it is handed to speech: double quotes
/// become single quotes.
pub fn sanitize_text(text: &str) -> (r: String)
    ensures
        r@ == sanitized(text@),
{
    let v = to_chars(text);
    let s = sanitize(&v);
    let n = s.len();
    let r = string_of(&s, 0, n);
    proof {
        assert(s@.subrange(0, n as int) =~= s@);
    }
    r
}

/// Gathers consecutive strings into blocks of at least `min_length` bytes; the
/// last string closes the last block.
pub fn combine_strings(strings: Vec<String>, min_length: usize) -> (r: Vec<String>)
    ensures
        str_views(r@) == combine_from(str_views(strings@), min_length as int, 0, seq![]),
{
    let ghost ss = str_views(strings@);
    let mut result: Vec<String> = Vec::new();
    let mut current = String::new();
    let mut cur_bytes: usize = 0;
    let mut i: usize = 0;
    let n = strings.len();
    while i < n
        invariant
            i <= n == strings.len() == ss.len(),
            ss == str_views(strings@),
            cur_bytes == if utf8_len(current@) <= usize::MAX { utf8_len(current@) as usize } else { usize::MAX },
            str_views(result@) + combine_from(ss, min_length as int, i as int, current@)
                == combine_from(ss, min_length as int, 0, seq![]),
        decreases n - i,
    {
        let piece = &strings[i];
        assert(piece@ == ss[i as int]);
        let pc = to_chars(piece.as_str());
        let mut added: usize = 0;
        let mut j: usize = 0;
        while j < pc.len()
            invariant
                j <= pc.len(),
                added == if utf8_len(pc@.take(j as int)) <= usize::MAX { utf8_len(pc@.take(j as int)) as usize } else { usize::MAX },
            decreases pc.len() - j,
        {
            proof {
                assert(pc@.take(j + 1) =~= pc@.take(j as int).push(pc@[j as int]));
                lemma_utf8_len_push(pc@.take(j as int), pc@[j as int]);
            }
            added = added.saturating_add(width_of(pc[j]));
            j = j + 1;
        }
        proof {
            assert(pc@.take(pc.len() as int) =~= pc@);
            lemma_utf8_len_append(current@, piece@);
        }
        let ghost old_cur = current@;
        current.append(piece.as_str());
        cur_bytes = cur_bytes.saturating_add(added);
        let cl = current.as_str().unicode_len();
        if (cur_bytes >= min_length || i == n - 1) && cl > 0 {
            proof {
                assert(current@ == old_cur + ss[i as int]);
                lemma_str_views_push(result@, current);
                assert(str_views(result@.push(current)) + combine_from(ss, min_length as int, i + 1, seq![])
                    =~= str_views(result@) + combine_from(ss, min_length as int, i as int, old_cur));
            }
            result.push(current);
            current = String::new();
            cur_bytes = 0;
        }
        i = i + 1;
    }
    proof {
        assert(str_views(result@) + combine_from(ss, min_length as int, i as int, current@) =~= str_views(result@));
    }
    result
}

/// Maps the byte offsets where block breaks start to character indices.
fn break_indices(s: &Vec<char>, found: &Vec<(usize, String)>, Ghost(bs): Ghost<Seq<(int, int)>>) -> (r: Vec<usize>)
    requires
        found.len() == bs.len(),
        forall|k: int| 0 <= k < bs.len() ==> 0 <= (#[trigger] bs[k]).0 < bs[k].1 <= s.len(),
        forall|k: int, l: int| 0 <= k < l < bs.len() ==> (#[trigger] bs[k]).1 <= (#[trigger] bs[l]).0,
        forall|k: int| 0 <= k < bs.len() ==> (#[trigger] found@[k]).0 == utf8_len(s@.take(bs[k].0)),
    ensures
        r.len() == bs.len(),
        forall|k: int| 0 <= k < bs.len() ==> (#[trigger] r@[k]) == bs[k].0,
{
    let mut r: Vec<usize> = Vec::new();
    let mut ci: usize = 0;
    let mut bo: usize = 0;
    let mut k: usize = 0;
    while k < found.len()
        invariant
            k <= found.len() == bs.len(),
            forall|a: int| 0 <= a < bs.len() ==> 0 <= (#[trigger] bs[a]).0 < bs[a].1 <= s.len(),
            forall|a: int, b: int| 0 <= a < b < bs.len() ==> (#[trigger] bs[a]).1 <= (#[trigger] bs[b]).0,
            forall|a: int| 0 <= a < bs.len() ==> (#[trigger] found@[a]).0 == utf8_len(s@.take(bs[a].0)),
            r.len() == k,
            forall|a: int| 0 <= a < k ==> (#[trigger] r@[a]) == bs[a].0,
            ci <= s.len(),
            bo == utf8_len(s@.take(ci as int)),
            k < bs.len() ==> ci <= bs[k as int].0,
        decreases found.len() - k,
    {
        let target = found[k].0;
        let ghost t = bs[k as int].0;
        while bo < target
            invariant
                ci <= t < s.len(),
                bo == utf8_len(s@.take(ci as int)),
                target == utf8_len(s@.take(t)),
            decreases t - ci,
        {
            proof {
                if ci == t {
                    assert(false);
                }
                assert(s@.take(ci + 1) =~= s@.take(ci as int).push(s@[ci as int]));
                lemma_utf8_len_push(s@.take(ci as int), s@[ci as int]);
                lemma_prefix_bytes_monotone(s@, ci + 1, t);
            }
            bo = bo + width_of(s[ci]);
            ci = ci + 1;
        }
        proof {
            if ci < t {
                lemma_prefix_bytes_monotone(s@, ci + 1, t);
                assert(s@.take(ci + 1) =~= s@.take(ci as int).push(s@[ci as int]));
                lemma_utf8_len_push(s@.take(ci as int), s@[ci as int]);
            }
        }
        assert(ci == t);
        r.push(ci);
        k = k + 1;
        proof {
            if k < bs.len() {
                assert(bs[k - 1].1 <= bs[k as int].0);
            }
        }
    }
    r
}

pub proof fn lemma_prefix_bytes_monotone(s: Seq<char>, a: int, b: int)
    requires
        0 <= a <= b <= s.len(),
    ensures
        utf8_len(s.take(a)) <= utf8_len(s.take(b)),
        utf8_len(s.take(b)) <= utf8_len(s),
{
    assert(s.take(b) =~= s.take(a) + s.subrange(a, b));
    lemma_utf8_len_append(s.take(a), s.subrange(a, b));
    assert(s =~= s.take(b) + s.skip(b));
    lemma_utf8_len_append(s.take(b), s.skip(b));
}

/// Splits the text of a document buffer into reading blocks: cut after each
/// terminator followed by whitespace and a capital letter, then gathered into
/// blocks of at least `min_block_len` bytes.
pub fn split_text_into_block(text: &str, min_block_len: i32) -> (r: Vec<String>)
    ensures
        str_views(r@) == text_blocks(text@, min_block_len as usize as int),
{
    let v = to_chars(text);
    let s = sanitize(&v);
    let n = s.len();
    let st = string_of(&s, 0, n);
    proof {
        assert(s@.subrange(0, n as int) =~= s@);
        reveal_strlit("[^.!?]*?[.!?]+");
        reveal_strlit("([.!?])(\\s+[A-Z])");
        assert(BLOCK_BREAK_PATTERN@.len() != SENTENCE_PATTERN@.len());
    }
    let found = find_matches(BLOCK_BREAK_PATTERN, st.as_str());
    let ghost bs = break_spans_from(s@, 0);
    proof {
        lemma_break_spans(s@, 0);
        assert(match_spans(BLOCK_BREAK_PATTERN@, s@) == bs);
        assert forall|k: int| 0 <= k < bs.len() implies (#[trigger] found@[k]).0 == utf8_len(s@.take(bs[k].0)) by {
            assert(match_spans(BLOCK_BREAK_PATTERN@, st@)[k] == bs[k]);
        }
    }
    let starts = break_indices(&s, &found, Ghost(bs));
    let mut raw: Vec<String> = Vec::new();
    let mut start: usize = 0;
    let mut k: usize = 0;
    while k < starts.len()
        invariant
            k <= starts.len() == bs.len(),
            n == s.len(),
            bs == break_spans_from(s@, 0),
            forall|a: int| 0 <= a < bs.len() ==> 0 <= (#[trigger] bs[a]).0 < bs[a].1 <= s.len(),
            forall|a: int, b: int| 0 <= a < b < bs.len() ==> (#[trigger] bs[a]).1 <= (#[trigger] bs[b]).0,
            forall|a: int| 0 <= a < bs.len() ==> (#[trigger] starts@[a]) == bs[a].0,
            start <= n,
            k < bs.len() ==> start <= bs[k as int].0,
            str_views(raw@) + raw_from(s@, bs, k as int, start as int) == raw_from(s@, bs, 0, 0),
        decreases starts.len() - k,
    {
        let end = starts[k] + 1;
        if end > start {
            let b = string_of(&s, start, end);
            proof {
                lemma_str_views_push(raw@, b);
                assert(str_views(raw@.push(b)) + raw_from(s@, bs, k + 1, end as int) =~= str_views(raw@)
                    + raw_from(s@, bs, k as int, start as int));
            }
            raw.push(b);
        } else {
            proof {
                assert(s@.subrange(start as int, end as int).len() == 0);
            }
        }
        start = end;
        k = k + 1;
        proof {
            if k < bs.len() {
                assert(bs[k - 1].1 <= bs[k as int].0);
            }
        }
    }
    if start < n {
        let b = string_of(&s, start, n);
        proof {
            lemma_str_views_push(raw@, b);
        }
        raw.push(b);
    }
    proof {
        assert(str_views(raw@) =~= raw_blocks(s@));
    }
    let min = #[verifier::truncate] (min_block_len as usize);
    combine_strings(raw, min)
}

/// The index before the trailing whitespace of `v`.
fn trim_end_index(v: &Vec<char>) -> (b: usize)
    ensures
        b <= v.len(),
        v@.take(b as int) == trim_end(v@),
{
    let mut b: usize = v.len();
    while b > 0 && crate::chars::is_whitespace(v[b - 1])
        invariant
            b <= v.len(),
            forall|i: int| b <= i < v.len() ==> is_ws(#[trigger] v@[i]),
        decreases b,
    {
        b = b - 1;
    }
    proof {
        crate::chars::lemma_trim_end_at(v@, b as int);
    }
    b
}

/// The reading blocks of the text of a document buffer, each with the byte
/// offsets at which its highlighting starts and ends.
pub fn convert_blocks_into_reading_block(text: &str, min_block_len: i32) -> (r: Vec<ReadBlock>)
    requires
        2 * utf8_len(text@) <= i32::MAX,
    ensures
        r@.map_values(|b: ReadBlock| read_block_view(b)) == offsets_from(
            text_blocks(text@, min_block_len as usize as int),
            0,
            0,
        ),
{
    let blocks = split_text_into_block(text, min_block_len);
    let ghost bs = text_blocks(text@, min_block_len as usize as int);
    proof {
        blocks_cover_text(text@, min_block_len as usize as int);
        lemma_sanitized_len(text@);
    }
    let mut out: Vec<ReadBlock> = Vec::new();
    let mut off: i32 = 0;
    let mut k: usize = 0;
    while k < blocks.len()
        invariant
            k <= blocks.len() == bs.len(),
            bs == str_views(blocks@),
            concat(bs) == sanitized(text@),
            utf8_len(sanitized(text@)) == utf8_len(text@),
            2 * utf8_len(text@) <= i32::MAX,
            off == utf8_len(concat(bs.take(k as int))),
            out@.map_values(|b: ReadBlock| read_block_view(b)) + offsets_from(bs, k as int, off as int)
                == offsets_from(bs, 0, 0),
        decreases blocks.len() - k,
    {
        let b = &blocks[k];
        let bc = to_chars(b.as_str());
        assert(bc@ == bs[k as int]);
        proof {
            assert(bs.take(k + 1).drop_last() =~= bs.take(k as int));
            assert(bs.take(k + 1).last() == bs[k as int]);
            lemma_concat_split(bs, k + 1);
            lemma_utf8_len_append(concat(bs.take(k + 1)), concat(bs.skip(k + 1)));
            lemma_utf8_len_append(concat(bs.take(k as int)), bs[k as int]);
            lemma_utf8_len_ge_len(bc@);
        }
        let len = utf8_len_of(&bc, 0, bc.len());
        let e = trim_end_index(&bc);
        let te = utf8_len_of(&bc, e, bc.len());
        proof {
            assert(bc@.subrange(0, bc.len() as int) =~= bc@);
            assert(bc@ =~= bc@.take(e as int) + bc@.subrange(e as int, bc.len() as int));
            lemma_utf8_len_append(bc@.take(e as int), bc@.subrange(e as int, bc.len() as int));
        }
        let rb = ReadBlock {
            block: b.clone(),
            start_offset: off,
            end_offset: off + len as i32 + te as i32,
        };
        proof {
            assert(read_block_view(rb) == (bs[k as int], off as int,
                off + utf8_len(bs[k as int]) + (utf8_len(bs[k as int]) - utf8_len(trim_end(bs[k as int])))));
            assert(offsets_from(bs, k as int, off as int) == seq![read_block_view(rb)] + offsets_from(bs, k + 1, off + len));
            assert(out@.push(rb).map_values(|b: ReadBlock| read_block_view(b)) =~= out@.map_values(|b: ReadBlock| read_block_view(b)).push(read_block_view(rb)));
            assert(out@.map_values(|b: ReadBlock| read_block_view(b)).push(read_block_view(rb)) + offsets_from(bs, k + 1, off + len)
                =~= out@.map_values(|b: ReadBlock| read_block_view(b)) + offsets_from(bs, k as int, off as int));
        }
        out.push(rb);
        off = off + len as i32;
        k = k + 1;
    }
    proof {
        assert(out@.map_values(|b: ReadBlock| read_block_view(b)) + offsets_from(bs, k as int, off as int)
            =~= out@.map_values(|b: ReadBlock| read_block_view(b)));
    }
    out
}

} // verus!
