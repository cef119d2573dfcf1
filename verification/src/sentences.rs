//! Splitting text into the sentence-sized segments that are spoken one at a time.
use vstd::prelude::*;
use crate::chars::{
    append_chars, lemma_str_views_add, lemma_str_views_push, str_views, sub_vec,
    first_from, lemma_utf8_len_append, line_bounds, word_bounds, is_ws, join, lemma_first_from_bounds, lemma_utf8_len_ge_len, lemma_utf8_len_push,
    lines, string_of, to_chars, trim, trim_bounds, utf8_len, utf8_len_of, width_of, words,
};
use crate::patterns::{find_matches, is_term, lemma_run_end, match_spans, run_end, sentence_spans_from, SENTENCE_PATTERN};

verus! {

/// Segments shorter than this many bytes are dropped.
pub const MIN_SENTENCE_LENGTH: usize = 10;

/// Sentences longer than this many bytes are split at commas.
pub const MAX_LINE_LENGTH: usize = 200;

/// A long sentence is split at a comma only this many bytes after the last split.
pub const MIN_SPLIT_POSITION: usize = 60;

/// Lines without terminators are cut into chunks of about this many bytes.
pub const CHUNK_LENGTH: usize = 100;

/// The texts of the matches of `SENTENCE_PATTERN` in `s[p..]`.
pub open spec fn pieces_from(s: Seq<char>, p: int) -> Seq<Seq<char>> {
    sentence_spans_from(s, p).map_values(|sp: (int, int)| s.subrange(sp.0, sp.1))
}

/// The texts of the matches of `SENTENCE_PATTERN` in `s`, in order.
pub open spec fn sentence_pieces(s: Seq<char>) -> Seq<Seq<char>> {
    pieces_from(s, 0)
}

/// The comma-separated segments of `s[start..]`, scanning from index `i`: a comma at
/// least `MIN_SPLIT_POSITION` bytes after `start` ends a segment when the trimmed
/// segment has at least `MIN_SENTENCE_LENGTH` bytes; what follows the last split
/// is kept when it is long enough.
pub open spec fn comma_segments(s: Seq<char>, start: int, i: int) -> Seq<Seq<char>>
    decreases s.len() - i,
{
    if i < 0 || start < 0 || start > i || i >= s.len() {
        let rem = trim(s.subrange(start, s.len() as int));
        if utf8_len(rem) >= MIN_SENTENCE_LENGTH {
            seq![rem]
        } else {
            seq![]
        }
    } else if s[i] == ',' && utf8_len(s.take(i)) >= utf8_len(s.take(start)) + MIN_SPLIT_POSITION
        && utf8_len(trim(s.subrange(start, i + 1))) >= MIN_SENTENCE_LENGTH {
        seq![trim(s.subrange(start, i + 1))] + comma_segments(s, i + 1, i + 1)
    } else {
        comma_segments(s, start, i + 1)
    }
}

/// A sentence too long to speak at once, split at commas; kept whole when no
/// split applies.
pub open spec fn split_at_commas(s: Seq<char>) -> Seq<Seq<char>> {
    let segs = comma_segments(s, 0, 0);
    if segs.len() == 0 {
        seq![s]
    } else {
        segs
    }
}

/// What one regex match contributes: nothing when it is short, itself when it is
/// of moderate length, its comma segments when it is long.
pub open spec fn keep_sentence(m: Seq<char>) -> Seq<Seq<char>> {
    let t = trim(m);
    if utf8_len(t) >= MIN_SENTENCE_LENGTH {
        if utf8_len(t) > MAX_LINE_LENGTH {
            split_at_commas(t)
        } else {
            seq![t]
        }
    } else {
        seq![]
    }
}

/// The contributions of all the matches, in order.
pub open spec fn keep_all(ms: Seq<Seq<char>>) -> Seq<Seq<char>>
    decreases ms.len(),
{
    if ms.len() == 0 {
        seq![]
    } else {
        keep_all(ms.drop_last()) + keep_sentence(ms.last())
    }
}

/// The total number of characters in `ms`.
pub open spec fn total_len(ms: Seq<Seq<char>>) -> int
    decreases ms.len(),
{
    if ms.len() == 0 {
        0
    } else {
        total_len(ms.drop_last()) + ms.last().len()
    }
}

/// Words gathered greedily into chunks of at most about `CHUNK_LENGTH` bytes,
/// starting from word `i` with the chunk `cur` under way.
pub open spec fn chunks_from(ws: Seq<Seq<char>>, i: int, cur: Seq<char>) -> Seq<Seq<char>>
    decreases ws.len() - i,
{
    if i < 0 || i >= ws.len() {
        if trim(cur).len() > 0 {
            seq![trim(cur)]
        } else {
            seq![]
        }
    } else if utf8_len(cur) + utf8_len(ws[i]) + 1 > CHUNK_LENGTH && cur.len() > 0 {
        seq![trim(cur)] + chunks_from(ws, i + 1, ws[i])
    } else if cur.len() > 0 {
        chunks_from(ws, i + 1, cur + seq![' '] + ws[i])
    } else {
        chunks_from(ws, i + 1, ws[i])
    }
}

/// The segments of one trimmed, non-empty line.
pub open spec fn line_segments(line: Seq<char>) -> Seq<Seq<char>> {
    let ms = sentence_pieces(line);
    if ms.len() > 1 {
        let rem = trim(line.skip(total_len(ms)));
        if rem.len() > 0 && utf8_len(rem) >= MIN_SENTENCE_LENGTH {
            keep_all(ms).push(rem)
        } else {
            keep_all(ms)
        }
    } else if ms.len() == 1 {
        keep_all(ms)
    } else if utf8_len(line) < MIN_SENTENCE_LENGTH {
        seq![]
    } else if utf8_len(line) <= MAX_LINE_LENGTH {
        seq![line]
    } else {
        chunks_from(words(line), 0, seq![])
    }
}

/// The segments of lines `ls[i..]`, empty lines skipped.
pub open spec fn segments_from(ls: Seq<Seq<char>>, i: int) -> Seq<Seq<char>>
    decreases ls.len() - i,
{
    if i < 0 || i >= ls.len() {
        seq![]
    } else if trim(ls[i]).len() == 0 {
        segments_from(ls, i + 1)
    } else {
        line_segments(trim(ls[i])) + segments_from(ls, i + 1)
    }
}

/// The trimmed lines that are not empty.
pub open spec fn trimmed_nonempty(ls: Seq<Seq<char>>) -> Seq<Seq<char>>
    decreases ls.len(),
{
    if ls.len() == 0 {
        seq![]
    } else if trim(ls.last()).len() == 0 {
        trimmed_nonempty(ls.drop_last())
    } else {
        trimmed_nonempty(ls.drop_last()).push(trim(ls.last()))
    }
}

/// The segments that `split_text_into_sentences` returns for `text`. When no line
/// gives a segment, the non-empty lines are joined with spaces into one segment.
pub open spec fn sentences_of(text: Seq<char>) -> Seq<Seq<char>> {
    if trim(text).len() == 0 {
        seq![]
    } else {
        let segs = segments_from(lines(text), 0);
        if segs.len() > 0 {
            segs
        } else {
            let n = join(trimmed_nonempty(lines(text)), seq![' ']);
            if n.len() > 0 {
                seq![n]
            } else {
                seq![]
            }
        }
    }
}

pub proof fn lemma_pieces_bounds(s: Seq<char>, p: int)
    requires
        0 <= p <= s.len(),
    ensures
        p + total_len(pieces_from(s, p)) <= s.len(),
        forall|k: int|
            0 <= k < pieces_from(s, p).len() ==> (#[trigger] pieces_from(s, p)[k]).len() <= s.len(),
    decreases s.len() - p,
{
    if p < s.len() {
        let q = first_from(s, p, |c: char| is_term(c));
        lemma_first_from_bounds(s, p, |c: char| is_term(c));
        if q < s.len() {
            lemma_run_end(s, q);
            let e = run_end(s, q);
            lemma_pieces_bounds(s, e);
            let rest = pieces_from(s, e);
            let all = pieces_from(s, p);
            assert(sentence_spans_from(s, p) == seq![(p, e)] + sentence_spans_from(s, e));
            assert(all =~= seq![s.subrange(p, e)] + rest);
            lemma_total_len_prepend(s.subrange(p, e), rest);
            assert forall|k: int| 0 <= k < all.len() implies (#[trigger] all[k]).len() <= s.len() by {
                if k > 0 {
                    assert(all[k] == rest[k - 1]);
                }
            }
        } else {
            assert(pieces_from(s, p) =~= Seq::<Seq<char>>::empty());
        }
    } else {
        assert(pieces_from(s, p) =~= Seq::<Seq<char>>::empty());
    }
}

pub proof fn lemma_total_len_prepend(x: Seq<char>, ms: Seq<Seq<char>>)
    ensures
        total_len(seq![x] + ms) == x.len() + total_len(ms),
    decreases ms.len(),
{
    if ms.len() == 0 {
        assert(seq![x] + ms =~= seq![x]);
        assert(seq![x].drop_last() =~= Seq::<Seq<char>>::empty());
        assert(total_len(seq![x]) == total_len(seq![x].drop_last()) + x.len());
    } else {
        assert((seq![x] + ms).drop_last() =~= seq![x] + ms.drop_last());
        assert((seq![x] + ms).last() == ms.last());
        lemma_total_len_prepend(x, ms.drop_last());
    }
}

pub proof fn lemma_join_push(parts: Seq<Seq<char>>, x: Seq<char>, sep: Seq<char>)
    ensures
        join(parts.push(x), sep) == if parts.len() == 0 {
            x
        } else {
            join(parts, sep) + sep + x
        },
{
    assert(parts.push(x).drop_last() =~= parts);
    if parts.len() == 0 {
        assert(parts.push(x)[0] == x);
    }
}

/// Splits a sentence longer than `MAX_LINE_LENGTH` bytes at commas.
pub fn split_long_sentence_at_commas(sentence: &str) -> (r: Vec<String>)
    requires
        sentence@.len() <= usize::MAX / 4,
    ensures
        str_views(r@) == split_at_commas(sentence@),
{
    let s = to_chars(sentence);
    split_chars_at_commas(&s)
}

fn split_chars_at_commas(s: &Vec<char>) -> (r: Vec<String>)
    requires
        s.len() <= usize::MAX / 4,
    ensures
        str_views(r@) == split_at_commas(s@),
{
    let n = s.len();
    let mut segs: Vec<String> = Vec::new();
    let mut start: usize = 0;
    let mut start_bytes: usize = 0;
    let mut pos_bytes: usize = 0;
    let mut i: usize = 0;
    while i < n
        invariant
            n == s.len() <= usize::MAX / 4,
            start <= i <= n,
            start_bytes == utf8_len(s@.take(start as int)),
            pos_bytes == utf8_len(s@.take(i as int)),
            start_bytes <= pos_bytes <= 4 * i,
            str_views(segs@) + comma_segments(s@, start as int, i as int) == comma_segments(
                s@,
                0,
                0,
            ),
        decreases n - i,
    {
        proof {
            assert(s@.take(i + 1) =~= s@.take(i as int).push(s@[i as int]));
            lemma_utf8_len_push(s@.take(i as int), s@[i as int]);
            lemma_utf8_len_ge_len(s@.take(i + 1));
            lemma_utf8_len_ge_len(s@.take(i as int));
        }
        let w = width_of(s[i]);
        let mut split = false;
        if s[i] == ',' && pos_bytes >= MIN_SPLIT_POSITION && pos_bytes - MIN_SPLIT_POSITION >= start_bytes {
            let (a, b) = trim_bounds(s, start, i + 1);
            let tl = utf8_len_of(s, a, b);
            if tl >= MIN_SENTENCE_LENGTH {
                let seg = string_of(s, a, b);
                proof {
                    lemma_str_views_push(segs@, seg);
                    assert(comma_segments(s@, start as int, i as int) == seq![trim(s@.subrange(start as int, i + 1))]
                        + comma_segments(s@, i + 1, i + 1));
                    assert(str_views(segs@.push(seg)) + comma_segments(s@, i + 1, i + 1) =~= str_views(segs@)
                        + comma_segments(s@, start as int, i as int));
                }
                segs.push(seg);
                split = true;
            }
        }
        pos_bytes = pos_bytes + w;
        i = i + 1;
        if split {
            start = i;
            start_bytes = pos_bytes;
        }
    }
    proof {
        assert(comma_segments(s@, start as int, n as int) == {
            let rem = trim(s@.subrange(start as int, n as int));
            if utf8_len(rem) >= MIN_SENTENCE_LENGTH {
                seq![rem]
            } else {
                seq![]
            }
        });
    }
    let (a, b) = trim_bounds(s, start, n);
    let tl = utf8_len_of(s, a, b);
    if tl >= MIN_SENTENCE_LENGTH {
        let seg = string_of(s, a, b);
        proof {
            lemma_str_views_push(segs@, seg);
        }
        segs.push(seg);
    }
    proof {
        assert(str_views(segs@) =~= comma_segments(s@, 0, 0));
    }
    if segs.len() == 0 {
        let whole = string_of(s, 0, n);
        proof {
            assert(s@.subrange(0, n as int) =~= s@);
            lemma_str_views_push(segs@, whole);
        }
        segs.push(whole);
        proof {
            assert(str_views(segs@) =~= seq![s@]);
        }
    }
    segs
}

proof fn lemma_total_len_take(ms: Seq<Seq<char>>, k: int)
    requires
        0 <= k <= ms.len(),
    ensures
        total_len(ms.take(k)) <= total_len(ms),
    decreases ms.len(),
{
    if k < ms.len() {
        assert(ms.take(k) =~= ms.drop_last().take(k));
        lemma_total_len_take(ms.drop_last(), k);
    } else {
        assert(ms.take(k) =~= ms);
    }
}

/// What one regex match contributes to the segments.
fn keep_match(m: &String) -> (r: Vec<String>)
    requires
        m@.len() <= usize::MAX / 4,
    ensures
        str_views(r@) == keep_sentence(m@),
{
    let c = to_chars(m.as_str());
    let n = c.len();
    let (a, b) = trim_bounds(&c, 0, n);
    proof {
        assert(c@.subrange(0, n as int) =~= c@);
    }
    let tl = utf8_len_of(&c, a, b);
    let mut r: Vec<String> = Vec::new();
    if tl >= MIN_SENTENCE_LENGTH {
        if tl > MAX_LINE_LENGTH {
            let t = sub_vec(&c, a, b);
            r = split_chars_at_commas(&t);
        } else {
            let t = string_of(&c, a, b);
            r.push(t);
            proof {
                assert(str_views(r@) =~= seq![t@]);
            }
        }
    } else {
        proof {
            assert(str_views(r@) =~= Seq::<Seq<char>>::empty());
        }
    }
    r
}

/// Gathers the words of a long line without terminators into chunks.
fn chunk_words(line: &Vec<char>) -> (r: Vec<String>)
    requires
        line.len() <= usize::MAX / 4,
    ensures
        str_views(r@) == chunks_from(words(line@), 0, seq![]),
{
    let wb = word_bounds(line);
    let ghost ws = words(line@);
    let mut out: Vec<String> = Vec::new();
    let mut cur: Vec<char> = Vec::new();
    let mut cur_bytes: usize = 0;
    let mut k: usize = 0;
    while k < wb.len()
        invariant
            k <= wb.len() == ws.len(),
            ws == words(line@),
            line.len() <= usize::MAX / 4,
            forall|j: int| 0 <= j < wb.len() ==> #[trigger] wb@[j].0 <= wb@[j].1 <= line.len(),
            forall|j: int|
                0 <= j < wb.len() ==> line@.subrange(wb@[j].0 as int, wb@[j].1 as int) == #[trigger] ws[j],
            cur_bytes == utf8_len(cur@),
            cur_bytes <= CHUNK_LENGTH || cur_bytes <= 4 * line.len(),
            str_views(out@) + chunks_from(ws, k as int, cur@) == chunks_from(ws, 0, seq![]),
        decreases wb.len() - k,
    {
        let (a, b) = wb[k];
        assert(line@.subrange(a as int, b as int) == ws[k as int]);
        proof {
            lemma_utf8_len_ge_len(line@.subrange(a as int, b as int));
        }
        let wl = utf8_len_of(line, a, b);
        let over = if cur_bytes >= CHUNK_LENGTH {
            true
        } else {
            wl + 1 > CHUNK_LENGTH - cur_bytes
        };
        assert(over == (utf8_len(cur@) + utf8_len(ws[k as int]) + 1 > CHUNK_LENGTH));
        if over && cur.len() > 0 {
            let ghost old_cur = cur@;
            let n = cur.len();
            let (x, y) = trim_bounds(&cur, 0, n);
            proof {
                assert(cur@.subrange(0, n as int) =~= cur@);
            }
            let t = string_of(&cur, x, y);
            proof {
                lemma_str_views_push(out@, t);
                assert(chunks_from(ws, k as int, old_cur) == seq![trim(old_cur)] + chunks_from(ws, k + 1, ws[k as int]));
                assert(str_views(out@.push(t)) + chunks_from(ws, k + 1, ws[k as int]) =~= str_views(out@) + chunks_from(ws, k as int, old_cur));
            }
            out.push(t);
            cur = sub_vec(line, a, b);
            cur_bytes = wl;
        } else if cur.len() > 0 {
            let ghost old_cur = cur@;
            cur.push(' ');
            append_chars(&mut cur, line, a, b);
            proof {
                assert(cur@ =~= old_cur + seq![' '] + ws[k as int]);
                lemma_utf8_len_append(old_cur + seq![' '], ws[k as int]);
                lemma_utf8_len_push(old_cur, ' ');
                assert(old_cur + seq![' '] =~= old_cur.push(' '));
            }
            cur_bytes = cur_bytes + 1 + wl;
        } else {
            assert(cur@ =~= Seq::<char>::empty());
            cur = sub_vec(line, a, b);
            cur_bytes = wl;
        }
        k = k + 1;
    }
    let n = cur.len();
    let (x, y) = trim_bounds(&cur, 0, n);
    proof {
        assert(cur@.subrange(0, n as int) =~= cur@);
    }
    if y > x {
        let t = string_of(&cur, x, y);
        proof {
            lemma_str_views_push(out@, t);
        }
        out.push(t);
    }
    proof {
        assert(str_views(out@) =~= chunks_from(ws, 0, seq![]));
    }
    out
}

/// The segments of one trimmed, non-empty line.
fn segments_of_line(line: &Vec<char>) -> (r: Vec<String>)
    requires
        line.len() <= usize::MAX / 4,
    ensures
        str_views(r@) == line_segments(line@),
{
    let n = line.len();
    let ls = string_of(line, 0, n);
    proof {
        assert(line@.subrange(0, n as int) =~= line@);
    }
    let found = find_matches(SENTENCE_PATTERN, ls.as_str());
    let mut ms: Vec<String> = Vec::new();
    let mut j: usize = 0;
    while j < found.len()
        invariant
            j <= found.len() == match_spans(SENTENCE_PATTERN@, line@).len(),
            ls@ == line@,
            ms.len() == j,
            forall|i: int| 0 <= i < found.len() ==> {
                let sp = #[trigger] match_spans(SENTENCE_PATTERN@, ls@)[i];
                found@[i].1@ == ls@.subrange(sp.0, sp.1)
            },
            forall|i: int| 0 <= i < j ==> (#[trigger] ms@[i])@ == sentence_pieces(line@)[i],
        decreases found.len() - j,
    {
        let m = found[j].1.clone();
        assert(m@ == sentence_pieces(line@)[j as int]);
        ms.push(m);
        j = j + 1;
    }
    let ghost mv = str_views(ms@);
    assert(mv =~= sentence_pieces(line@));
    proof {
        lemma_pieces_bounds(line@, 0);
    }
    let mut out: Vec<String> = Vec::new();
    if ms.len() >= 1 {
        let mut total: usize = 0;
        let mut k: usize = 0;
        while k < ms.len()
            invariant
                k <= ms.len(),
                n == line.len() <= usize::MAX / 4,
                mv == str_views(ms@),
                mv == sentence_pieces(line@),
                total_len(mv) <= n,
                forall|j: int| 0 <= j < mv.len() ==> (#[trigger] mv[j]).len() <= n,
                total == total_len(mv.take(k as int)),
                str_views(out@) == keep_all(mv.take(k as int)),
            decreases ms.len() - k,
        {
            let m = &ms[k];
            assert(m@ == mv[k as int]);
            let part = keep_match(m);
            proof {
                assert(mv.take(k + 1).drop_last() =~= mv.take(k as int));
                assert(mv.take(k + 1).last() == mv[k as int]);
                lemma_str_views_add(out@, part@);
                lemma_total_len_take(mv, k + 1);
            }
            let mut part = part;
            out.append(&mut part);
            total = total + m.as_str().unicode_len();
            k = k + 1;
        }
        proof {
            assert(mv.take(ms.len() as int) =~= mv);
        }
        if ms.len() > 1 {
            let (a, b) = trim_bounds(line, total, n);
            proof {
                assert(line@.subrange(total as int, n as int) =~= line@.skip(total as int));
                lemma_utf8_len_ge_len(line@.subrange(a as int, b as int));
            }
            if b > a {
                let rl = utf8_len_of(line, a, b);
                if rl >= MIN_SENTENCE_LENGTH {
                    let t = string_of(line, a, b);
                    proof {
                        lemma_str_views_push(out@, t);
                    }
                    out.push(t);
                }
            }
        }
    } else {
        let tl = utf8_len_of(line, 0, n);
        if tl < MIN_SENTENCE_LENGTH {
        } else if tl <= MAX_LINE_LENGTH {
            let t = string_of(line, 0, n);
            out.push(t);
            proof {
                assert(str_views(out@) =~= seq![line@]);
            }
        } else {
            out = chunk_words(line);
        }
    }
    out
}

/// Splits text into segments to be spoken one at a time: the sentences of each
/// line, long sentences cut at commas, lines without terminators cut into
/// chunks, and fragments shorter than `MIN_SENTENCE_LENGTH` bytes dropped.
pub fn split_text_into_sentences(text: &str) -> (r: Vec<String>)
    requires
        text@.len() <= usize::MAX / 4,
    ensures
        str_views(r@) == sentences_of(text@),
{
    let v = to_chars(text);
    let n = v.len();
    let (a, b) = trim_bounds(&v, 0, n);
    proof {
        assert(v@.subrange(0, n as int) =~= v@);
    }
    let mut out: Vec<String> = Vec::new();
    if a == b {
        proof {
            assert(str_views(out@) =~= Seq::<Seq<char>>::empty());
        }
        return out;
    }
    let lb = line_bounds(&v);
    let ghost ls = lines(v@);
    let mut k: usize = 0;
    while k < lb.len()
        invariant
            k <= lb.len() == ls.len(),
            ls == lines(v@),
            n == v.len() <= usize::MAX / 4,
            forall|j: int| 0 <= j < lb.len() ==> #[trigger] lb@[j].0 <= lb@[j].1 <= v.len(),
            forall|j: int|
                0 <= j < lb.len() ==> v@.subrange(lb@[j].0 as int, lb@[j].1 as int) == #[trigger] ls[j],
            str_views(out@) + segments_from(ls, k as int) == segments_from(ls, 0),
        decreases lb.len() - k,
    {
        let (x, y) = lb[k];
        assert(v@.subrange(x as int, y as int) == ls[k as int]);
        let (p, q) = trim_bounds(&v, x, y);
        if p < q {
            let line = sub_vec(&v, p, q);
            let segs = segments_of_line(&line);
            proof {
                lemma_str_views_add(out@, segs@);
                assert(str_views(out@ + segs@) + segments_from(ls, k + 1) =~= str_views(out@) + segments_from(ls, k as int));
            }
            let mut segs = segs;
            out.append(&mut segs);
        }
        k = k + 1;
    }
    proof {
        assert(str_views(out@) + segments_from(ls, k as int) =~= str_views(out@));
    }
    if out.len() > 0 {
        return out;
    }
    let mut acc: Vec<char> = Vec::new();
    let mut any = false;
    assert(forall|j: int| 0 <= j < lb.len() ==> #[trigger] lb@[j].0 <= lb@[j].1 <= v.len());
    k = 0;
    while k < lb.len()
        invariant
            k <= lb.len() == ls.len(),
            ls == lines(v@),
            forall|j: int| 0 <= j < lb.len() ==> #[trigger] lb@[j].0 <= lb@[j].1 <= v.len(),
            forall|j: int|
                0 <= j < lb.len() ==> v@.subrange(lb@[j].0 as int, lb@[j].1 as int) == #[trigger] ls[j],
            any == (trimmed_nonempty(ls.take(k as int)).len() > 0),
            acc@ == join(trimmed_nonempty(ls.take(k as int)), seq![' ']),
            out@.len() == 0,
        decreases lb.len() - k,
    {
        let (x, y) = lb[k];
        assert(v@.subrange(x as int, y as int) == ls[k as int]);
        let (p, q) = trim_bounds(&v, x, y);
        proof {
            assert(ls.take(k + 1).drop_last() =~= ls.take(k as int));
            assert(ls.take(k + 1).last() == ls[k as int]);
        }
        if p < q {
            let ghost parts = trimmed_nonempty(ls.take(k as int));
            let ghost old_acc = acc@;
            proof {
                lemma_join_push(parts, v@.subrange(p as int, q as int), seq![' ']);
            }
            if any {
                acc.push(' ');
            }
            append_chars(&mut acc, &v, p, q);
            any = true;
            proof {
                if parts.len() == 0 {
                    assert(acc@ =~= v@.subrange(p as int, q as int));
                } else {
                    assert(acc@ =~= old_acc + seq![' '] + v@.subrange(p as int, q as int));
                }
            }
        }
        k = k + 1;
    }
    proof {
        assert(ls.take(lb.len() as int) =~= ls);
    }
    let m = acc.len();
    if m > 0 {
        let t = string_of(&acc, 0, m);
        proof {
            assert(acc@.subrange(0, m as int) =~= acc@);
        }
        out.push(t);
        proof {
            assert(str_views(out@) =~= seq![acc@]);
        }
    } else {
        proof {
            assert(str_views(out@) =~= Seq::<Seq<char>>::empty());
        }
    }
    out
}

} // verus!
