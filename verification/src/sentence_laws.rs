//! What holds of every segment that text is split into for speaking.
use vstd::prelude::*;
use crate::chars::{
    first_from, is_trimmed_text, is_ws, join, lemma_first_from_bounds, lemma_trim_end_keeps,
    lemma_trim_shape, lemma_trim_start_at, lemma_trimmed_fixed, lemma_trim_end_take, lines, trim,
    trim_end, trim_start, utf8_len, words, words_from,
};
use crate::sentences::{
    chunks_from, comma_segments, keep_all, keep_sentence, line_segments, pieces_from, segments_from, sentence_pieces,
    sentences_of, split_at_commas, total_len, trimmed_nonempty, MIN_SENTENCE_LENGTH, MIN_SPLIT_POSITION,
};
use crate::patterns::{is_term, lemma_run_end, run_end, sentence_spans_from};

verus! {

/// Whether every text of `ss` is non-empty and without whitespace at either end.
pub open spec fn all_trimmed(ss: Seq<Seq<char>>) -> bool {
    forall|k: int| 0 <= k < ss.len() ==> is_trimmed_text(#[trigger] ss[k])
}

proof fn lemma_all_trimmed_add(a: Seq<Seq<char>>, b: Seq<Seq<char>>)
    requires
        all_trimmed(a),
        all_trimmed(b),
    ensures
        all_trimmed(a + b),
{
    assert forall|k: int| 0 <= k < (a + b).len() implies is_trimmed_text(#[trigger] (a + b)[k]) by {
        if k < a.len() {
            assert((a + b)[k] == a[k]);
        } else {
            assert((a + b)[k] == b[k - a.len()]);
        }
    }
}

proof fn lemma_utf8_positive(x: Seq<char>)
    requires
        utf8_len(x) > 0,
    ensures
        x.len() > 0,
{
}

/// A trimmed text with at least one byte is non-empty and trimmed.
proof fn lemma_trim_long(x: Seq<char>)
    requires
        utf8_len(trim(x)) > 0,
    ensures
        is_trimmed_text(trim(x)),
{
    lemma_utf8_positive(trim(x));
    lemma_trim_shape(x);
}

proof fn lemma_comma_segments_trimmed(s: Seq<char>, start: int, i: int)
    ensures
        all_trimmed(comma_segments(s, start, i)),
    decreases s.len() - i,
{
    if i < 0 || start < 0 || start > i || i >= s.len() {
        let rem = trim(s.subrange(start, s.len() as int));
        if utf8_len(rem) >= MIN_SENTENCE_LENGTH {
            lemma_trim_long(s.subrange(start, s.len() as int));
        }
    } else if s[i] == ',' && utf8_len(s.take(i)) >= utf8_len(s.take(start)) + MIN_SPLIT_POSITION
        && utf8_len(trim(s.subrange(start, i + 1))) >= MIN_SENTENCE_LENGTH {
        lemma_trim_long(s.subrange(start, i + 1));
        lemma_comma_segments_trimmed(s, i + 1, i + 1);
        lemma_all_trimmed_add(seq![trim(s.subrange(start, i + 1))], comma_segments(s, i + 1, i + 1));
    } else {
        lemma_comma_segments_trimmed(s, start, i + 1);
    }
}

proof fn lemma_keep_sentence_trimmed(m: Seq<char>)
    ensures
        all_trimmed(keep_sentence(m)),
{
    let t = trim(m);
    if utf8_len(t) >= MIN_SENTENCE_LENGTH {
        lemma_trim_long(m);
        lemma_comma_segments_trimmed(t, 0, 0);
    }
}

proof fn lemma_keep_all_trimmed(ms: Seq<Seq<char>>)
    ensures
        all_trimmed(keep_all(ms)),
    decreases ms.len(),
{
    if ms.len() > 0 {
        lemma_keep_all_trimmed(ms.drop_last());
        lemma_keep_sentence_trimmed(ms.last());
        lemma_all_trimmed_add(keep_all(ms.drop_last()), keep_sentence(ms.last()));
    }
}

/// Each word starts with a character that is not whitespace.
proof fn lemma_words_start(s: Seq<char>, i: int)
    ensures
        forall|k: int| 0 <= k < words_from(s, i).len() ==> (#[trigger] words_from(s, i)[k]).len() > 0
            && !is_ws(words_from(s, i)[k][0]),
    decreases s.len() - i,
{
    if 0 <= i < s.len() {
        if is_ws(s[i]) {
            lemma_words_start(s, i + 1);
            assert(words_from(s, i) == words_from(s, i + 1));
        } else {
            let ws = |c: char| is_ws(c);
            lemma_first_from_bounds(s, i, ws);
            let j = first_from(s, i, ws);
            lemma_words_start(s, j);
            let all = words_from(s, i);
            let rest = words_from(s, j);
            assert(all == seq![s.subrange(i, j)] + rest);
            assert(j > i) by {
                if j == i {
                    assert(ws(s[i]));
                }
            }
            assert forall|k: int| 0 <= k < all.len() implies (#[trigger] all[k]).len() > 0 && !is_ws(all[k][0]) by {
                if k == 0 {
                    assert(all[0][0] == s[i]);
                } else {
                    assert(all[k] == rest[k - 1]);
                }
            }
        }
    }
}

/// A text that starts with a character that is not whitespace trims to a
/// non-empty, trimmed text.
proof fn lemma_trim_from_word(cur: Seq<char>)
    requires
        cur.len() > 0,
        !is_ws(cur[0]),
    ensures
        is_trimmed_text(trim(cur)),
{
    lemma_trim_start_at(cur, 0);
    assert(cur.skip(0) =~= cur);
    lemma_trim_end_keeps(cur, 1);
    lemma_trim_shape(cur);
}

proof fn lemma_chunks_trimmed(ws: Seq<Seq<char>>, i: int, cur: Seq<char>)
    requires
        forall|k: int| 0 <= k < ws.len() ==> (#[trigger] ws[k]).len() > 0 && !is_ws(ws[k][0]),
        cur.len() == 0 || !is_ws(cur[0]),
    ensures
        all_trimmed(chunks_from(ws, i, cur)),
    decreases ws.len() - i,
{
    if i < 0 || i >= ws.len() {
        if trim(cur).len() > 0 {
            lemma_trim_shape(cur);
        }
    } else {
        assert(ws[i].len() > 0 && !is_ws(ws[i][0]));
        if crate::chars::utf8_len(cur) + crate::chars::utf8_len(ws[i]) + 1 > crate::sentences::CHUNK_LENGTH
            && cur.len() > 0 {
            lemma_trim_from_word(cur);
            lemma_chunks_trimmed(ws, i + 1, ws[i]);
            lemma_all_trimmed_add(seq![trim(cur)], chunks_from(ws, i + 1, ws[i]));
        } else if cur.len() > 0 {
            let next = cur + seq![' '] + ws[i];
            assert(next[0] == cur[0]);
            lemma_chunks_trimmed(ws, i + 1, next);
        } else {
            lemma_chunks_trimmed(ws, i + 1, ws[i]);
        }
    }
}

proof fn lemma_line_segments_trimmed(line: Seq<char>)
    requires
        is_trimmed_text(line),
    ensures
        all_trimmed(line_segments(line)),
{
    let ms = crate::sentences::sentence_pieces(line);
    lemma_keep_all_trimmed(ms);
    if ms.len() > 1 {
        let rem = trim(line.skip(crate::sentences::total_len(ms)));
        if rem.len() > 0 && utf8_len(rem) >= MIN_SENTENCE_LENGTH {
            lemma_trim_shape(line.skip(crate::sentences::total_len(ms)));
            lemma_all_trimmed_add(keep_all(ms), seq![rem]);
            assert(keep_all(ms).push(rem) =~= keep_all(ms) + seq![rem]);
        }
    } else if ms.len() == 0 && utf8_len(line) >= MIN_SENTENCE_LENGTH {
        if utf8_len(line) > crate::sentences::MAX_LINE_LENGTH {
            lemma_words_start(line, 0);
            lemma_chunks_trimmed(words(line), 0, seq![]);
        }
    }
}

proof fn lemma_segments_trimmed(ls: Seq<Seq<char>>, i: int)
    ensures
        all_trimmed(segments_from(ls, i)),
    decreases ls.len() - i,
{
    if 0 <= i < ls.len() {
        lemma_segments_trimmed(ls, i + 1);
        if trim(ls[i]).len() > 0 {
            lemma_trim_shape(ls[i]);
            lemma_line_segments_trimmed(trim(ls[i]));
            lemma_all_trimmed_add(line_segments(trim(ls[i])), segments_from(ls, i + 1));
        }
    }
}

proof fn lemma_trimmed_nonempty_lines(ls: Seq<Seq<char>>)
    ensures
        all_trimmed(trimmed_nonempty(ls)),
    decreases ls.len(),
{
    if ls.len() > 0 {
        lemma_trimmed_nonempty_lines(ls.drop_last());
        if trim(ls.last()).len() > 0 {
            lemma_trim_shape(ls.last());
            let a = trimmed_nonempty(ls.drop_last());
            assert(a.push(trim(ls.last())) =~= a + seq![trim(ls.last())]);
            lemma_all_trimmed_add(a, seq![trim(ls.last())]);
        }
    }
}

/// Trimmed parts joined with a space start with the first part's first
/// character and end with the last part's last character.
proof fn lemma_join_ends(parts: Seq<Seq<char>>)
    requires
        parts.len() > 0,
        all_trimmed(parts),
    ensures
        is_trimmed_text(join(parts, seq![' '])),
        join(parts, seq![' '])[0] == parts[0][0],
    decreases parts.len(),
{
    assert(is_trimmed_text(parts[0]));
    if parts.len() > 1 {
        let d = parts.drop_last();
        assert forall|k: int| 0 <= k < d.len() implies is_trimmed_text(#[trigger] d[k]) by {
            assert(d[k] == parts[k]);
        }
        lemma_join_ends(d);
        assert(is_trimmed_text(parts[parts.len() - 1]));
        let j = join(parts, seq![' ']);
        assert(j == join(d, seq![' ']) + seq![' '] + parts.last());
        assert(j[0] == join(d, seq![' '])[0]);
        assert(j.last() == parts.last().last());
    }
}

/// Every segment that text is split into for speaking is non-empty and has
/// no whitespace at either end.
pub proof fn spoken_segments_are_trimmed(text: Seq<char>)
    ensures
        all_trimmed(sentences_of(text)),
{
    if trim(text).len() > 0 {
        lemma_segments_trimmed(lines(text), 0);
        let segs = segments_from(lines(text), 0);
        if segs.len() == 0 {
            let parts = trimmed_nonempty(lines(text));
            lemma_trimmed_nonempty_lines(lines(text));
            let n = join(parts, seq![' ']);
            if n.len() > 0 {
                if parts.len() == 0 {
                    assert(n.len() == 0);
                }
                lemma_join_ends(parts);
            }
        }
    }
}

proof fn lemma_comma_segments_long(s: Seq<char>, start: int, i: int)
    ensures
        forall|k: int| 0 <= k < comma_segments(s, start, i).len() ==> utf8_len(
            #[trigger] comma_segments(s, start, i)[k],
        ) >= MIN_SENTENCE_LENGTH,
    decreases s.len() - i,
{
    if i < 0 || start < 0 || start > i || i >= s.len() {
        let rem = trim(s.subrange(start, s.len() as int));
        if utf8_len(rem) >= MIN_SENTENCE_LENGTH {
            assert(comma_segments(s, start, i) == seq![rem]);
        } else {
            assert(comma_segments(s, start, i).len() == 0);
        }
    } else if s[i] == ',' && utf8_len(s.take(i)) >= utf8_len(s.take(start)) + MIN_SPLIT_POSITION
        && utf8_len(trim(s.subrange(start, i + 1))) >= MIN_SENTENCE_LENGTH {
        lemma_comma_segments_long(s, i + 1, i + 1);
        let all = comma_segments(s, start, i);
        let rest = comma_segments(s, i + 1, i + 1);
        assert forall|k: int| 0 <= k < all.len() implies utf8_len(#[trigger] all[k]) >= MIN_SENTENCE_LENGTH by {
            if k > 0 {
                assert(all[k] == rest[k - 1]);
            }
        }
    } else {
        lemma_comma_segments_long(s, start, i + 1);
        assert(comma_segments(s, start, i) == comma_segments(s, start, i + 1));
    }
}

proof fn lemma_comma_first(s: Seq<char>, start: int, i: int) -> (c: int)
    requires
        0 <= start <= i,
        comma_segments(s, start, i).len() > 1,
    ensures
        i <= c < s.len(),
        s[c] == ',',
        utf8_len(s.take(c)) >= utf8_len(s.take(start)) + MIN_SPLIT_POSITION,
        comma_segments(s, start, i)[0] == trim(s.subrange(start, c + 1)),
    decreases s.len() - i,
{
    if i >= s.len() {
        assert(false);
        0
    } else if s[i] == ',' && utf8_len(s.take(i)) >= utf8_len(s.take(start)) + MIN_SPLIT_POSITION
        && utf8_len(trim(s.subrange(start, i + 1))) >= MIN_SENTENCE_LENGTH {
        i
    } else {
        lemma_comma_first(s, start, i + 1)
    }
}

/// A sentence split at its commas: each segment has at least
/// `MIN_SENTENCE_LENGTH` bytes unless the sentence is kept whole; when it is
/// split, the first segment ends with the comma it was cut at, and, for a
/// sentence that does not start with whitespace, has at least
/// `MIN_SPLIT_POSITION` bytes.
pub proof fn comma_split_segments(s: Seq<char>)
    ensures
        split_at_commas(s) == seq![s] || forall|k: int| 0 <= k < split_at_commas(s).len() ==> utf8_len(
            #[trigger] split_at_commas(s)[k],
        ) >= MIN_SENTENCE_LENGTH,
        split_at_commas(s).len() > 1 ==> split_at_commas(s)[0].last() == ',',
        split_at_commas(s).len() > 1 && s.len() > 0 && !is_ws(s[0]) ==> utf8_len(split_at_commas(s)[0])
            >= MIN_SPLIT_POSITION,
{
    lemma_comma_segments_long(s, 0, 0);
    let segs = comma_segments(s, 0, 0);
    if segs.len() > 1 {
        let c = lemma_comma_first(s, 0, 0);
        let sub = s.subrange(0, c + 1);
        let f = segs[0];
        assert(f == trim(sub));
        assert(utf8_len(f) >= MIN_SENTENCE_LENGTH);
        lemma_utf8_positive(f);
        assert(sub.last() == ',');
        let a = crate::chars::lemma_trim_start_skip(sub);
        let t = sub.skip(a);
        if a == sub.len() {
            assert(t.len() == 0);
            assert(trim_end(t) =~= t);
        }
        assert(t.last() == ',');
        assert(trim_end(t) == t);
        if s.len() > 0 && !is_ws(s[0]) {
            assert(sub[0] == s[0]);
            lemma_trim_start_at(sub, 0);
            assert(sub.skip(0) =~= sub);
            assert(f == sub);
            assert(sub =~= s.take(c).push(','));
            crate::chars::lemma_utf8_len_push(s.take(c), ',');
            assert(s.take(0) =~= Seq::<char>::empty());
        }
    }
}

/// The characters of a run of terminators are terminators.
proof fn lemma_run_end_terms(s: Seq<char>, i: int)
    requires
        0 <= i <= s.len(),
    ensures
        forall|k: int| i <= k < run_end(s, i) ==> is_term(#[trigger] s[k]),
    decreases s.len() - i,
{
    if i < s.len() && is_term(s[i]) {
        lemma_run_end_terms(s, i + 1);
    }
}

proof fn lemma_total_len_add(a: Seq<Seq<char>>, b: Seq<Seq<char>>)
    ensures
        total_len(a + b) == total_len(a) + total_len(b),
    decreases b.len(),
{
    if b.len() > 0 {
        assert((a + b).drop_last() =~= a + b.drop_last());
        lemma_total_len_add(a, b.drop_last());
    }
}

/// The sentence matches from `p` on cover the text from `p` to just after its
/// last terminator, and no terminator follows them.
proof fn lemma_sentence_matches_end(s: Seq<char>, p: int)
    requires
        0 <= p <= s.len(),
    ensures
        sentence_spans_from(s, p).len() == 0 ==> forall|k: int| p <= k < s.len() ==> !is_term(#[trigger] s[k]),
        sentence_spans_from(s, p).len() > 0 ==> {
            let e = sentence_spans_from(s, p).last().1;
            &&& p < e <= s.len()
            &&& is_term(s[e - 1])
            &&& forall|k: int| e <= k < s.len() ==> !is_term(#[trigger] s[k])
            &&& total_len(pieces_from(s, p)) == e - p
        },
    decreases s.len() - p,
{
    if p < s.len() {
        let f = |c: char| is_term(c);
        lemma_first_from_bounds(s, p, f);
        let q = first_from(s, p, f);
        if q < s.len() {
            lemma_run_end(s, q);
            lemma_run_end_terms(s, q);
            let r = run_end(s, q);
            lemma_sentence_matches_end(s, r);
            let rest = sentence_spans_from(s, r);
            assert(sentence_spans_from(s, p) == seq![(p, r)] + rest);
            let one = seq![s.subrange(p, r)];
            assert(pieces_from(s, p) =~= one + pieces_from(s, r));
            lemma_total_len_add(one, pieces_from(s, r));
            assert(one.drop_last() =~= Seq::<Seq<char>>::empty());
            assert(is_term(s[r - 1]));
            assert(total_len(one.drop_last()) == 0);
            assert(one.last().len() == r - p);
            assert(total_len(one) == r - p);
            if rest.len() == 0 {
                assert(pieces_from(s, r) =~= Seq::<Seq<char>>::empty());
                assert(total_len(pieces_from(s, r)) == 0);
                assert(sentence_spans_from(s, p).last() == (p, r));
                assert(total_len(pieces_from(s, p)) == r - p);
            } else {
                assert((seq![(p, r)] + rest).last() == rest.last());
                assert(sentence_spans_from(s, p).last() == rest.last());
                assert(total_len(pieces_from(s, p)) == rest.last().1 - p);
            }
        }
    }
}

/// No text of a line is lost: when a line holds two or more sentences and
/// text without a terminator follows the last of them, that text, trimmed, is
/// the line's last segment whenever it has at least `MIN_SENTENCE_LENGTH`
/// bytes.
pub proof fn unterminated_tail_is_last_segment(line: Seq<char>, lt: int)
    requires
        sentence_pieces(line).len() > 1,
        0 <= lt < line.len(),
        is_term(line[lt]),
        forall|k: int| lt < k < line.len() ==> !is_term(#[trigger] line[k]),
        utf8_len(trim(line.skip(lt + 1))) >= MIN_SENTENCE_LENGTH,
    ensures
        line_segments(line).len() > 0,
        line_segments(line).last() == trim(line.skip(lt + 1)),
{
    lemma_sentence_matches_end(line, 0);
    let sp = sentence_spans_from(line, 0);
    assert(sp.len() == sentence_pieces(line).len());
    let e = sp.last().1;
    if e - 1 < lt {
        assert(!is_term(line[lt]));
    }
    if e - 1 > lt {
        assert(!is_term(line[e - 1]));
    }
    assert(total_len(sentence_pieces(line)) == lt + 1);
    let rem = trim(line.skip(lt + 1));
    if rem.len() == 0 {
        assert(utf8_len(rem) == 0);
    }
}

} // verus!
