//! What the module configuration that Fox Reader writes for Speech Dispatcher
//! holds: a declaration of every voice, and the first voice as default.
use vstd::prelude::*;
use crate::chars::{
    first_from, is_newline, is_ws, join, lemma_first_from_at, lemma_first_from_bounds, lemma_trim_end_at,
    lemma_trim_is_subrange, lemma_trim_start_at, lines, lines_from, strip_cr, trim, words,
};
use crate::config_edits::{
    lemma_contains_in_subrange, lemma_first_line_with_at, lemma_lines_of_join, lemma_lines_shift, lemma_trimmed_pair,
    lemma_two_words, no_newline,
};
use crate::speechd::{add_voice_line, contains_text, default_voice_in, first_line_with, module_text, voice_gender};
use crate::voices::Voice;

verus! {

/// Whether `c` occurs in `s[i..]`.
spec fn holds_char(s: Seq<char>, c: char, i: int) -> bool
    decreases s.len() - i,
{
    if i < 0 || i >= s.len() {
        false
    } else if s[i] == c {
        true
    } else {
        holds_char(s, c, i + 1)
    }
}

proof fn lemma_holds_char(s: Seq<char>, c: char, i: int)
    requires
        0 <= i,
        !holds_char(s, c, i),
    ensures
        forall|j: int| i <= j < s.len() ==> s[j] != c,
    decreases s.len() - i,
{
    if i < s.len() {
        lemma_holds_char(s, c, i + 1);
    }
}

proof fn lemma_no_newline_add(a: Seq<char>, b: Seq<char>)
    requires
        no_newline(a),
        no_newline(b),
    ensures
        no_newline(a + b),
{
    assert forall|k: int| 0 <= k < (a + b).len() implies (a + b)[k] != '\n' by {
        if k < a.len() {
            assert((a + b)[k] == a[k]);
        } else {
            assert((a + b)[k] == b[k - a.len()]);
        }
    }
}

/// The lines of `s[p..]`, where `p` follows a newline, are lines of `s[i..]`
/// for any `i` before `p`.
proof fn lemma_lines_tail(s: Seq<char>, i: int, p: int)
    requires
        0 <= i <= p <= s.len(),
        0 < p,
        s[p - 1] == '\n',
    ensures
        forall|q: int| 0 <= q < lines_from(s, p).len() ==> lines_from(s, i).contains(#[trigger] lines_from(s, p)[q]),
    decreases p - i,
{
    let tail = lines_from(s, p);
    if i == p {
        assert forall|q: int| 0 <= q < tail.len() implies lines_from(s, i).contains(#[trigger] tail[q]) by {
            assert(lines_from(s, i)[q] == tail[q]);
        }
    } else {
        let nl = |c: char| is_newline(c);
        lemma_first_from_bounds(s, i, nl);
        let j = first_from(s, i, nl);
        assert(j <= p - 1) by {
            if j > p - 1 {
                assert(!nl(s[p - 1]));
            }
        }
        let all = lines_from(s, i);
        assert(all == seq![strip_cr(s.subrange(i, j))] + lines_from(s, j + 1));
        lemma_lines_tail(s, j + 1, p);
        assert forall|q: int| 0 <= q < tail.len() implies all.contains(#[trigger] tail[q]) by {
            let rest = lines_from(s, j + 1);
            assert(rest.contains(tail[q]));
            let m = choose|m: int| 0 <= m < rest.len() && rest[m] == tail[q];
            assert(all[m + 1] == rest[m]);
        }
    }
}

/// The literal parts of a voice declaration hold no newline.
proof fn lemma_declaration_parts()
    ensures
        no_newline("AddVoice \""@),
        no_newline("_"@),
        no_newline("\" \""@),
        no_newline("\""@),
        no_newline("male1"@),
        no_newline("female1"@),
{
    reveal_strlit("AddVoice \"");
    reveal_strlit("_");
    reveal_strlit("\" \"");
    reveal_strlit("\"");
    reveal_strlit("male1");
    reveal_strlit("female1");
    reveal_with_fuel(holds_char, 12);
    lemma_holds_char("AddVoice \""@, '\n', 0);
    lemma_holds_char("_"@, '\n', 0);
    lemma_holds_char("\" \""@, '\n', 0);
    lemma_holds_char("\""@, '\n', 0);
    lemma_holds_char("male1"@, '\n', 0);
    lemma_holds_char("female1"@, '\n', 0);
}

/// A voice declaration is one line that ends with a quote.
proof fn lemma_declaration_line(v: Voice)
    requires
        no_newline(v.key@),
        no_newline(v.language.code@),
    ensures
        no_newline(add_voice_line(v)),
        add_voice_line(v).len() > 0,
        add_voice_line(v).last() == '"',
{
    lemma_declaration_parts();
    let a = "AddVoice \""@ + v.language.code@;
    lemma_no_newline_add("AddVoice \""@, v.language.code@);
    let b = a + "_"@;
    lemma_no_newline_add(a, "_"@);
    let c = b + v.key@;
    lemma_no_newline_add(b, v.key@);
    let d = c + "\" \""@;
    lemma_no_newline_add(c, "\" \""@);
    let e = d + voice_gender(v.traits@);
    lemma_no_newline_add(d, voice_gender(v.traits@));
    let f = e + "\" \""@;
    lemma_no_newline_add(e, "\" \""@);
    let g = f + v.key@;
    lemma_no_newline_add(f, v.key@);
    lemma_no_newline_add(g, "\""@);
    reveal_strlit("\"");
    assert(add_voice_line(v) == g + "\""@);
}

/// Every voice of the module configuration is declared on a line of its own.
pub proof fn module_config_declares_voices(script: Seq<char>, rows: Seq<Voice>)
    requires
        rows.len() > 0,
        forall|k: int| 0 <= k < rows.len() ==> no_newline((#[trigger] rows[k]).key@) && no_newline(rows[k].language.code@),
    ensures
        forall|k: int| 0 <= k < rows.len() ==> lines(module_text(script, rows)).contains(add_voice_line(#[trigger] rows[k])),
{
    let ls = rows.map_values(|v: Voice| add_voice_line(v));
    assert forall|k: int| 0 <= k < ls.len() implies no_newline(#[trigger] ls[k]) by {
        lemma_declaration_line(rows[k]);
    }
    let body = join(ls, "\n"@);
    reveal_strlit("\"\n\n");
    let a = "\nGenericExecuteSynth \"export DATA='$DATA';export RATE='$RATE';export VOICE='$VOICE';"@ + script
        + "\"\nDefaultVoice \""@ + rows[0].key@ + "\"\n\n"@;
    let m = module_text(script, rows);
    assert(m == a + body);
    assert(a[a.len() - 1] == '\n');
    lemma_lines_shift(a, body, 0);
    assert(lines_from(a + body, a.len() as int) == lines(body));
    lemma_lines_tail(m, 0, a.len() as int);
    lemma_lines_of_join(ls);
    lemma_declaration_line(rows[rows.len() - 1]);
    assert(ls.last().len() > 0);
    assert forall|k: int| 0 <= k < rows.len() implies lines(m).contains(add_voice_line(#[trigger] rows[k])) by {
        lemma_declaration_line(rows[k]);
        let l = lines(body)[k];
        assert(l == strip_cr(ls[k]) || l == ls[k]);
        assert(strip_cr(ls[k]) == ls[k]);
        assert(lines_from(m, a.len() as int)[k] == add_voice_line(rows[k]));
    }
}

/// The lines of `s[i..]` up to the newline at `n` lie in `s[i..n]`; the rest
/// are the lines after it.
proof fn lemma_lines_split(s: Seq<char>, n: int, i: int) -> (p: Seq<Seq<char>>)
    requires
        0 <= i <= n < s.len(),
        s[n] == '\n',
    ensures
        lines_from(s, i) == p + lines_from(s, n + 1),
        forall|k: int| 0 <= k < p.len() ==> exists|a: int, b: int| i <= a <= b <= n && #[trigger] p[k] == s.subrange(a, b),
    decreases n - i,
{
    let nl = |c: char| is_newline(c);
    lemma_first_from_bounds(s, i, nl);
    let j = first_from(s, i, nl);
    assert(j <= n) by {
        if j > n {
            assert(!nl(s[n]));
        }
    }
    let raw = s.subrange(i, j);
    let l0 = strip_cr(raw);
    assert(l0 == s.subrange(i, j) || l0 == s.subrange(i, j - 1)) by {
        if raw.len() > 0 && raw.last() == '\r' {
            assert(raw.drop_last() =~= s.subrange(i, j - 1));
        }
    }
    assert(lines_from(s, i) == seq![l0] + lines_from(s, j + 1));
    if j == n {
        let p = seq![l0];
        assert forall|k: int| 0 <= k < p.len() implies exists|a: int, b: int| i <= a <= b <= n && #[trigger] p[k] == s.subrange(a, b) by {
            if l0 == s.subrange(i, j) {
                assert(p[k] == s.subrange(i, j));
            } else {
                assert(p[k] == s.subrange(i, j - 1));
            }
        }
        p
    } else {
        let p1 = lemma_lines_split(s, n, j + 1);
        let p = seq![l0] + p1;
        assert(seq![l0] + (p1 + lines_from(s, n + 1)) =~= p + lines_from(s, n + 1));
        assert forall|k: int| 0 <= k < p.len() implies exists|a: int, b: int| i <= a <= b <= n && #[trigger] p[k] == s.subrange(a, b) by {
            if k == 0 {
                if l0 == s.subrange(i, j) {
                    assert(p[0] == s.subrange(i, j));
                } else {
                    assert(p[0] == s.subrange(i, j - 1));
                }
            } else {
                assert(p[k] == p1[k - 1]);
                let (a, b) = choose|a: int, b: int| j + 1 <= a <= b <= n && #[trigger] p1[k - 1] == s.subrange(a, b);
            }
        }
        p
    }
}

/// A text without `DefaultVoice`, followed on a line of its own by
/// `DefaultVoice "<key>"`, names `"<key>"` as the default voice.
proof fn lemma_default_line(y: Seq<char>, key0: Seq<char>, rest: Seq<char>)
    requires
        !contains_text(y, "DefaultVoice"@),
        forall|i: int| 0 <= i < key0.len() ==> !is_ws(#[trigger] key0[i]),
        rest.len() == 0 || rest[0] == '\n',
    ensures
        default_voice_in(y + "\nDefaultVoice \""@ + key0 + "\""@ + rest) == Some("\""@ + key0 + "\""@),
{
    reveal_strlit("DefaultVoice");
    reveal_strlit("DefaultVoice \"");
    reveal_strlit("\"");
    reveal_strlit("\n");
    reveal_strlit("\nDefaultVoice \"");
    let key = "DefaultVoice"@;
    let v = "\""@ + key0 + "\""@;
    let d = key + seq![' '] + v;
    assert("DefaultVoice \""@ + key0 + "\""@ =~= d);
    let s = y + "\nDefaultVoice \""@ + key0 + "\""@ + rest;
    let n = y.len() as int;
    assert(s =~= (y + seq!['\n']) + (d + rest));
    assert(s[n] == '\n');
    let p = lemma_lines_split(s, n, 0);
    lemma_lines_shift(y + seq!['\n'], d + rest, 0);
    assert(lines_from(s, n + 1) == lines(d + rest));
    assert forall|i: int| 0 <= i < key.len() implies !is_ws(#[trigger] key[i]) by {}
    assert forall|i: int| 0 <= i < v.len() implies !is_ws(#[trigger] v[i]) by {
        if 0 < i < v.len() - 1 {
            assert(v[i] == key0[i - 1]);
        }
    }
    lemma_two_words(key, v);
    lemma_trimmed_pair(key, v);
    let nl = |c: char| is_newline(c);
    let dr = d + rest;
    assert forall|k: int| 0 <= k < d.len() implies !nl(#[trigger] dr[k]) by {
        assert(dr[k] == d[k]);
        if k < key.len() {
            assert(!is_ws(key[k]));
        } else if k > key.len() {
            assert(!is_ws(v[k - key.len() - 1]));
        }
    }
    lemma_first_from_at(dr, 0, d.len() as int, nl);
    assert(dr.subrange(0, d.len() as int) =~= d);
    assert(d.last() == '"');
    assert(lines(dr)[0] == d);
    let ls = lines(s);
    assert(ls == p + lines(dr));
    assert(ls[p.len() as int] == d);
    assert(contains_text(trim(d), key)) by {
        assert(d.subrange(0, 0 + key.len() as int) =~= key);
    }
    assert forall|j: int| 0 <= j < p.len() implies !contains_text(trim(#[trigger] ls[j]), key) by {
        assert(ls[j] == p[j]);
        let (a, b) = choose|a: int, b: int| 0 <= a <= b <= n && #[trigger] p[j] == s.subrange(a, b);
        assert(s.subrange(a, b) =~= y.subrange(a, b));
        lemma_trim_is_subrange(p[j]);
        let (lo, hi) = choose|lo: int, hi: int| 0 <= lo <= hi <= p[j].len() && trim(p[j]) == p[j].subrange(lo, hi);
        if contains_text(trim(p[j]), key) {
            assert(p[j].subrange(lo, hi) =~= y.subrange(a + lo, a + hi));
            lemma_contains_in_subrange(y, a + lo, a + hi, key);
        }
    }
    lemma_first_line_with_at(ls, key, 0, p.len() as int);
}

/// The head of the module configuration, up to the script path, does not hold
/// `DefaultVoice`, nor does any text made of it, a script path without it,
/// and a quote.
proof fn lemma_head_without_key(script: Seq<char>)
    requires
        !contains_text(script, "DefaultVoice"@),
    ensures
        !contains_text(
            "\nGenericExecuteSynth \"export DATA='$DATA';export RATE='$RATE';export VOICE='$VOICE';"@ + script + "\""@,
            "DefaultVoice"@,
        ),
{
    let h = "\nGenericExecuteSynth \"export DATA='$DATA';export RATE='$RATE';export VOICE='$VOICE';"@;
    let key = "DefaultVoice"@;
    reveal_strlit("\nGenericExecuteSynth \"export DATA='$DATA';export RATE='$RATE';export VOICE='$VOICE';");
    reveal_strlit("DefaultVoice");
    reveal_strlit("\"");
    reveal_with_fuel(holds_char, 100);
    assert(!holds_char(h, 'f', 0));
    lemma_holds_char(h, 'f', 0);
    assert(!holds_char(key, ';', 0));
    lemma_holds_char(key, ';', 0);
    let y = h + script + "\""@;
    let hl = h.len() as int;
    let sl = script.len() as int;
    assert(h[hl - 1] == ';');
    if contains_text(y, key) {
        let i = choose|i: int| 0 <= i && i + key.len() <= y.len() && #[trigger] y.subrange(i, i + key.len()) == key;
        let w = y.subrange(i, i + 12);
        if i + 12 <= hl {
            assert(w[2] == y[i + 2]);
            assert(y[i + 2] == h[i + 2]);
            assert(key[2] == 'f');
        } else if i < hl {
            assert(w[hl - 1 - i] == y[hl - 1]);
            assert(y[hl - 1] == h[hl - 1]);
            assert(key[hl - 1 - i] != ';');
        } else if i + 12 <= hl + sl {
            assert(script.subrange(i - hl, i - hl + 12) =~= w);
            assert(script.subrange(i - hl, i - hl + key.len()) == key);
        } else {
            assert(i + 12 == y.len());
            assert(w[11] == y[y.len() - 1]);
            assert(y[y.len() - 1] == '"');
            assert(key[11] == 'e');
        }
    }
}

proof fn lemma_declaration_ends_with_quote(v: Voice)
    ensures
        add_voice_line(v).len() > 0,
        add_voice_line(v).last() == '"',
{
    reveal_strlit("\"");
}

/// The module configuration names its first voice, in quotes, as the default
/// voice, both as composed and as written (trimmed); the first voice's key is
/// one word, and the script path does not hold `DefaultVoice`.
pub proof fn module_config_default_voice(script: Seq<char>, rows: Seq<Voice>)
    requires
        rows.len() > 0,
        forall|i: int| 0 <= i < rows[0].key@.len() ==> !is_ws(#[trigger] rows[0].key@[i]),
        !contains_text(script, "DefaultVoice"@),
    ensures
        default_voice_in(module_text(script, rows)) == Some("\""@ + rows[0].key@ + "\""@),
        default_voice_in(trim(module_text(script, rows))) == Some("\""@ + rows[0].key@ + "\""@),
{
    let h = "\nGenericExecuteSynth \"export DATA='$DATA';export RATE='$RATE';export VOICE='$VOICE';"@;
    let key0 = rows[0].key@;
    let ls = rows.map_values(|v: Voice| add_voice_line(v));
    let body = join(ls, "\n"@);
    reveal_strlit("\"\nDefaultVoice \"");
    reveal_strlit("\nDefaultVoice \"");
    reveal_strlit("\"");
    reveal_strlit("\"\n\n");
    reveal_strlit("\n\n");
    reveal_strlit("\n");
    let y = h + script + "\""@;
    let rest = "\n\n"@ + body;
    let m = module_text(script, rows);
    assert(m =~= y + "\nDefaultVoice \""@ + key0 + "\""@ + rest);
    lemma_head_without_key(script);
    lemma_default_line(y, key0, rest);
    // The written text drops the leading newline and nothing at its end.
    reveal_strlit("\nGenericExecuteSynth \"export DATA='$DATA';export RATE='$RATE';export VOICE='$VOICE';");
    assert(m[0] == '\n' && m[1] == 'G');
    lemma_declaration_ends_with_quote(rows[rows.len() - 1]);
    assert(body.len() > 0 && body.last() == '"') by {
        if ls.len() > 1 {
            assert(body == join(ls.drop_last(), "\n"@) + "\n"@ + ls.last());
        }
    }
    assert(m.last() == '"');
    let t = m.skip(1);
    assert forall|i: int| 0 <= i < 1 implies is_ws(#[trigger] m[i]) by {}
    lemma_trim_start_at(m, 1);
    assert(t.last() == '"');
    assert forall|i: int| t.len() <= i < t.len() implies is_ws(#[trigger] t[i]) by {}
    lemma_trim_end_at(t, t.len() as int);
    assert(t.take(t.len() as int) =~= t);
    assert(trim(m) == t);
    let y1 = y.skip(1);
    assert(!contains_text(y1, "DefaultVoice"@)) by {
        if contains_text(y1, "DefaultVoice"@) {
            assert(y1 =~= y.subrange(1, y.len() as int));
            lemma_contains_in_subrange(y, 1, y.len() as int, "DefaultVoice"@);
        }
    }
    assert(t =~= y1 + "\nDefaultVoice \""@ + key0 + "\""@ + rest);
    lemma_default_line(y1, key0, rest);
}

} // verus!
