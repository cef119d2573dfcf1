//! Markdown removed from a chat answer before it is spoken.
use vstd::prelude::*;
use crate::chars::{join, line_bounds, lines, strip_cr, string_of, to_chars};
use crate::config_edits::{lemma_lines_of_join, no_newline};
use crate::speechd::contains_text;
use crate::patterns::{
    hash_run, header_text, lacks_marks, match_marks, simple_header,
    markdown_pattern, replace_all, replace_first, replaced_all, replaced_first, ASTERISK_PATTERN,
    BLOCKQUOTE_PATTERN, BULLET_PATTERN, CODE_BLOCK_PATTERN, HEADER_PATTERN, INLINE_CODE_PATTERN,
    LINK_PATTERN, NEWLINES_PATTERN, NUMBERED_PATTERN, RULE_PATTERN, STRIKE_PATTERN,
    UNDERSCORE_PATTERN,
};

verus! {

/// What replaces a fenced code block.
pub const CODE_SNIPPET_NOTE: &'static str = "Code snippet available in chat.";

/// One line with a leading bullet, a leading number and a block-quote marker removed.
pub open spec fn strip_line(line: Seq<char>) -> Seq<char> {
    replaced_first(
        BLOCKQUOTE_PATTERN@,
        replaced_first(NUMBERED_PATTERN@, replaced_first(BULLET_PATTERN@, line, ""@), ""@),
        "$1"@,
    )
}

/// The text before the lines are stripped: code blocks noted, inline code,
/// headers and links reduced to their text, asterisks removed.
pub open spec fn before_lines(text: Seq<char>) -> Seq<char> {
    let r1 = replaced_all(CODE_BLOCK_PATTERN@, text, CODE_SNIPPET_NOTE@);
    let r2 = replaced_all(INLINE_CODE_PATTERN@, r1, "$1"@);
    let r3 = replaced_all(HEADER_PATTERN@, r2, "$1"@);
    let r4 = r3.filter(|c: char| c != '*');
    replaced_all(LINK_PATTERN@, r4, "$1"@)
}

/// The text to be spoken for a Markdown text.
pub open spec fn stripped(text: Seq<char>) -> Seq<char> {
    let r5 = before_lines(text);
    let r6 = join(lines(r5).map_values(|l: Seq<char>| strip_line(l)), "\n"@);
    let r7 = replaced_all(RULE_PATTERN@, r6, ""@);
    let r8 = r7.filter(|c: char| c != '_');
    let r9 = replaced_all(STRIKE_PATTERN@, r8, "$1"@);
    replaced_all(NEWLINES_PATTERN@, r9, "\n\n"@)
}

/// An ASCII letter, an ASCII digit or a space.
pub open spec fn plain_char(c: char) -> bool {
    ('a' <= c && c <= 'z') || ('A' <= c && c <= 'Z') || ('0' <= c && c <= '9') || c == ' '
}

/// Lines that are all Markdown headers (one to six `#`, a space, a heading)
/// whose headings are plain words: letters, digits and spaces.
pub open spec fn header_document(ls: Seq<Seq<char>>) -> bool {
    &&& ls.len() > 0
    &&& forall|k: int| 0 <= k < ls.len() ==> simple_header(#[trigger] ls[k])
    &&& forall|k: int, i: int| 0 <= k < ls.len() && 0 <= i < header_text(ls[k]).len() ==> plain_char(
        #[trigger] header_text(ls[k])[i],
    )
}

/// The headings of header lines, in order.
pub open spec fn headings(ls: Seq<Seq<char>>) -> Seq<Seq<char>> {
    ls.map_values(|l: Seq<char>| header_text(l))
}

/// A character of a header document: a line break, `#` or a plain character.
spec fn doc_char(c: char) -> bool {
    c == '\n' || c == '#' || plain_char(c)
}

proof fn lemma_hash_run(l: Seq<char>)
    ensures
        hash_run(l) <= l.len(),
        forall|i: int| 0 <= i < hash_run(l) ==> l[i] == '#',
    decreases l.len(),
{
    if l.len() > 0 && l[0] == '#' {
        lemma_hash_run(l.drop_first());
        assert forall|i: int| 0 <= i < hash_run(l) implies l[i] == '#' by {
            if i > 0 {
                assert(l[i] == l.drop_first()[i - 1]);
            }
        }
    }
}

/// The characters of parts joined by line breaks are line breaks or
/// characters of the parts.
proof fn lemma_join_chars(ls: Seq<Seq<char>>, p: spec_fn(char) -> bool)
    requires
        forall|k: int, i: int| 0 <= k < ls.len() && 0 <= i < ls[k].len() ==> p(#[trigger] ls[k][i]),
    ensures
        forall|i: int| 0 <= i < join(ls, seq!['\n']).len() ==> #[trigger] join(ls, seq!['\n'])[i] == '\n' || p(
            join(ls, seq!['\n'])[i],
        ),
    decreases ls.len(),
{
    if ls.len() == 1 {
        assert forall|i: int| 0 <= i < join(ls, seq!['\n']).len() implies #[trigger] join(ls, seq!['\n'])[i]
            == '\n' || p(join(ls, seq!['\n'])[i]) by {
            assert(p(ls[0][i]));
        }
    } else if ls.len() > 1 {
        let d = ls.drop_last();
        assert forall|k: int, i: int| 0 <= k < d.len() && 0 <= i < d[k].len() implies p(#[trigger] d[k][i]) by {
            assert(d[k] == ls[k]);
        }
        lemma_join_chars(d, p);
        let a = join(d, seq!['\n']);
        let j = join(ls, seq!['\n']);
        assert(j == a + seq!['\n'] + ls.last());
        assert forall|i: int| 0 <= i < j.len() implies #[trigger] j[i] == '\n' || p(j[i]) by {
            if i < a.len() {
                assert(j[i] == a[i]);
            } else if i > a.len() {
                assert(j[i] == ls.last()[i - a.len() - 1]);
                assert(p(ls[ls.len() - 1][i - a.len() - 1]));
            }
        }
    }
}

/// Non-empty parts without line breaks, joined by line breaks, never hold two
/// line breaks in a row.
proof fn lemma_join_no_double_break(ls: Seq<Seq<char>>)
    requires
        forall|k: int| 0 <= k < ls.len() ==> (#[trigger] ls[k]).len() > 0 && no_newline(ls[k]),
    ensures
        join(ls, seq!['\n']).len() > 0 || ls.len() == 0,
        ls.len() > 0 ==> join(ls, seq!['\n'])[0] != '\n' && join(ls, seq!['\n']).last() != '\n',
        forall|i: int| 0 <= i < join(ls, seq!['\n']).len() - 1 ==> !(#[trigger] join(ls, seq!['\n'])[i] == '\n'
            && join(ls, seq!['\n'])[i + 1] == '\n'),
    decreases ls.len(),
{
    if ls.len() == 1 {
        assert(no_newline(ls[0]));
        assert(ls[0][0] != '\n');
        assert(ls[0].last() != '\n');
    } else if ls.len() > 1 {
        let d = ls.drop_last();
        assert forall|k: int| 0 <= k < d.len() implies (#[trigger] d[k]).len() > 0 && no_newline(d[k]) by {
            assert(d[k] == ls[k]);
        }
        lemma_join_no_double_break(d);
        let a = join(d, seq!['\n']);
        let l = ls.last();
        assert(ls[ls.len() - 1].len() > 0 && no_newline(ls[ls.len() - 1]));
        let j = join(ls, seq!['\n']);
        assert(j == a + seq!['\n'] + l);
        assert(j[0] == a[0]);
        assert(j.last() == l.last());
        assert forall|i: int| 0 <= i < j.len() - 1 implies !(#[trigger] j[i] == '\n' && j[i + 1] == '\n') by {
            if i < a.len() - 1 {
                assert(j[i] == a[i] && j[i + 1] == a[i + 1]);
            } else if i == a.len() - 1 {
                assert(j[i] == a.last());
            } else if i == a.len() {
                assert(j[i + 1] == l[0]);
            } else {
                assert(j[i] == l[i - a.len() - 1]);
            }
        }
    }
}

/// A text whose characters are all line breaks, `#` or plain characters holds
/// none of the marks of the Markdown patterns but the header and blank-line ones.
proof fn lemma_doc_lacks(p: Seq<char>, t: Seq<char>)
    requires
        p != HEADER_PATTERN@,
        p != NEWLINES_PATTERN@,
        forall|i: int| 0 <= i < t.len() ==> doc_char(#[trigger] t[i]),
    ensures
        lacks_marks(p, t),
{
    assert forall|k: int| 0 <= k < match_marks(p).len() implies !contains_text(t, #[trigger] match_marks(p)[k]) by {
        let m = match_marks(p)[k];
        assert(m.len() > 0 && !doc_char(m[0]));
        if contains_text(t, m) {
            let i = choose|i: int| 0 <= i && i + m.len() <= t.len() && #[trigger] t.subrange(i, i + m.len()) == m;
            assert(t.subrange(i, i + m.len())[0] == t[i]);
            assert(doc_char(t[i]));
        }
    }
}

/// Plain text broken into lines, without two line breaks in a row, holds no
/// run of three line breaks.
proof fn lemma_no_blank_run(t: Seq<char>)
    requires
        forall|i: int| 0 <= i < t.len() ==> #[trigger] t[i] == '\n' || plain_char(t[i]),
        forall|i: int| 0 <= i < t.len() - 1 ==> !(#[trigger] t[i] == '\n' && t[i + 1] == '\n'),
    ensures
        lacks_marks(NEWLINES_PATTERN@, t),
{
    let p = NEWLINES_PATTERN@;
    assert forall|k: int| 0 <= k < match_marks(p).len() implies !contains_text(t, #[trigger] match_marks(p)[k]) by {
        let m = match_marks(p)[k];
        if contains_text(t, m) {
            let i = choose|i: int| 0 <= i && i + m.len() <= t.len() && #[trigger] t.subrange(i, i + m.len()) == m;
            assert(t.subrange(i, i + m.len())[0] == t[i]);
            if m[0] == '\n' {
                assert(m == seq!['\n', '\n', '\n']);
                assert(t.subrange(i, i + m.len())[1] == t[i + 1]);
            }
        }
    }
}

/// What a text of header lines with plain headings is made of, and what it
/// becomes once its headers are reduced to their headings: the headings joined
/// by line breaks, read back as those lines, with no mark of the other
/// Markdown patterns in the text or in any heading.
proof fn lemma_header_document(ls: Seq<Seq<char>>)
    requires
        header_document(ls),
    ensures
        lacks_marks(CODE_BLOCK_PATTERN@, join(ls, seq!['\n'])),
        lacks_marks(INLINE_CODE_PATTERN@, join(ls, seq!['\n'])),
        lacks_marks(ASTERISK_PATTERN@, join(headings(ls), seq!['\n'])),
        lacks_marks(LINK_PATTERN@, join(headings(ls), seq!['\n'])),
        lacks_marks(RULE_PATTERN@, join(headings(ls), seq!['\n'])),
        lacks_marks(UNDERSCORE_PATTERN@, join(headings(ls), seq!['\n'])),
        lacks_marks(STRIKE_PATTERN@, join(headings(ls), seq!['\n'])),
        lacks_marks(NEWLINES_PATTERN@, join(headings(ls), seq!['\n'])),
        lines(join(headings(ls), seq!['\n'])) == headings(ls),
        forall|j: int| 0 <= j < headings(ls).len() ==> lacks_marks(BULLET_PATTERN@, #[trigger] headings(ls)[j])
            && lacks_marks(NUMBERED_PATTERN@, headings(ls)[j]) && lacks_marks(BLOCKQUOTE_PATTERN@, headings(ls)[j]),
{
    let hs = headings(ls);
    let b = join(hs, seq!['\n']);
    let t = join(ls, seq!['\n']);
    reveal_strlit("```[\\s\\S]*?```");
    reveal_strlit("`([^`]+)`");
    reveal_strlit("#{1,6}\\s+(.+)");
    reveal_strlit("\\n{3,}");
    reveal_strlit("\\*+");
    reveal_strlit("\\[([^\\]]+)\\]\\([^\\)]+\\)");
    reveal_strlit("(?m)^\\s*[-*_]{3,}\\s*$");
    reveal_strlit("_+");
    reveal_strlit("~~(.+?)~~");
    reveal_strlit("^\\s*[-*+]\\s+");
    reveal_strlit("^\\s*\\d+\\.\\s+");
    reveal_strlit("^\\s*>\\s+(.+)");
    assert(HEADER_PATTERN@[0] == '#' && NEWLINES_PATTERN@[1] == 'n');
    assert(CODE_BLOCK_PATTERN@[0] != HEADER_PATTERN@[0] && CODE_BLOCK_PATTERN@[1] != NEWLINES_PATTERN@[1]);
    assert(INLINE_CODE_PATTERN@[0] != HEADER_PATTERN@[0] && INLINE_CODE_PATTERN@[1] != NEWLINES_PATTERN@[1]);
    assert(ASTERISK_PATTERN@[0] != HEADER_PATTERN@[0] && ASTERISK_PATTERN@[1] != NEWLINES_PATTERN@[1]);
    assert(LINK_PATTERN@[0] != HEADER_PATTERN@[0] && LINK_PATTERN@[1] != NEWLINES_PATTERN@[1]);
    assert(RULE_PATTERN@[0] != HEADER_PATTERN@[0] && RULE_PATTERN@[1] != NEWLINES_PATTERN@[1]);
    assert(UNDERSCORE_PATTERN@[0] != HEADER_PATTERN@[0] && UNDERSCORE_PATTERN@[1] != NEWLINES_PATTERN@[1]);
    assert(STRIKE_PATTERN@[0] != HEADER_PATTERN@[0] && STRIKE_PATTERN@[1] != NEWLINES_PATTERN@[1]);
    assert(BULLET_PATTERN@[0] != HEADER_PATTERN@[0] && BULLET_PATTERN@[1] != NEWLINES_PATTERN@[1]);
    assert(NUMBERED_PATTERN@[0] != HEADER_PATTERN@[0] && NUMBERED_PATTERN@[1] != NEWLINES_PATTERN@[1]);
    assert(BLOCKQUOTE_PATTERN@[0] != HEADER_PATTERN@[0] && BLOCKQUOTE_PATTERN@[1] != NEWLINES_PATTERN@[1]);
    assert forall|k: int, i: int| 0 <= k < ls.len() && 0 <= i < ls[k].len() implies doc_char(#[trigger] ls[k][i]) by {
        let l = ls[k];
        assert(simple_header(l));
        lemma_hash_run(l);
        let h = hash_run(l) as int;
        if i > h {
            assert(header_text(l)[i - h - 1] == l[i]);
            assert(plain_char(header_text(ls[k])[i - h - 1]));
        }
    }
    lemma_join_chars(ls, |c: char| doc_char(c));
    assert forall|i: int| 0 <= i < t.len() implies doc_char(#[trigger] t[i]) by {
        assert(t[i] == '\n' || (|c: char| doc_char(c))(t[i]));
    }
    lemma_doc_lacks(CODE_BLOCK_PATTERN@, t);
    lemma_doc_lacks(INLINE_CODE_PATTERN@, t);
    assert forall|k: int| 0 <= k < hs.len() implies (#[trigger] hs[k]).len() > 0 && no_newline(hs[k])
        && hs[k].last() != '\r' && forall|i: int| 0 <= i < hs[k].len() ==> plain_char(#[trigger] hs[k][i]) by {
        let l = ls[k];
        assert(simple_header(l));
        lemma_hash_run(l);
        assert(hs[k] == header_text(l));
        assert(hs[k].last() == l.last());
        assert forall|i: int| 0 <= i < hs[k].len() implies plain_char(#[trigger] hs[k][i]) by {
            assert(plain_char(header_text(ls[k])[i]));
        }
    }
    lemma_join_chars(hs, |c: char| plain_char(c));
    assert forall|i: int| 0 <= i < b.len() implies #[trigger] b[i] == '\n' || plain_char(b[i]) by {
        assert(b[i] == '\n' || (|c: char| plain_char(c))(b[i]));
    }
    assert forall|i: int| 0 <= i < b.len() implies doc_char(#[trigger] b[i]) by {
        assert(b[i] == '\n' || plain_char(b[i]));
    }
    lemma_doc_lacks(ASTERISK_PATTERN@, b);
    lemma_doc_lacks(LINK_PATTERN@, b);
    lemma_doc_lacks(RULE_PATTERN@, b);
    lemma_doc_lacks(UNDERSCORE_PATTERN@, b);
    lemma_doc_lacks(STRIKE_PATTERN@, b);
    lemma_join_no_double_break(hs);
    lemma_no_blank_run(b);
    reveal_strlit("\n");
    assert("\n"@ =~= seq!['\n']);
    lemma_lines_of_join(hs);
    assert forall|j: int| 0 <= j < hs.len() implies #[trigger] lines(b)[j] == hs[j] by {
        assert(strip_cr(hs[j]) == hs[j]);
    }
    assert(lines(b) =~= hs);
    assert forall|j: int| 0 <= j < hs.len() implies lacks_marks(BULLET_PATTERN@, #[trigger] hs[j]) && lacks_marks(
        NUMBERED_PATTERN@,
        hs[j],
    ) && lacks_marks(BLOCKQUOTE_PATTERN@, hs[j]) by {
        assert forall|i: int| 0 <= i < hs[j].len() implies doc_char(#[trigger] hs[j][i]) by {
            assert(plain_char(hs[j][i]));
        }
        lemma_doc_lacks(BULLET_PATTERN@, hs[j]);
        lemma_doc_lacks(NUMBERED_PATTERN@, hs[j]);
        lemma_doc_lacks(BLOCKQUOTE_PATTERN@, hs[j]);
    }
}

/// A chat answer prepared to be spoken: code blocks replaced by a note,
/// formatting marks, bullets, numbers, quote marks and rules removed, links
/// reduced to their text, runs of blank lines shortened.
///
/// Every header is reduced to its heading: a text made only of header lines
/// with plain headings is spoken as those headings, one per line.
#[verifier::rlimit(60)]
pub fn strip_markdown_for_tts(text: &str) -> (r: String)
    ensures
        r@ == stripped(text@),
        forall|ls: Seq<Seq<char>>| #[trigger] join(ls, seq!['\n']) == text@ && header_document(ls) ==> r@ == join(
            headings(ls),
            seq!['\n'],
        ),
{
    proof {
        reveal_strlit("$1");
        reveal_strlit("\n");
        assert("$1"@ =~= seq!['$', '1']);
        assert("\n"@ =~= seq!['\n']);
    }
    let r1 = replace_all(CODE_BLOCK_PATTERN, text, CODE_SNIPPET_NOTE);
    let r2 = replace_all(INLINE_CODE_PATTERN, r1.as_str(), "$1");
    let r3 = replace_all(HEADER_PATTERN, r2.as_str(), "$1");
    let r4 = replace_all(ASTERISK_PATTERN, r3.as_str(), "");
    let r5 = replace_all(LINK_PATTERN, r4.as_str(), "$1");
    proof {
        reveal_strlit("");
    }
    assert(r5@ == before_lines(text@));
    let v = to_chars(r5.as_str());
    let lb = line_bounds(&v);
    let ghost vls = lines(v@);
    let ghost mapped = vls.map_values(|l: Seq<char>| strip_line(l));
    let mut joined = String::new();
    let mut k: usize = 0;
    assert(forall|j: int| 0 <= j < lb.len() ==> #[trigger] lb@[j].0 <= lb@[j].1 <= v.len());
    while k < lb.len()
        invariant
            k <= lb.len() == vls.len() == mapped.len(),
            vls == lines(v@),
            mapped == vls.map_values(|l: Seq<char>| strip_line(l)),
            forall|j: int| 0 <= j < lb.len() ==> #[trigger] lb@[j].0 <= lb@[j].1 <= v.len(),
            forall|j: int|
                0 <= j < lb.len() ==> v@.subrange(lb@[j].0 as int, lb@[j].1 as int) == #[trigger] vls[j],
            joined@ == join(mapped.take(k as int), "\n"@),
            forall|j: int| 0 <= j < k ==> lacks_marks(BULLET_PATTERN@, #[trigger] vls[j]) && lacks_marks(
                NUMBERED_PATTERN@,
                vls[j],
            ) && lacks_marks(BLOCKQUOTE_PATTERN@, vls[j]) ==> mapped[j] == vls[j],
        decreases lb.len() - k,
    {
        let (x, y) = lb[k];
        let line = string_of(&v, x, y);
        assert(line@ == vls[k as int]);
        let l1 = replace_first(BULLET_PATTERN, line.as_str(), "");
        let l2 = replace_first(NUMBERED_PATTERN, l1.as_str(), "");
        let l3 = replace_first(BLOCKQUOTE_PATTERN, l2.as_str(), "$1");
        let ghost before = joined@;
        if k > 0 {
            joined.append("\n");
        }
        joined.append(l3.as_str());
        proof {
            reveal_strlit("");
            assert(l3@ == mapped[k as int]);
            assert(mapped.take(k + 1) =~= mapped.take(k as int).push(mapped[k as int]));
            crate::sentences::lemma_join_push(mapped.take(k as int), mapped[k as int], "\n"@);
            if k == 0 {
                assert(joined@ =~= mapped[k as int]);
            }
        }
        k = k + 1;
    }
    proof {
        assert(mapped.take(lb.len() as int) =~= mapped);
    }
    let r7 = replace_all(RULE_PATTERN, joined.as_str(), "");
    let r8 = replace_all(UNDERSCORE_PATTERN, r7.as_str(), "");
    let r9 = replace_all(STRIKE_PATTERN, r8.as_str(), "$1");
    let r = replace_all(NEWLINES_PATTERN, r9.as_str(), "\n\n");
    proof {
        assert forall|ls: Seq<Seq<char>>| #[trigger] join(ls, seq!['\n']) == text@ && header_document(ls) implies r@
            == join(headings(ls), seq!['\n']) by {
            let hs = headings(ls);
            let b = join(hs, seq!['\n']);
            lemma_header_document(ls);
            assert(r1@ == text@);
            assert(r2@ == text@);
            assert(r3@ == b);
            assert(r4@ == b);
            assert(r5@ == b);
            assert(mapped =~= hs) by {
                assert forall|j: int| 0 <= j < mapped.len() implies #[trigger] mapped[j] == hs[j] by {
                    assert(vls[j] == hs[j]);
                }
            }
            assert(joined@ == b);
            assert(r7@ == b);
            assert(r8@ == b);
            assert(r9@ == b);
        }
    }
    r
}

} // verus!
