//! The regular-expression searches of the library, made with the `regex` crate,
//! and what their matches are.
use vstd::prelude::*;
use crate::chars::{first_from, is_ws, join, lemma_first_from_bounds, utf8_len};
use crate::speechd::contains_text;

verus! {

/// A sentence: the shortest run of characters up to a sentence terminator,
/// with all the terminators that follow it.
pub const SENTENCE_PATTERN: &'static str = "[^.!?]*?[.!?]+";

/// A run of characters that are not sentence terminators, then one terminator.
pub const CLAUSE_PATTERN: &'static str = "[^.!?]+[.!?]";

/// A sentence terminator followed by whitespace and an upper-case ASCII letter.
pub const BLOCK_BREAK_PATTERN: &'static str = "([.!?])(\\s+[A-Z])";

/// Whether `c` ends a sentence.
pub open spec fn is_term(c: char) -> bool {
    c == '.' || c == '!' || c == '?'
}

/// Whether `c` is an upper-case ASCII letter.
pub open spec fn is_ascii_upper(c: char) -> bool {
    'A' <= c && c <= 'Z'
}

/// The end of the run of terminators that starts at `i`.
pub open spec fn run_end(s: Seq<char>, i: int) -> int
    decreases s.len() - i,
{
    if 0 <= i < s.len() && is_term(s[i]) {
        run_end(s, i + 1)
    } else {
        i
    }
}

pub proof fn lemma_run_end(s: Seq<char>, i: int)
    requires
        0 <= i <= s.len(),
    ensures
        i <= run_end(s, i) <= s.len(),
        i < s.len() && is_term(s[i]) ==> run_end(s, i) > i,
    decreases s.len() - i,
{
    if i < s.len() && is_term(s[i]) {
        lemma_run_end(s, i + 1);
    }
}

/// The spans of the successive matches of `SENTENCE_PATTERN` in `s[p..]`.
/// Leftmost-first matching makes each match start where the previous one ended:
/// it runs from there to the first terminator and takes the whole run of
/// terminators after it. Text after the last terminator is in no match.
pub open spec fn sentence_spans_from(s: Seq<char>, p: int) -> Seq<(int, int)>
    decreases s.len() - p,
{
    if p < 0 || p >= s.len() {
        seq![]
    } else {
        let q = first_from(s, p, |c: char| is_term(c));
        if q >= s.len() {
            seq![]
        } else {
            proof {
                lemma_first_from_bounds(s, p, |c: char| is_term(c));
                lemma_run_end(s, q);
            }
            seq![(p, run_end(s, q))] + sentence_spans_from(s, run_end(s, q))
        }
    }
}

/// Whether a match of `BLOCK_BREAK_PATTERN` starts at `i`: a terminator, then at
/// least one whitespace character, then an upper-case ASCII letter.
pub open spec fn break_at(s: Seq<char>, i: int) -> bool {
    let q = first_from(s, i + 1, |c: char| !is_ws(c));
    &&& 0 <= i < s.len()
    &&& is_term(s[i])
    &&& q > i + 1
    &&& q < s.len()
    &&& is_ascii_upper(s[q])
}

/// The spans of the successive matches of `BLOCK_BREAK_PATTERN` in `s[p..]`:
/// each runs from a terminator over the whitespace after it to the upper-case
/// letter that follows, and the search goes on after that letter.
pub open spec fn break_spans_from(s: Seq<char>, p: int) -> Seq<(int, int)>
    decreases s.len() - p,
{
    if p < 0 || p >= s.len() {
        seq![]
    } else if break_at(s, p) {
        let q = first_from(s, p + 1, |c: char| !is_ws(c));
        proof {
            lemma_first_from_bounds(s, p + 1, |c: char| !is_ws(c));
        }
        seq![(p, q + 1)] + break_spans_from(s, q + 1)
    } else {
        break_spans_from(s, p + 1)
    }
}

/// The spans of the successive matches of `CLAUSE_PATTERN` in `s[p..]`: each
/// starts at the first character after `p` that is not a terminator and ends
/// just after the first terminator that follows; text with no terminator after
/// it is in no match.
pub open spec fn clause_spans_from(s: Seq<char>, p: int) -> Seq<(int, int)>
    decreases s.len() - p,
{
    if p < 0 || p >= s.len() {
        seq![]
    } else {
        let i = first_from(s, p, |c: char| !is_term(c));
        proof {
            lemma_first_from_bounds(s, p, |c: char| !is_term(c));
        }
        if i >= s.len() {
            seq![]
        } else {
            let j = first_from(s, i, |c: char| is_term(c));
            proof {
                lemma_first_from_bounds(s, i, |c: char| is_term(c));
            }
            if j >= s.len() {
                seq![]
            } else {
                seq![(i, j + 1)] + clause_spans_from(s, j + 1)
            }
        }
    }
}

/// The patterns this library searches for.
pub open spec fn known_pattern(pattern: Seq<char>) -> bool {
    pattern == SENTENCE_PATTERN@ || pattern == BLOCK_BREAK_PATTERN@ || pattern == CLAUSE_PATTERN@
}

/// The character spans of the matches of a known pattern in `s`, in order.
pub open spec fn match_spans(pattern: Seq<char>, s: Seq<char>) -> Seq<(int, int)> {
    if pattern == SENTENCE_PATTERN@ {
        sentence_spans_from(s, 0)
    } else if pattern == BLOCK_BREAK_PATTERN@ {
        break_spans_from(s, 0)
    } else if pattern == CLAUSE_PATTERN@ {
        clause_spans_from(s, 0)
    } else {
        seq![]
    }
}

/// The matches of `pattern` in `text`, as `Regex::find_iter` yields them: the byte
/// offset where each starts (`Match::start`) and its text (`Match::as_str`).
/// Claimed of `regex` 1.x: the three patterns compile, and their leftmost-first
/// matches are those that `match_spans` describes.
#[verifier::external_body]
pub(crate) fn find_matches(pattern: &str, text: &str) -> (r: Vec<(usize, String)>)
    requires
        known_pattern(pattern@),
    ensures
        r.len() == match_spans(pattern@, text@).len(),
        forall|i: int|
            0 <= i < r.len() ==> {
                let sp = #[trigger] match_spans(pattern@, text@)[i];
                &&& r@[i].0 == utf8_len(text@.take(sp.0))
                &&& r@[i].1@ == text@.subrange(sp.0, sp.1)
            },
{
    regex::Regex::new(pattern).unwrap().find_iter(text).map(|m| (m.start(), m.as_str().to_string())).collect()
}

/// Fenced code blocks.
pub const CODE_BLOCK_PATTERN: &'static str = "```[\\s\\S]*?```";
/// Inline code, capturing its text.
pub const INLINE_CODE_PATTERN: &'static str = "`([^`]+)`";
/// Headers, capturing their text.
pub const HEADER_PATTERN: &'static str = "#{1,6}\\s+(.+)";
/// Runs of asterisks.
pub const ASTERISK_PATTERN: &'static str = "\\*+";
/// Links, capturing their text.
pub const LINK_PATTERN: &'static str = "\\[([^\\]]+)\\]\\([^\\)]+\\)";
/// A bullet at the start of a line.
pub const BULLET_PATTERN: &'static str = "^\\s*[-*+]\\s+";
/// A number at the start of a line.
pub const NUMBERED_PATTERN: &'static str = "^\\s*\\d+\\.\\s+";
/// A block quote, capturing its text.
pub const BLOCKQUOTE_PATTERN: &'static str = "^\\s*>\\s+(.+)";
/// Lines that are horizontal rules.
pub const RULE_PATTERN: &'static str = "(?m)^\\s*[-*_]{3,}\\s*$";
/// Runs of underscores.
pub const UNDERSCORE_PATTERN: &'static str = "_+";
/// Strike-through text, capturing its text.
pub const STRIKE_PATTERN: &'static str = "~~(.+?)~~";
/// Three or more newlines in a row.
pub const NEWLINES_PATTERN: &'static str = "\\n{3,}";

/// The patterns used to strip Markdown, all of which compile.
pub open spec fn markdown_pattern(p: Seq<char>) -> bool {
    ||| p == CODE_BLOCK_PATTERN@
    ||| p == INLINE_CODE_PATTERN@
    ||| p == HEADER_PATTERN@
    ||| p == ASTERISK_PATTERN@
    ||| p == LINK_PATTERN@
    ||| p == BULLET_PATTERN@
    ||| p == NUMBERED_PATTERN@
    ||| p == BLOCKQUOTE_PATTERN@
    ||| p == RULE_PATTERN@
    ||| p == UNDERSCORE_PATTERN@
    ||| p == STRIKE_PATTERN@
    ||| p == NEWLINES_PATTERN@
}

/// Texts of which every match of a Markdown pattern holds at least one: a
/// text holding none of them has no match.
pub open spec fn match_marks(p: Seq<char>) -> Seq<Seq<char>> {
    if p == CODE_BLOCK_PATTERN@ {
        seq![seq!['`', '`', '`']]
    } else if p == INLINE_CODE_PATTERN@ {
        seq![seq!['`']]
    } else if p == HEADER_PATTERN@ {
        seq![seq!['#']]
    } else if p == ASTERISK_PATTERN@ {
        seq![seq!['*']]
    } else if p == LINK_PATTERN@ {
        seq![seq![']', '(']]
    } else if p == BULLET_PATTERN@ {
        seq![seq!['-'], seq!['*'], seq!['+']]
    } else if p == NUMBERED_PATTERN@ {
        seq![seq!['.']]
    } else if p == BLOCKQUOTE_PATTERN@ {
        seq![seq!['>']]
    } else if p == RULE_PATTERN@ {
        seq![seq!['-'], seq!['*'], seq!['_']]
    } else if p == UNDERSCORE_PATTERN@ {
        seq![seq!['_']]
    } else if p == STRIKE_PATTERN@ {
        seq![seq!['~', '~']]
    } else if p == NEWLINES_PATTERN@ {
        seq![seq!['\n', '\n', '\n']]
    } else {
        seq![]
    }
}

/// Whether `t` holds none of the marks of pattern `p`, so that `p` does not
/// match in it.
pub open spec fn lacks_marks(p: Seq<char>, t: Seq<char>) -> bool {
    forall|k: int| 0 <= k < match_marks(p).len() ==> !contains_text(t, #[trigger] match_marks(p)[k])
}

/// The number of `#` characters that `l` starts with.
pub open spec fn hash_run(l: Seq<char>) -> nat
    decreases l.len(),
{
    if l.len() > 0 && l[0] == '#' {
        1 + hash_run(l.drop_first())
    } else {
        0
    }
}

/// A Markdown header line: one to six `#`, one space, then a heading that
/// starts with a character other than whitespace and ends with one other than
/// whitespace and `#`, on a single line.
pub open spec fn simple_header(l: Seq<char>) -> bool {
    let k = hash_run(l);
    &&& 1 <= k <= 6
    &&& l.len() > k + 1
    &&& l[k as int] == ' '
    &&& !is_ws(l[k as int + 1])
    &&& !is_ws(l.last())
    &&& l.last() != '#'
    &&& forall|i: int| 0 <= i < l.len() ==> l[i] != '\n'
}

/// The heading of a header line: what follows its `#` marks and the space.
pub open spec fn header_text(l: Seq<char>) -> Seq<char> {
    l.skip(hash_run(l) as int + 1)
}

/// What `Regex::replace_all` returns for a pattern, a text and a replacement
/// (which may refer to capture groups as `$1`).
pub uninterp spec fn replaced_all(pattern: Seq<char>, text: Seq<char>, rep: Seq<char>) -> Seq<char>;

/// What `Regex::replace` returns: the text with its first match replaced.
pub uninterp spec fn replaced_first(pattern: Seq<char>, text: Seq<char>, rep: Seq<char>) -> Seq<char>;

/// `text` with every match of `pattern` replaced by `rep` (`Regex::replace_all`).
/// Claimed of `regex` 1.x: the Markdown patterns compile; replacing the runs of
/// one character (`\*+`, `_+`) by nothing removes that character everywhere;
/// a text without a match comes back unchanged; and in a text made of header
/// lines joined by line breaks, the header pattern (`#{1,6}\s+(.+)`, whose
/// `.` stops at a line break) matches each line whole, so that `$1` leaves
/// each line's heading.
#[verifier::external_body]
pub(crate) fn replace_all(pattern: &str, text: &str, rep: &str) -> (r: String)
    requires
        markdown_pattern(pattern@),
    ensures
        r@ == replaced_all(pattern@, text@, rep@),
        pattern@ == ASTERISK_PATTERN@ && rep@.len() == 0 ==> r@ == text@.filter(|c: char| c != '*'),
        pattern@ == UNDERSCORE_PATTERN@ && rep@.len() == 0 ==> r@ == text@.filter(|c: char| c != '_'),
        lacks_marks(pattern@, text@) ==> r@ == text@,
        pattern@ == HEADER_PATTERN@ && rep@ == seq!['$', '1'] ==> forall|ls: Seq<Seq<char>>|
            #[trigger] join(ls, seq!['\n']) == text@ && ls.len() > 0 && (forall|k: int|
                0 <= k < ls.len() ==> simple_header(#[trigger] ls[k])) ==> r@ == join(
                ls.map_values(|l: Seq<char>| header_text(l)),
                seq!['\n'],
            ),
{
    regex::Regex::new(pattern).unwrap().replace_all(text, rep).into_owned()
}

/// `text` with the first match of `pattern` replaced by `rep` (`Regex::replace`).
/// Claimed of `regex` 1.x: the Markdown patterns compile, and a text without a
/// match comes back unchanged.
#[verifier::external_body]
pub(crate) fn replace_first(pattern: &str, text: &str, rep: &str) -> (r: String)
    requires
        markdown_pattern(pattern@),
    ensures
        r@ == replaced_first(pattern@, text@, rep@),
        lacks_marks(pattern@, text@) ==> r@ == text@,
{
    regex::Regex::new(pattern).unwrap().replace(text, rep).into_owned()
}

/// Whether `Regex::new` accepts `pattern`.
pub uninterp spec fn pattern_compiles(pattern: Seq<char>) -> bool;

/// The text of the first capture group of the first match of `pattern` in
/// `text` (`Regex::captures`, then group 1), if any.
pub uninterp spec fn first_capture(pattern: Seq<char>, text: Seq<char>) -> Option<Seq<char>>;

/// Calls `Regex::new` on a pattern built at run time, then `Regex::captures`
/// on `text` and takes group 1. Claimed of `regex` 1.x: an error exactly when
/// the pattern does not compile; otherwise the capture, named `first_capture`.
/// The error's text is not claimed.
#[verifier::external_body]
pub(crate) fn capture_first(pattern: &str, text: &str) -> (r: Result<Option<String>, String>)
    ensures
        r is Err <==> !pattern_compiles(pattern@),
        r matches Ok(Some(v)) ==> first_capture(pattern@, text@) == Some(v@),
        r matches Ok(None) ==> first_capture(pattern@, text@) is None,
{
    match regex::Regex::new(pattern) {
        Ok(re) => Ok(re.captures(text).and_then(|c| c.get(1)).map(|m| m.as_str().to_string())),
        Err(e) => Err(e.to_string()),
    }
}

/// Calls `Regex::new` on a pattern built at run time, then `Regex::replace`.
/// Claimed of `regex` 1.x: an error exactly when the pattern does not compile;
/// otherwise the text with its first match replaced, named `replaced_first`.
/// The error's text is not claimed.
#[verifier::external_body]
pub(crate) fn try_replace_first(pattern: &str, text: &str, rep: &str) -> (r: Result<String, String>)
    ensures
        r is Err <==> !pattern_compiles(pattern@),
        r matches Ok(s) ==> s@ == replaced_first(pattern@, text@, rep@),
{
    match regex::Regex::new(pattern) {
        Ok(re) => Ok(re.replace(text, rep).into_owned()),
        Err(e) => Err(e.to_string()),
    }
}

} // verus!
