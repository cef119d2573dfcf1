//! What holds of where a PDF text object is cut.
use vstd::prelude::*;
use crate::chars::{lemma_utf8_len_append, trim, utf8_len, words};
use crate::pdf_text::{is_ascii_digit, lemma_contains_one, lemma_last_index, period_is_not_sentence_end, sentence_end_index};
use crate::speechd::contains_text;

verus! {

/// A PDF text object is cut just after the last period of its trimmed text,
/// counted back from the end of the text, whenever that period is not the
/// text's last character, the text's last word is neither a link nor an
/// e-mail address, the period does not stand between a digit and the digits
/// that end the text, and the text is not made of digits and periods alone;
/// links, addresses and numbers earlier in the text do not matter.
pub proof fn sentence_end_after_last_period(s: Seq<char>, j: int)
    requires
        0 <= j < trim(s).len() - 1,
        trim(s)[j] == '.',
        forall|k: int| j < k < trim(s).len() ==> trim(s)[k] != '.',
        words(trim(s)).len() > 0 ==> !contains_text(words(trim(s)).last(), "http"@),
        words(trim(s)).len() > 0 ==> !(contains_text(words(trim(s)).last(), "@"@) && contains_text(
            words(trim(s)).last(),
            "."@,
        )),
        !(j > 0 && is_ascii_digit(trim(s)[j - 1]) && forall|k: int|
            j < k < trim(s).len() ==> is_ascii_digit(#[trigger] trim(s)[k])),
        exists|k: int| 0 <= k < trim(s).len() && trim(s)[k] != '.' && !is_ascii_digit(trim(s)[k]),
    ensures
        sentence_end_index(s) == utf8_len(s) - utf8_len(trim(s).skip(j)) + 1,
        sentence_end_index(s) >= 1,
{
    let t = trim(s);
    lemma_last_index(t, '.', j);
    assert(contains_text(s, "."@)) by {
        crate::chars::lemma_trim_is_subrange(s);
        let (lo, hi) = choose|lo: int, hi: int| 0 <= lo <= hi <= s.len() && trim(s) == s.subrange(lo, hi);
        assert(s[lo + j] == '.');
        lemma_contains_one(s, '.');
        reveal_strlit(".");
        assert("."@ =~= seq!['.']);
    }
    assert(!period_is_not_sentence_end(t, j)) by {
        let after = t.skip(j + 1);
        if j > 0 {
            assert(t.take(j).last() == t[j - 1]);
            if is_ascii_digit(t.take(j).last()) && forall|k: int| 0 <= k < after.len() ==> is_ascii_digit(#[trigger] after[k]) {
                assert forall|k: int| j < k < t.len() implies is_ascii_digit(#[trigger] t[k]) by {
                    assert(after[k - j - 1] == t[k]);
                }
            }
        }
        let k0 = choose|k: int| 0 <= k < t.len() && t[k] != '.' && !is_ascii_digit(t[k]);
        assert(!(t[k0] == '.' || is_ascii_digit(t[k0])));
    }
    assert(utf8_len(t) - utf8_len(t.take(j)) == utf8_len(t.skip(j))) by {
        assert(t =~= t.take(j) + t.skip(j));
        lemma_utf8_len_append(t.take(j), t.skip(j));
    }
    assert(utf8_len(s) >= utf8_len(t.skip(j))) by {
        crate::chars::lemma_trim_is_subrange(s);
        let (lo, hi) = choose|lo: int, hi: int| 0 <= lo <= hi <= s.len() && trim(s) == s.subrange(lo, hi);
        assert(s =~= s.take(lo + j) + t.skip(j) + s.skip(hi));
        lemma_utf8_len_append(s.take(lo + j), t.skip(j));
        lemma_utf8_len_append(s.take(lo + j) + t.skip(j), s.skip(hi));
    }
}

} // verus!
