//! Which voices the voice list shows: a language, a search text and whether
//! only downloaded voices are wanted; and the languages offered to choose from.
use vstd::prelude::*;
use crate::chars::{same_text, to_chars};
use crate::speechd::{contains_chars, contains_text};
use crate::voices::{lemma_lex_total, lemma_lt_before_after, lemma_lt_chain, lex_le_chars, lex_lt};

verus! {

/// What `str::to_lowercase` returns for `s`.
pub uninterp spec fn lowercase(s: Seq<char>) -> Seq<char>;

/// Calls `str::to_lowercase`; its result is the name `lowercase`.
#[verifier::external_body]
fn to_lower(s: &str) -> (r: String)
    ensures
        r@ == lowercase(s@),
{
    s.to_lowercase()
}

/// The choices that narrow the voice list.
#[derive(Debug, Clone)]
pub struct FilterCriteria {
    pub search_text: String,
    pub selected_language: String,
    pub show_downloaded_only: bool,
}

/// Whether a voice with this language, name and download state is shown:
/// its language is the one chosen (or all are), its name holds the search
/// text whatever the case, and it is downloaded when only downloaded voices
/// are wanted.
pub open spec fn shows_voice(
    c: FilterCriteria,
    language: Seq<char>,
    name: Seq<char>,
    downloaded: bool,
) -> bool {
    &&& (c.selected_language@ == "All"@ || language == c.selected_language@)
    &&& (c.search_text@.len() == 0 || contains_text(lowercase(name), lowercase(c.search_text@)))
    &&& (!c.show_downloaded_only || downloaded)
}

impl Default for FilterCriteria {
    fn default() -> (r: Self)
        ensures
            r.search_text@.len() == 0,
            r.selected_language@ == "All"@,
            !r.show_downloaded_only,
    {
        FilterCriteria { search_text: String::new(), selected_language: "All".to_string(), show_downloaded_only: false }
    }
}

impl FilterCriteria {
    /// Shows the voices of one language (`All` for every language).
    pub fn filter_by_language(&mut self, language: &str)
        ensures
            final(self).selected_language@ == language@,
            final(self).search_text@ == old(self).search_text@,
            final(self).show_downloaded_only == old(self).show_downloaded_only,
    {
        self.selected_language = language.to_string();
    }

    /// Shows the voices whose name holds `search_text`.
    pub fn filter_by_search(&mut self, search_text: &str)
        ensures
            final(self).search_text@ == search_text@,
            final(self).selected_language@ == old(self).selected_language@,
            final(self).show_downloaded_only == old(self).show_downloaded_only,
    {
        self.search_text = search_text.to_string();
    }

    /// Shows downloaded voices only.
    pub fn filter_downloaded_voices(&mut self)
        ensures
            final(self).show_downloaded_only,
            final(self).search_text@ == old(self).search_text@,
            final(self).selected_language@ == old(self).selected_language@,
    {
        self.show_downloaded_only = true;
    }

    /// Shows downloaded and other voices.
    pub fn show_all_voices(&mut self)
        ensures
            !final(self).show_downloaded_only,
            final(self).search_text@ == old(self).search_text@,
            final(self).selected_language@ == old(self).selected_language@,
    {
        self.show_downloaded_only = false;
    }

    /// Whether the voice list shows a voice (`shows_voice`).
    pub fn matches_voice(&self, language: &str, name: &str, downloaded: bool) -> (r: bool)
        ensures
            r == shows_voice(*self, language@, name@, downloaded),
    {
        let language_matches = same_text(self.selected_language.as_str(), "All") || same_text(
            language,
            self.selected_language.as_str(),
        );
        let sc = to_chars(self.search_text.as_str());
        let search_matches = sc.len() == 0 || {
            let n = to_chars(to_lower(name).as_str());
            let s = to_chars(to_lower(self.search_text.as_str()).as_str());
            contains_chars(&n, &s)
        };
        let download_matches = !self.show_downloaded_only || downloaded;
        language_matches && search_matches && download_matches
    }
}

/// With every language and all voices allowed, the search text finds a voice
/// whenever it occurs anywhere in the voice's name, whatever the case, and
/// only then (an empty search text finds every voice).
pub proof fn search_finds_text_anywhere_in_name(
    c: FilterCriteria,
    language: Seq<char>,
    name: Seq<char>,
    downloaded: bool,
)
    requires
        c.selected_language@ == "All"@,
        !c.show_downloaded_only,
    ensures
        c.search_text@.len() > 0 ==> (shows_voice(c, language, name, downloaded) <==> exists|i: int|
            0 <= i && i + lowercase(c.search_text@).len() <= lowercase(name).len() && #[trigger] lowercase(
                name,
            ).subrange(i, i + lowercase(c.search_text@).len()) == lowercase(c.search_text@)),
        c.search_text@.len() == 0 ==> shows_voice(c, language, name, downloaded),
{
}

/// Whether `s` is in strictly increasing order.
pub open spec fn strictly_sorted(s: Seq<Seq<char>>) -> bool {
    forall|i: int, j: int| 0 <= i < j < s.len() ==> lex_lt(#[trigger] s[i], #[trigger] s[j])
}

/// The languages of the voices, each once, in order.
pub fn get_language_list(languages: &Vec<String>) -> (r: Vec<String>)
    ensures
        strictly_sorted(crate::chars::str_views(r@)),
        forall|x: Seq<char>| crate::chars::str_views(r@).contains(x) <==> crate::chars::str_views(languages@).contains(x),
{
    let ghost src = crate::chars::str_views(languages@);
    let mut out: Vec<String> = Vec::new();
    let mut i: usize = 0;
    while i < languages.len()
        invariant
            i <= languages.len(),
            src == crate::chars::str_views(languages@),
            strictly_sorted(crate::chars::str_views(out@)),
            forall|x: Seq<char>| crate::chars::str_views(out@).contains(x) <==> src.take(i as int).contains(x),
        decreases languages.len() - i,
    {
        let x = languages[i].clone();
        let xc = to_chars(x.as_str());
        let mut p: usize = 0;
        while p < out.len() && lex_le_chars(&to_chars(out[p].as_str()), &xc) && !same_text(out[p].as_str(), x.as_str())
            invariant
                p <= out.len(),
                xc@ == x@,
                forall|k: int| 0 <= k < p ==> lex_lt((#[trigger] out@[k])@, x@),
            decreases out.len() - p,
        {
            p = p + 1;
        }
        let ghost old = crate::chars::str_views(out@);
        proof {
            assert(src.take(i + 1) =~= src.take(i as int).push(x@));
            assert(src[i as int] == x@);
        }
        if p < out.len() && same_text(out[p].as_str(), x.as_str()) {
            proof {
                assert(old[p as int] == x@);
                assert forall|y: Seq<char>| old.contains(y) <==> src.take(i + 1).contains(y) by {
                    if src.take(i + 1).contains(y) {
                        let k = choose|k: int| 0 <= k < src.take(i + 1).len() && #[trigger] src.take(i + 1)[k] == y;
                        if k < i {
                            assert(src.take(i as int)[k] == y);
                        }
                    }
                    if old.contains(y) {
                        assert(src.take(i as int).contains(y));
                        let k = choose|k: int| 0 <= k < src.take(i as int).len() && #[trigger] src.take(i as int)[k] == y;
                        assert(src.take(i + 1)[k] == y);
                    }
                }
            }
        } else {
            proof {
                if p < out.len() {
                    lemma_lex_total(old[p as int], x@);
                }
            }
            out.insert(p, x);
            proof {
                let nv = crate::chars::str_views(out@);
                assert(nv =~= old.insert(p as int, x@));
                assert forall|a: int, b: int| 0 <= a < b < nv.len() implies lex_lt(#[trigger] nv[a], #[trigger] nv[b]) by {
                    if b < p {
                        assert(nv[a] == old[a] && nv[b] == old[b]);
                    } else if b == p {
                        assert(nv[a] == old[a]);
                    } else if a < p {
                        assert(nv[a] == old[a] && nv[b] == old[b - 1]);
                        lemma_lt_before_after(old[a], x@, old[b - 1], old[p as int]);
                    } else if a == p {
                        assert(nv[b] == old[b - 1]);
                        if b - 1 > p {
                            lemma_lt_chain(x@, old[p as int], old[b - 1]);
                        }
                    } else {
                        assert(nv[a] == old[a - 1] && nv[b] == old[b - 1]);
                    }
                }
                assert forall|y: Seq<char>| nv.contains(y) <==> src.take(i + 1).contains(y) by {
                    if src.take(i + 1).contains(y) {
                        let k = choose|k: int| 0 <= k < src.take(i + 1).len() && #[trigger] src.take(i + 1)[k] == y;
                        if k < i {
                            assert(src.take(i as int)[k] == y);
                            assert(old.contains(y));
                            let m = choose|m: int| 0 <= m < old.len() && #[trigger] old[m] == y;
                            if m < p {
                                assert(nv[m] == y);
                            } else {
                                assert(nv[m + 1] == y);
                            }
                        } else {
                            assert(nv[p as int] == y);
                        }
                    }
                    if nv.contains(y) {
                        let m = choose|m: int| 0 <= m < nv.len() && #[trigger] nv[m] == y;
                        if m == p {
                            assert(src.take(i + 1)[i as int] == y);
                        } else {
                            let mo = if m < p { m } else { m - 1 };
                            assert(old[mo] == y);
                            assert(old.contains(y));
                            assert(src.take(i as int).contains(y));
                            let k = choose|k: int| 0 <= k < src.take(i as int).len() && #[trigger] src.take(i as int)[k] == y;
                            assert(src.take(i + 1)[k] == y);
                        }
                    }
                }
            }
        }
        i = i + 1;
    }
    proof {
        assert(src.take(languages.len() as int) =~= src);
    }
    out
}

} // verus!
