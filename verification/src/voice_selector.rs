//! The voice selector: the language shown for each voice, the country a
//! voice is grouped under, the order of the list and the text of each entry.
use vstd::prelude::*;
use crate::chars::to_chars;
use crate::speechd::{contains_chars, contains_text, push_str_chars, string_from};
use crate::voices::{lemma_lex_total, lemma_lex_trans, lex_le, lex_le_chars};

verus! {

/// The country of a voice whose display name carries a flag, as its sort
/// key; `None` for a name without one of the known flags.
pub open spec fn flag_country(name: Seq<char>) -> Option<Seq<char>> {
    if contains_text(name, "🇺🇸"@) {
        Some("1_United States"@)
    } else if contains_text(name, "🇬🇧"@) {
        Some("2_United Kingdom"@)
    } else if contains_text(name, "🇯🇵"@) {
        Some("3_Japan"@)
    } else if contains_text(name, "🇨🇳"@) {
        Some("4_China"@)
    } else if contains_text(name, "🇪🇸"@) {
        Some("5_Spain"@)
    } else if contains_text(name, "🇫🇷"@) {
        Some("6_France"@)
    } else if contains_text(name, "🇮🇳"@) {
        Some("7_India"@)
    } else if contains_text(name, "🇮🇹"@) {
        Some("8_Italy"@)
    } else if contains_text(name, "🇧🇷"@) {
        Some("9_Brazil"@)
    } else {
        None
    }
}

/// The key a voice is grouped and ordered by: the country of its flag, else
/// the United States or United Kingdom named in its language, else `Z_` and
/// the language.
pub open spec fn country_key(name: Seq<char>, language: Seq<char>) -> Seq<char> {
    match flag_country(name) {
        Some(k) => k,
        None => if contains_text(language, "United States"@) {
            "1_United States"@
        } else if contains_text(language, "United Kingdom"@) {
            "2_United Kingdom"@
        } else {
            "Z_"@ + language
        },
    }
}

/// The text of a selector entry: traits (when there are any), name and
/// quality, and for a voice without a flag also its language.
pub open spec fn voice_label_text(
    name: Seq<char>,
    traits: Seq<char>,
    quality: Seq<char>,
    language: Seq<char>,
) -> Seq<char> {
    let head = if traits.len() == 0 {
        name
    } else {
        traits + " "@ + name
    };
    let base = head + " ("@ + quality + ")"@;
    if flag_country(name) is Some {
        base
    } else {
        base + " - "@ + language
    }
}

/// The language shown for a voice: for a voice without a flag, the English
/// language name with its region in brackets when the language is English or
/// the region is known and differs from it; otherwise the English name alone.
pub open spec fn row_language_text(name: Seq<char>, name_english: Seq<char>, region: Seq<char>) -> Seq<char> {
    if flag_country(name) is None && (name_english == "English"@ || (region.len() > 0 && region
        != name_english)) {
        name_english + " ("@ + region + ")"@
    } else {
        name_english
    }
}

/// A voice as the selector lists it.
#[derive(Debug)]
pub struct SelectorRow {
    pub key: String,
    pub name: String,
    pub language: String,
    pub quality: String,
    pub traits: String,
}

/// The order of the selector: by country key, then by name.
pub open spec fn selector_le(a: SelectorRow, b: SelectorRow) -> bool {
    let ka = country_key(a.name@, a.language@);
    let kb = country_key(b.name@, b.language@);
    (lex_le(ka, kb) && ka != kb) || (ka == kb && lex_le(a.name@, b.name@))
}

/// Whether `s` is in selector order.
pub open spec fn selector_sorted(s: Seq<SelectorRow>) -> bool {
    forall|i: int, j: int| 0 <= i < j < s.len() ==> selector_le(#[trigger] s[i], #[trigger] s[j])
}

/// Whether two rows compare equal in the selector's order: the same country
/// key and the same name.
pub open spec fn ties(a: SelectorRow, b: SelectorRow) -> bool {
    country_key(a.name@, a.language@) == country_key(b.name@, b.language@) && a.name@ == b.name@
}

/// Whether a row compares equal to `c`.
pub open spec fn tied_with(c: SelectorRow) -> spec_fn(SelectorRow) -> bool {
    |y: SelectorRow| ties(y, c)
}

/// Inserting `x` at `p` adds it to the rows tied with `c` after the others,
/// when none of the rows from `p` on is tied with `c`; it leaves the rows
/// tied with `c` as they were when `x` is not.
proof fn lemma_filter_insert(s: Seq<SelectorRow>, p: int, x: SelectorRow, c: SelectorRow)
    requires
        0 <= p <= s.len(),
        ties(x, c) ==> forall|q: int| p <= q < s.len() ==> !ties(#[trigger] s[q], c),
    ensures
        s.insert(p, x).filter(tied_with(c)) == if ties(x, c) {
            s.filter(tied_with(c)).push(x)
        } else {
            s.filter(tied_with(c))
        },
{
    let f = tied_with(c);
    let a = s.take(p);
    let b = s.skip(p);
    assert(s.insert(p, x) =~= a.push(x) + b);
    assert(s =~= a + b);
    Seq::filter_distributes_over_add(a.push(x), b, f);
    Seq::filter_distributes_over_add(a, b, f);
    reveal(Seq::filter);
    assert(a.push(x).drop_last() =~= a);
    if ties(x, c) {
        assert forall|i: int| 0 <= i < b.len() implies !f(#[trigger] b[i]) by {
            assert(b[i] == s[p + i]);
        }
        assert(b.all(|y: SelectorRow| !f(y)));
        b.lemma_all_neg_filter_empty(f);
        assert(b.filter(f) =~= Seq::<SelectorRow>::empty());
        assert(a.filter(f).push(x) + b.filter(f) =~= a.filter(f).push(x));
        assert(a.filter(f) + b.filter(f) =~= a.filter(f));
    }
}

proof fn lemma_filter_push(s: Seq<SelectorRow>, x: SelectorRow, c: SelectorRow)
    ensures
        s.push(x).filter(tied_with(c)) == if ties(x, c) {
            s.filter(tied_with(c)).push(x)
        } else {
            s.filter(tied_with(c))
        },
{
    reveal(Seq::filter);
    assert(s.push(x).drop_last() =~= s);
}

proof fn lemma_selector_total(a: SelectorRow, b: SelectorRow)
    ensures
        selector_le(a, b) || selector_le(b, a),
{
    lemma_lex_total(country_key(a.name@, a.language@), country_key(b.name@, b.language@));
    lemma_lex_total(a.name@, b.name@);
}

proof fn lemma_selector_trans(a: SelectorRow, b: SelectorRow, c: SelectorRow)
    requires
        selector_le(a, b),
        selector_le(b, c),
    ensures
        selector_le(a, c),
{
    let ka = country_key(a.name@, a.language@);
    let kb = country_key(b.name@, b.language@);
    let kc = country_key(c.name@, c.language@);
    lemma_lex_total(ka, kb);
    lemma_lex_total(kb, kc);
    lemma_lex_total(ka, kc);
    if ka == kb && kb == kc {
        lemma_lex_trans(a.name@, b.name@, c.name@);
    } else {
        lemma_lex_trans(ka, kb, kc);
    }
}

/// Whether `name` holds the flag `flag`.
fn has_flag(name: &Vec<char>, flag: &str) -> (r: bool)
    ensures
        r == contains_text(name@, flag@),
{
    contains_chars(name, &to_chars(flag))
}

/// The country of the flag in a display name (`flag_country`).
pub fn country_of_flag(name: &str) -> (r: Option<String>)
    ensures
        match r {
            Some(k) => flag_country(name@) == Some(k@),
            None => flag_country(name@) is None,
        },
{
    let n = to_chars(name);
    if has_flag(&n, "🇺🇸") {
        Some("1_United States".to_string())
    } else if has_flag(&n, "🇬🇧") {
        Some("2_United Kingdom".to_string())
    } else if has_flag(&n, "🇯🇵") {
        Some("3_Japan".to_string())
    } else if has_flag(&n, "🇨🇳") {
        Some("4_China".to_string())
    } else if has_flag(&n, "🇪🇸") {
        Some("5_Spain".to_string())
    } else if has_flag(&n, "🇫🇷") {
        Some("6_France".to_string())
    } else if has_flag(&n, "🇮🇳") {
        Some("7_India".to_string())
    } else if has_flag(&n, "🇮🇹") {
        Some("8_Italy".to_string())
    } else if has_flag(&n, "🇧🇷") {
        Some("9_Brazil".to_string())
    } else {
        None
    }
}

/// The key a voice is grouped and ordered by in the selector (`country_key`).
pub fn voice_country_key(name: &str, language: &str) -> (r: String)
    ensures
        r@ == country_key(name@, language@),
{
    match country_of_flag(name) {
        Some(k) => k,
        None => {
            let l = to_chars(language);
            if has_flag(&l, "United States") {
                "1_United States".to_string()
            } else if has_flag(&l, "United Kingdom") {
                "2_United Kingdom".to_string()
            } else {
                let mut out: Vec<char> = Vec::new();
                push_str_chars(&mut out, "Z_");
                push_str_chars(&mut out, language);
                string_from(&out)
            }
        },
    }
}

/// The text of a selector entry (`voice_label_text`).
pub fn voice_label(name: &str, traits: &str, quality: &str, language: &str) -> (r: String)
    ensures
        r@ == voice_label_text(name@, traits@, quality@, language@),
{
    let mut out: Vec<char> = Vec::new();
    let t = to_chars(traits);
    if t.len() > 0 {
        push_str_chars(&mut out, traits);
        push_str_chars(&mut out, " ");
    }
    push_str_chars(&mut out, name);
    push_str_chars(&mut out, " (");
    push_str_chars(&mut out, quality);
    push_str_chars(&mut out, ")");
    let flagged = country_of_flag(name).is_some();
    if !flagged {
        push_str_chars(&mut out, " - ");
        push_str_chars(&mut out, language);
    }
    proof {
        let head = if traits@.len() == 0 {
            name@
        } else {
            traits@ + " "@ + name@
        };
        if traits@.len() == 0 {
            assert(out@.subrange(0, 0) =~= Seq::<char>::empty());
        }
        assert(head + " ("@ + quality@ + ")"@ =~= if traits@.len() == 0 {
            name@ + " ("@ + quality@ + ")"@
        } else {
            traits@ + " "@ + name@ + " ("@ + quality@ + ")"@
        });
    }
    string_from(&out)
}

/// The language a voice row shows (`row_language_text`), from its display
/// name and the English name and region of its language.
pub fn row_language(name: &str, name_english: &str, region: &str) -> (r: String)
    ensures
        r@ == row_language_text(name@, name_english@, region@),
{
    let flagged = country_of_flag(name).is_some();
    let english = crate::chars::same_text(name_english, "English");
    let r = to_chars(region);
    let differs = r.len() > 0 && !crate::chars::same_text(region, name_english);
    if !flagged && (english || differs) {
        let mut out: Vec<char> = Vec::new();
        push_str_chars(&mut out, name_english);
        push_str_chars(&mut out, " (");
        push_str_chars(&mut out, region);
        push_str_chars(&mut out, ")");
        string_from(&out)
    } else {
        name_english.to_string()
    }
}

/// Whether `a` comes before or with `b` in the selector.
fn selector_le_exec(a: &SelectorRow, b: &SelectorRow) -> (r: bool)
    ensures
        r == selector_le(*a, *b),
{
    let ka = voice_country_key(a.name.as_str(), a.language.as_str());
    let kb = voice_country_key(b.name.as_str(), b.language.as_str());
    if crate::chars::same_text(ka.as_str(), kb.as_str()) {
        lex_le_chars(&to_chars(a.name.as_str()), &to_chars(b.name.as_str()))
    } else {
        lex_le_chars(&to_chars(ka.as_str()), &to_chars(kb.as_str()))
    }
}

/// The voices in selector order: by country key, then by name; voices that
/// compare equal keep their order.
pub fn sort_selector_rows(rows: Vec<SelectorRow>) -> (r: Vec<SelectorRow>)
    ensures
        r@.to_multiset() == rows@.to_multiset(),
        selector_sorted(r@),
        forall|c: SelectorRow| #[trigger] r@.filter(tied_with(c)) == rows@.filter(tied_with(c)),
{
    let ghost all = rows@;
    let mut rest = rows;
    let mut out: Vec<SelectorRow> = Vec::new();
    proof {
        assert(all.take(0) =~= Seq::<SelectorRow>::empty());
        assert(all.skip(0) =~= all);
    }
    while rest.len() > 0
        invariant
            rest@.len() <= all.len(),
            rest@ == all.skip(all.len() - rest@.len()),
            out@.to_multiset() == all.take(all.len() - rest@.len()).to_multiset(),
            selector_sorted(out@),
            forall|c: SelectorRow| #[trigger] out@.filter(tied_with(c)) == all.take(all.len() - rest@.len()).filter(
                tied_with(c),
            ),
        decreases rest.len(),
    {
        let ghost i = all.len() - rest@.len();
        let x = rest.remove(0);
        proof {
            assert(x == all[i]);
            assert(rest@ =~= all.skip(i + 1));
        }
        let mut p: usize = 0;
        while p < out.len() && selector_le_exec(&out[p], &x)
            invariant
                p <= out.len(),
                forall|k: int| 0 <= k < p ==> selector_le(#[trigger] out@[k], x),
            decreases out.len() - p,
        {
            p = p + 1;
        }
        let ghost old = out@;
        proof {
            if p < out.len() {
                lemma_selector_total(out@[p as int], x);
            }
        }
        out.insert(p, x);
        proof {
            assert forall|c: SelectorRow| #[trigger] out@.filter(tied_with(c)) == all.take(i + 1).filter(tied_with(c)) by {
                if ties(x, c) {
                    assert forall|q: int| p <= q < old.len() implies !ties(#[trigger] old[q], c) by {
                        if ties(old[q], c) {
                            lemma_lex_total(x.name@, x.name@);
                            assert(selector_le(old[q], x));
                            if q > p {
                                assert(selector_le(old[p as int], old[q]));
                                lemma_selector_trans(old[p as int], old[q], x);
                            }
                        }
                    }
                }
                lemma_filter_insert(old, p as int, x, c);
                lemma_filter_push(all.take(i), x, c);
                assert(all.take(i + 1) =~= all.take(i).push(x));
            }
            vstd::seq_lib::to_multiset_insert(old, p as int, x);
            assert(all.take(i + 1) =~= all.take(i).push(x));
            vstd::seq_lib::to_multiset_build(all.take(i), x);
            let nv = out@;
            assert forall|a: int, b: int| 0 <= a < b < nv.len() implies selector_le(#[trigger] nv[a], #[trigger] nv[b]) by {
                if b < p {
                    assert(nv[a] == old[a] && nv[b] == old[b]);
                } else if b == p {
                    assert(nv[a] == old[a]);
                } else if a < p {
                    assert(nv[a] == old[a] && nv[b] == old[b - 1]);
                    assert(selector_le(old[a], x));
                    if b - 1 > p {
                        assert(selector_le(old[p as int], old[b - 1]));
                        lemma_selector_trans(x, old[p as int], old[b - 1]);
                    }
                    lemma_selector_trans(old[a], x, old[b - 1]);
                } else if a == p {
                    assert(nv[b] == old[b - 1]);
                    if b - 1 > p {
                        assert(selector_le(old[p as int], old[b - 1]));
                        lemma_selector_trans(x, old[p as int], old[b - 1]);
                    }
                } else {
                    assert(nv[a] == old[a - 1] && nv[b] == old[b - 1]);
                }
            }
        }
    }
    proof {
        assert(all.take(all.len() as int) =~= all);
    }
    out
}

} // verus!
