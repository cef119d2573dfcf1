//! The catalogue of Kokoros voices: their keys, languages, display names,
//! quality grades and traits, and the order in which they are listed.
use vstd::prelude::*;
use vstd::multiset::Multiset;
use crate::chars::{
    append_chars, first_from, join, split_bounds, split_on, sub_vec,
    boundary_index, byte_get, byte_get_from, char_index_of_byte, has_prefix, is_boundary,
    lemma_str_views_push, same_text, starts_with, str_views, string_of, to_chars,
};

verus! {

/// The voice manager: the catalogue of voices and where their files live.
pub struct VoiceManager {}

/// The language a voice speaks.
pub struct Language {
    pub code: String,
    pub name_english: String,
    pub region: String,
}

/// A file of a downloadable voice.
pub struct File {
    pub size_bytes: u64,
    pub md5_digest: String,
}

/// A voice as it is listed to the user.
pub struct Voice {
    pub name: String,
    pub key: String,
    pub language: Language,
    pub quality: String,
    pub traits: String,
    pub is_default: Option<bool>,
}

/// The voice styles the Kokoros engine provides, in its own order.
pub open spec fn kokoros_voice_names() -> Seq<Seq<char>> {
    seq![
        "af_heart"@,
        "af_alloy"@,
        "af_aoede"@,
        "af_bella"@,
        "af_jessica"@,
        "af_kore"@,
        "af_nicole"@,
        "af_nova"@,
        "af_river"@,
        "af_sarah"@,
        "af_sky"@,
        "am_adam"@,
        "am_echo"@,
        "am_eric"@,
        "am_fenrir"@,
        "am_liam"@,
        "am_michael"@,
        "am_onyx"@,
        "am_puck"@,
        "am_santa"@,
        "bf_alice"@,
        "bf_emma"@,
        "bf_isabella"@,
        "bf_lily"@,
        "bm_daniel"@,
        "bm_fable"@,
        "bm_george"@,
        "bm_lewis"@,
        "jf_alpha"@,
        "jf_gongitsune"@,
        "jf_nezumi"@,
        "jf_tebukuro"@,
        "jm_kumo"@,
        "zf_xiaobei"@,
        "zf_xiaoni"@,
        "zf_xiaoxiao"@,
        "zf_xiaoyi"@,
        "zm_yunjian"@,
        "zm_yunxi"@,
        "zm_yunxia"@,
        "zm_yunyang"@,
        "ef_dora"@,
        "em_alex"@,
        "em_santa"@,
        "ff_siwis"@,
        "hf_alpha"@,
        "hf_beta"@,
        "hm_omega"@,
        "hm_psi"@,
        "if_sara"@,
        "im_nicola"@,
        "pf_dora"@,
        "pm_alex"@,
        "pm_santa"@
    ]
}

/// The quality grade of each voice style, in the order of `kokoros_voice_names`.
pub open spec fn quality_grades() -> Seq<Seq<char>> {
    seq![
        "A"@,
        "C"@,
        "C+"@,
        "A-"@,
        "D"@,
        "C+"@,
        "B-"@,
        "C"@,
        "D"@,
        "C+"@,
        "C-"@,
        "F+"@,
        "D"@,
        "D"@,
        "C+"@,
        "D"@,
        "C+"@,
        "D"@,
        "C+"@,
        "D-"@,
        "D"@,
        "B-"@,
        "C"@,
        "D"@,
        "D"@,
        "C"@,
        "C"@,
        "D+"@,
        "C+"@,
        "C"@,
        "C-"@,
        "C"@,
        "C-"@,
        "D"@,
        "D"@,
        "D"@,
        "D"@,
        "D"@,
        "D"@,
        "D"@,
        "D"@,
        "C"@,
        "C"@,
        "C"@,
        "B-"@,
        "C"@,
        "C"@,
        "C"@,
        "C"@,
        "C"@,
        "C"@,
        "C"@,
        "C"@,
        "C"@
    ]
}

/// The language of each two-letter style prefix: code, English name, region, flag.
pub open spec fn language_table() -> Seq<(Seq<char>, (Seq<char>, Seq<char>, Seq<char>, Seq<char>))> {
    seq![
        ("af"@, ("en-US"@, "English"@, "United States"@, "🇺🇸"@)),
        ("am"@, ("en-US"@, "English"@, "United States"@, "🇺🇸"@)),
        ("bf"@, ("en-GB"@, "English"@, "United Kingdom"@, "🇬🇧"@)),
        ("bm"@, ("en-GB"@, "English"@, "United Kingdom"@, "🇬🇧"@)),
        ("jf"@, ("ja"@, "Japanese"@, "Japan"@, "🇯🇵"@)),
        ("jm"@, ("ja"@, "Japanese"@, "Japan"@, "🇯🇵"@)),
        ("zf"@, ("zh-CN"@, "Chinese"@, "China"@, "🇨🇳"@)),
        ("zm"@, ("zh-CN"@, "Chinese"@, "China"@, "🇨🇳"@)),
        ("ef"@, ("es"@, "Spanish"@, "Spain"@, "🇪🇸"@)),
        ("em"@, ("es"@, "Spanish"@, "Spain"@, "🇪🇸"@)),
        ("ff"@, ("fr"@, "French"@, "France"@, "🇫🇷"@)),
        ("fm"@, ("fr"@, "French"@, "France"@, "🇫🇷"@)),
        ("hf"@, ("hi"@, "Hindi"@, "India"@, "🇮🇳"@)),
        ("hm"@, ("hi"@, "Hindi"@, "India"@, "🇮🇳"@)),
        ("if"@, ("it"@, "Italian"@, "Italy"@, "🇮🇹"@)),
        ("im"@, ("it"@, "Italian"@, "Italy"@, "🇮🇹"@)),
        ("pf"@, ("pt-BR"@, "Portuguese"@, "Brazil"@, "🇧🇷"@)),
        ("pm"@, ("pt-BR"@, "Portuguese"@, "Brazil"@, "🇧🇷"@))
    ]
}

/// The special trait of some voice styles.
pub open spec fn special_traits() -> Seq<(Seq<char>, Seq<char>)> {
    seq![
        ("af_heart"@, "❤️"@),
        ("af_bella"@, "🔥"@),
        ("af_nicole"@, "🎧"@),
        ("af_sky"@, "🤏"@),
        ("am_santa"@, "🤏"@),
        ("jf_nezumi"@, "🤏"@),
        ("jm_kumo"@, "🤏"@)
    ]
}

/// The regions in the order in which voices are grouped.
pub open spec fn country_order() -> Seq<Seq<char>> {
    seq![
        "United States"@,
        "United Kingdom"@,
        "Japan"@,
        "China"@,
        "Spain"@,
        "France"@,
        "India"@,
        "Italy"@,
        "Brazil"@
    ]
}

/// The index of the first of `keys[i..]` equal to `key`, or -1.
pub open spec fn first_match_from(keys: Seq<Seq<char>>, key: Seq<char>, i: int) -> int
    decreases keys.len() - i,
{
    if i < 0 || i >= keys.len() {
        -1
    } else if keys[i] == key {
        i
    } else {
        first_match_from(keys, key, i + 1)
    }
}

/// The index of the first of `keys` equal to `key`, or -1.
pub open spec fn first_match(keys: Seq<Seq<char>>, key: Seq<char>) -> int {
    first_match_from(keys, key, 0)
}

/// The first components of the pairs of `t`.
pub open spec fn firsts<X>(t: Seq<(Seq<char>, X)>) -> Seq<Seq<char>> {
    t.map_values(|p: (Seq<char>, X)| p.0)
}

/// The language of American English voices, also given for unknown prefixes.
pub open spec fn us_english() -> (Seq<char>, Seq<char>, Seq<char>, Seq<char>) {
    ("en-US"@, "English"@, "United States"@, "🇺🇸"@)
}

/// The first two bytes of a style, or nothing when they do not form whole characters.
pub open spec fn style_prefix(style: Seq<char>) -> Seq<char> {
    match byte_get(style, 0, 2) {
        Some(p) => p,
        None => seq![],
    }
}

/// The language (code, English name, region, flag) of a voice style, known from
/// its two-letter prefix; American English when the prefix is unknown.
pub open spec fn language_info(style: Seq<char>) -> (Seq<char>, Seq<char>, Seq<char>, Seq<char>) {
    let i = first_match(firsts(language_table()), style_prefix(style));
    if i >= 0 {
        language_table()[i].1
    } else {
        us_english()
    }
}

/// The quality grade of a voice style; C for styles without a grade.
pub open spec fn quality_grade(style: Seq<char>) -> Seq<char> {
    let i = first_match(kokoros_voice_names(), style);
    if i >= 0 {
        quality_grades()[i]
    } else {
        "C"@
    }
}

/// The traits of a voice style: a gender sign from its second byte, followed by
/// its special trait when it has one.
pub open spec fn voice_traits(style: Seq<char>) -> Seq<char> {
    let gender = match byte_get(style, 1, 2) {
        Some(g) => if g == "f"@ {
            "🚺"@
        } else if g == "m"@ {
            "🚹"@
        } else {
            seq![]
        },
        None => seq![],
    };
    let i = first_match(firsts(special_traits()), style);
    if i >= 0 {
        gender + special_traits()[i].1
    } else {
        gender
    }
}


/// What `char::to_uppercase` yields for `c`, gathered into a string.
pub uninterp spec fn upper_case(c: char) -> Seq<char>;

/// A word with its first character in upper case.
pub open spec fn capitalized(part: Seq<char>) -> Seq<char> {
    if part.len() == 0 {
        seq![]
    } else {
        upper_case(part[0]) + part.drop_first()
    }
}

/// When `p` starts with an ASCII lower-case letter, its upper case is the
/// letter 32 code points below it.
pub open spec fn ascii_capital_known(p: Seq<char>) -> bool {
    p.len() > 0 && 'a' <= p[0] && p[0] <= 'z' ==> upper_case(p[0]) == seq![((p[0] as u32) - 32) as char]
}

/// The gender named by the second character of a style.
pub open spec fn gender_name(style: Seq<char>) -> Seq<char> {
    let g = if style.len() >= 2 {
        style[1]
    } else {
        'u'
    };
    if g == 'f' {
        "Female"@
    } else if g == 'm' {
        "Male"@
    } else {
        "Unknown"@
    }
}

/// The name part of a style: what follows its first three bytes, or the whole
/// style when they do not form whole characters.
pub open spec fn name_part(style: Seq<char>) -> Seq<char> {
    match byte_get_from(style, 3) {
        Some(p) => p,
        None => style,
    }
}

/// The display name of a voice style: flag, capitalised name words, gender and region,
/// as in "🇺🇸 Heart - Female United States".
pub open spec fn friendly_name(style: Seq<char>) -> Seq<char> {
    let info = language_info(style);
    let formatted = join(split_on(name_part(style), '_').map_values(|p: Seq<char>| capitalized(p)), " "@);
    info.3 + " "@ + formatted + " - "@ + gender_name(style) + " "@ + info.2
}

/// Lexicographic order of texts by code point (the order of `String`'s `Ord`,
/// which compares UTF-8 bytes).
pub open spec fn lex_le(a: Seq<char>, b: Seq<char>) -> bool
    decreases a.len(),
{
    if a.len() == 0 {
        true
    } else if b.len() == 0 {
        false
    } else if (a[0] as u32) < (b[0] as u32) {
        true
    } else if (a[0] as u32) > (b[0] as u32) {
        false
    } else {
        lex_le(a.drop_first(), b.drop_first())
    }
}

/// The order of voice rows: by region, then by style.
pub open spec fn row_le(a: Seq<char>, b: Seq<char>) -> bool {
    let ra = language_info(a).2;
    let rb = language_info(b).2;
    (lex_le(ra, rb) && ra != rb) || (ra == rb && lex_le(a, b))
}

/// Whether `s` is ordered by `row_le`.
pub open spec fn rows_sorted(s: Seq<Seq<char>>) -> bool {
    forall|i: int, j: int| 0 <= i < j < s.len() ==> row_le(#[trigger] s[i], #[trigger] s[j])
}

/// Whether `v` is the row of the voice style `style`.
pub open spec fn is_row_of(v: Voice, style: Seq<char>) -> bool {
    let info = language_info(style);
    &&& v.key@ == style
    &&& v.name@ == friendly_name(style)
    &&& v.language.code@ == info.0
    &&& v.language.name_english@ == info.1
    &&& v.language.region@ == info.2
    &&& v.quality@ == quality_grade(style)
    &&& v.traits@ == voice_traits(style)
    &&& v.is_default == Some(style == "af_heart"@)
}

/// The keys of the voices of `vs`.
pub open spec fn voice_keys(vs: Seq<Voice>) -> Seq<Seq<char>> {
    vs.map_values(|v: Voice| v.key@)
}

/// The keys of the voices of all groups, counted with multiplicity.
pub open spec fn group_keys(gs: Seq<(String, Vec<Voice>)>) -> Multiset<Seq<char>>
    decreases gs.len(),
{
    if gs.len() == 0 {
        Multiset::empty()
    } else {
        group_keys(gs.drop_last()).add(voice_keys(gs.last().1@).to_multiset())
    }
}

/// Whether `a` comes strictly before `b` in code point order.
pub open spec fn lex_lt(a: Seq<char>, b: Seq<char>) -> bool {
    lex_le(a, b) && a != b
}

/// Whether the voices of `vs` are ordered by display name.
pub open spec fn names_sorted(vs: Seq<Voice>) -> bool {
    forall|i: int, j: int| 0 <= i < j < vs.len() ==> lex_le((#[trigger] vs[i]).name@, (#[trigger] vs[j]).name@)
}

/// Whether `g` is a group of voices of one region: not empty, each voice the
/// row of its own style and of the group's region, ordered by display name.
pub open spec fn is_region_group(g: (String, Vec<Voice>)) -> bool {
    &&& g.1.len() > 0
    &&& names_sorted(g.1@)
    &&& forall|k: int| 0 <= k < g.1.len() ==> {
        &&& (#[trigger] g.1@[k]).language.region@ == g.0@
        &&& is_row_of(g.1@[k], g.1@[k].key@)
    }
}

/// The keys of voice entries.
pub open spec fn entry_keys(es: Seq<(String, Voice)>) -> Seq<Seq<char>> {
    es.map_values(|e: (String, Voice)| e.0@)
}

/// `a < x`, and `x` not after `d`, where `d` is `c` or before it, give `a < c`.
pub(crate) proof fn lemma_lt_before_after(a: Seq<char>, x: Seq<char>, c: Seq<char>, d: Seq<char>)
    requires
        lex_lt(a, x),
        !lex_lt(d, x),
        d == c || lex_lt(d, c),
    ensures
        lex_lt(a, c),
{
    lemma_lex_total(d, x);
    lemma_lex_total(x, c);
    lemma_lex_total(a, c);
    if d == c {
        lemma_lex_trans(a, x, c);
    } else {
        lemma_lex_trans(x, d, c);
        lemma_lex_trans(a, x, c);
    }
    if a == c {
        lemma_lex_total(x, c);
    }
}

/// `x < d < c` gives `x < c`.
pub(crate) proof fn lemma_lt_chain(x: Seq<char>, d: Seq<char>, c: Seq<char>)
    requires
        lex_lt(x, d),
        lex_lt(d, c),
    ensures
        lex_lt(x, c),
{
    lemma_lex_trans(x, d, c);
    lemma_lex_total(x, c);
    lemma_lex_total(d, c);
    if x == c {
        lemma_lex_total(x, d);
    }
}

pub proof fn lemma_lex_total(a: Seq<char>, b: Seq<char>)
    ensures
        lex_le(a, b) || lex_le(b, a),
        lex_le(a, b) && lex_le(b, a) ==> a == b,
    decreases a.len(),
{
    if a.len() > 0 && b.len() > 0 && (a[0] as u32) == (b[0] as u32) {
        lemma_lex_total(a.drop_first(), b.drop_first());
        if lex_le(a, b) && lex_le(b, a) {
            vstd::utf8::char_u32_cast(a[0], a[0] as u32);
            vstd::utf8::char_u32_cast(b[0], b[0] as u32);
            assert(a[0] == b[0]);
            assert(a =~= seq![a[0]] + a.drop_first());
            assert(b =~= seq![b[0]] + b.drop_first());
        }
    } else if a.len() == 0 && b.len() == 0 {
        assert(a =~= b);
    }
}

pub proof fn lemma_lex_trans(a: Seq<char>, b: Seq<char>, c: Seq<char>)
    requires
        lex_le(a, b),
        lex_le(b, c),
    ensures
        lex_le(a, c),
    decreases a.len(),
{
    if a.len() > 0 && b.len() > 0 && c.len() > 0 && (a[0] as u32) == (b[0] as u32) && (b[0] as u32)
        == (c[0] as u32) {
        lemma_lex_trans(a.drop_first(), b.drop_first(), c.drop_first());
    }
}

pub proof fn lemma_row_total(a: Seq<char>, b: Seq<char>)
    ensures
        row_le(a, b) || row_le(b, a),
{
    lemma_lex_total(language_info(a).2, language_info(b).2);
    lemma_lex_total(a, b);
}

pub proof fn lemma_row_trans(a: Seq<char>, b: Seq<char>, c: Seq<char>)
    requires
        row_le(a, b),
        row_le(b, c),
    ensures
        row_le(a, c),
{
    let ra = language_info(a).2;
    let rb = language_info(b).2;
    let rc = language_info(c).2;
    lemma_lex_total(ra, rb);
    lemma_lex_total(rb, rc);
    lemma_lex_total(ra, rc);
    if ra == rb && rb == rc {
        lemma_lex_trans(a, b, c);
    } else {
        lemma_lex_trans(ra, rb, rc);
    }
}

pub proof fn lemma_first_match_from(keys: Seq<Seq<char>>, key: Seq<char>, i: int)
    requires
        0 <= i <= keys.len(),
    ensures
        first_match_from(keys, key, i) == -1 || (i <= first_match_from(keys, key, i) < keys.len()
            && keys[first_match_from(keys, key, i)] == key),
        forall|j: int| i <= j < keys.len() && keys[j] == key ==> first_match_from(keys, key, i) != -1
            && first_match_from(keys, key, i) <= j,
    decreases keys.len() - i,
{
    if i < keys.len() && keys[i] != key {
        lemma_first_match_from(keys, key, i + 1);
    }
}

/// The index of the first of `keys` that holds the text `key`.
pub(crate) fn position_of(keys: &Vec<&'static str>, key: &str) -> (r: Option<usize>)
    ensures
        match r {
            Some(i) => i < keys.len() && first_match(keys@.map_values(|k: &str| k@), key@) == i,
            None => first_match(keys@.map_values(|k: &str| k@), key@) == -1,
        },
{
    let ghost ks = keys@.map_values(|k: &str| k@);
    let mut i: usize = 0;
    while i < keys.len()
        invariant
            i <= keys.len() == ks.len(),
            ks == keys@.map_values(|k: &str| k@),
            first_match(ks, key@) == first_match_from(ks, key@, i as int),
        decreases keys.len() - i,
    {
        if same_text(keys[i], key) {
            return Some(i);
        }
        i = i + 1;
    }
    None
}

/// Turns a list of literals into strings.
fn strings_of(v: &Vec<&'static str>) -> (r: Vec<String>)
    ensures
        str_views(r@) == v@.map_values(|k: &str| k@),
{
    let mut r: Vec<String> = Vec::new();
    let mut i: usize = 0;
    while i < v.len()
        invariant
            i <= v.len(),
            str_views(r@) == v@.take(i as int).map_values(|k: &str| k@),
        decreases v.len() - i,
    {
        let s = v[i].to_string();
        proof {
            lemma_str_views_push(r@, s);
            assert(v@.take(i + 1).map_values(|k: &str| k@) =~= v@.take(i as int).map_values(|k: &str| k@).push(v@[i as int]@));
        }
        r.push(s);
        i = i + 1;
    }
    proof {
        assert(v@.take(v.len() as int) =~= v@);
    }
    r
}

pub(crate) fn voice_name_literals() -> (r: Vec<&'static str>)
    ensures
        r@.map_values(|k: &str| k@) == kokoros_voice_names(),
{
    let r = vec![
        "af_heart",
        "af_alloy",
        "af_aoede",
        "af_bella",
        "af_jessica",
        "af_kore",
        "af_nicole",
        "af_nova",
        "af_river",
        "af_sarah",
        "af_sky",
        "am_adam",
        "am_echo",
        "am_eric",
        "am_fenrir",
        "am_liam",
        "am_michael",
        "am_onyx",
        "am_puck",
        "am_santa",
        "bf_alice",
        "bf_emma",
        "bf_isabella",
        "bf_lily",
        "bm_daniel",
        "bm_fable",
        "bm_george",
        "bm_lewis",
        "jf_alpha",
        "jf_gongitsune",
        "jf_nezumi",
        "jf_tebukuro",
        "jm_kumo",
        "zf_xiaobei",
        "zf_xiaoni",
        "zf_xiaoxiao",
        "zf_xiaoyi",
        "zm_yunjian",
        "zm_yunxi",
        "zm_yunxia",
        "zm_yunyang",
        "ef_dora",
        "em_alex",
        "em_santa",
        "ff_siwis",
        "hf_alpha",
        "hf_beta",
        "hm_omega",
        "hm_psi",
        "if_sara",
        "im_nicola",
        "pf_dora",
        "pm_alex",
        "pm_santa"
    ];
    assert(r@.map_values(|k: &str| k@) =~= kokoros_voice_names());
    r
}

fn quality_literals() -> (r: Vec<&'static str>)
    ensures
        r@.map_values(|k: &str| k@) == quality_grades(),
{
    let r = vec![
        "A",
        "C",
        "C+",
        "A-",
        "D",
        "C+",
        "B-",
        "C",
        "D",
        "C+",
        "C-",
        "F+",
        "D",
        "D",
        "C+",
        "D",
        "C+",
        "D",
        "C+",
        "D-",
        "D",
        "B-",
        "C",
        "D",
        "D",
        "C",
        "C",
        "D+",
        "C+",
        "C",
        "C-",
        "C",
        "C-",
        "D",
        "D",
        "D",
        "D",
        "D",
        "D",
        "D",
        "D",
        "C",
        "C",
        "C",
        "B-",
        "C",
        "C",
        "C",
        "C",
        "C",
        "C",
        "C",
        "C",
        "C"
    ];
    assert(r@.map_values(|k: &str| k@) =~= quality_grades());
    r
}

fn language_prefixes() -> (r: Vec<&'static str>)
    ensures
        r@.map_values(|k: &str| k@) == firsts(language_table()),
{
    let r = vec![
        "af",
        "am",
        "bf",
        "bm",
        "jf",
        "jm",
        "zf",
        "zm",
        "ef",
        "em",
        "ff",
        "fm",
        "hf",
        "hm",
        "if",
        "im",
        "pf",
        "pm"
    ];
    assert(r@.map_values(|k: &str| k@) =~= firsts(language_table()));
    r
}

fn language_rows() -> (r: Vec<(&'static str, &'static str, &'static str, &'static str)>)
    ensures
        r.len() == language_table().len(),
        forall|i: int| 0 <= i < r.len() ==> (#[trigger] r@[i]).0@ == language_table()[i].1.0 && r@[i].1@
            == language_table()[i].1.1 && r@[i].2@ == language_table()[i].1.2 && r@[i].3@
            == language_table()[i].1.3,
{
    let r = vec![
        ("en-US", "English", "United States", "🇺🇸"),
        ("en-US", "English", "United States", "🇺🇸"),
        ("en-GB", "English", "United Kingdom", "🇬🇧"),
        ("en-GB", "English", "United Kingdom", "🇬🇧"),
        ("ja", "Japanese", "Japan", "🇯🇵"),
        ("ja", "Japanese", "Japan", "🇯🇵"),
        ("zh-CN", "Chinese", "China", "🇨🇳"),
        ("zh-CN", "Chinese", "China", "🇨🇳"),
        ("es", "Spanish", "Spain", "🇪🇸"),
        ("es", "Spanish", "Spain", "🇪🇸"),
        ("fr", "French", "France", "🇫🇷"),
        ("fr", "French", "France", "🇫🇷"),
        ("hi", "Hindi", "India", "🇮🇳"),
        ("hi", "Hindi", "India", "🇮🇳"),
        ("it", "Italian", "Italy", "🇮🇹"),
        ("it", "Italian", "Italy", "🇮🇹"),
        ("pt-BR", "Portuguese", "Brazil", "🇧🇷"),
        ("pt-BR", "Portuguese", "Brazil", "🇧🇷")
    ];
    r
}

fn special_keys() -> (r: Vec<&'static str>)
    ensures
        r@.map_values(|k: &str| k@) == firsts(special_traits()),
{
    let r = vec![
        "af_heart",
        "af_bella",
        "af_nicole",
        "af_sky",
        "am_santa",
        "jf_nezumi",
        "jm_kumo"
    ];
    assert(r@.map_values(|k: &str| k@) =~= firsts(special_traits()));
    r
}

fn special_values() -> (r: Vec<&'static str>)
    ensures
        r.len() == special_traits().len(),
        forall|i: int| 0 <= i < r.len() ==> (#[trigger] r@[i])@ == special_traits()[i].1,
{
    let r = vec![
        "❤️",
        "🔥",
        "🎧",
        "🤏",
        "🤏",
        "🤏",
        "🤏"
    ];
    r
}

/// The text of `v[lo..hi]` when `lo..hi` is the byte range `a..b` of `v`.
fn byte_range(v: &Vec<char>, a: usize, b: usize) -> (r: Option<String>)
    ensures
        match r {
            Some(s) => byte_get(v@, a as int, b as int) == Some(s@),
            None => byte_get(v@, a as int, b as int) is None,
        },
{
    let i = boundary_index(v, a);
    let j = boundary_index(v, b);
    match (i, j) {
        (Some(i), Some(j)) => {
            if i <= j {
                Some(string_of(v, i, j))
            } else {
                None
            }
        },
        _ => None,
    }
}


/// `c` in upper case, as `char::to_uppercase` gives it (one or more characters).
/// Claimed of std: an ASCII lower-case letter becomes the upper-case letter 32
/// code points below it; other characters are left to the name.
#[verifier::external_body]
fn to_upper(c: char) -> (r: String)
    ensures
        r@ == upper_case(c),
        'a' <= c && c <= 'z' ==> r@ == seq![((c as u32) - 32) as char],
{
    c.to_uppercase().collect()
}

/// `lex_le` on character vectors.
pub(crate) fn lex_le_chars(a: &Vec<char>, b: &Vec<char>) -> (r: bool)
    ensures
        r == lex_le(a@, b@),
{
    let mut i: usize = 0;
    proof {
        assert(a@.skip(0) =~= a@);
        assert(b@.skip(0) =~= b@);
    }
    while i < a.len() && i < b.len() && a[i] == b[i]
        invariant
            i <= a.len(),
            i <= b.len(),
            lex_le(a@, b@) == lex_le(a@.skip(i as int), b@.skip(i as int)),
        decreases a.len() - i,
    {
        proof {
            assert(a@.skip(i as int).drop_first() =~= a@.skip(i + 1));
            assert(b@.skip(i as int).drop_first() =~= b@.skip(i + 1));
        }
        i = i + 1;
    }
    proof {
        if i < a.len() && i < b.len() {
            vstd::utf8::char_u32_cast(a@[i as int], a@[i as int] as u32);
            vstd::utf8::char_u32_cast(b@[i as int], b@[i as int] as u32);
            assert(a@.skip(i as int)[0] == a@[i as int]);
            assert(b@.skip(i as int)[0] == b@[i as int]);
        }
    }
    if i == a.len() {
        true
    } else if i == b.len() {
        false
    } else {
        (a[i] as u32) < (b[i] as u32)
    }
}

/// Whether the row of style `a` comes no later than that of `b`.
fn row_le_exec(a: &String, b: &String) -> (r: bool)
    ensures
        r == row_le(a@, b@),
{
    let ia = VoiceManager::get_language_info_from_voice_style(a.as_str());
    let ib = VoiceManager::get_language_info_from_voice_style(b.as_str());
    let ra = to_chars(ia.2.as_str());
    let rb = to_chars(ib.2.as_str());
    let same_region = same_text(ia.2.as_str(), ib.2.as_str());
    if same_region {
        let ca = to_chars(a.as_str());
        let cb = to_chars(b.as_str());
        lex_le_chars(&ca, &cb)
    } else {
        lex_le_chars(&ra, &rb)
    }
}

/// The styles ordered by region, then by style (a stable insertion sort).
fn sort_styles(styles: Vec<String>) -> (r: Vec<String>)
    ensures
        str_views(r@).to_multiset() == str_views(styles@).to_multiset(),
        rows_sorted(str_views(r@)),
{
    let mut out: Vec<String> = Vec::new();
    let mut i: usize = 0;
    proof {
        assert(str_views(out@) =~= str_views(styles@.take(0)));
    }
    while i < styles.len()
        invariant
            i <= styles.len(),
            str_views(out@).to_multiset() == str_views(styles@.take(i as int)).to_multiset(),
            rows_sorted(str_views(out@)),
        decreases styles.len() - i,
    {
        let x = styles[i].clone();
        let mut p: usize = 0;
        while p < out.len() && row_le_exec(&out[p], &x)
            invariant
                p <= out.len(),
                forall|k: int| 0 <= k < p ==> row_le(#[trigger] out@[k]@, x@),
            decreases out.len() - p,
        {
            p = p + 1;
        }
        let ghost old = str_views(out@);
        proof {
            if p < out.len() {
                lemma_row_total(out@[p as int]@, x@);
            }
        }
        out.insert(p, x);
        proof {
            assert(str_views(out@) =~= old.insert(p as int, x@));
            vstd::seq_lib::to_multiset_insert(old, p as int, x@);
            assert(str_views(styles@.take(i + 1)) =~= str_views(styles@.take(i as int)).push(x@));
            vstd::seq_lib::to_multiset_build(str_views(styles@.take(i as int)), x@);
            let nv = str_views(out@);
            assert forall|a: int, b: int| 0 <= a < b < nv.len() implies row_le(#[trigger] nv[a], #[trigger] nv[b]) by {
                if b < p {
                    assert(nv[a] == old[a] && nv[b] == old[b]);
                } else if b == p {
                    assert(nv[a] == old[a]);
                    assert(row_le(out@[a]@, x@));
                } else if a < p {
                    assert(nv[a] == old[a] && nv[b] == old[b - 1]);
                    assert(row_le(old[a], x@));
                    assert(!row_le(old[p as int], x@));
                    if b - 1 > p {
                        assert(row_le(old[p as int], old[b - 1]));
                        lemma_row_trans(x@, old[p as int], old[b - 1]);
                    }
                    lemma_row_trans(old[a], x@, old[b - 1]);
                } else if a == p {
                    assert(nv[b] == old[b - 1]);
                    assert(!row_le(old[p as int], x@));
                    if b - 1 > p {
                        assert(row_le(old[p as int], old[b - 1]));
                        lemma_row_trans(x@, old[p as int], old[b - 1]);
                    }
                } else {
                    assert(nv[a] == old[a - 1] && nv[b] == old[b - 1]);
                }
            }
        }
        i = i + 1;
    }
    proof {
        assert(styles@.take(styles.len() as int) =~= styles@);
    }
    out
}

/// Inserts `v` into `vs` after the voices whose display name does not come
/// after its own.
fn insert_by_name(vs: &mut Vec<Voice>, v: Voice) -> (p: usize)
    requires
        names_sorted(old(vs)@),
    ensures
        p <= old(vs).len(),
        final(vs)@ == old(vs)@.insert(p as int, v),
        names_sorted(final(vs)@),
{
    let name = to_chars(v.name.as_str());
    let mut p: usize = 0;
    while p < vs.len() && lex_le_chars(&to_chars(vs[p].name.as_str()), &name)
        invariant
            p <= vs.len(),
            name@ == v.name@,
            forall|k: int| 0 <= k < p ==> lex_le((#[trigger] vs@[k]).name@, v.name@),
        decreases vs.len() - p,
    {
        p = p + 1;
    }
    let ghost old_vs = vs@;
    proof {
        if p < vs.len() {
            lemma_lex_total(vs@[p as int].name@, v.name@);
        }
    }
    vs.insert(p, v);
    proof {
        let nv = vs@;
        assert forall|a: int, b: int| 0 <= a < b < nv.len() implies lex_le((#[trigger] nv[a]).name@, (#[trigger] nv[b]).name@) by {
            if b < p {
                assert(nv[a] == old_vs[a] && nv[b] == old_vs[b]);
            } else if b == p {
                assert(nv[a] == old_vs[a]);
            } else if a < p {
                assert(nv[a] == old_vs[a] && nv[b] == old_vs[b - 1]);
                if b - 1 > p {
                    assert(lex_le(old_vs[p as int].name@, old_vs[b - 1].name@));
                    lemma_lex_trans(v.name@, old_vs[p as int].name@, old_vs[b - 1].name@);
                }
                lemma_lex_trans(old_vs[a].name@, v.name@, old_vs[b - 1].name@);
            } else if a == p {
                assert(nv[b] == old_vs[b - 1]);
                if b - 1 > p {
                    assert(lex_le(old_vs[p as int].name@, old_vs[b - 1].name@));
                    lemma_lex_trans(v.name@, old_vs[p as int].name@, old_vs[b - 1].name@);
                }
            } else {
                assert(nv[a] == old_vs[a - 1] && nv[b] == old_vs[b - 1]);
            }
        }
    }
    p
}

impl VoiceManager {
    /// The voice styles the Kokoros engine provides.
    pub fn get_kokoros_voices() -> (r: Vec<String>)
        ensures
            str_views(r@) == kokoros_voice_names(),
    {
        let lits = voice_name_literals();
        strings_of(&lits)
    }

    /// Whether a voice key names a Kokoros voice.
    pub fn is_kokoros_voice(voice_key: &str) -> (r: bool)
        ensures
            r == has_prefix(voice_key@, "kokoros_"@),
    {
        starts_with(voice_key, "kokoros_")
    }

    /// The Kokoros style a voice key names: what follows the `kokoros_` prefix,
    /// or `af_sky` for other keys.
    pub fn get_kokoros_style_from_key(voice_key: &str) -> (r: String)
        ensures
            r@ == if has_prefix(voice_key@, "kokoros_"@) {
                voice_key@.skip("kokoros_"@.len() as int)
            } else {
                "af_sky"@
            },
    {
        let prefix = "kokoros_";
        if starts_with(voice_key, prefix) {
            let v = to_chars(voice_key);
            let p = to_chars(prefix);
            let n = v.len();
            let r = string_of(&v, p.len(), n);
            proof {
                assert(v@.subrange(p.len() as int, n as int) =~= voice_key@.skip(prefix@.len() as int));
            }
            r
        } else {
            "af_sky".to_string()
        }
    }

    /// The language of a voice style: code, English name, region and flag.
    pub fn get_language_info_from_voice_style(voice_style: &str) -> (r: (String, String, String, String))
        ensures
            (r.0@, r.1@, r.2@, r.3@) == language_info(voice_style@),
    {
        let v = to_chars(voice_style);
        let prefix = match byte_range(&v, 0, 2) {
            Some(p) => p,
            None => String::new(),
        };
        let keys = language_prefixes();
        match position_of(&keys, prefix.as_str()) {
            Some(i) => {
                let rows = language_rows();
                let row = rows[i];
                (row.0.to_string(), row.1.to_string(), row.2.to_string(), row.3.to_string())
            },
            None => ("en-US".to_string(), "English".to_string(), "United States".to_string(), "🇺🇸".to_string()),
        }
    }

    /// The traits of a voice style: a gender sign and, for some styles, a special trait.
    pub fn get_voice_traits(voice_style: &str) -> (r: String)
        ensures
            r@ == voice_traits(voice_style@),
    {
        let v = to_chars(voice_style);
        let mut traits = match byte_range(&v, 1, 2) {
            Some(g) => if same_text(g.as_str(), "f") {
                "🚺".to_string()
            } else if same_text(g.as_str(), "m") {
                "🚹".to_string()
            } else {
                String::new()
            },
            None => String::new(),
        };
        let keys = special_keys();
        match position_of(&keys, voice_style) {
            Some(i) => {
                let vals = special_values();
                traits.append(vals[i]);
            },
            None => {},
        }
        traits
    }


    /// The display name of a voice style.
    pub fn get_friendly_voice_name(voice_style: &str) -> (r: String)
        ensures
            r@ == friendly_name(voice_style@),
            forall|j: int|
                0 <= j < split_on(name_part(voice_style@), '_').len() ==> ascii_capital_known(
                    #[trigger] split_on(name_part(voice_style@), '_')[j],
                ),
    {
        let info = VoiceManager::get_language_info_from_voice_style(voice_style);
        let v = to_chars(voice_style);
        let g = if v.len() >= 2 {
            v[1]
        } else {
            'u'
        };
        let gender = if g == 'f' {
            "Female"
        } else if g == 'm' {
            "Male"
        } else {
            "Unknown"
        };
        let part = match boundary_index(&v, 3) {
            Some(k) => sub_vec(&v, k, v.len()),
            None => sub_vec(&v, 0, v.len()),
        };
        proof {
            assert(v@.subrange(0, v.len() as int) =~= v@);
            if is_boundary(v@, 3) {
                assert(v@.subrange(char_index_of_byte(v@, 3), v.len() as int) =~= v@.skip(char_index_of_byte(v@, 3)));
            }
        }
        assert(part@ == name_part(voice_style@));
        let bounds = split_bounds(&part, '_');
        let ghost pieces = split_on(part@, '_');
        let ghost caps = pieces.map_values(|p: Seq<char>| capitalized(p));
        let mut formatted: Vec<char> = Vec::new();
        let mut k: usize = 0;
        while k < bounds.len()
            invariant
                k <= bounds.len() == pieces.len() == caps.len(),
                pieces == split_on(part@, '_'),
                caps == pieces.map_values(|p: Seq<char>| capitalized(p)),
                forall|j: int| 0 <= j < bounds.len() ==> #[trigger] bounds@[j].0 <= bounds@[j].1 <= part.len(),
                forall|j: int|
                    0 <= j < bounds.len() ==> part@.subrange(bounds@[j].0 as int, bounds@[j].1 as int)
                        == #[trigger] pieces[j],
                formatted@ == join(caps.take(k as int), " "@),
                forall|j: int| 0 <= j < k ==> ascii_capital_known(#[trigger] pieces[j]),
            decreases bounds.len() - k,
        {
            let (a, b) = bounds[k];
            assert(part@.subrange(a as int, b as int) == pieces[k as int]);
            let ghost before = formatted@;
            if k > 0 {
                formatted.push(' ');
            }
            if a < b {
                let up = to_upper(part[a]);
                let uc = to_chars(up.as_str());
                append_chars(&mut formatted, &uc, 0, uc.len());
                append_chars(&mut formatted, &part, a + 1, b);
                proof {
                    assert(uc@.subrange(0, uc.len() as int) =~= uc@);
                    assert(part@.subrange(a + 1, b as int) =~= pieces[k as int].drop_first());
                    assert(pieces[k as int][0] == part@[a as int]);
                }
            }
            assert(ascii_capital_known(pieces[k as int]));
            proof {
                reveal_strlit(" ");
                assert(caps.take(k + 1) =~= caps.take(k as int).push(caps[k as int]));
                crate::sentences::lemma_join_push(caps.take(k as int), caps[k as int], " "@);
                if k > 0 {
                    assert(formatted@ =~= before + " "@ + caps[k as int]);
                } else {
                    assert(formatted@ =~= caps[k as int]);
                }
            }
            k = k + 1;
        }
        proof {
            assert(caps.take(bounds.len() as int) =~= caps);
        }
        let mut name = info.3;
        name.append(" ");
        let fs = string_of(&formatted, 0, formatted.len());
        proof {
            assert(formatted@.subrange(0, formatted.len() as int) =~= formatted@);
        }
        name.append(fs.as_str());
        name.append(" - ");
        name.append(gender);
        name.append(" ");
        name.append(info.2.as_str());
        name
    }

    /// The Kokoros voices as rows of the voice list, ordered by region, then by style.
    pub fn get_kokoros_voice_rows() -> (r: Vec<Voice>)
        ensures
            voice_keys(r@).to_multiset() == kokoros_voice_names().to_multiset(),
            rows_sorted(voice_keys(r@)),
            forall|i: int| 0 <= i < r.len() ==> is_row_of(#[trigger] r@[i], r@[i].key@),
    {
        let styles = VoiceManager::get_kokoros_voices();
        let sorted = sort_styles(styles);
        let mut rows: Vec<Voice> = Vec::new();
        let mut i: usize = 0;
        while i < sorted.len()
            invariant
                i <= sorted.len(),
                rows.len() == i,
                forall|k: int| 0 <= k < i ==> (#[trigger] rows@[k]).key@ == sorted@[k]@,
                forall|k: int| 0 <= k < i ==> is_row_of(#[trigger] rows@[k], rows@[k].key@),
            decreases sorted.len() - i,
        {
            let style = &sorted[i];
            let info = VoiceManager::get_language_info_from_voice_style(style.as_str());
            let v = Voice {
                name: VoiceManager::get_friendly_voice_name(style.as_str()),
                key: style.clone(),
                language: Language { code: info.0, name_english: info.1, region: info.2 },
                quality: VoiceManager::get_voice_quality_grade(style.as_str()),
                traits: VoiceManager::get_voice_traits(style.as_str()),
                is_default: Some(same_text(style.as_str(), "af_heart")),
            };
            rows.push(v);
            i = i + 1;
        }
        proof {
            assert(voice_keys(rows@) =~= str_views(sorted@));
        }
        rows
    }

    /// The Kokoros voices grouped by region, the groups in order of region,
    /// the voices of each group in order of display name.
    pub fn get_voices_grouped_by_country() -> (r: Vec<(String, Vec<Voice>)>)
        ensures
            group_keys(r@) == kokoros_voice_names().to_multiset(),
            forall|i: int| 0 <= i < r.len() ==> is_region_group(#[trigger] r@[i]),
            forall|i: int, j: int| 0 <= i < j < r.len() ==> lex_lt((#[trigger] r@[i]).0@, (#[trigger] r@[j]).0@),
    {
        let mut rest = VoiceManager::get_kokoros_voice_rows();
        let ghost rows = rest@;
        let mut groups: Vec<(String, Vec<Voice>)> = Vec::new();
        let ghost mut t: int = 0;
        proof {
            assert(rows.skip(0) =~= rows);
            assert(voice_keys(rows.take(0)) =~= Seq::<Seq<char>>::empty());
            vstd::seq_lib::to_multiset_len(voice_keys(rows.take(0)));
            vstd::multiset::lemma_multiset_empty_len(voice_keys(rows.take(0)).to_multiset());
        }
        while rest.len() > 0
            invariant
                0 <= t <= rows.len(),
                rest@ == rows.skip(t),
                rows_sorted(voice_keys(rows)),
                forall|i: int| 0 <= i < rows.len() ==> is_row_of(#[trigger] rows[i], rows[i].key@),
                group_keys(groups@) == voice_keys(rows.take(t)).to_multiset(),
                forall|i: int| 0 <= i < groups.len() ==> is_region_group(#[trigger] groups@[i]),
                forall|i: int, j: int| 0 <= i < j < groups.len() ==> lex_lt((#[trigger] groups@[i]).0@, (#[trigger] groups@[j]).0@),
                t == 0 <==> groups.len() == 0,
                t > 0 ==> groups@.last().0@ == rows[t - 1].language.region@,
            decreases rest.len(),
        {
            let v = rest.remove(0);
            proof {
                assert(v == rows[t]);
                assert(rest@ =~= rows.skip(t + 1));
                assert(voice_keys(rows.take(t + 1)) =~= voice_keys(rows.take(t)).push(v.key@));
                vstd::seq_lib::to_multiset_build(voice_keys(rows.take(t)), v.key@);
                assert(voice_keys(rows)[t] == v.key@);
            }
            let ghost g0 = groups@;
            let n = groups.len();
            let same = n > 0 && same_text(groups[n - 1].0.as_str(), v.language.region.as_str());
            if same {
                let last = groups.pop();
                match last {
                    Some(g) => {
                        let (region, mut vs) = g;
                        let ghost old_vs = vs@;
                        let p = insert_by_name(&mut vs, v);
                        proof {
                            assert(voice_keys(vs@) =~= voice_keys(old_vs).insert(p as int, rows[t].key@));
                            vstd::seq_lib::to_multiset_insert(voice_keys(old_vs), p as int, rows[t].key@);
                            assert(forall|k: int| 0 <= k < vs.len() ==> #[trigger] vs@[k] == rows[t] || vs@[k] == old_vs[if k < p { k } else { k - 1 }]);
                        }
                        let ghost before = groups@;
                        groups.push((region, vs));
                        proof {
                            assert(groups@.drop_last() =~= before);
                            assert(g0.drop_last() =~= before);
                            assert(g0.last().1@ == old_vs);
                            broadcast use vstd::multiset::group_multiset_axioms;
                            assert(group_keys(groups@) =~= group_keys(g0).insert(rows[t].key@));
                        }
                    },
                    None => {},
                }
            } else {
                let region = v.language.region.clone();
                let ghost before = groups@;
                let mut vs: Vec<Voice> = Vec::new();
                vs.push(v);
                groups.push((region, vs));
                proof {
                    assert(groups@.drop_last() =~= before);
                    assert(voice_keys(vs@) =~= seq![rows[t].key@]);
                    assert(seq![rows[t].key@] =~= Seq::<Seq<char>>::empty().push(rows[t].key@));
                    vstd::seq_lib::to_multiset_build(Seq::<Seq<char>>::empty(), rows[t].key@);
                    vstd::seq_lib::to_multiset_len(Seq::<Seq<char>>::empty());
                    vstd::multiset::lemma_multiset_empty_len(Seq::<Seq<char>>::empty().to_multiset());
                    broadcast use vstd::multiset::group_multiset_axioms;
                    assert(group_keys(groups@) =~= group_keys(g0).insert(rows[t].key@));
                    if t > 0 {
                        let prev = rows[t - 1].language.region@;
                        let cur = rows[t].language.region@;
                        assert(row_le(voice_keys(rows)[t - 1], voice_keys(rows)[t]));
                        assert(lex_lt(prev, cur)) by {
                            lemma_lex_total(prev, cur);
                        }
                        assert forall|i: int, j: int| 0 <= i < j < groups.len() implies lex_lt((#[trigger] groups@[i]).0@, (#[trigger] groups@[j]).0@) by {
                            if j == groups.len() - 1 && i < j - 1 {
                                let gi = groups@[i].0@;
                                assert(lex_lt(gi, prev));
                                lemma_lex_trans(gi, prev, cur);
                                lemma_lex_total(gi, cur);
                                if gi == cur {
                                    lemma_lex_total(prev, cur);
                                }
                            }
                        }
                    }
                }
            }
            proof {
                t = t + 1;
            }
        }
        proof {
            assert(rows.take(t) =~= rows);
        }
        groups
    }

    /// Every Kokoros voice under its key, in order of key.
    #[verifier::rlimit(50)]
    pub fn list_all_available_voices_with_kokoros() -> (r: Vec<(String, Voice)>)
        ensures
            forall|i: int, j: int| 0 <= i < j < r.len() ==> lex_lt((#[trigger] r@[i]).0@, (#[trigger] r@[j]).0@),
            forall|i: int| 0 <= i < r.len() ==> (#[trigger] r@[i]).0@ == r@[i].1.key@ && is_row_of(r@[i].1, r@[i].0@),
            forall|x: Seq<char>| entry_keys(r@).contains(x) <==> kokoros_voice_names().contains(x),
    {
        let mut rest = VoiceManager::get_kokoros_voice_rows();
        let ghost rows = rest@;
        let ghost keys = voice_keys(rows);
        let mut out: Vec<(String, Voice)> = Vec::new();
        let ghost mut t: int = 0;
        proof {
            assert(rows.skip(0) =~= rows);
        }
        while rest.len() > 0
            invariant
                0 <= t <= rows.len(),
                rest@ == rows.skip(t),
                keys == voice_keys(rows),
                forall|i: int| 0 <= i < rows.len() ==> is_row_of(#[trigger] rows[i], rows[i].key@),
                forall|i: int, j: int| 0 <= i < j < out.len() ==> lex_lt((#[trigger] out@[i]).0@, (#[trigger] out@[j]).0@),
                forall|i: int| 0 <= i < out.len() ==> (#[trigger] out@[i]).0@ == out@[i].1.key@ && is_row_of(out@[i].1, out@[i].0@),
                forall|x: Seq<char>| entry_keys(out@).contains(x) <==> keys.take(t).contains(x),
            decreases rest.len(),
        {
            let v = rest.remove(0);
            let key = v.key.clone();
            let kc = to_chars(key.as_str());
            proof {
                assert(v == rows[t]);
                assert(rest@ =~= rows.skip(t + 1));
                assert(keys.take(t + 1) =~= keys.take(t).push(key@));
                assert(keys[t] == key@);
            }
            let mut p: usize = 0;
            while p < out.len() && lex_le_chars(&to_chars(out[p].0.as_str()), &kc) && !same_text(out[p].0.as_str(), key.as_str())
                invariant
                    p <= out.len(),
                    kc@ == key@,
                    forall|k: int| 0 <= k < p ==> lex_lt((#[trigger] out@[k]).0@, key@),
                decreases out.len() - p,
            {
                p = p + 1;
            }
            let ghost old = out@;
            let ghost old_keys = entry_keys(out@);
            if p < out.len() && same_text(out[p].0.as_str(), key.as_str()) {
                out.set(p, (key, v));
                proof {
                    assert(entry_keys(out@) =~= old_keys);
                    assert forall|y: Seq<char>| entry_keys(out@).contains(y) <==> keys.take(t + 1).contains(y) by {
                        if keys.take(t + 1).contains(y) {
                            let k = choose|k: int| 0 <= k < keys.take(t + 1).len() && #[trigger] keys.take(t + 1)[k] == y;
                            if k < t {
                                assert(keys.take(t)[k] == y);
                            } else {
                                assert(old_keys[p as int] == y);
                            }
                        }
                        if entry_keys(out@).contains(y) {
                            assert(keys.take(t).contains(y));
                            let k = choose|k: int| 0 <= k < keys.take(t).len() && #[trigger] keys.take(t)[k] == y;
                            assert(keys.take(t + 1)[k] == y);
                        }
                    }
                    assert forall|i: int, j: int| 0 <= i < j < out.len() implies lex_lt((#[trigger] out@[i]).0@, (#[trigger] out@[j]).0@) by {
                        assert(out@[i].0@ == old[i].0@ && out@[j].0@ == old[j].0@);
                    }
                }
            } else {
                proof {
                    if p < out.len() {
                        lemma_lex_total(old[p as int].0@, key@);
                    }
                }
                out.insert(p, (key, v));
                proof {
                    let nk = entry_keys(out@);
                    assert(nk =~= old_keys.insert(p as int, rows[t].key@));
                    assert forall|a: int, b: int| 0 <= a < b < out.len() implies lex_lt((#[trigger] out@[a]).0@, (#[trigger] out@[b]).0@) by {
                        let x = rows[t].key@;
                        if b < p {
                            assert(out@[a] == old[a] && out@[b] == old[b]);
                        } else if b == p {
                            assert(out@[a] == old[a]);
                        } else if a < p {
                            assert(out@[a] == old[a] && out@[b] == old[b - 1]);
                            lemma_lt_before_after(old[a].0@, x, old[b - 1].0@, old[p as int].0@);
                        } else if a == p {
                            assert(out@[b] == old[b - 1]);
                            if b - 1 > p {
                                lemma_lt_chain(x, old[p as int].0@, old[b - 1].0@);
                            }
                        } else {
                            assert(out@[a] == old[a - 1] && out@[b] == old[b - 1]);
                        }
                    }
                    assert forall|i: int| 0 <= i < out.len() implies (#[trigger] out@[i]).0@ == out@[i].1.key@ && is_row_of(out@[i].1, out@[i].0@) by {
                        if i < p {
                            assert(out@[i] == old[i]);
                        } else if i > p {
                            assert(out@[i] == old[i - 1]);
                        }
                    }
                    assert forall|y: Seq<char>| nk.contains(y) <==> keys.take(t + 1).contains(y) by {
                        if keys.take(t + 1).contains(y) {
                            let k = choose|k: int| 0 <= k < keys.take(t + 1).len() && #[trigger] keys.take(t + 1)[k] == y;
                            if k < t {
                                assert(keys.take(t)[k] == y);
                                assert(old_keys.contains(y));
                                let m = choose|m: int| 0 <= m < old_keys.len() && #[trigger] old_keys[m] == y;
                                if m < p {
                                    assert(nk[m] == y);
                                } else {
                                    assert(nk[m + 1] == y);
                                }
                            } else {
                                assert(nk[p as int] == y);
                            }
                        }
                        if nk.contains(y) {
                            let m = choose|m: int| 0 <= m < nk.len() && #[trigger] nk[m] == y;
                            if m == p {
                                assert(keys.take(t + 1)[t] == y);
                            } else {
                                let mo = if m < p { m } else { m - 1 };
                                assert(old_keys[mo] == y);
                                assert(old_keys.contains(y));
                                assert(keys.take(t).contains(y));
                                let k = choose|k: int| 0 <= k < keys.take(t).len() && #[trigger] keys.take(t)[k] == y;
                                assert(keys.take(t + 1)[k] == y);
                            }
                        }
                    }
                }
            }
            proof {
                t = t + 1;
            }
        }
        proof {
            assert(keys.take(t) =~= keys);
            assert forall|x: Seq<char>| keys.contains(x) <==> kokoros_voice_names().contains(x) by {
                vstd::seq_lib::to_multiset_contains(keys, x);
                vstd::seq_lib::to_multiset_contains(kokoros_voice_names(), x);
            }
        }
        out
    }

    /// The default voice named in the text of the module configuration.
    pub fn get_default_voice(module_config: &str) -> (r: Option<String>)
        ensures
            match r {
                Some(v) => crate::speechd::default_voice_in(module_config@) == Some(v@),
                None => crate::speechd::default_voice_in(module_config@) is None,
            },
    {
        crate::speechd::FileHandler::get_default_voice_from_config(module_config)
    }

    /// The quality grade of a voice style.
    pub fn get_voice_quality_grade(voice_style: &str) -> (r: String)
        ensures
            r@ == quality_grade(voice_style@),
    {
        let keys = voice_name_literals();
        match position_of(&keys, voice_style) {
            Some(i) => {
                let grades = quality_literals();
                assert(quality_grades().len() == kokoros_voice_names().len());
                assert(grades@.map_values(|k: &str| k@).len() == grades.len());
                assert(keys@.map_values(|k: &str| k@).len() == keys.len());
                grades[i].to_string()
            },
            None => "C".to_string(),
        }
    }

    /// The regions in the order in which voices are grouped.
    pub fn get_country_sort_order() -> (r: Vec<String>)
        ensures
            str_views(r@) == country_order(),
    {
        let lits = vec![
            "United States",
            "United Kingdom",
            "Japan",
            "China",
            "Spain",
            "France",
            "India",
            "Italy",
            "Brazil"
        ];
        let r = strings_of(&lits);
        assert(lits@.map_values(|k: &str| k@) =~= country_order());
        r
    }
}

} // verus!
