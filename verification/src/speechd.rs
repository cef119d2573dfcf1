//! The Speech Dispatcher configuration that Fox Reader keeps: the texts of its
//! configuration files and the edits made to them.
use vstd::prelude::*;
use crate::chars::{
    append_chars, has_prefix, join, line_bounds, lines, same_text, starts_with, string_of,
    sub_vec, to_chars, trim, trim_bounds, word_bounds, words,
};
use crate::voices::{
    is_row_of, kokoros_voice_names, rows_sorted, voice_keys, Voice, VoiceManager,
};

verus! {

/// Edits of the text of configuration files.
pub struct FileHandler {}

/// How a configuration file changes: text appended at its end, or the whole
/// file rewritten.
#[derive(Debug)]
pub enum ConfigEdit {
    Append(String),
    Rewrite(String),
}

/// The Speech Dispatcher integration.
pub struct SpeechDispatcher {}

/// The files that setting up Speech Dispatcher writes: the text of its
/// configuration and of the module configuration where each is missing, and
/// whether the speech script is written.
#[derive(Debug)]
pub struct InitPlan {
    pub speechd_config: Option<String>,
    pub module_config: Option<String>,
    pub write_script: bool,
}

/// Whether `p` occurs in `s`.
pub open spec fn contains_text(s: Seq<char>, p: Seq<char>) -> bool {
    exists|i: int| 0 <= i && i + p.len() <= s.len() && #[trigger] s.subrange(i, i + p.len()) == p
}

/// The index of the first line of `ls[k..]` whose trimmed text contains `key`, or -1.
pub open spec fn first_line_with(ls: Seq<Seq<char>>, key: Seq<char>, k: int) -> int
    decreases ls.len() - k,
{
    if k < 0 || k >= ls.len() {
        -1
    } else if contains_text(trim(ls[k]), key) {
        k
    } else {
        first_line_with(ls, key, k + 1)
    }
}

/// The value of the `DefaultVoice` setting: the second word of the first line
/// that mentions `DefaultVoice`.
pub open spec fn default_voice_in(content: Seq<char>) -> Option<Seq<char>> {
    let ls = lines(content);
    let k = first_line_with(ls, "DefaultVoice"@, 0);
    if k < 0 {
        None
    } else if words(ls[k]).len() >= 2 {
        Some(words(ls[k])[1])
    } else {
        None
    }
}

/// The lines of `ls` whose trimmed text differs from that of `line`.
pub open spec fn lines_without(ls: Seq<Seq<char>>, line: Seq<char>) -> Seq<Seq<char>>
    decreases ls.len(),
{
    if ls.len() == 0 {
        seq![]
    } else if trim(ls.last()) == trim(line) {
        lines_without(ls.drop_last(), line)
    } else {
        lines_without(ls.drop_last(), line).push(ls.last())
    }
}

/// A configuration line set to `key value` when it starts with `key`, its first
/// word is `key` and it has a value; other lines unchanged.
pub open spec fn upsert_line(line: Seq<char>, key: Seq<char>, value: Seq<char>) -> Seq<char> {
    if has_prefix(line, key) && words(line).len() >= 2 && words(line)[0] == key {
        key + " "@ + value
    } else {
        line
    }
}

/// The edit that sets `key` to `value`: a new line `key value` appended when the
/// text does not mention `key`, else each `key ...` line rewritten.
pub open spec fn upsert_edit(content: Seq<char>, key: Seq<char>, value: Seq<char>) -> (bool, Seq<char>) {
    if !contains_text(content, key) {
        (true, "\n"@ + key + " "@ + value)
    } else {
        (false, join(lines(content).map_values(|l: Seq<char>| upsert_line(l, key, value)), "\n"@))
    }
}

/// An edit as whether it is appended and its text.
pub open spec fn edit_view(e: ConfigEdit) -> (bool, Seq<char>) {
    match e {
        ConfigEdit::Append(s) => (true, s@),
        ConfigEdit::Rewrite(s) => (false, s@),
    }
}

/// The line that declares a voice to Speech Dispatcher, between blank lines.
pub open spec fn voice_template(language: Seq<char>, name: Seq<char>, file: Seq<char>) -> Seq<char> {
    " \nAddVoice \""@ + language + "\" \""@ + name + "\" \""@ + file + "\"\n"@
}

/// The text before the default language in the Speech Dispatcher configuration.
pub open spec fn config_head() -> Seq<char> {
    CONFIG_HEAD@
}

/// The Speech Dispatcher configuration for a default language.
pub open spec fn config_text(lang: Seq<char>) -> Seq<char> {
    CONFIG_HEAD@ + lang + CONFIG_TAIL@
}

/// `language` with each `_` turned into `-` (Speech Dispatcher writes `en-GB`).
pub open spec fn dashed(language: Seq<char>) -> Seq<char> {
    language.map_values(|c: char| if c == '_' { '-' } else { c })
}

/// The Speech Dispatcher configuration up to its default language.
pub const CONFIG_HEAD: &'static str = "\n# Fox Reader \n# Speech Dispatcher Configuration\n# Please do not modify this file as it can cause issues with application\n\n# Symbol preprocessing files\nSymbolsPreproc \"char\"\nSymbolsPreprocFile \"gender-neutral.dic\"\nSymbolsPreprocFile \"font-variants.dic\"\nSymbolsPreprocFile \"symbols.dic\"\nSymbolsPreprocFile \"emojis.dic\"\nSymbolsPreprocFile \"orca.dic\"\nSymbolsPreprocFile \"orca-chars.dic\"\n\nAddModule \"fox-reader\" \"sd_generic\" \"fox-reader.conf\"\n\nDefaultLanguage \"";

/// The Speech Dispatcher configuration after its default language.
pub const CONFIG_TAIL: &'static str = "\"\nDefaultModule \"fox-reader\"";

/// Whether `p` occurs in `v`.
pub(crate) fn contains_chars(v: &Vec<char>, p: &Vec<char>) -> (r: bool)
    ensures
        r == contains_text(v@, p@),
{
    if p.len() > v.len() {
        return false;
    }
    let mut i: usize = 0;
    while i <= v.len() - p.len()
        invariant
            p.len() <= v.len(),
            i <= v.len() - p.len() + 1,
            forall|j: int| 0 <= j < i ==> #[trigger] v@.subrange(j, j + p.len()) != p@,
        decreases v.len() - p.len() + 1 - i,
    {
        let mut k: usize = 0;
        while k < p.len() && v[i + k] == p[k]
            invariant
                i + p.len() <= v.len(),
                k <= p.len(),
                forall|m: int| 0 <= m < k ==> v@[i + m] == p@[m],
            decreases p.len() - k,
        {
            k = k + 1;
        }
        if k == p.len() {
            proof {
                assert(v@.subrange(i as int, i + p.len()) =~= p@);
            }
            return true;
        }
        proof {
            assert(v@.subrange(i as int, i + p.len())[k as int] != p@[k as int]);
        }
        i = i + 1;
    }
    proof {
        assert forall|j: int| 0 <= j && j + p.len() <= v.len() implies #[trigger] v@.subrange(j, j + p.len()) != p@ by {
            assert(j < i);
        }
    }
    false
}

/// Appends the characters of `s` to `dst`.
pub(crate) fn push_str_chars(dst: &mut Vec<char>, s: &str)
    ensures
        final(dst)@ == old(dst)@ + s@,
{
    let c = to_chars(s);
    append_chars(dst, &c, 0, c.len());
    proof {
        assert(c@.subrange(0, c.len() as int) =~= c@);
    }
}

pub(crate) fn string_from(v: &Vec<char>) -> (r: String)
    ensures
        r@ == v@,
{
    let r = string_of(v, 0, v.len());
    proof {
        assert(v@.subrange(0, v.len() as int) =~= v@);
    }
    r
}

impl FileHandler {
    /// The value of the `DefaultVoice` setting in a configuration text.
    pub fn get_default_voice_from_config(content: &str) -> (r: Option<String>)
        ensures
            match r {
                Some(v) => default_voice_in(content@) == Some(v@),
                None => default_voice_in(content@) is None,
            },
    {
        let v = to_chars(content);
        let key = to_chars("DefaultVoice");
        let lb = line_bounds(&v);
        let ghost ls = lines(v@);
        let mut k: usize = 0;
        while k < lb.len()
            invariant
                k <= lb.len() == ls.len(),
                ls == lines(v@),
                v@ == content@,
                key@ == "DefaultVoice"@,
                forall|j: int| 0 <= j < lb.len() ==> #[trigger] lb@[j].0 <= lb@[j].1 <= v.len(),
                forall|j: int|
                    0 <= j < lb.len() ==> v@.subrange(lb@[j].0 as int, lb@[j].1 as int) == #[trigger] ls[j],
                first_line_with(ls, "DefaultVoice"@, 0) == first_line_with(ls, "DefaultVoice"@, k as int),
            decreases lb.len() - k,
        {
            let (x, y) = lb[k];
            let line = sub_vec(&v, x, y);
            assert(line@ == ls[k as int]);
            let (p, q) = trim_bounds(&line, 0, line.len());
            proof {
                assert(line@.subrange(0, line.len() as int) =~= line@);
            }
            let t = sub_vec(&line, p, q);
            if contains_chars(&t, &key) {
                let wb = word_bounds(&line);
                if wb.len() >= 2 {
                    let (a, b) = wb[1];
                    return Some(string_of(&line, a, b));
                } else {
                    return None;
                }
            }
            k = k + 1;
        }
        None
    }

    /// A configuration text without the lines equal, once trimmed, to `line_to_remove`
    /// trimmed; the remaining lines joined with newlines.
    pub fn delete_line_from_config(content: &str, line_to_remove: &str) -> (r: String)
        ensures
            r@ == join(lines_without(lines(content@), line_to_remove@), "\n"@),
    {
        let v = to_chars(content);
        let rm = to_chars(line_to_remove);
        let (ra, rb) = trim_bounds(&rm, 0, rm.len());
        proof {
            assert(rm@.subrange(0, rm.len() as int) =~= rm@);
        }
        let target = string_from(&sub_vec(&rm, ra, rb));
        let lb = line_bounds(&v);
        let ghost ls = lines(v@);
        let mut out: Vec<char> = Vec::new();
        let mut any = false;
        let mut k: usize = 0;
        assert(forall|j: int| 0 <= j < lb.len() ==> #[trigger] lb@[j].0 <= lb@[j].1 <= v.len());
        while k < lb.len()
            invariant
                k <= lb.len() == ls.len(),
                ls == lines(v@),
                v@ == content@,
                target@ == trim(line_to_remove@),
                forall|j: int| 0 <= j < lb.len() ==> #[trigger] lb@[j].0 <= lb@[j].1 <= v.len(),
                forall|j: int|
                    0 <= j < lb.len() ==> v@.subrange(lb@[j].0 as int, lb@[j].1 as int) == #[trigger] ls[j],
                any == (lines_without(ls.take(k as int), line_to_remove@).len() > 0),
                out@ == join(lines_without(ls.take(k as int), line_to_remove@), "\n"@),
            decreases lb.len() - k,
        {
            let (x, y) = lb[k];
            assert(v@.subrange(x as int, y as int) == ls[k as int]);
            let (p, q) = trim_bounds(&v, x, y);
            let t = string_from(&sub_vec(&v, p, q));
            proof {
                assert(ls.take(k + 1).drop_last() =~= ls.take(k as int));
                assert(ls.take(k + 1).last() == ls[k as int]);
            }
            if !same_text(t.as_str(), target.as_str()) {
                let ghost parts = lines_without(ls.take(k as int), line_to_remove@);
                let ghost before = out@;
                proof {
                    crate::sentences::lemma_join_push(parts, ls[k as int], "\n"@);
                    reveal_strlit("\n");
                }
                if any {
                    out.push('\n');
                }
                append_chars(&mut out, &v, x, y);
                proof {
                    if parts.len() == 0 {
                        assert(out@ =~= ls[k as int]);
                    } else {
                        assert(out@ =~= before + "\n"@ + ls[k as int]);
                    }
                }
                any = true;
            }
            k = k + 1;
        }
        proof {
            assert(ls.take(lb.len() as int) =~= ls);
        }
        string_from(&out)
    }

    /// The edit that sets `key` to `new_value` in a configuration text.
    pub fn upsert_value_in_config(content: &str, key: &str, new_value: &str) -> (r: ConfigEdit)
        ensures
            edit_view(r) == upsert_edit(content@, key@, new_value@),
    {
        let v = to_chars(content);
        let kc = to_chars(key);
        proof {
            reveal_strlit("\n");
            reveal_strlit(" ");
        }
        if !contains_chars(&v, &kc) {
            let mut out: Vec<char> = Vec::new();
            out.push('\n');
            push_str_chars(&mut out, key);
            out.push(' ');
            push_str_chars(&mut out, new_value);
            proof {
                assert(out@ =~= "\n"@ + key@ + " "@ + new_value@);
            }
            return ConfigEdit::Append(string_from(&out));
        }
        let lb = line_bounds(&v);
        let ghost ls = lines(v@);
        let ghost mapped = ls.map_values(|l: Seq<char>| upsert_line(l, key@, new_value@));
        let mut out: Vec<char> = Vec::new();
        let mut k: usize = 0;
        while k < lb.len()
            invariant
                k <= lb.len() == ls.len() == mapped.len(),
                ls == lines(v@),
                mapped == ls.map_values(|l: Seq<char>| upsert_line(l, key@, new_value@)),
                v@ == content@,
                kc@ == key@,
                forall|j: int| 0 <= j < lb.len() ==> #[trigger] lb@[j].0 <= lb@[j].1 <= v.len(),
                forall|j: int|
                    0 <= j < lb.len() ==> v@.subrange(lb@[j].0 as int, lb@[j].1 as int) == #[trigger] ls[j],
                out@ == join(mapped.take(k as int), "\n"@),
            decreases lb.len() - k,
        {
            let (x, y) = lb[k];
            let line = sub_vec(&v, x, y);
            assert(line@ == ls[k as int]);
            let ls_str = string_from(&line);
            let ghost before = out@;
            let mut rewrite = false;
            if starts_with(ls_str.as_str(), key) {
                let wb = word_bounds(&line);
                if wb.len() >= 2 {
                    let (a, b) = wb[0];
                    let first = string_of(&line, a, b);
                    assert(first@ == words(line@)[0]);
                    if same_text(first.as_str(), key) {
                        rewrite = true;
                    }
                }
            }
            assert(rewrite == (has_prefix(line@, key@) && words(line@).len() >= 2 && words(line@)[0] == key@));
            if k > 0 {
                out.push('\n');
            }
            if rewrite {
                append_chars(&mut out, &kc, 0, kc.len());
                out.push(' ');
                push_str_chars(&mut out, new_value);
                proof {
                    assert(kc@.subrange(0, kc.len() as int) =~= kc@);
                }
            } else {
                append_chars(&mut out, &line, 0, line.len());
                proof {
                    assert(line@.subrange(0, line.len() as int) =~= line@);
                }
            }
            proof {
                reveal_strlit("\n");
                reveal_strlit(" ");
                assert(mapped[k as int] == upsert_line(ls[k as int], key@, new_value@));
                assert(mapped.take(k + 1) =~= mapped.take(k as int).push(mapped[k as int]));
                crate::sentences::lemma_join_push(mapped.take(k as int), mapped[k as int], "\n"@);
                if k > 0 {
                    assert(out@ =~= before + "\n"@ + mapped[k as int]);
                } else {
                    assert(out@ =~= mapped[k as int]);
                }
            }
            k = k + 1;
        }
        proof {
            assert(mapped.take(lb.len() as int) =~= mapped);
        }
        ConfigEdit::Rewrite(string_from(&out))
    }
}

/// The Speech Dispatcher configuration for a default language (`config_text`).
pub fn config_template(default_lang: &str) -> (r: String)
    ensures
        r@ == config_text(default_lang@),
{
    let mut r = CONFIG_HEAD.to_string();
    r.append(default_lang);
    r.append(CONFIG_TAIL);
    r
}

/// The declaration of a voice (`voice_template`).
pub fn add_voice_template(language: &str, voice_name: &str, voice_relative_path: &str) -> (r: String)
    ensures
        r@ == voice_template(language@, voice_name@, voice_relative_path@),
{
    let mut r = " \nAddVoice \"".to_string();
    r.append(language);
    r.append("\" \"");
    r.append(voice_name);
    r.append("\" \"");
    r.append(voice_relative_path);
    r.append("\"\n");
    r
}

/// The pattern that finds `NAME='value'` in a text, capturing the value.
pub open spec fn env_value_pattern(env_name: Seq<char>) -> Seq<char> {
    env_name + "='([^']+)'"@
}

/// The pattern that finds `NAME='value'` in a text.
pub open spec fn env_assignment_pattern(env_name: Seq<char>) -> Seq<char> {
    env_name + "='[^']+'"@
}

impl FileHandler {
    /// The value of the first `NAME='value'` assignment in a text, found with a
    /// pattern built from the name; an error when that pattern does not compile.
    pub fn get_env_value(content: &str, env_name: &str) -> (r: Result<Option<String>, String>)
        ensures
            r is Err <==> !crate::patterns::pattern_compiles(env_value_pattern(env_name@)),
            r matches Ok(Some(v)) ==> crate::patterns::first_capture(env_value_pattern(env_name@), content@) == Some(
                v@,
            ),
            r matches Ok(None) ==> crate::patterns::first_capture(env_value_pattern(env_name@), content@) is None,
    {
        let mut pattern = env_name.to_string();
        pattern.append("='([^']+)'");
        crate::patterns::capture_first(pattern.as_str(), content)
    }

    /// The text with its first `NAME='value'` assignment set to `new_env`; an
    /// error when the pattern built from the name does not compile.
    pub fn update_env(content: &str, env_name: &str, new_env: &str) -> (r: Result<String, String>)
        ensures
            r is Err <==> !crate::patterns::pattern_compiles(env_assignment_pattern(env_name@)),
            r matches Ok(s) ==> s@ == crate::patterns::replaced_first(
                env_assignment_pattern(env_name@),
                content@,
                env_name@ + "='"@ + new_env@ + "'"@,
            ),
    {
        let mut pattern = env_name.to_string();
        pattern.append("='[^']+'");
        let mut rep = env_name.to_string();
        rep.append("='");
        rep.append(new_env);
        rep.append("'");
        crate::patterns::try_replace_first(pattern.as_str(), content, rep.as_str())
    }
}

/// The Speech Dispatcher voice type of a voice: `male1` for a male voice, else `female1`.
pub open spec fn voice_gender(traits: Seq<char>) -> Seq<char> {
    if contains_text(traits, "\u{2642}\u{fe0f}"@) {
        "male1"@
    } else {
        "female1"@
    }
}

/// The line of the module configuration that declares a voice: its language
/// and key, its voice type and its key.
pub open spec fn add_voice_line(v: Voice) -> Seq<char> {
    "AddVoice \""@ + v.language.code@ + "_"@ + v.key@ + "\" \""@ + voice_gender(v.traits@) + "\" \""@ + v.key@
        + "\""@
}

/// Whether `rows` are the Kokoros voice rows: the voice styles of the engine,
/// ordered by region then style, each the row of its style.
pub open spec fn kokoros_rows(rows: Seq<Voice>) -> bool {
    &&& voice_keys(rows).to_multiset() == kokoros_voice_names().to_multiset()
    &&& rows_sorted(voice_keys(rows))
    &&& forall|i: int| 0 <= i < rows.len() ==> is_row_of(#[trigger] rows[i], rows[i].key@)
}

/// The module configuration: the command that runs the speech script, the
/// first voice as default, and a declaration of every voice.
pub open spec fn module_text(script: Seq<char>, rows: Seq<Voice>) -> Seq<char> {
    "\nGenericExecuteSynth \"export DATA='$DATA';export RATE='$RATE';export VOICE='$VOICE';"@ + script
        + "\"\nDefaultVoice \""@ + rows[0].key@ + "\"\n\n"@ + join(
        rows.map_values(|v: Voice| add_voice_line(v)),
        "\n"@,
    )
}

/// The declaration of one voice in the module configuration (`add_voice_line`).
fn add_voice_line_of(v: &Voice) -> (r: String)
    ensures
        r@ == add_voice_line(*v),
{
    let male = contains_chars(&to_chars(v.traits.as_str()), &to_chars("\u{2642}\u{fe0f}"));
    let mut r = "AddVoice \"".to_string();
    r.append(v.language.code.as_str());
    r.append("_");
    r.append(v.key.as_str());
    r.append("\" \"");
    if male {
        r.append("male1");
    } else {
        r.append("female1");
    }
    r.append("\" \"");
    r.append(v.key.as_str());
    r.append("\"");
    r
}

/// The module configuration for the speech script at `script_path` (`module_text`).
pub fn module_template(script_path: &str) -> (r: String)
    ensures
        exists|rows: Seq<Voice>| kokoros_rows(rows) && r@ == module_text(script_path@, rows),
{
    let voices = VoiceManager::get_kokoros_voice_rows();
    let ghost lines_of = voices@.map_values(|v: Voice| add_voice_line(v));
    let mut body = String::new();
    let mut i: usize = 0;
    proof {
        assert(lines_of.take(0) =~= Seq::<Seq<char>>::empty());
    }
    while i < voices.len()
        invariant
            i <= voices.len(),
            lines_of == voices@.map_values(|v: Voice| add_voice_line(v)),
            body@ == join(lines_of.take(i as int), "\n"@),
        decreases voices.len() - i,
    {
        let line = add_voice_line_of(&voices[i]);
        if i > 0 {
            body.append("\n");
        }
        body.append(line.as_str());
        proof {
            reveal_strlit("\n");
            assert(lines_of.take(i + 1) =~= lines_of.take(i as int).push(lines_of[i as int]));
            crate::sentences::lemma_join_push(lines_of.take(i as int), lines_of[i as int], "\n"@);
        }
        i = i + 1;
    }
    proof {
        assert(lines_of.take(voices.len() as int) =~= lines_of);
        vstd::seq_lib::to_multiset_len(voice_keys(voices@));
        vstd::seq_lib::to_multiset_len(kokoros_voice_names());
        assert(kokoros_voice_names().len() > 0);
    }
    let mut r = "\nGenericExecuteSynth \"export DATA='$DATA';export RATE='$RATE';export VOICE='$VOICE';".to_string();
    r.append(script_path);
    r.append("\"\nDefaultVoice \"");
    r.append(voices[0].key.as_str());
    r.append("\"\n\n");
    r.append(body.as_str());
    proof {
        assert(kokoros_rows(voices@));
    }
    r
}

impl SpeechDispatcher {
    /// The edit of the module configuration that makes `default_voice` the default.
    pub fn set_default_voice(module_config: &str, default_voice: &str) -> (r: ConfigEdit)
        ensures
            edit_view(r) == upsert_edit(module_config@, "DefaultVoice"@, default_voice@),
    {
        FileHandler::upsert_value_in_config(module_config, "DefaultVoice", default_voice)
    }

    /// The text appended to the module configuration to declare a downloaded voice:
    /// its language with dashes, its name, and its model file `<key>.onnx`.
    pub fn add_new_voice(language: &str, voice_name: &str, voice_key: &str) -> (r: String)
        ensures
            r@ == voice_template(dashed(language@), voice_name@, voice_key@ + ".onnx"@),
    {
        let lc = to_chars(language);
        let mut dl: Vec<char> = Vec::new();
        let mut i: usize = 0;
        while i < lc.len()
            invariant
                i <= lc.len(),
                dl@ == dashed(lc@.take(i as int)),
            decreases lc.len() - i,
        {
            let c = if lc[i] == '_' {
                '-'
            } else {
                lc[i]
            };
            dl.push(c);
            proof {
                assert(dashed(lc@.take(i + 1)) =~= dashed(lc@.take(i as int)).push(c));
            }
            i = i + 1;
        }
        proof {
            assert(lc@.take(lc.len() as int) =~= lc@);
        }
        let lang = string_from(&dl);
        let mut file = voice_key.to_string();
        file.append(".onnx");
        add_voice_template(lang.as_str(), voice_name, file.as_str())
    }

    /// The module configuration without the declaration of a voice.
    pub fn remove_voice(module_config: &str, language: &str, voice_name: &str, voice_id: &str) -> (r: String)
        ensures
            r@ == join(
                lines_without(lines(module_config@), voice_template(language@, voice_name@, voice_id@)),
                "\n"@,
            ),
    {
        let template = add_voice_template(language, voice_name, voice_id);
        FileHandler::delete_line_from_config(module_config, template.as_str())
    }

    /// The module configuration to write, trimmed, when none exists yet.
    pub fn init_module_config(config_exists: bool, script_path: &str) -> (r: Option<String>)
        ensures
            r is None <==> config_exists,
            r matches Some(s) ==> exists|rows: Seq<Voice>| kokoros_rows(rows) && s@ == trim(module_text(script_path@, rows)),
    {
        if config_exists {
            None
        } else {
            let t = module_template(script_path);
            let c = to_chars(t.as_str());
            let (a, b) = trim_bounds(&c, 0, c.len());
            proof {
                assert(c@.subrange(0, c.len() as int) =~= c@);
            }
            Some(string_of(&c, a, b))
        }
    }

    /// Whether the speech script has to be written: only when none exists yet,
    /// so that a script in place is kept as it is.
    pub fn init_script(script_exists: bool) -> (r: bool)
        ensures
            r == !script_exists,
    {
        !script_exists
    }

    /// What setting up Speech Dispatcher writes, given which of its three files
    /// exist: each file that is missing gets its first content, and a file in
    /// place is left as it is (so a second set-up writes nothing).
    pub fn init(config_exists: bool, module_exists: bool, script_exists: bool, script_path: &str) -> (r: InitPlan)
        ensures
            r.speechd_config is None <==> config_exists,
            r.speechd_config matches Some(s) ==> s@ == trim(config_text("en-GB"@)),
            r.module_config is None <==> module_exists,
            r.module_config matches Some(s) ==> exists|rows: Seq<Voice>| kokoros_rows(rows) && s@ == trim(module_text(script_path@, rows)),
            r.write_script == !script_exists,
    {
        InitPlan {
            speechd_config: Self::init_speechd_config(config_exists),
            module_config: Self::init_module_config(module_exists, script_path),
            write_script: Self::init_script(script_exists),
        }
    }

    /// The Speech Dispatcher configuration to write, trimmed, when none exists yet.
    pub fn init_speechd_config(config_exists: bool) -> (r: Option<String>)
        ensures
            r matches Some(s) ==> s@ == trim(config_text("en-GB"@)),
            r is None <==> config_exists,
    {
        if config_exists {
            None
        } else {
            let t = config_template("en-GB");
            let c = to_chars(t.as_str());
            let (a, b) = trim_bounds(&c, 0, c.len());
            proof {
                assert(c@.subrange(0, c.len() as int) =~= c@);
            }
            Some(string_of(&c, a, b))
        }
    }
}

} // verus!
