//! Where Fox Reader keeps its files, and the addresses it downloads from.
//! Paths are written with `$HOME`, which stands for the user's home directory.
use vstd::prelude::*;
use crate::chars::{str_views, string_of, to_chars};

verus! {

/// The directory of the files Fox Reader downloads.
pub const FOX_READER_BASE_PATH: &'static str = "$HOME/.local/share/fox-reader";

/// Where Whisper models are downloaded from.
pub const WHISPER_BASE_URL: &'static str = "https://huggingface.co/ggerganov/whisper.cpp";

/// The directory of the user's GSettings schemas.
pub const SCHEMAS_DIR_PATH: &'static str = "$HOME/.local/share/glib-2.0/schemas";

/// Where the settings schema is downloaded from.
pub const SCHEMA_URL: &'static str = "https://raw.githubusercontent.com/kopecmaciej/fox-reader/refs/heads/master/resources/com.github.kopecmaciej.Settings.gschema.xml";

/// The directory of the Speech Dispatcher configuration.
pub const DISPATCHER_CONFIG_PATH: &'static str = "$HOME/.config/speech-dispatcher";

/// The Speech Dispatcher configuration file, in that directory.
pub const DISPATCHER_CONFIG_FILE: &'static str = "speechd.conf";

/// The module configuration of Fox Reader, in that directory.
pub const DISPATCHER_MODULE_FILE: &'static str = "modules/fox-reader.conf";

/// The script Speech Dispatcher runs, in that directory.
pub const DISPATCHER_SCRIPT_FILE: &'static str = "fox-reader.sh";

/// What stands for the home directory in a path.
pub const HOME_MARKER: &'static str = "$HOME";

/// `s[i..]` with each occurrence of `pat`, found from the left without overlap,
/// replaced by `rep` (what `str::replace` returns for a non-empty pattern).
pub open spec fn replace_from(s: Seq<char>, pat: Seq<char>, rep: Seq<char>, i: int) -> Seq<char>
    decreases s.len() - i,
{
    if i < 0 || i >= s.len() {
        seq![]
    } else if pat.len() > 0 && i + pat.len() <= s.len() && s.subrange(i, i + pat.len()) == pat {
        rep + replace_from(s, pat, rep, i + pat.len())
    } else {
        seq![s[i]] + replace_from(s, pat, rep, i + 1)
    }
}

/// `path` with `$HOME` replaced by the home directory `home`.
pub open spec fn resolved(path: Seq<char>, home: Seq<char>) -> Seq<char> {
    replace_from(path, HOME_MARKER@, home, 0)
}

/// `relative` under the directory `base` resolved against `home`.
pub open spec fn joined(base: Seq<char>, relative: Seq<char>, home: Seq<char>) -> Seq<char> {
    resolved(base, home) + "/"@ + relative
}

/// The names of the Whisper models that can be downloaded.
pub open spec fn whisper_model_names() -> Seq<Seq<char>> {
    seq![
        "base-q5_1"@, "base-q8_0"@, "base"@, "base.en-q5_1"@, "base.en-q8_0"@, "base.en"@,
        "large-v1"@, "large-v2-q5_0"@, "large-v2-q8_0"@, "large-v2"@, "large-v3-q5_0"@,
        "large-v3-turbo-q5_0"@, "large-v3-turbo-q8_0"@, "large-v3-turbo"@, "large-v3"@,
        "medium-q5_0"@, "medium-q8_0"@, "medium"@, "medium.en-q5_0"@, "medium.en-q8_0"@,
        "medium.en"@, "small-q5_1"@, "small-q8_0"@, "small"@, "small.en-q5_1"@,
        "small.en-q8_0"@, "small.en"@, "tiny-q5_1"@, "tiny-q8_0"@, "tiny"@, "tiny.en-q5_1"@,
        "tiny.en-q8_0"@, "tiny.en"@
    ]
}

/// The user's home directory (`dirs::home_dir`), as text. It comes from the
/// environment, so nothing is claimed of it.
#[verifier::external_body]
fn home_dir() -> (r: Option<String>) {
    dirs::home_dir().map(|p| p.to_string_lossy().to_string())
}

/// `path` with `$HOME` replaced by `home`.
pub fn resolve_home_in(path: &str, home: &str) -> (r: String)
    ensures
        r@ == resolved(path@, home@),
{
    let s = to_chars(path);
    let pat = to_chars(HOME_MARKER);
    let h = to_chars(home);
    proof {
        reveal_strlit("$HOME");
    }
    let mut out: Vec<char> = Vec::new();
    let mut i: usize = 0;
    while i < s.len()
        invariant
            i <= s.len(),
            pat@ == HOME_MARKER@,
            pat.len() == 5,
            out@ + replace_from(s@, pat@, h@, i as int) == replace_from(s@, pat@, h@, 0),
        decreases s.len() - i,
    {
        let mut k: usize = 0;
        let fits = pat.len() <= s.len() - i;
        if fits {
            while k < pat.len() && s[i + k] == pat[k]
                invariant
                    i + pat.len() <= s.len(),
                    k <= pat.len(),
                    forall|m: int| 0 <= m < k ==> s@[i + m] == pat@[m],
                decreases pat.len() - k,
            {
                k = k + 1;
            }
        }
        if fits && k == pat.len() {
            proof {
                assert(s@.subrange(i as int, i + pat.len()) =~= pat@);
            }
            let ghost before = out@;
            crate::chars::append_chars(&mut out, &h, 0, h.len());
            proof {
                assert(h@.subrange(0, h.len() as int) =~= h@);
                assert(out@ + replace_from(s@, pat@, h@, i + pat.len()) =~= before + replace_from(s@, pat@, h@, i as int));
            }
            i = i + pat.len();
        } else {
            proof {
                if fits {
                    assert(s@.subrange(i as int, i + pat.len())[k as int] != pat@[k as int]);
                }
            }
            let ghost before = out@;
            out.push(s[i]);
            proof {
                assert(out@ + replace_from(s@, pat@, h@, i + 1) =~= before + replace_from(s@, pat@, h@, i as int));
            }
            i = i + 1;
        }
    }
    proof {
        assert(out@ + replace_from(s@, pat@, h@, i as int) =~= out@);
    }
    string_of(&out, 0, out.len())
}

/// `relative` under `base` resolved against `home`.
pub fn build_path_in(base: &str, relative: &str, home: &str) -> (r: String)
    ensures
        r@ == joined(base@, relative@, home@),
{
    let mut r = resolve_home_in(base, home);
    r.append("/");
    r.append(relative);
    r
}

/// `path` with `$HOME` replaced by the user's home directory; `None` when the
/// home directory is not known.
pub fn resolve_home(path: &str) -> (r: Option<String>)
    ensures
        r matches Some(p) ==> exists|h: Seq<char>| p@ == resolved(path@, h),
{
    match home_dir() {
        Some(h) => Some(resolve_home_in(path, h.as_str())),
        None => None,
    }
}

/// `relative` under `base`, `$HOME` being the user's home directory.
pub fn build_path(base_path: &str, relative_path: &str) -> (r: Option<String>)
    ensures
        r matches Some(p) ==> exists|h: Seq<char>| p@ == joined(base_path@, relative_path@, h),
{
    match home_dir() {
        Some(h) => Some(build_path_in(base_path, relative_path, h.as_str())),
        None => None,
    }
}

/// Where the PDFium library is kept.
pub fn get_pdfium_path() -> (r: Option<String>)
    ensures
        r matches Some(p) ==> exists|h: Seq<char>| p@ == joined(FOX_READER_BASE_PATH@, "pdfium"@, h),
{
    build_path(FOX_READER_BASE_PATH, "pdfium")
}

/// Where the espeak-ng data is kept.
pub fn get_espeak_path() -> (r: Option<String>)
    ensures
        r matches Some(p) ==> exists|h: Seq<char>| p@ == joined(FOX_READER_BASE_PATH@, "espeak-ng-data"@, h),
{
    build_path(FOX_READER_BASE_PATH, "espeak-ng-data")
}

/// The directory of the Whisper models.
pub fn get_whisper_models_path() -> (r: Option<String>)
    ensures
        r matches Some(p) ==> exists|h: Seq<char>| p@ == resolved(FOX_READER_BASE_PATH@ + "/whisper"@, h),
{
    let mut p = FOX_READER_BASE_PATH.to_string();
    p.append("/whisper");
    resolve_home(p.as_str())
}

/// The file of a Whisper model: `ggml-<model>.bin` in the models directory.
pub fn get_model_path(model_name: &str) -> (r: Option<String>)
    ensures
        r matches Some(p) ==> exists|h1: Seq<char>, h2: Seq<char>| p@ == joined(
            resolved(FOX_READER_BASE_PATH@ + "/whisper"@, h1),
            "ggml-"@ + model_name@ + ".bin"@,
            h2,
        ),
{
    match get_whisper_models_path() {
        Some(dir) => {
            let mut file = "ggml-".to_string();
            file.append(model_name);
            file.append(".bin");
            build_path(dir.as_str(), file.as_str())
        },
        None => None,
    }
}

/// Where a Whisper model is downloaded from.
pub fn get_model_url(model_name: &str) -> (r: String)
    ensures
        r@ == WHISPER_BASE_URL@ + "/resolve/main/ggml"@ + "-"@ + model_name@ + ".bin"@,
{
    let mut r = WHISPER_BASE_URL.to_string();
    r.append("/resolve/main/ggml");
    r.append("-");
    r.append(model_name);
    r.append(".bin");
    r
}

/// The names of the Whisper models that can be downloaded.
pub fn get_whisper_models_names() -> (r: Vec<&'static str>)
    ensures
        r@.map_values(|s: &str| s@) == whisper_model_names(),
{
    let r = vec![
        "base-q5_1", "base-q8_0", "base", "base.en-q5_1", "base.en-q8_0", "base.en",
        "large-v1", "large-v2-q5_0", "large-v2-q8_0", "large-v2", "large-v3-q5_0",
        "large-v3-turbo-q5_0", "large-v3-turbo-q8_0", "large-v3-turbo", "large-v3",
        "medium-q5_0", "medium-q8_0", "medium", "medium.en-q5_0", "medium.en-q8_0",
        "medium.en", "small-q5_1", "small-q8_0", "small", "small.en-q5_1",
        "small.en-q8_0", "small.en", "tiny-q5_1", "tiny-q8_0", "tiny", "tiny.en-q5_1",
        "tiny.en-q8_0", "tiny.en"
    ];
    assert(r@.map_values(|s: &str| s@) =~= whisper_model_names());
    r
}

/// The Speech Dispatcher configuration file.
pub fn get_config_file_path() -> (r: Option<String>)
    ensures
        r matches Some(p) ==> exists|h: Seq<char>| p@ == joined(DISPATCHER_CONFIG_PATH@, DISPATCHER_CONFIG_FILE@, h),
{
    build_path(DISPATCHER_CONFIG_PATH, DISPATCHER_CONFIG_FILE)
}

/// The Speech Dispatcher module configuration of Fox Reader.
pub fn get_module_config_path() -> (r: Option<String>)
    ensures
        r matches Some(p) ==> exists|h: Seq<char>| p@ == joined(DISPATCHER_CONFIG_PATH@, DISPATCHER_MODULE_FILE@, h),
{
    build_path(DISPATCHER_CONFIG_PATH, DISPATCHER_MODULE_FILE)
}

/// The script Speech Dispatcher runs to speak with Fox Reader.
pub fn get_script_path() -> (r: Option<String>)
    ensures
        r matches Some(p) ==> exists|h: Seq<char>| p@ == joined(DISPATCHER_CONFIG_PATH@, DISPATCHER_SCRIPT_FILE@, h),
{
    build_path(DISPATCHER_CONFIG_PATH, DISPATCHER_SCRIPT_FILE)
}

/// The Kokoros model file.
pub fn get_kokoros_model_path() -> (r: Option<String>)
    ensures
        r matches Some(p) ==> exists|h: Seq<char>| p@ == joined(FOX_READER_BASE_PATH@, "kokoros/kokoro-v1.0.onnx"@, h),
{
    build_path(FOX_READER_BASE_PATH, "kokoros/kokoro-v1.0.onnx")
}

/// The Kokoros voices file.
pub fn get_kokoros_voices_path() -> (r: Option<String>)
    ensures
        r matches Some(p) ==> exists|h: Seq<char>| p@ == joined(FOX_READER_BASE_PATH@, "kokoros/voices-v1.0.bin"@, h),
{
    build_path(FOX_READER_BASE_PATH, "kokoros/voices-v1.0.bin")
}

/// The directory of the user's GSettings schemas.
pub fn get_schemas_dir() -> (r: Option<String>)
    ensures
        r matches Some(p) ==> exists|h: Seq<char>| p@ == resolved(SCHEMAS_DIR_PATH@, h),
{
    resolve_home(SCHEMAS_DIR_PATH)
}

/// Where the settings schema is downloaded from.
pub fn get_schema_url() -> (r: String)
    ensures
        r@ == SCHEMA_URL@,
{
    SCHEMA_URL.to_string()
}

} // verus!
