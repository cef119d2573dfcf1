//! Files Fox Reader installs: espeak-ng data, the settings schema, and the
//! Whisper models.
use vstd::prelude::*;
use crate::chars::{has_prefix, split_bounds, split_on, string_of, to_chars};
use crate::paths::{get_espeak_path, get_schemas_dir, joined, resolved, FOX_READER_BASE_PATH};

verus! {

/// The espeak-ng data that Piper voices need.
pub struct EspeakHandler {}

/// The GSettings schema of the application.
pub struct SchemaHandler {}

/// Whether `s` ends with `p`.
pub open spec fn has_suffix(s: Seq<char>, p: Seq<char>) -> bool {
    p.len() <= s.len() && s.skip(s.len() - p.len()) == p
}

/// The model name of a file of the Whisper models directory: the file name
/// without its `ggml-` prefix and `.bin` suffix; nothing for other files.
pub open spec fn model_name_of(file_name: Seq<char>) -> Option<Seq<char>> {
    if has_prefix(file_name, "ggml-"@) && has_suffix(file_name, ".bin"@) {
        Some(file_name.subrange(5, file_name.len() - 4))
    } else {
        None
    }
}

impl EspeakHandler {
    /// Where the espeak-ng data is kept.
    pub fn get_espeak_data_path() -> (r: Option<String>)
        ensures
            r matches Some(p) ==> exists|h: Seq<char>| p@ == joined(FOX_READER_BASE_PATH@, "espeak-ng-data"@, h),
    {
        get_espeak_path()
    }

    /// The directory that holds the espeak-ng data: the data path without its
    /// last component.
    pub fn get_espeak_parent_dir() -> (r: Option<String>)
        ensures
            r matches Some(p) ==> exists|h: Seq<char>| p@ == resolved(FOX_READER_BASE_PATH@, h),
    {
        match EspeakHandler::get_espeak_data_path() {
            Some(path) => {
                let v = to_chars(path.as_str());
                let mut j: usize = v.len();
                while j > 0 && v[j - 1] != '/'
                    invariant
                        j <= v.len(),
                        forall|k: int| j <= k < v.len() ==> v@[k] != '/',
                    decreases j,
                {
                    j = j - 1;
                }
                proof {
                    let h = choose|h: Seq<char>| path@ == joined(FOX_READER_BASE_PATH@, "espeak-ng-data"@, h);
                    let base = resolved(FOX_READER_BASE_PATH@, h);
                    reveal_strlit("espeak-ng-data");
                    reveal_strlit("/");
                    let n = base.len() as int;
                    assert(v@ =~= base + "/"@ + "espeak-ng-data"@);
                    assert(v@[n] == '/');
                    assert forall|k: int| n < k < v.len() implies v@[k] != '/' by {
                        assert(v@[k] == "espeak-ng-data"@[k - n - 1]);
                    }
                    if j > n + 1 {
                        assert(v@[j - 1] != '/');
                    }
                    assert(j == n + 1);
                    assert(v@.subrange(0, j - 1) =~= base);
                }
                Some(string_of(&v, 0, j - 1))
            },
            None => None,
        }
    }
}

impl SchemaHandler {
    /// The directory of the user's GSettings schemas.
    pub fn get_schemas_dir() -> (r: Option<String>)
        ensures
            r matches Some(p) ==> exists|h: Seq<char>| p@ == resolved(crate::paths::SCHEMAS_DIR_PATH@, h),
    {
        get_schemas_dir()
    }

    /// The name of the schema file: the last `/`-separated piece of its address.
    pub fn schema_file_name(schema_url: &str) -> (r: String)
        ensures
            r@ == split_on(schema_url@, '/').last(),
    {
        let v = to_chars(schema_url);
        let b = split_bounds(&v, '/');
        proof {
            assert(split_on(v@, '/').len() > 0) by {
                crate::chars::lemma_first_from_bounds(v@, 0, crate::chars::eq_char('/'));
            }
        }
        let (x, y) = b[b.len() - 1];
        string_of(&v, x, y)
    }

    /// Where the schema file is installed: its file name in the schemas directory.
    pub fn schema_path(schema_url: &str, schemas_dir: &str) -> (r: String)
        ensures
            r@ == schemas_dir@ + "/"@ + split_on(schema_url@, '/').last(),
    {
        let name = SchemaHandler::schema_file_name(schema_url);
        let mut r = schemas_dir.to_string();
        r.append("/");
        r.append(name.as_str());
        r
    }
}

/// The model name of a file of the Whisper models directory, if it is a model file.
pub fn downloaded_model_name(file_name: &str) -> (r: Option<String>)
    ensures
        match r {
            Some(m) => model_name_of(file_name@) == Some(m@),
            None => model_name_of(file_name@) is None,
        },
{
    let v = to_chars(file_name);
    let n = v.len();
    proof {
        reveal_strlit("ggml-");
        reveal_strlit(".bin");
    }
    if n >= 5 && v[0] == 'g' && v[1] == 'g' && v[2] == 'm' && v[3] == 'l' && v[4] == '-' && n >= 4
        && v[n - 4] == '.' && v[n - 3] == 'b' && v[n - 2] == 'i' && v[n - 1] == 'n' {
        proof {
            assert(v@.take(5) =~= "ggml-"@);
            assert(v@.skip(n - 4) =~= ".bin"@);
            if n < 9 {
                assert(v@[4] == '-');
                assert(n - 4 <= 4);
            }
        }
        Some(string_of(&v, 5, n - 4))
    } else {
        proof {
            if has_prefix(v@, "ggml-"@) && has_suffix(v@, ".bin"@) {
                assert(v@.take(5)[0] == v@[0] && v@.take(5)[4] == v@[4]);
                assert(v@.take(5)[1] == v@[1] && v@.take(5)[2] == v@[2] && v@.take(5)[3] == v@[3]);
                assert(v@.skip(n - 4)[0] == v@[n - 4] && v@.skip(n - 4)[3] == v@[n - 1]);
                assert(v@.skip(n - 4)[1] == v@[n - 3] && v@.skip(n - 4)[2] == v@[n - 2]);
            }
        }
        None
    }
}

/// A model downloaded under the name `get_model_path` gives it is listed back
/// under the same name: `ggml-<model>.bin` is read as `<model>`.
pub proof fn model_file_round_trip(model: Seq<char>)
    ensures
        model_name_of("ggml-"@ + model + ".bin"@) == Some(model),
{
    reveal_strlit("ggml-");
    reveal_strlit(".bin");
    let f = "ggml-"@ + model + ".bin"@;
    assert(f.take(5) =~= "ggml-"@);
    assert(f.skip(f.len() - 4) =~= ".bin"@);
    assert(f.subrange(5, f.len() - 4) =~= model);
}

} // verus!
