use fox_reader::paths::{build_path_in, get_model_url, get_schema_url, get_whisper_models_names, resolve_home_in, get_pdfium_path};
use fox_reader::installs::{downloaded_model_name, SchemaHandler};

#[test]
fn home_is_substituted() {
    assert_eq!(resolve_home_in("$HOME/.local/share/fox-reader", "/home/u"), "/home/u/.local/share/fox-reader");
    assert_eq!(resolve_home_in("$HOME$HOME/x$HOM", "h"), "hh/x$HOM");
    assert_eq!(build_path_in("$HOME/.config/speech-dispatcher", "speechd.conf", "/root"), "/root/.config/speech-dispatcher/speechd.conf");
}

#[test]
fn pdfium_path_under_home() {
    if let Some(p) = get_pdfium_path() {
        assert!(p.ends_with("/.local/share/fox-reader/pdfium"));
    }
}

#[test]
fn whisper_models() {
    assert_eq!(get_model_url("tiny"), "https://huggingface.co/ggerganov/whisper.cpp/resolve/main/ggml-tiny.bin");
    let names = get_whisper_models_names();
    assert_eq!(names.len(), 33);
    assert_eq!(names[0], "base-q5_1");
    assert_eq!(downloaded_model_name("ggml-tiny.en.bin"), Some("tiny.en".to_string()));
    assert_eq!(downloaded_model_name("ggml-.bin"), Some(String::new()));
    assert_eq!(downloaded_model_name("tiny.bin"), None);
    assert_eq!(downloaded_model_name("ggml-tiny.txt"), None);
}

#[test]
fn schema_location() {
    let url = get_schema_url();
    assert_eq!(SchemaHandler::schema_file_name(&url), "com.github.kopecmaciej.Settings.gschema.xml");
    assert_eq!(SchemaHandler::schema_path(&url, "/s"), "/s/com.github.kopecmaciej.Settings.gschema.xml");
    assert_eq!(SchemaHandler::schema_file_name("noslash"), "noslash");
}
