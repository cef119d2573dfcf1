use fox_reader::speechd::{add_voice_template, config_template, module_template, ConfigEdit, FileHandler, SpeechDispatcher};

#[test]
fn upsert_appends_when_key_missing() {
    match FileHandler::upsert_value_in_config("A 1\nB 2", "DefaultVoice", "af_sky") {
        ConfigEdit::Append(s) => assert_eq!(s, "\nDefaultVoice af_sky"),
        ConfigEdit::Rewrite(_) => panic!("expected append"),
    }
}

#[test]
fn upsert_rewrites_key_lines() {
    let content = "A 1\nDefaultVoice old\nDefaultVoiceX keep\n# DefaultVoice comment\nDefaultVoice";
    match FileHandler::upsert_value_in_config(content, "DefaultVoice", "new") {
        ConfigEdit::Rewrite(s) => assert_eq!(s, "A 1\nDefaultVoice new\nDefaultVoiceX keep\n# DefaultVoice comment\nDefaultVoice"),
        ConfigEdit::Append(_) => panic!("expected rewrite"),
    }
}

#[test]
fn set_default_voice_then_read_back() {
    let content = "GenericExecuteSynth \"x\"\nDefaultVoice af_heart\n";
    let edited = match SpeechDispatcher::set_default_voice(content, "bf_emma") {
        ConfigEdit::Rewrite(s) => s,
        ConfigEdit::Append(s) => format!("{}{}", content, s),
    };
    assert_eq!(FileHandler::get_default_voice_from_config(&edited), Some("bf_emma".to_string()));
}

#[test]
fn delete_line_removes_matching_lines() {
    let content = "keep 1\n  remove me  \nkeep 2\nremove me";
    assert_eq!(FileHandler::delete_line_from_config(content, "remove me\n"), "keep 1\nkeep 2");
}

#[test]
fn voice_declarations() {
    assert_eq!(add_voice_template("en-GB", "alan", "alan.onnx"), " \nAddVoice \"en-GB\" \"alan\" \"alan.onnx\"\n");
    assert_eq!(SpeechDispatcher::add_new_voice("en_GB", "alan", "en_GB-alan-low"), " \nAddVoice \"en-GB\" \"alan\" \"en_GB-alan-low.onnx\"\n");
    let config = "X\nAddVoice \"en_GB\" \"alan\" \"a.onnx\"\nY";
    assert_eq!(SpeechDispatcher::remove_voice(config, "en_GB", "alan", "a.onnx"), "X\nY");
}

#[test]
fn speechd_configuration_text() {
    let t = config_template("en-GB");
    assert!(t.starts_with("\n# Fox Reader \n"));
    assert!(t.ends_with("DefaultLanguage \"en-GB\"\nDefaultModule \"fox-reader\""));
    assert_eq!(SpeechDispatcher::init_speechd_config(true), None);
    assert_eq!(SpeechDispatcher::init_speechd_config(false), Some(t.trim().to_string()));
}

#[test]
fn default_voice_read_after_append() {
    let content = "GenericExecuteSynth \"x\"\n# no voice chosen yet";
    let edited = match SpeechDispatcher::set_default_voice(content, "am_adam") {
        ConfigEdit::Rewrite(s) => s,
        ConfigEdit::Append(s) => format!("{}{}", content, s),
    };
    assert_eq!(edited, "GenericExecuteSynth \"x\"\n# no voice chosen yet\nDefaultVoice am_adam");
    assert_eq!(FileHandler::get_default_voice_from_config(&edited), Some("am_adam".to_string()));
}

#[test]
fn module_configuration_text() {
    let t = module_template("/home/u/.local/share/fox-reader/fox-piper.sh");
    let head = "\nGenericExecuteSynth \"export DATA='$DATA';export RATE='$RATE';export VOICE='$VOICE';/home/u/.local/share/fox-reader/fox-piper.sh\"\nDefaultVoice \"pf_dora\"\n\n";
    assert!(t.starts_with(head));
    let rest = &t[head.len()..];
    let lines: Vec<&str> = rest.split('\n').collect();
    assert_eq!(lines.len(), 54);
    assert_eq!(lines[0], "AddVoice \"pt-BR_pf_dora\" \"female1\" \"pf_dora\"");
    assert_eq!(lines[1], "AddVoice \"pt-BR_pm_alex\" \"female1\" \"pm_alex\"");
    assert_eq!(lines[53], "AddVoice \"en-US_am_santa\" \"female1\" \"am_santa\"");
    assert_eq!(SpeechDispatcher::init_module_config(true, "/s"), None);
    assert_eq!(SpeechDispatcher::init_module_config(false, "/s"), Some(module_template("/s").trim().to_string()));
}

#[test]
fn removed_voice_leaves_no_declaration() {
    let added = SpeechDispatcher::add_new_voice("en_GB", "alan", "en_GB-alan-low");
    let config = format!("GenericExecuteSynth \"x\"{}DefaultVoice \"alan\"\n  AddVoice \"en-GB\" \"alan\" \"en_GB-alan-low.onnx\"  ", added);
    let removed = SpeechDispatcher::remove_voice(&config, "en-GB", "alan", "en_GB-alan-low.onnx");
    let declaration = add_voice_template("en-GB", "alan", "en_GB-alan-low.onnx");
    assert!(removed.lines().all(|l| l.trim() != declaration.trim()));
    assert_eq!(removed, "GenericExecuteSynth \"x\" \nDefaultVoice \"alan\"");
}

#[test]
fn module_configuration_reads_back() {
    let t = module_template("/home/u/.config/speech-dispatcher/fox-reader.sh");
    assert_eq!(FileHandler::get_default_voice_from_config(&t), Some("\"pf_dora\"".to_string()));
    let written = SpeechDispatcher::init_module_config(false, "/s.sh").unwrap();
    assert_eq!(FileHandler::get_default_voice_from_config(&written), Some("\"pf_dora\"".to_string()));
    for key in ["af_heart", "bm_george", "zm_yunxi"] {
        assert!(t.lines().any(|l| l.starts_with("AddVoice") && l.ends_with(&format!("\"{}\"", key))));
    }
}

#[test]
fn env_values_are_read_from_assignments() {
    let content = "export PIPER_VOICE='en_GB-alan-low'\nexport RATE='50'\n";
    assert_eq!(FileHandler::get_env_value(content, "PIPER_VOICE"), Ok(Some("en_GB-alan-low".to_string())));
    assert_eq!(FileHandler::get_env_value(content, "RATE"), Ok(Some("50".to_string())));
    assert_eq!(FileHandler::get_env_value(content, "PITCH"), Ok(None));
    assert_eq!(FileHandler::get_env_value("PITCH=''", "PITCH"), Ok(None));
    assert!(FileHandler::get_env_value(content, "(").is_err());
}

#[test]
fn env_updates_replace_the_first_assignment() {
    assert_eq!(
        FileHandler::update_env("A='1'\nB='2'\n", "B", "3"),
        Ok("A='1'\nB='3'\n".to_string())
    );
    assert_eq!(FileHandler::update_env("B='1' B='2'", "B", "9"), Ok("B='9' B='2'".to_string()));
    assert_eq!(FileHandler::update_env("A='1'", "B", "9"), Ok("A='1'".to_string()));
    assert!(FileHandler::update_env("A='1'", "(", "9").is_err());
}

#[test]
fn set_up_writes_only_missing_files() {
    let plan = SpeechDispatcher::init(false, false, false, "/s.sh");
    assert_eq!(plan.speechd_config, SpeechDispatcher::init_speechd_config(false));
    assert_eq!(plan.module_config, Some(module_template("/s.sh").trim().to_string()));
    assert!(plan.write_script);
    let again = SpeechDispatcher::init(true, true, true, "/s.sh");
    assert_eq!(again.speechd_config, None);
    assert_eq!(again.module_config, None);
    assert!(!again.write_script);
    assert!(SpeechDispatcher::init_script(false));
    assert!(!SpeechDispatcher::init_script(true));
}

#[test]
fn removing_a_voice_keeps_the_other_lines_in_order() {
    let config = "GenericExecuteSynth \"x\"\nAddVoice \"en_GB\" \"alan\" \"a.onnx\"\n\nAddVoice \"de_DE\" \"thorsten\" \"t.onnx\"\nDefaultVoice \"t.onnx\"";
    assert_eq!(
        SpeechDispatcher::remove_voice(config, "en_GB", "alan", "a.onnx"),
        "GenericExecuteSynth \"x\"\n\nAddVoice \"de_DE\" \"thorsten\" \"t.onnx\"\nDefaultVoice \"t.onnx\""
    );
}
