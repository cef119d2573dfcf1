use fox_reader::settings::{
    active_provider_from, color_scheme_of, provider_index, provider_setting_key, theme_name,
    whisper_model_file_name, ColorSchemeChoice, LLMProvider, LlmSettings, Message, SettingsEntry, ProviderSetting, ProviderSettings,
    WhisperModelDownloadStatus, ANTHROPIC_URL, LMSTUDIO_URL, OLLAMA_URL, OPENAI_URL,
};

fn view(c: &ProviderSettings) -> (Option<String>, String, Option<String>, Option<u32>) {
    (c.api_key.clone(), c.base_url.clone(), c.model.clone(), c.max_tokens)
}

#[test]
fn provider_names() {
    assert_eq!(LLMProvider::from_str("LM Studio"), Some(LLMProvider::LMStudio));
    assert_eq!(LLMProvider::from_str("Anthropic"), Some(LLMProvider::Anthropic));
    assert_eq!(LLMProvider::from_str("lm studio"), None);
    assert_eq!(LLMProvider::get_all(), vec![LLMProvider::LMStudio, LLMProvider::Ollama, LLMProvider::OpenAI, LLMProvider::Anthropic]);
    assert_eq!(LLMProvider::get_all_str(), vec!["LM Studio", "Ollama", "OpenAI", "Anthropic"]);
    for p in LLMProvider::get_all() {
        assert_eq!(LLMProvider::from_str(&p.to_string()), Some(p));
    }
}

#[test]
fn chat_messages() {
    let m = Message::user("hi");
    assert_eq!((m.role.as_str(), m.content.as_str()), ("user", "hi"));
    let m = Message::assistant("hello");
    assert_eq!((m.role.as_str(), m.content.as_str()), ("assistant", "hello"));
}

#[test]
fn download_status_text() {
    assert_eq!(WhisperModelDownloadStatus::default().to_string(), "Not downloaded");
    assert_eq!(WhisperModelDownloadStatus::Downloading(7).to_string(), "Downloading: 7%");
    assert_eq!(WhisperModelDownloadStatus::Downloading(42).to_string(), "Downloading: 42%");
    assert_eq!(WhisperModelDownloadStatus::Downloading(100).to_string(), "Downloading: 100%");
    assert_eq!(WhisperModelDownloadStatus::Downloaded.to_string(), "Downloaded");
    assert_eq!(WhisperModelDownloadStatus::Error("x".to_string()).to_string(), "Error: x");
}

#[test]
fn provider_settings_keys_and_choices() {
    assert_eq!(provider_setting_key(LLMProvider::LMStudio, ProviderSetting::ApiKey), "lmstudio-api-key");
    assert_eq!(provider_setting_key(LLMProvider::Anthropic, ProviderSetting::MaxTokens), "anthropic-max-tokens");
    assert_eq!(provider_setting_key(LLMProvider::OpenAI, ProviderSetting::BaseUrl), "openai-base-url");
    assert_eq!(provider_setting_key(LLMProvider::Ollama, ProviderSetting::Temperature), "ollama-temperature");
    assert_eq!(provider_setting_key(LLMProvider::Ollama, ProviderSetting::Model), "ollama-model");
    assert_eq!(active_provider_from("OpenAI"), LLMProvider::OpenAI);
    assert_eq!(active_provider_from("nothing"), LLMProvider::Ollama);
    assert_eq!(provider_index(LLMProvider::LMStudio), 0);
    assert_eq!(provider_index(LLMProvider::Anthropic), 3);
    assert_eq!(theme_name(true), "dark");
    assert_eq!(theme_name(false), "light");
    assert_eq!(color_scheme_of("dark"), ColorSchemeChoice::ForceDark);
    assert_eq!(color_scheme_of("light"), ColorSchemeChoice::ForceLight);
    assert_eq!(color_scheme_of("system"), ColorSchemeChoice::Default);
    assert_eq!(whisper_model_file_name("base.en"), "ggml-base.en.bin");
    assert_eq!(
        fox_reader::installs::downloaded_model_name(&whisper_model_file_name("tiny-q5_1")),
        Some("tiny-q5_1".to_string())
    );
}

#[test]
fn llm_settings_start_with_every_provider() {
    let s = LlmSettings::new();
    assert_eq!(s.active, LLMProvider::LMStudio);
    let order: Vec<LLMProvider> = s.providers.iter().map(|e| e.0).collect();
    assert_eq!(order, vec![LLMProvider::Ollama, LLMProvider::LMStudio, LLMProvider::OpenAI, LLMProvider::Anthropic]);
    assert_eq!(view(&s.active_config()), (None, LMSTUDIO_URL.to_string(), Some(String::new()), None));
    assert_eq!(view(&s.provider_config(LLMProvider::Ollama)), (None, OLLAMA_URL.to_string(), Some(String::new()), None));
    assert_eq!(
        view(&s.provider_config(LLMProvider::OpenAI)),
        (None, OPENAI_URL.to_string(), Some("gpt-4o-mini".to_string()), None)
    );
    assert_eq!(view(&s.provider_config(LLMProvider::Anthropic)).1, ANTHROPIC_URL.to_string());
}

#[test]
fn llm_setters_change_only_the_active_provider() {
    let mut s = LlmSettings::new();
    s.set_active_provider(LLMProvider::OpenAI);
    assert!(s.set_api_key("sk-1".to_string()));
    assert!(s.set_model("gpt-4o".to_string()));
    assert!(s.set_max_tokens(512));
    assert!(s.set_base_url("https://example.org/v1".to_string()));
    assert_eq!(
        view(&s.active_config()),
        (Some("sk-1".to_string()), "https://example.org/v1".to_string(), Some("gpt-4o".to_string()), Some(512))
    );
    assert_eq!(view(&s.provider_config(LLMProvider::Ollama)), (None, OLLAMA_URL.to_string(), Some(String::new()), None));
    assert_eq!(s.providers.len(), 4);
}

#[test]
fn llm_missing_provider_reads_defaults_and_setters_do_nothing() {
    let mut s = LlmSettings { active: LLMProvider::Anthropic, providers: Vec::new() };
    assert!(!s.set_api_key("k".to_string()));
    assert!(s.providers.is_empty());
    assert_eq!(view(&s.active_config()), (None, OLLAMA_URL.to_string(), Some(String::new()), None));
    s.set_active_provider(LLMProvider::OpenAI);
    assert_eq!(s.active, LLMProvider::OpenAI);
    assert_eq!(s.providers.len(), 1);
    assert_eq!(view(&s.active_config()).2, Some("gpt-4o-mini".to_string()));
    s.set_provider_config(
        LLMProvider::Ollama,
        ProviderSettings { api_key: None, base_url: "http://h:1".to_string(), model: Some("m".to_string()), max_tokens: Some(9) },
    );
    assert_eq!(s.providers.len(), 2);
    assert_eq!(view(&s.provider_config(LLMProvider::Ollama)), (None, "http://h:1".to_string(), Some("m".to_string()), Some(9)));
    s.set_provider_config(
        LLMProvider::Ollama,
        ProviderSettings { api_key: Some("x".to_string()), base_url: "u".to_string(), model: None, max_tokens: None },
    );
    assert_eq!(s.providers.len(), 2);
    assert_eq!(view(&s.provider_config(LLMProvider::Ollama)), (Some("x".to_string()), "u".to_string(), None, None));
}

#[test]
fn empty_form_entries_are_not_saved() {
    let mut s = LlmSettings::new();
    s.set_active_provider(LLMProvider::OpenAI);
    assert!(!s.on_entry_changed(SettingsEntry::ApiKey, String::new()));
    assert_eq!(view(&s.active_config()).0, None);
    assert!(s.on_entry_changed(SettingsEntry::ApiKey, "sk-2".to_string()));
    assert!(s.on_entry_changed(SettingsEntry::BaseUrl, "https://h/v1".to_string()));
    assert!(!s.on_entry_changed(SettingsEntry::Model, String::new()));
    assert!(s.on_entry_changed(SettingsEntry::Model, "o1".to_string()));
    assert_eq!(
        view(&s.active_config()),
        (Some("sk-2".to_string()), "https://h/v1".to_string(), Some("o1".to_string()), None)
    );
    let mut none = LlmSettings { active: LLMProvider::Anthropic, providers: Vec::new() };
    assert!(!none.on_entry_changed(SettingsEntry::Model, "m".to_string()));
    assert!(none.providers.is_empty());
}
