use fox_reader::llm::{
    before_next_sentence, on_mic_button_clicked, request_headers, request_messages, split_into_sentences, try_split_into_sentences, Conversation,
    MicAction, State, SYSTEM_PROMPT,
};
use fox_reader::settings::{LLMProvider, Message};

fn pairs(ms: &[Message]) -> Vec<(String, String)> {
    ms.iter().map(|m| (m.role.clone(), m.content.clone())).collect()
}

fn pair(a: &str, b: &str) -> (String, String) {
    (a.to_string(), b.to_string())
}

#[test]
fn conversation_keeps_turns() {
    let mut c = Conversation::new();
    let sent = c.begin_turn("Hello", "en");
    assert_eq!(pairs(&sent), vec![pair("user", "Hello")]);
    assert_eq!(c.finish_turn(Some("Hi there"), "{}"), Ok("Hi there".to_string()));
    let sent = c.begin_turn("How are you?", "en");
    assert_eq!(
        pairs(&sent),
        vec![pair("user", "Hello"), pair("assistant", "Hi there"), pair("user", "How are you?")]
    );
    assert_eq!(
        c.finish_turn(None, "{\"error\":1}"),
        Err("Invalid or empty response content: {\"error\":1}".to_string())
    );
    assert_eq!(pairs(&c.messages()).len(), 3);
    c.reset_conversation();
    assert!(c.messages().is_empty());
}

#[test]
fn language_instruction_on_first_message() {
    let mut c = Conversation::new();
    c.add_user_message("Bonjour");
    let sent = c.begin_turn("Ça va?", "French");
    assert_eq!(
        pairs(&sent),
        vec![pair("user", "Respond with language: French. Bonjour"), pair("user", "Ça va?")]
    );
    c.add_assistant_message("Oui");
    let sent = c.begin_turn("Merci", "French");
    assert_eq!(sent[0].content, "Respond with language: French. Bonjour");
    assert_eq!(sent.len(), 4);
}

#[test]
fn request_messages_and_headers() {
    let history = vec![Message::user("Hi")];
    let m = request_messages(LLMProvider::Ollama, &history);
    assert_eq!(pairs(&m), vec![pair("system", SYSTEM_PROMPT), pair("user", "Hi")]);
    let m = request_messages(LLMProvider::Anthropic, &history);
    assert_eq!(pairs(&m), vec![pair("user", "Hi")]);

    assert_eq!(request_headers(LLMProvider::LMStudio, None), Ok(vec![]));
    assert_eq!(
        request_headers(LLMProvider::LMStudio, Some("k")),
        Ok(vec![pair("Authorization", "Bearer k")])
    );
    assert_eq!(request_headers(LLMProvider::OpenAI, None), Err("OpenAI API key is required".to_string()));
    assert_eq!(
        request_headers(LLMProvider::Anthropic, Some("sk")),
        Ok(vec![pair("x-api-key", "sk"), pair("anthropic-version", "2023-06-01")])
    );
    assert_eq!(request_headers(LLMProvider::Anthropic, None), Err("Anthropic API key is required".to_string()));
    assert_eq!(request_headers(LLMProvider::Ollama, Some("x")), Ok(vec![]));
}

#[test]
fn reply_split_into_spoken_sentences() {
    assert_eq!(
        split_into_sentences("Hello there. How are you? Fine"),
        vec!["Hello there.", " How are you?", "Fine"]
    );
    assert_eq!(split_into_sentences("Hi.. there"), vec!["Hi.", ". there"]);
    assert_eq!(split_into_sentences("..."), vec!["..."]);
    assert_eq!(split_into_sentences("Done!"), vec!["Done!"]);
    assert!(split_into_sentences("").is_empty());
    assert!(split_into_sentences("   ").is_empty());
}

#[test]
fn microphone_button_states() {
    assert_eq!(State::default(), State::Idle);
    assert_eq!(on_mic_button_clicked(State::Idle), (State::Recording, MicAction::StartRecording));
    assert_eq!(on_mic_button_clicked(State::Recording), (State::Recording, MicAction::StopRecording));
    assert_eq!(on_mic_button_clicked(State::Speaking), (State::Stopped, MicAction::StopSpeaking));
    assert_eq!(on_mic_button_clicked(State::Stopped), (State::Stopped, MicAction::Nothing));
    assert_eq!(before_next_sentence(State::Stopped), (State::Idle, false));
    assert_eq!(before_next_sentence(State::Speaking), (State::Speaking, true));
}

#[test]
fn replies_split_only_on_character_boundaries() {
    assert_eq!(
        try_split_into_sentences("Hello there. How are you? Fine"),
        Some(vec!["Hello there.".to_string(), " How are you?".to_string(), "Fine".to_string()])
    );
    assert_eq!(try_split_into_sentences("é. Oui"), Some(vec!["é.".to_string(), "Oui".to_string()]));
    assert_eq!(try_split_into_sentences("..é."), None);
    assert_eq!(try_split_into_sentences(""), Some(Vec::new()));
}
