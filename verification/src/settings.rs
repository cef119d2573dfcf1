//! Settings vocabulary: the LLM providers, chat messages, and the status of a
//! Whisper model download.
use vstd::prelude::*;
use crate::chars::{same_text, str_views};

verus! {

/// A provider of language-model chat.
#[derive(Debug, Clone, Copy, PartialEq, Eq, Structural, Hash)]
pub enum LLMProvider {
    LMStudio,
    Ollama,
    OpenAI,
    Anthropic,
}

/// The providers in the order they are offered.
pub open spec fn all_providers() -> Seq<LLMProvider> {
    seq![LLMProvider::LMStudio, LLMProvider::Ollama, LLMProvider::OpenAI, LLMProvider::Anthropic]
}

/// The display name of a provider.
pub open spec fn provider_name(p: LLMProvider) -> Seq<char> {
    match p {
        LLMProvider::LMStudio => "LM Studio"@,
        LLMProvider::Ollama => "Ollama"@,
        LLMProvider::OpenAI => "OpenAI"@,
        LLMProvider::Anthropic => "Anthropic"@,
    }
}

/// The provider with a display name.
pub open spec fn provider_named(s: Seq<char>) -> Option<LLMProvider> {
    if s == "LM Studio"@ {
        Some(LLMProvider::LMStudio)
    } else if s == "Ollama"@ {
        Some(LLMProvider::Ollama)
    } else if s == "OpenAI"@ {
        Some(LLMProvider::OpenAI)
    } else if s == "Anthropic"@ {
        Some(LLMProvider::Anthropic)
    } else {
        None
    }
}

impl LLMProvider {
    /// The provider a display name names, if any.
    pub fn from_str(s: &str) -> (r: Option<Self>)
        ensures
            r == provider_named(s@),
    {
        if same_text(s, "LM Studio") {
            Some(LLMProvider::LMStudio)
        } else if same_text(s, "Ollama") {
            Some(LLMProvider::Ollama)
        } else if same_text(s, "OpenAI") {
            Some(LLMProvider::OpenAI)
        } else if same_text(s, "Anthropic") {
            Some(LLMProvider::Anthropic)
        } else {
            None
        }
    }

    /// All providers, in the order they are offered.
    pub fn get_all() -> (r: Vec<LLMProvider>)
        ensures
            r@ == all_providers(),
    {
        let r = vec![LLMProvider::LMStudio, LLMProvider::Ollama, LLMProvider::OpenAI, LLMProvider::Anthropic];
        assert(r@ =~= all_providers());
        r
    }

    /// The display name of the provider.
    pub fn to_string(&self) -> (r: String)
        ensures
            r@ == provider_name(*self),
    {
        match self {
            LLMProvider::LMStudio => "LM Studio".to_string(),
            LLMProvider::Ollama => "Ollama".to_string(),
            LLMProvider::OpenAI => "OpenAI".to_string(),
            LLMProvider::Anthropic => "Anthropic".to_string(),
        }
    }

    /// The display names of all providers, in the order they are offered.
    pub fn get_all_str() -> (r: Vec<String>)
        ensures
            str_views(r@) == all_providers().map_values(|p: LLMProvider| provider_name(p)),
    {
        let all = LLMProvider::get_all();
        let mut r: Vec<String> = Vec::new();
        let mut i: usize = 0;
        while i < all.len()
            invariant
                i <= all.len(),
                all@ == all_providers(),
                str_views(r@) == all_providers().take(i as int).map_values(|p: LLMProvider| provider_name(p)),
            decreases all.len() - i,
        {
            let s = all[i].to_string();
            proof {
                crate::chars::lemma_str_views_push(r@, s);
                assert(all_providers().take(i + 1).map_values(|p: LLMProvider| provider_name(p))
                    =~= all_providers().take(i as int).map_values(|p: LLMProvider| provider_name(p)).push(s@));
            }
            r.push(s);
            i = i + 1;
        }
        proof {
            assert(all_providers().take(4) =~= all_providers());
        }
        r
    }
}

/// A provider's name leads back to the provider: `from_str` undoes `to_string`.
pub proof fn provider_name_round_trip(p: LLMProvider)
    ensures
        provider_named(provider_name(p)) == Some(p),
{
    reveal_strlit("LM Studio");
    reveal_strlit("Ollama");
    reveal_strlit("OpenAI");
    reveal_strlit("Anthropic");
    assert("LM Studio"@.len() == 9);
    assert("Ollama"@.len() == 6);
    assert("OpenAI"@.len() == 6);
    assert("Anthropic"@.len() == 9);
    assert("Ollama"@[0] == 'O' && "OpenAI"@[1] == 'p' && "Ollama"@[1] == 'l');
    assert("LM Studio"@[0] == 'L' && "Anthropic"@[0] == 'A');
}

/// A value kept for each provider in the application settings.
#[derive(Debug, Clone, Copy, PartialEq, Eq, Structural)]
pub enum ProviderSetting {
    ApiKey,
    BaseUrl,
    Model,
    Temperature,
    MaxTokens,
}

/// The settings key under which a provider keeps a value: the provider's
/// prefix, then the value's name.
pub open spec fn setting_key(provider: LLMProvider, setting: ProviderSetting) -> Seq<char> {
    let prefix = match provider {
        LLMProvider::LMStudio => "lmstudio"@,
        LLMProvider::Ollama => "ollama"@,
        LLMProvider::OpenAI => "openai"@,
        LLMProvider::Anthropic => "anthropic"@,
    };
    let name = match setting {
        ProviderSetting::ApiKey => "-api-key"@,
        ProviderSetting::BaseUrl => "-base-url"@,
        ProviderSetting::Model => "-model"@,
        ProviderSetting::Temperature => "-temperature"@,
        ProviderSetting::MaxTokens => "-max-tokens"@,
    };
    prefix + name
}

/// The colour scheme a theme setting asks for.
#[derive(Debug, Clone, Copy, PartialEq, Eq, Structural)]
pub enum ColorSchemeChoice {
    ForceLight,
    ForceDark,
    Default,
}

/// The settings key under which `provider` keeps `setting`.
pub fn provider_setting_key(provider: LLMProvider, setting: ProviderSetting) -> (r: String)
    ensures
        r@ == setting_key(provider, setting),
{
    let mut r = match provider {
        LLMProvider::LMStudio => "lmstudio".to_string(),
        LLMProvider::Ollama => "ollama".to_string(),
        LLMProvider::OpenAI => "openai".to_string(),
        LLMProvider::Anthropic => "anthropic".to_string(),
    };
    match setting {
        ProviderSetting::ApiKey => r.append("-api-key"),
        ProviderSetting::BaseUrl => r.append("-base-url"),
        ProviderSetting::Model => r.append("-model"),
        ProviderSetting::Temperature => r.append("-temperature"),
        ProviderSetting::MaxTokens => r.append("-max-tokens"),
    }
    r
}

/// The active provider from the stored name: the provider it names, else Ollama.
pub fn active_provider_from(stored: &str) -> (r: LLMProvider)
    ensures
        r == match provider_named(stored@) {
            Some(p) => p,
            None => LLMProvider::Ollama,
        },
{
    match LLMProvider::from_str(stored) {
        Some(p) => p,
        None => LLMProvider::Ollama,
    }
}

/// The position of a provider in the order they are offered.
pub fn provider_index(provider: LLMProvider) -> (r: usize)
    ensures
        r < all_providers().len(),
        all_providers()[r as int] == provider,
{
    let all = LLMProvider::get_all();
    let mut i: usize = 0;
    while i < all.len()
        invariant
            i <= all.len(),
            all@ == all_providers(),
            forall|k: int| 0 <= k < i ==> all@[k] != provider,
        decreases all.len() - i,
    {
        if all[i] == provider {
            return i;
        }
        i = i + 1;
    }
    proof {
        assert(all_providers().contains(provider)) by {
            match provider {
                LLMProvider::LMStudio => assert(all_providers()[0] == provider),
                LLMProvider::Ollama => assert(all_providers()[1] == provider),
                LLMProvider::OpenAI => assert(all_providers()[2] == provider),
                LLMProvider::Anthropic => assert(all_providers()[3] == provider),
            }
        }
    }
    0
}

/// The theme setting for a dark or a light appearance.
pub fn theme_name(is_dark: bool) -> (r: &'static str)
    ensures
        r@ == if is_dark { "dark"@ } else { "light"@ },
{
    if is_dark {
        "dark"
    } else {
        "light"
    }
}

/// The colour scheme a theme setting asks for: light and dark are forced, any
/// other value follows the system.
pub fn color_scheme_of(theme: &str) -> (r: ColorSchemeChoice)
    ensures
        r == if theme@ == "light"@ {
            ColorSchemeChoice::ForceLight
        } else if theme@ == "dark"@ {
            ColorSchemeChoice::ForceDark
        } else {
            ColorSchemeChoice::Default
        },
{
    if same_text(theme, "light") {
        ColorSchemeChoice::ForceLight
    } else if same_text(theme, "dark") {
        ColorSchemeChoice::ForceDark
    } else {
        ColorSchemeChoice::Default
    }
}

/// The file name of a downloaded Whisper model.
pub fn whisper_model_file_name(model: &str) -> (r: String)
    ensures
        r@ == "ggml-"@ + model@ + ".bin"@,
{
    let mut r = "ggml-".to_string();
    r.append(model);
    r.append(".bin");
    r
}

/// The address of the local Ollama chat service.
pub const OLLAMA_URL: &'static str = "http://localhost:11434/api/chat";
/// The address of the local LM Studio chat service.
pub const LMSTUDIO_URL: &'static str = "http://localhost:1234/v1/chat/completions";
/// The address of the OpenAI chat service.
pub const OPENAI_URL: &'static str = "https://api.openai.com/v1/chat/completions";
/// The address of the Anthropic messages service.
pub const ANTHROPIC_URL: &'static str = "https://api.anthropic.com/v1/messages";

/// A provider's chat settings, apart from the temperature.
#[derive(Debug)]
pub struct ProviderSettings {
    pub api_key: Option<String>,
    pub base_url: String,
    pub model: Option<String>,
    pub max_tokens: Option<u32>,
}

/// An optional text as characters.
pub open spec fn opt_text(o: Option<String>) -> Option<Seq<char>> {
    match o {
        Some(s) => Some(s@),
        None => None,
    }
}

/// Provider settings as key, address, model and token limit.
pub open spec fn settings_view(c: ProviderSettings) -> (Option<Seq<char>>, Seq<char>, Option<Seq<char>>, Option<u32>) {
    (opt_text(c.api_key), c.base_url@, opt_text(c.model), c.max_tokens)
}

/// The settings a provider starts with: no key, its service address, its
/// default model (none for the local services' blank model name, and none
/// held for Anthropic), no token limit.
pub open spec fn default_settings_view(p: LLMProvider) -> (Option<Seq<char>>, Seq<char>, Option<Seq<char>>, Option<u32>) {
    match p {
        LLMProvider::LMStudio => (None, LMSTUDIO_URL@, Some(""@), None),
        LLMProvider::Ollama => (None, OLLAMA_URL@, Some(""@), None),
        LLMProvider::OpenAI => (None, OPENAI_URL@, Some("gpt-4o-mini"@), None),
        LLMProvider::Anthropic => (None, ANTHROPIC_URL@, None, None),
    }
}

/// The settings of each provider, in the order they were added.
pub open spec fn entries_view(es: Seq<(LLMProvider, ProviderSettings)>) -> Seq<
    (LLMProvider, (Option<Seq<char>>, Seq<char>, Option<Seq<char>>, Option<u32>)),
> {
    es.map_values(|e: (LLMProvider, ProviderSettings)| (e.0, settings_view(e.1)))
}

/// The index of the first entry at or after `i` for provider `p`, or -1.
pub open spec fn provider_pos<V>(es: Seq<(LLMProvider, V)>, p: LLMProvider, i: int) -> int
    decreases es.len() - i,
{
    if i < 0 || i >= es.len() {
        -1
    } else if es[i].0 == p {
        i
    } else {
        provider_pos(es, p, i + 1)
    }
}

proof fn lemma_provider_pos<V>(es: Seq<(LLMProvider, V)>, p: LLMProvider, i: int)
    requires
        0 <= i <= es.len(),
    ensures
        provider_pos(es, p, i) == -1 || (i <= provider_pos(es, p, i) < es.len() && es[provider_pos(es, p, i)].0 == p),
        forall|k: int| i <= k < es.len() && (k < provider_pos(es, p, i) || provider_pos(es, p, i) == -1) ==> (
        #[trigger] es[k]).0 != p,
    decreases es.len() - i,
{
    if i < es.len() && es[i].0 != p {
        lemma_provider_pos(es, p, i + 1);
    }
}

/// Entries with the same providers in the same places give every provider
/// the same position.
proof fn lemma_provider_pos_same_keys<V>(a: Seq<(LLMProvider, V)>, b: Seq<(LLMProvider, V)>, q: LLMProvider, i: int)
    requires
        a.len() == b.len(),
        forall|k: int| 0 <= k < a.len() ==> (#[trigger] a[k]).0 == b[k].0,
    ensures
        provider_pos(a, q, i) == provider_pos(b, q, i),
    decreases a.len() - i,
{
    if 0 <= i < a.len() {
        assert(a[i].0 == b[i].0);
        lemma_provider_pos_same_keys(a, b, q, i + 1);
    }
}

/// An entry added at the end is found only for a provider that had none.
proof fn lemma_provider_pos_push<V>(a: Seq<(LLMProvider, V)>, e: (LLMProvider, V), q: LLMProvider, i: int)
    requires
        0 <= i <= a.len(),
    ensures
        provider_pos(a.push(e), q, i) == if provider_pos(a, q, i) >= 0 {
            provider_pos(a, q, i)
        } else if e.0 == q {
            a.len() as int
        } else {
            -1
        },
    decreases a.len() - i,
{
    if i < a.len() {
        assert(a.push(e)[i] == a[i]);
        lemma_provider_pos_push(a, e, q, i + 1);
    } else {
        assert(a.push(e)[i] == e);
        if e.0 != q {
            assert(provider_pos(a.push(e), q, i + 1) == -1);
        }
    }
}

/// A text field of the chat settings form.
#[derive(Debug, Clone, Copy, PartialEq, Eq, Structural)]
pub enum SettingsEntry {
    ApiKey,
    BaseUrl,
    Model,
}

/// Provider settings with the field that `entry` edits set to `text`.
pub open spec fn with_entry(
    v: (Option<Seq<char>>, Seq<char>, Option<Seq<char>>, Option<u32>),
    entry: SettingsEntry,
    text: Seq<char>,
) -> (Option<Seq<char>>, Seq<char>, Option<Seq<char>>, Option<u32>) {
    match entry {
        SettingsEntry::ApiKey => (Some(text), v.1, v.2, v.3),
        SettingsEntry::BaseUrl => (v.0, text, v.2, v.3),
        SettingsEntry::Model => (v.0, v.1, Some(text), v.3),
    }
}

/// The chat settings of all providers and which provider is active.
#[derive(Debug)]
pub struct LlmSettings {
    pub active: LLMProvider,
    pub providers: Vec<(LLMProvider, ProviderSettings)>,
}

fn copy_text(o: &Option<String>) -> (r: Option<String>)
    ensures
        opt_text(r) == opt_text(*o),
{
    match o {
        Some(s) => Some(s.clone()),
        None => None,
    }
}

fn copy_settings(c: &ProviderSettings) -> (r: ProviderSettings)
    ensures
        settings_view(r) == settings_view(*c),
{
    ProviderSettings {
        api_key: copy_text(&c.api_key),
        base_url: c.base_url.clone(),
        model: copy_text(&c.model),
        max_tokens: c.max_tokens,
    }
}

impl ProviderSettings {
    /// The settings `provider` starts with (`default_settings_view`).
    pub fn new(provider: LLMProvider) -> (r: Self)
        ensures
            settings_view(r) == default_settings_view(provider),
    {
        match provider {
            LLMProvider::LMStudio => ProviderSettings {
                api_key: None,
                base_url: LMSTUDIO_URL.to_string(),
                model: Some("".to_string()),
                max_tokens: None,
            },
            LLMProvider::Ollama => ProviderSettings {
                api_key: None,
                base_url: OLLAMA_URL.to_string(),
                model: Some("".to_string()),
                max_tokens: None,
            },
            LLMProvider::OpenAI => ProviderSettings {
                api_key: None,
                base_url: OPENAI_URL.to_string(),
                model: Some("gpt-4o-mini".to_string()),
                max_tokens: None,
            },
            LLMProvider::Anthropic => ProviderSettings {
                api_key: None,
                base_url: ANTHROPIC_URL.to_string(),
                model: None,
                max_tokens: None,
            },
        }
    }
}

/// Replacing the settings of a provider that has an entry changes what is
/// read for it and nothing else.
proof fn lemma_set_entry(
    before: LlmSettings,
    after: LlmSettings,
    p: LLMProvider,
    v: (Option<Seq<char>>, Seq<char>, Option<Seq<char>>, Option<u32>),
)
    requires
        before.wf(),
        before.has(p),
        after.entries() == before.entries().update(provider_pos(before.entries(), p, 0), (p, v)),
    ensures
        after.has(p),
        after.config_of(p) == v,
        forall|q: LLMProvider| q != p ==> #[trigger] after.has(q) == before.has(q),
        forall|q: LLMProvider| q != p ==> #[trigger] after.config_of(q) == before.config_of(q),
{
    let es = before.entries();
    let es2 = after.entries();
    let k = provider_pos(es, p, 0);
    lemma_provider_pos(es, p, 0);
    assert forall|j: int| 0 <= j < es2.len() implies (#[trigger] es2[j]).0 == es[j].0 by {}
    assert forall|q: LLMProvider| true implies #[trigger] provider_pos(es2, q, 0) == provider_pos(es, q, 0) by {
        lemma_provider_pos_same_keys(es2, es, q, 0);
    }
    assert forall|q: LLMProvider| q != p && before.has(q) implies #[trigger] es2[provider_pos(es, q, 0)] == es[provider_pos(es, q, 0)] by {
        lemma_provider_pos(es, q, 0);
    }
}

impl LlmSettings {
    /// The settings of each provider.
    pub open spec fn entries(&self) -> Seq<(LLMProvider, (Option<Seq<char>>, Seq<char>, Option<Seq<char>>, Option<u32>))> {
        entries_view(self.providers@)
    }

    /// No provider has two entries.
    pub open spec fn wf(&self) -> bool {
        forall|i: int, j: int| 0 <= i < j < self.entries().len() ==> (#[trigger] self.entries()[i]).0 != (
        #[trigger] self.entries()[j]).0
    }

    /// Whether `p` has an entry.
    pub open spec fn has(&self, p: LLMProvider) -> bool {
        provider_pos(self.entries(), p, 0) >= 0
    }

    /// The settings read for `p`: its entry, or Ollama's starting settings when it has none.
    pub open spec fn config_of(&self, p: LLMProvider) -> (Option<Seq<char>>, Seq<char>, Option<Seq<char>>, Option<u32>) {
        if self.has(p) {
            self.entries()[provider_pos(self.entries(), p, 0)].1
        } else {
            default_settings_view(LLMProvider::Ollama)
        }
    }

    /// The settings at first: every provider with its starting settings, LM
    /// Studio active.
    pub fn new() -> (r: Self)
        ensures
            r.wf(),
            r.active == LLMProvider::LMStudio,
            r.entries() == seq![
                (LLMProvider::Ollama, default_settings_view(LLMProvider::Ollama)),
                (LLMProvider::LMStudio, default_settings_view(LLMProvider::LMStudio)),
                (LLMProvider::OpenAI, default_settings_view(LLMProvider::OpenAI)),
                (LLMProvider::Anthropic, default_settings_view(LLMProvider::Anthropic)),
            ],
    {
        let mut providers: Vec<(LLMProvider, ProviderSettings)> = Vec::new();
        providers.push((LLMProvider::Ollama, ProviderSettings::new(LLMProvider::Ollama)));
        providers.push((LLMProvider::LMStudio, ProviderSettings::new(LLMProvider::LMStudio)));
        providers.push((LLMProvider::OpenAI, ProviderSettings::new(LLMProvider::OpenAI)));
        providers.push((LLMProvider::Anthropic, ProviderSettings::new(LLMProvider::Anthropic)));
        let r = LlmSettings { active: LLMProvider::LMStudio, providers };
        assert(r.entries() =~= seq![
            (LLMProvider::Ollama, default_settings_view(LLMProvider::Ollama)),
            (LLMProvider::LMStudio, default_settings_view(LLMProvider::LMStudio)),
            (LLMProvider::OpenAI, default_settings_view(LLMProvider::OpenAI)),
            (LLMProvider::Anthropic, default_settings_view(LLMProvider::Anthropic)),
        ]);
        r
    }

    /// The index of `p`'s entry.
    fn find(&self, p: LLMProvider) -> (r: Option<usize>)
        ensures
            match r {
                Some(k) => k < self.providers.len() && k == provider_pos(self.entries(), p, 0),
                None => provider_pos(self.entries(), p, 0) == -1,
            },
    {
        let ghost es = self.entries();
        let mut i: usize = 0;
        while i < self.providers.len()
            invariant
                i <= self.providers.len() == es.len(),
                es == self.entries(),
                provider_pos(es, p, 0) == provider_pos(es, p, i as int),
            decreases self.providers.len() - i,
        {
            if self.providers[i].0 == p {
                assert(es[i as int].0 == p);
                return Some(i);
            }
            assert(es[i as int].0 != p);
            i = i + 1;
        }
        None
    }

    /// Makes `p` the active provider, giving it its starting settings when it
    /// has none; other entries are unchanged.
    pub fn set_active_provider(&mut self, p: LLMProvider)
        requires
            old(self).wf(),
        ensures
            final(self).wf(),
            final(self).active == p,
            final(self).entries() == if old(self).has(p) {
                old(self).entries()
            } else {
                old(self).entries().push((p, default_settings_view(p)))
            },
            final(self).has(p),
            final(self).config_of(p) == if old(self).has(p) {
                old(self).config_of(p)
            } else {
                default_settings_view(p)
            },
            forall|q: LLMProvider| q != p ==> #[trigger] final(self).has(q) == old(self).has(q),
            forall|q: LLMProvider| q != p ==> #[trigger] final(self).config_of(q) == old(self).config_of(q),
    {
        self.active = p;
        match self.find(p) {
            Some(_) => {},
            None => {
                let ghost before = self.entries();
                proof {
                    lemma_provider_pos(before, p, 0);
                }
                self.providers.push((p, ProviderSettings::new(p)));
                assert(self.entries() =~= before.push((p, default_settings_view(p))));
                proof {
                    assert forall|q: LLMProvider| true implies #[trigger] provider_pos(self.entries(), q, 0) == if provider_pos(before, q, 0) >= 0 {
                        provider_pos(before, q, 0)
                    } else if p == q {
                        before.len() as int
                    } else {
                        -1
                    } by {
                        lemma_provider_pos_push(before, (p, default_settings_view(p)), q, 0);
                        lemma_provider_pos(before, q, 0);
                    }
                    assert forall|q: LLMProvider| provider_pos(before, q, 0) >= 0 implies #[trigger] self.entries()[provider_pos(before, q, 0)] == before[provider_pos(before, q, 0)] by {
                        lemma_provider_pos(before, q, 0);
                    }
                }
            },
        }
    }

    /// The settings of the active provider (`config_of`).
    pub fn active_config(&self) -> (r: ProviderSettings)
        ensures
            settings_view(r) == self.config_of(self.active),
    {
        self.provider_config(self.active)
    }

    /// The settings of `p` (`config_of`).
    pub fn provider_config(&self, p: LLMProvider) -> (r: ProviderSettings)
        ensures
            settings_view(r) == self.config_of(p),
    {
        match self.find(p) {
            Some(k) => {
                assert(self.entries()[k as int].1 == settings_view(self.providers@[k as int].1));
                copy_settings(&self.providers[k].1)
            },
            None => ProviderSettings::new(LLMProvider::Ollama),
        }
    }

    /// Puts `c` in the place of entry `k`, keeping its provider.
    fn replace_entry(&mut self, k: usize, c: ProviderSettings)
        requires
            k < old(self).providers.len(),
            old(self).wf(),
        ensures
            final(self).wf(),
            final(self).active == old(self).active,
            final(self).entries() == old(self).entries().update(
                k as int,
                (old(self).entries()[k as int].0, settings_view(c)),
            ),
    {
        let p = self.providers[k].0;
        let ghost before = self.entries();
        self.providers.set(k, (p, c));
        assert(self.entries() =~= before.update(k as int, (before[k as int].0, settings_view(c))));
        assert forall|i: int, j: int| 0 <= i < j < self.entries().len() implies (#[trigger] self.entries()[i]).0 != (
        #[trigger] self.entries()[j]).0 by {
            assert(self.entries()[i].0 == before[i].0 && self.entries()[j].0 == before[j].0);
        }
    }

    /// Sets the API key of the active provider when it has an entry, and says whether it had.
    pub fn set_api_key(&mut self, key: String) -> (changed: bool)
        requires
            old(self).wf(),
        ensures
            final(self).wf(),
            final(self).active == old(self).active,
            changed == old(self).has(old(self).active),
            changed ==> final(self).entries() == old(self).entries().update(
                provider_pos(old(self).entries(), old(self).active, 0),
                (old(self).active, (
                    Some(key@),
                    old(self).config_of(old(self).active).1,
                    old(self).config_of(old(self).active).2,
                    old(self).config_of(old(self).active).3,
                )),
            ),
            !changed ==> final(self).entries() == old(self).entries(),
            changed ==> final(self).config_of(final(self).active) == final(self).entries()[provider_pos(
                old(self).entries(),
                old(self).active,
                0,
            )].1,
            forall|q: LLMProvider| q != old(self).active ==> #[trigger] final(self).has(q) == old(self).has(q),
            forall|q: LLMProvider| q != old(self).active ==> #[trigger] final(self).config_of(q) == old(self).config_of(q),
    {
        let ghost before = *self;
        match self.find(self.active) {
            Some(k) => {
                let old_c = copy_settings(&self.providers[k].1);
                proof {
                    lemma_provider_pos(self.entries(), self.active, 0);
                    assert(self.entries()[k as int].1 == settings_view(self.providers@[k as int].1));
                }
                let c = ProviderSettings { api_key: Some(key), ..old_c };
                self.replace_entry(k, c);
                proof {
                    lemma_set_entry(before, *self, before.active, self.entries()[k as int].1);
                }
                true
            },
            None => false,
        }
    }

    /// Sets the service address of the active provider when it has an entry, and says whether it had.
    pub fn set_base_url(&mut self, base_url: String) -> (changed: bool)
        requires
            old(self).wf(),
        ensures
            final(self).wf(),
            final(self).active == old(self).active,
            changed == old(self).has(old(self).active),
            changed ==> final(self).entries() == old(self).entries().update(
                provider_pos(old(self).entries(), old(self).active, 0),
                (old(self).active, (
                    old(self).config_of(old(self).active).0,
                    base_url@,
                    old(self).config_of(old(self).active).2,
                    old(self).config_of(old(self).active).3,
                )),
            ),
            !changed ==> final(self).entries() == old(self).entries(),
            changed ==> final(self).config_of(final(self).active) == final(self).entries()[provider_pos(
                old(self).entries(),
                old(self).active,
                0,
            )].1,
            forall|q: LLMProvider| q != old(self).active ==> #[trigger] final(self).has(q) == old(self).has(q),
            forall|q: LLMProvider| q != old(self).active ==> #[trigger] final(self).config_of(q) == old(self).config_of(q),
    {
        let ghost before = *self;
        match self.find(self.active) {
            Some(k) => {
                let old_c = copy_settings(&self.providers[k].1);
                proof {
                    lemma_provider_pos(self.entries(), self.active, 0);
                    assert(self.entries()[k as int].1 == settings_view(self.providers@[k as int].1));
                }
                let c = ProviderSettings { base_url, ..old_c };
                self.replace_entry(k, c);
                proof {
                    lemma_set_entry(before, *self, before.active, self.entries()[k as int].1);
                }
                true
            },
            None => false,
        }
    }

    /// Sets the model of the active provider when it has an entry, and says whether it had.
    pub fn set_model(&mut self, model: String) -> (changed: bool)
        requires
            old(self).wf(),
        ensures
            final(self).wf(),
            final(self).active == old(self).active,
            changed == old(self).has(old(self).active),
            changed ==> final(self).entries() == old(self).entries().update(
                provider_pos(old(self).entries(), old(self).active, 0),
                (old(self).active, (
                    old(self).config_of(old(self).active).0,
                    old(self).config_of(old(self).active).1,
                    Some(model@),
                    old(self).config_of(old(self).active).3,
                )),
            ),
            !changed ==> final(self).entries() == old(self).entries(),
            changed ==> final(self).config_of(final(self).active) == final(self).entries()[provider_pos(
                old(self).entries(),
                old(self).active,
                0,
            )].1,
            forall|q: LLMProvider| q != old(self).active ==> #[trigger] final(self).has(q) == old(self).has(q),
            forall|q: LLMProvider| q != old(self).active ==> #[trigger] final(self).config_of(q) == old(self).config_of(q),
    {
        let ghost before = *self;
        match self.find(self.active) {
            Some(k) => {
                let old_c = copy_settings(&self.providers[k].1);
                proof {
                    lemma_provider_pos(self.entries(), self.active, 0);
                    assert(self.entries()[k as int].1 == settings_view(self.providers@[k as int].1));
                }
                let c = ProviderSettings { model: Some(model), ..old_c };
                self.replace_entry(k, c);
                proof {
                    lemma_set_entry(before, *self, before.active, self.entries()[k as int].1);
                }
                true
            },
            None => false,
        }
    }

    /// Sets the token limit of the active provider when it has an entry, and says whether it had.
    pub fn set_max_tokens(&mut self, max_tokens: u32) -> (changed: bool)
        requires
            old(self).wf(),
        ensures
            final(self).wf(),
            final(self).active == old(self).active,
            changed == old(self).has(old(self).active),
            changed ==> final(self).entries() == old(self).entries().update(
                provider_pos(old(self).entries(), old(self).active, 0),
                (old(self).active, (
                    old(self).config_of(old(self).active).0,
                    old(self).config_of(old(self).active).1,
                    old(self).config_of(old(self).active).2,
                    Some(max_tokens),
                )),
            ),
            !changed ==> final(self).entries() == old(self).entries(),
            changed ==> final(self).config_of(final(self).active) == final(self).entries()[provider_pos(
                old(self).entries(),
                old(self).active,
                0,
            )].1,
            forall|q: LLMProvider| q != old(self).active ==> #[trigger] final(self).has(q) == old(self).has(q),
            forall|q: LLMProvider| q != old(self).active ==> #[trigger] final(self).config_of(q) == old(self).config_of(q),
    {
        let ghost before = *self;
        match self.find(self.active) {
            Some(k) => {
                let old_c = copy_settings(&self.providers[k].1);
                proof {
                    lemma_provider_pos(self.entries(), self.active, 0);
                    assert(self.entries()[k as int].1 == settings_view(self.providers@[k as int].1));
                }
                let c = ProviderSettings { max_tokens: Some(max_tokens), ..old_c };
                self.replace_entry(k, c);
                proof {
                    lemma_set_entry(before, *self, before.active, self.entries()[k as int].1);
                }
                true
            },
            None => false,
        }
    }

    /// What an edit of a text field of the settings form does: an empty text
    /// is not saved; any other text is set as that field of the active
    /// provider, when it has an entry. Says whether anything changed.
    pub fn on_entry_changed(&mut self, entry: SettingsEntry, text: String) -> (changed: bool)
        requires
            old(self).wf(),
        ensures
            final(self).wf(),
            final(self).active == old(self).active,
            changed == (text@.len() > 0 && old(self).has(old(self).active)),
            changed ==> final(self).config_of(final(self).active) == with_entry(
                old(self).config_of(old(self).active),
                entry,
                text@,
            ),
            !changed ==> final(self).entries() == old(self).entries(),
            forall|q: LLMProvider| q != old(self).active ==> #[trigger] final(self).has(q) == old(self).has(q),
            forall|q: LLMProvider| q != old(self).active ==> #[trigger] final(self).config_of(q) == old(self).config_of(q),
    {
        if crate::chars::to_chars(text.as_str()).len() == 0 {
            return false;
        }
        let ghost before = *self;
        let ghost k = provider_pos(before.entries(), before.active, 0);
        let ghost tv = text@;
        proof {
            lemma_provider_pos(before.entries(), before.active, 0);
        }
        let changed = match entry {
            SettingsEntry::ApiKey => self.set_api_key(text),
            SettingsEntry::BaseUrl => self.set_base_url(text),
            SettingsEntry::Model => self.set_model(text),
        };
        proof {
            if changed {
                assert(self.entries()[k] == (before.active, with_entry(before.config_of(before.active), entry, tv)));
            }
        }
        changed
    }

    /// Sets all settings of `p`: its entry is replaced, or added when it has none.
    pub fn set_provider_config(&mut self, p: LLMProvider, config: ProviderSettings)
        requires
            old(self).wf(),
        ensures
            final(self).wf(),
            final(self).active == old(self).active,
            final(self).entries() == if old(self).has(p) {
                old(self).entries().update(provider_pos(old(self).entries(), p, 0), (p, settings_view(config)))
            } else {
                old(self).entries().push((p, settings_view(config)))
            },
            final(self).has(p),
            final(self).config_of(p) == settings_view(config),
            forall|q: LLMProvider| q != p ==> #[trigger] final(self).has(q) == old(self).has(q),
            forall|q: LLMProvider| q != p ==> #[trigger] final(self).config_of(q) == old(self).config_of(q),
    {
        let ghost start = *self;
        let ghost cv = settings_view(config);
        match self.find(p) {
            Some(k) => {
                proof {
                    lemma_provider_pos(self.entries(), p, 0);
                }
                self.replace_entry(k, config);
                proof {
                    lemma_set_entry(start, *self, p, cv);
                }
            },
            None => {
                let ghost before = self.entries();
                proof {
                    lemma_provider_pos(before, p, 0);
                }
                self.providers.push((p, config));
                assert(self.entries() =~= before.push((p, cv)));
                proof {
                    assert forall|q: LLMProvider| true implies #[trigger] provider_pos(self.entries(), q, 0) == if provider_pos(before, q, 0) >= 0 {
                        provider_pos(before, q, 0)
                    } else if p == q {
                        before.len() as int
                    } else {
                        -1
                    } by {
                        lemma_provider_pos_push(before, (p, cv), q, 0);
                        lemma_provider_pos(before, q, 0);
                    }
                    assert forall|q: LLMProvider| provider_pos(before, q, 0) >= 0 implies #[trigger] self.entries()[provider_pos(before, q, 0)] == before[provider_pos(before, q, 0)] by {
                        lemma_provider_pos(before, q, 0);
                    }
                }
            },
        }
    }
}

/// A message of a chat with a language model.
#[derive(Debug, Clone)]
pub struct Message {
    pub role: String,
    pub content: String,
}

impl Message {
    /// A message from the user.
    pub fn user(content: &str) -> (r: Self)
        ensures
            r.role@ == "user"@,
            r.content@ == content@,
    {
        Message { role: "user".to_string(), content: content.to_string() }
    }

    /// A message from the assistant.
    pub fn assistant(content: &str) -> (r: Self)
        ensures
            r.role@ == "assistant"@,
            r.content@ == content@,
    {
        Message { role: "assistant".to_string(), content: content.to_string() }
    }
}

/// The status of a Whisper model download.
#[derive(Debug, Clone)]
pub enum WhisperModelDownloadStatus {
    NotDownloaded,
    Downloading(u8),
    Downloaded,
    Error(String),
}

/// The decimal digits of `n`.
pub open spec fn decimal(n: nat) -> Seq<char>
    decreases n,
{
    if n < 10 {
        seq![(n + 48) as char]
    } else {
        decimal(n / 10).push(((n % 10) + 48) as char)
    }
}

/// The text shown for a download status.
pub open spec fn status_text(s: WhisperModelDownloadStatus) -> Seq<char> {
    match s {
        WhisperModelDownloadStatus::NotDownloaded => "Not downloaded"@,
        WhisperModelDownloadStatus::Downloading(p) => "Downloading: "@ + decimal(p as nat) + "%"@,
        WhisperModelDownloadStatus::Downloaded => "Downloaded"@,
        WhisperModelDownloadStatus::Error(e) => "Error: "@ + e@,
    }
}

/// The decimal representation of a byte.
fn decimal_of(n: u8) -> (r: String)
    ensures
        r@ == decimal(n as nat),
{
    let mut r = String::new();
    let ones = (n % 10 + 48) as char;
    if n >= 100 {
        let h = (n / 100 + 48) as char;
        let t = ((n / 10) % 10 + 48) as char;
        crate::chars::push_char(&mut r, h);
        crate::chars::push_char(&mut r, t);
        crate::chars::push_char(&mut r, ones);
        proof {
            assert(decimal((n / 100) as nat) == seq![h]);
            assert(decimal((n / 10) as nat) == seq![h].push(t));
            assert(decimal(n as nat) == seq![h].push(t).push(ones));
            assert(r@ =~= decimal(n as nat));
        }
    } else if n >= 10 {
        let t = (n / 10 + 48) as char;
        crate::chars::push_char(&mut r, t);
        crate::chars::push_char(&mut r, ones);
        proof {
            assert(decimal((n / 10) as nat) == seq![t]);
            assert(r@ =~= decimal(n as nat));
        }
    } else {
        crate::chars::push_char(&mut r, ones);
        proof {
            assert(r@ =~= decimal(n as nat));
        }
    }
    r
}

impl WhisperModelDownloadStatus {
    /// The status of a model that has not been downloaded.
    pub fn default() -> (r: Self)
        ensures
            r is NotDownloaded,
    {
        WhisperModelDownloadStatus::NotDownloaded
    }

    /// The text shown for the status, as "Downloading: 42%".
    pub fn to_string(&self) -> (r: String)
        ensures
            r@ == status_text(*self),
    {
        match self {
            WhisperModelDownloadStatus::NotDownloaded => "Not downloaded".to_string(),
            WhisperModelDownloadStatus::Downloading(p) => {
                let mut s = "Downloading: ".to_string();
                let d = decimal_of(*p);
                s.append(d.as_str());
                s.append("%");
                s
            },
            WhisperModelDownloadStatus::Downloaded => "Downloaded".to_string(),
            WhisperModelDownloadStatus::Error(e) => {
                let mut s = "Error: ".to_string();
                s.append(e.as_str());
                s
            },
        }
    }
}

} // verus!
