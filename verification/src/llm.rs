//! The conversation with a language model: the history that is kept, the
//! messages and headers of each request, and what an answer does to the
//! history.
use vstd::prelude::*;
use crate::chars::{
    boundary_index, char_index_of_byte, is_boundary, lemma_utf8_len_append, lemma_utf8_len_ge_len,
    string_of, to_chars, trim, trim_bounds, utf8_len, utf8_len_of,
};
use crate::patterns::{clause_spans_from, find_matches, match_spans, CLAUSE_PATTERN};
use crate::settings::{LLMProvider, Message};

verus! {

/// The instruction given to every model before the conversation.
pub const SYSTEM_PROMPT: &'static str = "You are a helpful assistant. You are talking to the user using voice so make your responses short and concise. Avoid using emojis, markdown, or other formatting, but if user asks for it, you can use them.";

/// A message as its role and its content.
pub open spec fn message_view(m: Message) -> (Seq<char>, Seq<char>) {
    (m.role@, m.content@)
}

/// Messages as roles and contents.
pub open spec fn messages_view(ms: Seq<Message>) -> Seq<(Seq<char>, Seq<char>)> {
    ms.map_values(|m: Message| message_view(m))
}

/// The history with the language instruction put before the content of its
/// first message, when that message is the only one.
pub open spec fn with_language(h: Seq<(Seq<char>, Seq<char>)>, language: Seq<char>) -> Seq<(Seq<char>, Seq<char>)> {
    if h.len() == 1 {
        h.update(0, (h[0].0, "Respond with language: "@ + language + ". "@ + h[0].1))
    } else {
        h
    }
}

/// The messages sent to a provider: the system instruction first, except for
/// Anthropic, which takes it apart from the messages.
pub open spec fn request_view(provider: LLMProvider, h: Seq<(Seq<char>, Seq<char>)>) -> Seq<(Seq<char>, Seq<char>)> {
    if provider == LLMProvider::Anthropic {
        h
    } else {
        seq![("system"@, SYSTEM_PROMPT@)] + h
    }
}

/// LM Studio, Ollama and OpenAI are sent the system instruction as the first
/// message and then the whole history; Anthropic is sent the history alone.
pub proof fn system_instruction_leads_requests(provider: LLMProvider, h: Seq<(Seq<char>, Seq<char>)>)
    ensures
        provider == LLMProvider::LMStudio || provider == LLMProvider::Ollama || provider == LLMProvider::OpenAI
            ==> {
            &&& request_view(provider, h).len() == h.len() + 1
            &&& request_view(provider, h)[0] == ("system"@, SYSTEM_PROMPT@)
            &&& forall|i: int| 0 <= i < h.len() ==> #[trigger] request_view(provider, h)[i + 1] == h[i]
        },
        provider == LLMProvider::Anthropic ==> request_view(provider, h) == h,
{
}

/// The headers of a request as names and values.
pub open spec fn headers_view(hs: Seq<(String, String)>) -> Seq<(Seq<char>, Seq<char>)> {
    hs.map_values(|h: (String, String)| (h.0@, h.1@))
}

/// The headers a provider needs, or the error when its key is missing: LM
/// Studio sends a bearer key when it has one, OpenAI and Anthropic require a
/// key, Ollama sends none.
pub open spec fn request_headers_for(provider: LLMProvider, api_key: Option<Seq<char>>) -> Result<
    Seq<(Seq<char>, Seq<char>)>,
    Seq<char>,
> {
    match provider {
        LLMProvider::LMStudio => Ok(
            match api_key {
                Some(k) => seq![("Authorization"@, "Bearer "@ + k)],
                None => seq![],
            },
        ),
        LLMProvider::OpenAI => match api_key {
            Some(k) => Ok(seq![("Authorization"@, "Bearer "@ + k)]),
            None => Err("OpenAI API key is required"@),
        },
        LLMProvider::Anthropic => match api_key {
            Some(k) => Ok(seq![("x-api-key"@, k), ("anthropic-version"@, "2023-06-01"@)]),
            None => Err("Anthropic API key is required"@),
        },
        LLMProvider::Ollama => Ok(seq![]),
    }
}

/// An optional key as text.
pub open spec fn key_view(k: Option<&str>) -> Option<Seq<char>> {
    match k {
        Some(s) => Some(s@),
        None => None,
    }
}

/// The conversation kept with a language model.
pub struct Conversation {
    history: Vec<Message>,
}

impl View for Conversation {
    type V = Seq<(Seq<char>, Seq<char>)>;

    closed spec fn view(&self) -> Seq<(Seq<char>, Seq<char>)> {
        messages_view(self.history@)
    }
}

fn copy_message(m: &Message) -> (r: Message)
    ensures
        message_view(r) == message_view(*m),
{
    Message { role: m.role.clone(), content: m.content.clone() }
}

fn copy_messages(ms: &Vec<Message>) -> (r: Vec<Message>)
    ensures
        messages_view(r@) == messages_view(ms@),
{
    let mut r: Vec<Message> = Vec::new();
    let mut i: usize = 0;
    while i < ms.len()
        invariant
            i <= ms.len(),
            messages_view(r@) == messages_view(ms@.take(i as int)),
        decreases ms.len() - i,
    {
        let m = copy_message(&ms[i]);
        r.push(m);
        proof {
            assert(messages_view(ms@.take(i + 1)) =~= messages_view(ms@.take(i as int)).push(message_view(ms@[i as int])));
            assert(messages_view(r@) =~= messages_view(ms@.take(i + 1)));
        }
        i = i + 1;
    }
    proof {
        assert(ms@.take(ms.len() as int) =~= ms@);
    }
    r
}

impl Conversation {
    /// An empty conversation.
    pub fn new() -> (r: Self)
        ensures
            r@ == Seq::<(Seq<char>, Seq<char>)>::empty(),
    {
        let r = Conversation { history: Vec::new() };
        assert(r@ =~= Seq::<(Seq<char>, Seq<char>)>::empty());
        r
    }

    /// Forgets every message.
    pub fn reset_conversation(&mut self)
        ensures
            final(self)@ == Seq::<(Seq<char>, Seq<char>)>::empty(),
    {
        self.history = Vec::new();
        assert(self@ =~= Seq::<(Seq<char>, Seq<char>)>::empty());
    }

    /// Adds a message of the user.
    pub fn add_user_message(&mut self, content: &str)
        ensures
            final(self)@ == old(self)@.push(("user"@, content@)),
    {
        self.history.push(Message::user(content));
        assert(self@ =~= old(self)@.push(("user"@, content@)));
    }

    /// Adds an answer of the assistant.
    pub fn add_assistant_message(&mut self, content: &str)
        ensures
            final(self)@ == old(self)@.push(("assistant"@, content@)),
    {
        self.history.push(Message::assistant(content));
        assert(self@ =~= old(self)@.push(("assistant"@, content@)));
    }

    /// The messages of the conversation.
    pub fn messages(&self) -> (r: Vec<Message>)
        ensures
            messages_view(r@) == self@,
    {
        copy_messages(&self.history)
    }

    /// Starts a turn with the user's prompt: the language instruction goes
    /// before the only message of a conversation that has one, the prompt is
    /// added, and the history to send is returned.
    pub fn begin_turn(&mut self, prompt: &str, language: &str) -> (r: Vec<Message>)
        ensures
            final(self)@ == with_language(old(self)@, language@).push(("user"@, prompt@)),
            messages_view(r@) == final(self)@,
    {
        if self.history.len() == 1 {
            let mut content = "Respond with language: ".to_string();
            content.append(language);
            content.append(". ");
            content.append(self.history[0].content.as_str());
            let role = self.history[0].role.clone();
            self.history.set(0, Message { role, content });
            assert(self@ =~= with_language(old(self)@, language@));
        }
        self.add_user_message(prompt);
        self.messages()
    }

    /// Ends a turn with what the answer held: its text is added to the history
    /// and returned; an answer without text is an error that names the response.
    pub fn finish_turn(&mut self, content: Option<&str>, response: &str) -> (r: Result<String, String>)
        ensures
            match content {
                Some(c) => final(self)@ == old(self)@.push(("assistant"@, c@)) && (r matches Ok(t) && t@ == c@),
                None => final(self)@ == old(self)@ && (r matches Err(e) && e@
                    == "Invalid or empty response content: "@ + response@),
            },
    {
        match content {
            Some(c) => {
                self.add_assistant_message(c);
                Ok(c.to_string())
            },
            None => {
                let mut e = "Invalid or empty response content: ".to_string();
                e.append(response);
                Err(e)
            },
        }
    }
}

/// The messages of a request to `provider` for the history `history`
/// (`request_view`).
pub fn request_messages(provider: LLMProvider, history: &Vec<Message>) -> (r: Vec<Message>)
    ensures
        messages_view(r@) == request_view(provider, messages_view(history@)),
{
    let copied = copy_messages(history);
    match provider {
        LLMProvider::Anthropic => copied,
        _ => {
            let mut r: Vec<Message> = Vec::new();
            r.push(Message { role: "system".to_string(), content: SYSTEM_PROMPT.to_string() });
            let mut rest = copied;
            r.append(&mut rest);
            assert(messages_view(r@) =~= seq![("system"@, SYSTEM_PROMPT@)] + messages_view(history@));
            r
        },
    }
}

/// The headers of a request to `provider` (`request_headers_for`).
pub fn request_headers(provider: LLMProvider, api_key: Option<&str>) -> (r: Result<Vec<(String, String)>, String>)
    ensures
        match r {
            Ok(hs) => request_headers_for(provider, key_view(api_key)) == Ok::<
                Seq<(Seq<char>, Seq<char>)>,
                Seq<char>,
            >(headers_view(hs@)),
            Err(e) => request_headers_for(provider, key_view(api_key)) == Err::<
                Seq<(Seq<char>, Seq<char>)>,
                Seq<char>,
            >(e@),
        },
{
    let mut hs: Vec<(String, String)> = Vec::new();
    match provider {
        LLMProvider::LMStudio => {
            if let Some(k) = api_key {
                let mut v = "Bearer ".to_string();
                v.append(k);
                hs.push(("Authorization".to_string(), v));
            }
        },
        LLMProvider::OpenAI => match api_key {
            Some(k) => {
                let mut v = "Bearer ".to_string();
                v.append(k);
                hs.push(("Authorization".to_string(), v));
            },
            None => {
                return Err("OpenAI API key is required".to_string());
            },
        },
        LLMProvider::Anthropic => match api_key {
            Some(k) => {
                hs.push(("x-api-key".to_string(), k.to_string()));
                hs.push(("anthropic-version".to_string(), "2023-06-01".to_string()));
            },
            None => {
                return Err("Anthropic API key is required".to_string());
            },
        },
        LLMProvider::Ollama => {},
    }
    assert(headers_view(hs@) =~= request_headers_for(provider, key_view(api_key))->Ok_0);
    Ok(hs)
}

/// The texts of the spans `sp` of `s`.
pub open spec fn pieces_of(s: Seq<char>, sp: Seq<(int, int)>) -> Seq<Seq<char>> {
    sp.map_values(|x: (int, int)| s.subrange(x.0, x.1))
}

/// The number of UTF-8 bytes of all the texts of `ps`.
pub open spec fn bytes_total(ps: Seq<Seq<char>>) -> int
    decreases ps.len(),
{
    if ps.len() == 0 {
        0
    } else {
        utf8_len(ps[0]) + bytes_total(ps.drop_first())
    }
}

/// The clauses of a reply: the matches of `CLAUSE_PATTERN`.
pub open spec fn reply_clauses(s: Seq<char>) -> Seq<Seq<char>> {
    pieces_of(s, match_spans(CLAUSE_PATTERN@, s))
}

/// Whether the rest of a reply after its clauses is cut at a character
/// boundary: the clauses are counted by their total byte length, and the rest
/// starts at that byte (`str` slicing panics off a boundary).
pub open spec fn reply_splittable(s: Seq<char>) -> bool {
    bytes_total(reply_clauses(s)) >= utf8_len(s) || is_boundary(s, bytes_total(reply_clauses(s)))
}

/// The sentences a reply is spoken in: its clauses, then, when their total
/// length falls short of the reply, the trimmed rest from that byte on, if it
/// is not empty.
pub open spec fn reply_sentences(s: Seq<char>) -> Seq<Seq<char>> {
    let ps = reply_clauses(s);
    let total = bytes_total(ps);
    let rest = trim(s.skip(char_index_of_byte(s, total)));
    if total < utf8_len(s) && rest.len() > 0 {
        ps.push(rest)
    } else {
        ps
    }
}

proof fn lemma_clause_bytes(s: Seq<char>, p: int)
    requires
        0 <= p <= s.len(),
    ensures
        bytes_total(pieces_of(s, clause_spans_from(s, p))) <= utf8_len(s.skip(p)),
        forall|k: int| 0 <= k < clause_spans_from(s, p).len() ==> p <= (#[trigger] clause_spans_from(s, p)[k]).0
            <= clause_spans_from(s, p)[k].1 <= s.len(),
    decreases s.len() - p,
{
    let nt = |c: char| !crate::patterns::is_term(c);
    let t = |c: char| crate::patterns::is_term(c);
    if p < s.len() {
        crate::chars::lemma_first_from_bounds(s, p, nt);
        let i = crate::chars::first_from(s, p, nt);
        if i < s.len() {
            crate::chars::lemma_first_from_bounds(s, i, t);
            let j = crate::chars::first_from(s, i, t);
            if j < s.len() {
                lemma_clause_bytes(s, j + 1);
                let rest = clause_spans_from(s, j + 1);
                let sp = clause_spans_from(s, p);
                assert(sp == seq![(i, j + 1)] + rest);
                let ps = pieces_of(s, sp);
                assert(ps.drop_first() =~= pieces_of(s, rest));
                assert(ps[0] == s.subrange(i, j + 1));
                assert(s.skip(p) =~= s.subrange(p, i) + s.subrange(i, j + 1) + s.skip(j + 1));
                lemma_utf8_len_append(s.subrange(p, i), s.subrange(i, j + 1));
                lemma_utf8_len_append(s.subrange(p, i) + s.subrange(i, j + 1), s.skip(j + 1));
                assert forall|k: int| 0 <= k < sp.len() implies p <= (#[trigger] sp[k]).0 <= sp[k].1 <= s.len() by {
                    if k > 0 {
                        assert(sp[k] == rest[k - 1]);
                    }
                }
            } else {
                assert(pieces_of(s, clause_spans_from(s, p)) =~= Seq::<Seq<char>>::empty());
            }
        } else {
            assert(pieces_of(s, clause_spans_from(s, p)) =~= Seq::<Seq<char>>::empty());
        }
    } else {
        assert(pieces_of(s, clause_spans_from(s, p)) =~= Seq::<Seq<char>>::empty());
    }
}

proof fn lemma_bytes_total_nonneg(ps: Seq<Seq<char>>)
    ensures
        bytes_total(ps) >= 0,
    decreases ps.len(),
{
    if ps.len() > 0 {
        lemma_bytes_total_nonneg(ps.drop_first());
    }
}

proof fn lemma_bytes_total_skip(ps: Seq<Seq<char>>, k: int)
    requires
        0 <= k < ps.len(),
    ensures
        bytes_total(ps.skip(k)) == utf8_len(ps[k]) + bytes_total(ps.skip(k + 1)),
{
    assert(ps.skip(k).drop_first() =~= ps.skip(k + 1));
}

/// Splits a reply of the model into the sentences it is spoken in
/// (`reply_sentences`).
pub fn split_into_sentences(text: &str) -> (r: Vec<String>)
    requires
        text@.len() <= usize::MAX / 4,
        reply_splittable(text@),
    ensures
        crate::chars::str_views(r@) == reply_sentences(text@),
{
    match try_split_into_sentences(text) {
        Some(v) => v,
        None => Vec::new(),
    }
}

/// Splits a reply into its sentences (`reply_sentences`) when the rest after
/// its clauses starts on a character boundary; `None` otherwise.
pub fn try_split_into_sentences(text: &str) -> (r: Option<Vec<String>>)
    requires
        text@.len() <= usize::MAX / 4,
    ensures
        r is Some <==> reply_splittable(text@),
        r matches Some(v) ==> crate::chars::str_views(v@) == reply_sentences(text@),
{
    proof {
        reveal_strlit("[^.!?]+[.!?]");
        reveal_strlit("[^.!?]*?[.!?]+");
        reveal_strlit("([.!?])(\\s+[A-Z])");
    }
    let ms = find_matches(CLAUSE_PATTERN, text);
    let ghost ps = reply_clauses(text@);
    proof {
        assert(CLAUSE_PATTERN@[6] != crate::patterns::SENTENCE_PATTERN@[6]);
        assert(CLAUSE_PATTERN@[0] != crate::patterns::BLOCK_BREAK_PATTERN@[0]);
        assert(match_spans(CLAUSE_PATTERN@, text@) == clause_spans_from(text@, 0));
        lemma_clause_bytes(text@, 0);
        assert(text@.skip(0) =~= text@);
        lemma_utf8_len_ge_len(text@);
        assert(ps.skip(0) =~= ps);
        let sp = clause_spans_from(text@, 0);
        assert forall|i: int| 0 <= i < ps.len() implies (#[trigger] ps[i]).len() <= text@.len() by {
            assert(ps[i] == text@.subrange(sp[i].0, sp[i].1));
        }
    }
    let mut out: Vec<String> = Vec::new();
    let mut total: usize = 0;
    let mut k: usize = 0;
    while k < ms.len()
        invariant
            k <= ms.len() == ps.len(),
            ps == reply_clauses(text@),
            forall|i: int| 0 <= i < ms.len() ==> (#[trigger] ms@[i]).1@ == ps[i],
            forall|i: int| 0 <= i < ps.len() ==> (#[trigger] ps[i]).len() <= text@.len(),
            crate::chars::str_views(out@) == ps.take(k as int),
            total + bytes_total(ps.skip(k as int)) == bytes_total(ps),
            bytes_total(ps) <= utf8_len(text@),
            utf8_len(text@) <= 4 * text@.len(),
            text@.len() <= usize::MAX / 4,
        decreases ms.len() - k,
    {
        let piece = ms[k].1.clone();
        let pc = to_chars(piece.as_str());
        proof {
            lemma_bytes_total_skip(ps, k as int);
            lemma_bytes_total_nonneg(ps.skip(k + 1));
            lemma_utf8_len_ge_len(ps[k as int]);
            assert(pc@.subrange(0, pc.len() as int) =~= pc@);
        }
        let w = utf8_len_of(&pc, 0, pc.len());
        total = total + w;
        proof {
            crate::chars::lemma_str_views_push(out@, piece);
            assert(ps.take(k + 1) =~= ps.take(k as int).push(ps[k as int]));
        }
        out.push(piece);
        k = k + 1;
    }
    proof {
        assert(ps.take(ps.len() as int) =~= ps);
        assert(ps.skip(ps.len() as int) =~= Seq::<Seq<char>>::empty());
    }
    let c = to_chars(text);
    let n = c.len();
    proof {
        assert(c@.subrange(0, n as int) =~= c@);
    }
    let nb = utf8_len_of(&c, 0, n);
    if total < nb {
        match boundary_index(&c, total) {
            Some(b) => {
                let (x, y) = trim_bounds(&c, b, n);
                proof {
                    assert(c@.subrange(b as int, n as int) =~= c@.skip(b as int));
                }
                if x < y {
                    let rest = string_of(&c, x, y);
                    proof {
                        crate::chars::lemma_str_views_push(out@, rest);
                    }
                    out.push(rest);
                }
            },
            None => {
                return None;
            },
        }
    }
    Some(out)
}

/// Where the AI chat is: waiting, recording the user, speaking an answer, or
/// asked to stop speaking.
#[derive(Debug, Clone, Copy, PartialEq, Eq, Structural)]
pub enum State {
    Idle,
    Recording,
    Speaking,
    Stopped,
}

impl Default for State {
    fn default() -> (r: Self)
        ensures
            r == State::Idle,
    {
        State::Idle
    }
}

/// What a press of the microphone button makes the chat do.
#[derive(Debug, Clone, Copy, PartialEq, Eq, Structural)]
pub enum MicAction {
    StartRecording,
    StopRecording,
    StopSpeaking,
    Nothing,
}

/// The state and action after the microphone button is pressed: recording
/// starts when idle and stops when recording, speaking is asked to stop, and
/// nothing happens while a stop is pending.
pub fn on_mic_button_clicked(state: State) -> (r: (State, MicAction))
    ensures
        r == match state {
            State::Idle => (State::Recording, MicAction::StartRecording),
            State::Recording => (State::Recording, MicAction::StopRecording),
            State::Speaking => (State::Stopped, MicAction::StopSpeaking),
            State::Stopped => (State::Stopped, MicAction::Nothing),
        },
{
    match state {
        State::Idle => (State::Recording, MicAction::StartRecording),
        State::Recording => (State::Recording, MicAction::StopRecording),
        State::Speaking => (State::Stopped, MicAction::StopSpeaking),
        State::Stopped => (State::Stopped, MicAction::Nothing),
    }
}

/// Before each sentence of an answer is spoken: a pending stop ends the
/// answer and the chat is idle again (`false`); otherwise speaking goes on.
pub fn before_next_sentence(state: State) -> (r: (State, bool))
    ensures
        r == if state == State::Stopped { (State::Idle, false) } else { (state, true) },
{
    if state == State::Stopped {
        (State::Idle, false)
    } else {
        (state, true)
    }
}

} // verus!
