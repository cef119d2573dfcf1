# fox_reader

The logic of Fox Reader, a text-to-speech reader for Linux, as a library whose
behaviour is stated in contracts and proved with Verus.

## Layout

- `src/` — the verified library:
  - `chars` — the character model of text: whitespace, trimming, lines, words,
    UTF-8 byte lengths and boundaries.
  - `patterns` — the regular-expression searches (the `regex` crate) and what
    their matches are.
  - `sentences`, `sentence_laws` — text split into the segments that are
    spoken, and what holds of every segment.
  - `blocks` — reading blocks of a plain-text document with the byte offsets
    used for highlighting.
  - `pdf_text` — where a sentence ends inside PDF text, and how PDF text is
    cleaned and cut.
  - `markdown` — Markdown removed from chat answers before they are spoken.
  - `voices`, `voice_filter`, `voice_selector` — the Kokoros voice catalogue,
    its order and grouping, the filters of the voice list, and the order and
    entry texts of the voice selector.
  - `speechd`, `config_edits`, `module_laws` — the Speech Dispatcher
    configuration texts, the edits made to them, and what is read back from
    them.
  - `llm` — the conversation with a language model and the shape of its requests.
  - `settings`, `paths`, `installs`, `audio`, `playback`, `keybindings`, `cli` —
    settings keys and the chat settings of each model provider, file
    locations, installed files, the audio player, the reading loop's decisions
    and the reader's answer to each reading event, keyboard shortcuts and
    command-line checks.
- `tests/` — tests of the library on concrete values.
- `app/` — the program around the library: the command line, files, downloads
  and HTTP requests, and what works in floating point (PDF rectangles, speed
  and audio time-stretching).
