//! Text processing, voice catalogue and configuration logic of Fox Reader,
//! a text-to-speech reader, with its behaviour stated and proved in Verus.
pub mod chars;
pub mod patterns;
pub mod sentences;
pub mod blocks;
pub mod voices;
pub mod speechd;
pub mod settings;
pub mod paths;
pub mod audio;
pub mod installs;
pub mod playback;
pub mod markdown;
pub mod pdf_text;
pub mod pdf_laws;
pub mod config_edits;
pub mod cli;
pub mod llm;
pub mod keybindings;
pub mod voice_filter;
pub mod voice_selector;
pub mod sentence_laws;
pub mod module_laws;
