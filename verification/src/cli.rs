//! Checks of what is given on the command line.
use vstd::prelude::*;
use crate::voices::{kokoros_voice_names, lemma_first_match_from, position_of, voice_name_literals};

verus! {

/// The message for a voice style that is not one of the Kokoros voices.
pub open spec fn invalid_voice_message(voice_style: Seq<char>) -> Seq<char> {
    "Error: Invalid voice style '"@ + voice_style + "'. Use --list-voices to see available options."@
}

/// Checks a voice style given on the command line: it must name one of the
/// Kokoros voices.
pub fn check_voice_style(voice_style: &str) -> (r: Result<(), String>)
    ensures
        r is Ok <==> kokoros_voice_names().contains(voice_style@),
        r matches Err(m) ==> m@ == invalid_voice_message(voice_style@),
{
    let keys = voice_name_literals();
    let found = position_of(&keys, voice_style);
    proof {
        lemma_first_match_from(kokoros_voice_names(), voice_style@, 0);
    }
    match found {
        Some(_) => Ok(()),
        None => {
            let mut m = "Error: Invalid voice style '".to_string();
            m.append(voice_style);
            m.append("'. Use --list-voices to see available options.");
            Err(m)
        },
    }
}

} // verus!
