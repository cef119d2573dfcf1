//! The command that plays raw speech audio, chosen among the players installed.
use vstd::prelude::*;
use crate::chars::same_text;

verus! {

/// The command that plays speech with mpv.
pub const MPV_COMMAND: &'static str = r#"mpv --speed=${RATE} --volume=$${VOLUME} --no-terminal --keep-open=no -"#;

/// The command that plays speech with aplay.
pub const APLAY_COMMAND: &'static str = r#"aplay -q -t raw -c 1 -r $${SAMPLE_RATE} -f S16_LE -"#;

/// The command that plays speech with paplay.
pub const PAPLAY_COMMAND: &'static str = r#"paplay --volume=$(awk "BEGIN {printf \"%.0f\", $${VOLUME} * 655.35}") --channels=1 --rate=22050 --raw -"#;

/// The command that plays speech with sox and paplay.
pub const SOX_COMMAND: &'static str = r#"sox -q -r 22050 -b 16 -c 1 -e signed-integer -t raw - -t wav - tempo $${RATE} norm vol $(awk "BEGIN {printf \"%.2f\", $${VOLUME} / 100}") | paplay --format=s16le --rate=22050 --channels=1"#;

/// The command that plays speech with ffplay.
pub const FFPLAY_COMMAND: &'static str = r#"ffplay -nodisp -autoexit -volume $${VOLUME} -"#;

/// The audio players tried, in order of preference.
pub open spec fn processors() -> Seq<Seq<char>> {
    seq!["ffplay"@, "sox"@, "aplay"@, "paplay"@, "mpv"@]
}

/// Whether `processor` is one of the supported audio players.
pub open spec fn is_processor(processor: Seq<char>) -> bool {
    processor == "ffplay"@ || processor == "sox"@ || processor == "aplay"@ || processor == "paplay"@
        || processor == "mpv"@
}

/// The shell command that plays speech with an audio player.
pub open spec fn backend_command(processor: Seq<char>) -> Seq<char> {
    if processor == "mpv"@ {
        MPV_COMMAND@
    } else if processor == "aplay"@ {
        APLAY_COMMAND@
    } else if processor == "paplay"@ {
        PAPLAY_COMMAND@
    } else if processor == "sox"@ {
        SOX_COMMAND@
    } else if processor == "ffplay"@ {
        FFPLAY_COMMAND@
    } else {
        seq![]
    }
}

/// The index of the first available player, or -1.
pub open spec fn first_available(available: Seq<bool>, i: int) -> int
    decreases available.len() - i,
{
    if i < 0 || i >= available.len() {
        -1
    } else if available[i] {
        i
    } else {
        first_available(available, i + 1)
    }
}

/// The names of the audio players, in order of preference (`processors`).
pub fn processor_names() -> (r: Vec<&'static str>)
    ensures
        r.len() == 5,
        r@.map_values(|s: &str| s@) == processors(),
{
    let names = vec!["ffplay", "sox", "aplay", "paplay", "mpv"];
    assert(names@.map_values(|s: &str| s@) =~= processors());
    names
}

/// `first_available` finds the first available player at or after `i`, or -1.
pub proof fn lemma_first_available(available: Seq<bool>, i: int)
    requires
        0 <= i <= available.len(),
    ensures
        first_available(available, i) == -1 || (i <= first_available(available, i) < available.len()),
    decreases available.len() - i,
{
    if i < available.len() && !available[i] {
        lemma_first_available(available, i + 1);
    }
}

/// The audio player used to play speech.
#[derive(Debug)]
pub struct AudioBackend {
    command: String,
}

/// Whether an executable is found on the search path (`which::which` succeeds).
/// It depends on the machine, so nothing is claimed of it.
#[verifier::external_body]
fn is_on_path(program: &str) -> (r: bool) {
    which::which(program).is_ok()
}

impl AudioBackend {
    /// The command this backend runs.
    pub closed spec fn command_text(&self) -> Seq<char> {
        self.command@
    }

    /// The backend that plays with `processor`.
    pub fn create_backend(processor: &str) -> (r: Self)
        requires
            is_processor(processor@),
        ensures
            r.command_text() == backend_command(processor@),
    {
        let command = if same_text(processor, "mpv") {
            MPV_COMMAND
        } else if same_text(processor, "aplay") {
            APLAY_COMMAND
        } else if same_text(processor, "paplay") {
            PAPLAY_COMMAND
        } else if same_text(processor, "sox") {
            SOX_COMMAND
        } else if same_text(processor, "ffplay") {
            FFPLAY_COMMAND
        } else {
            FFPLAY_COMMAND
        };
        AudioBackend { command: command.to_string() }
    }

    /// The shell command of this backend.
    pub fn get_command(&self) -> (r: &str)
        ensures
            r@ == self.command_text(),
    {
        self.command.as_str()
    }

    /// The backend of the first available player, in the order of `processors`,
    /// given which players are available.
    pub fn from_available(available: &Vec<bool>) -> (r: Option<Self>)
        requires
            available.len() == 5,
        ensures
            match r {
                Some(b) => first_available(available@, 0) >= 0 && b.command_text() == backend_command(
                    processors()[first_available(available@, 0)],
                ),
                None => first_available(available@, 0) == -1,
            },
    {
        let names = processor_names();
        let mut i: usize = 0;
        while i < 5
            invariant
                i <= 5,
                available.len() == 5,
                names.len() == 5,
                names@.map_values(|s: &str| s@) == processors(),
                first_available(available@, 0) == first_available(available@, i as int),
            decreases 5 - i,
        {
            if available[i] {
                assert(names@[i as int]@ == processors()[i as int]);
                return Some(AudioBackend::create_backend(names[i]));
            }
            i = i + 1;
        }
        None
    }

    /// The backend of the first audio player installed, in the order of
    /// `processors` (each is looked up on the search path under its name in
    /// that order), or an error naming the players to install.
    pub fn new() -> (r: Result<Self, String>)
        ensures
            r matches Ok(b) ==> exists|i: int| 0 <= i < 5 && b.command_text() == backend_command(processors()[i]),
            r matches Err(m) ==> m@
                == "No supported audio processor found. Please install one of: mpv, aplay, paplay, sox, or ffplay"@,
    {
        let names = processor_names();
        let mut available: Vec<bool> = Vec::new();
        let mut i: usize = 0;
        while i < names.len()
            invariant
                i <= names.len(),
                names.len() == 5,
                names@.map_values(|s: &str| s@) == processors(),
                available.len() == i,
            decreases names.len() - i,
        {
            available.push(is_on_path(names[i]));
            i = i + 1;
        }
        proof {
            lemma_first_available(available@, 0);
        }
        match AudioBackend::from_available(&available) {
            Some(b) => Ok(b),
            None => Err(
                "No supported audio processor found. Please install one of: mpv, aplay, paplay, sox, or ffplay".to_string(),
            ),
        }
    }
}

} // verus!
