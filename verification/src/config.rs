use vstd::prelude::*;

use crate::audio::AudioRecognizerConfig;
use crate::keys::{Input, KeyPresserConfig, LocalKey};
use crate::utils::string::{joined, StringOptionUtils, StringUtils};

verus! {

/// Recogniser settings as configured.
#[derive(Debug, Clone)]
pub struct RecognizerConfig {
    /// Length of one audio chunk, in milliseconds.
    pub chunk_time_ms: u64,
    /// How long silence must last, in milliseconds, before an utterance
    /// is considered finished.
    pub vad_silence_duration: u64,
}

impl RecognizerConfig {
    /// The recogniser configuration this stands for, with an empty
    /// vocabulary.
    pub fn to_audio_config(&self) -> (c: AudioRecognizerConfig)
        ensures
            c.chunk_time_ms == self.chunk_time_ms,
            c.grammar@.len() == 0,
            c.vad_silence_duration == self.vad_silence_duration,
    {
        AudioRecognizerConfig {
            chunk_time_ms: self.chunk_time_ms,
            grammar: Vec::new(),
            vad_silence_duration: self.vad_silence_duration,
        }
    }
}

/// The trigger phrase that must precede a command, if one is configured.
#[derive(Debug, Clone)]
pub struct TriggerConfig {
    pub hit_word: Option<String>,
    pub hit_word_grammar: Option<String>,
}

/// One configured command: its spoken name, an optional decoder grammar
/// for it, an optional direct shortcut input, the key sequence it plays,
/// and the audio cues it may answer with.
#[derive(Debug, Clone)]
pub struct CommandConfig {
    pub command: String,
    pub grammar: Option<String>,
    pub shortcut: Option<Input>,
    pub keys: Vec<LocalKey>,
    pub audio_files: Vec<String>,
}

/// The whole configuration surface the library consumes.
#[derive(Debug, Clone)]
pub struct Config {
    pub recognizer: RecognizerConfig,
    pub key_presser: KeyPresserConfig,
    /// Bindings of each key role to a physical input; must cover every
    /// role.
    pub key_map: Vec<(LocalKey, Input)>,
    pub trigger: TriggerConfig,
    pub commands: Vec<CommandConfig>,
}

/// The vocabulary entry one command contributes to the decoder: its own
/// grammar when one is configured and non-empty, otherwise its name with
/// the characters spaced apart.
pub open spec fn grammar_entry(cmd: CommandConfig) -> Seq<char> {
    match cmd.grammar {
        Some(g) => if g@.len() > 0 {
            g@
        } else {
            joined(cmd.command@, " "@)
        },
        None => joined(cmd.command@, " "@),
    }
}

/// The vocabulary entry the trigger phrase contributes, if any: its own
/// grammar when configured, otherwise the spaced-apart trigger word when
/// one is present and non-empty.
pub open spec fn trigger_entry(trigger: TriggerConfig) -> Option<Seq<char>> {
    match trigger.hit_word_grammar {
        Some(g) => Some(g@),
        None => match trigger.hit_word {
            Some(w) => if w@.len() > 0 {
                Some(joined(w@, " "@))
            } else {
                None
            },
            None => None,
        },
    }
}

/// Builds the decoder vocabulary: one entry per command, and one for the
/// trigger phrase when one is configured.
pub fn build_grammar(commands: &Vec<CommandConfig>, trigger: &TriggerConfig) -> (r: Vec<String>)
    ensures
        ({
            let extra = trigger_entry(*trigger);
            &&& r@.len() == commands@.len() + (if extra is Some {
                1int
            } else {
                0int
            })
            &&& forall|i: int|
                0 <= i < commands@.len() ==> (#[trigger] r@[i])@ == grammar_entry(commands@[i])
            &&& (extra matches Some(g) ==> r@[r@.len() - 1]@ == g)
        }),
{
    let n = commands.len();
    let mut r: Vec<String> = Vec::new();
    let mut i: usize = 0;
    while i < n
        invariant
            i <= n,
            n == commands@.len(),
            r@.len() == i,
            forall|k: int| 0 <= k < i ==> (#[trigger] r@[k])@ == grammar_entry(commands@[k]),
        decreases n - i,
    {
        let cmd = &commands[i];
        let entry = match &cmd.grammar {
            Some(g) => {
                if !g.as_str().is_empty() {
                    g.clone()
                } else {
                    cmd.command.add_between_chars(" ")
                }
            },
            None => cmd.command.add_between_chars(" "),
        };
        r.push(entry);
        i = i + 1;
    }
    match &trigger.hit_word_grammar {
        Some(g) => {
            r.push(g.clone());
        },
        None => {
            if !trigger.hit_word.is_empty() {
                match &trigger.hit_word {
                    Some(w) => {
                        r.push(w.add_between_chars(" "));
                    },
                    None => {},
                }
            }
        },
    }
    r
}

} // verus!
