use vstd::prelude::*;

use crate::config::CommandConfig;
use crate::keypress::{
    push_next, push_out, seq_valid, stack_view, validate_spec, KeyPresser, ValidateError,
};
use crate::keys::LocalKey;
use crate::speaker::Speaker;

verus! {

/// Relies on `rand::random_range` over `0..n`: a uniformly chosen index
/// below `n`.  It panics on an empty range, which the precondition rules
/// out; nothing can be promised of which index comes back.
#[verifier::external_body]
fn choose_index(n: usize) -> (r: usize)
    requires
        n > 0,
    ensures
        r < n,
{
    rand::random_range(0..n)
}

/// The index of the first command named `name`, if any.
pub open spec fn find_command(cmds: Seq<CommandConfig>, name: Seq<char>) -> Option<int>
    decreases cmds.len(),
{
    if cmds.len() == 0 {
        None
    } else if cmds[0].command@ == name {
        Some(0)
    } else {
        match find_command(cmds.drop_first(), name) {
            Some(i) => Some(i + 1),
            None => None,
        }
    }
}

/// A found command index always lies within the table.
proof fn lemma_find_command_range(cmds: Seq<CommandConfig>, name: Seq<char>)
    ensures
        match find_command(cmds, name) {
            Some(i) => 0 <= i < cmds.len(),
            None => true,
        },
    decreases cmds.len(),
{
    if cmds.len() > 0 {
        lemma_find_command_range(cmds.drop_first(), name);
    }
}

/// The immutable command table: name-to-action lookup, built once at
/// startup and interpreted by [`Command::execute`].
pub struct Command {
    /// The configured commands, in configuration order.
    pub commands: Vec<CommandConfig>,
}

impl Command {
    /// Builds the table, validating every command's key sequence.  The
    /// table is built exactly when every sequence is well formed; the
    /// error names the first violated rule of the first ill-formed
    /// sequence.
    pub fn new(commands: Vec<CommandConfig>) -> (r: Result<Command, ValidateError>)
        ensures
            match r {
                Ok(c) => c.commands@ == commands@ && forall|i: int|
                    0 <= i < commands@.len() ==> seq_valid((#[trigger] commands@[i]).keys@),
                Err(e) => exists|i: int|
                    0 <= i < commands@.len() && validate_spec((#[trigger] commands@[i]).keys@)
                        == Err::<(), ValidateError>(e) && forall|j: int|
                        0 <= j < i ==> seq_valid(commands@[j].keys@),
            },
    {
        let n = commands.len();
        let mut i: usize = 0;
        while i < n
            invariant
                i <= n,
                n == commands@.len(),
                forall|j: int| 0 <= j < i ==> seq_valid((#[trigger] commands@[j]).keys@),
            decreases n - i,
        {
            if let Err(e) = KeyPresser::has_validity(commands[i].keys.as_slice()) {
                return Err(e);
            }
            i = i + 1;
        }
        Ok(Command { commands })
    }

    /// Executes the command called `name`, if the table holds one: its
    /// key sequence is pushed to the dispatcher (handing back whatever
    /// the dispatch worker must emit now), and when the command carries
    /// audio cues one of them, chosen at random, is queued on the
    /// speaker.  An unknown name changes nothing.
    pub fn execute(&self, name: &str, presser: &mut KeyPresser, speaker: &mut Speaker) -> (d:
        Option<Vec<LocalKey>>)
        ensures
            match find_command(self.commands@, name@) {
                None => {
                    &&& d is None
                    &&& *final(presser) == *old(presser)
                    &&& final(speaker).queue_view() == old(speaker).queue_view()
                },
                Some(i) => {
                    let keys = self.commands@[i].keys@;
                    let cues = self.commands@[i].audio_files@;
                    &&& (final(presser).one(), final(presser).spare()) == push_next(
                        old(presser).one(),
                        old(presser).spare(),
                        keys,
                    )
                    &&& stack_view(d) == push_out(keys)
                    &&& final(presser).config == old(presser).config
                    &&& final(presser).key_map == old(presser).key_map
                    &&& final(presser).shortcut == old(presser).shortcut
                    &&& (if cues.len() == 0 {
                        final(speaker).queue_view() == old(speaker).queue_view()
                    } else {
                        exists|k: int|
                            0 <= k < cues.len() && (final(speaker).queue_view() == old(
                                speaker,
                            ).queue_view() || final(speaker).queue_view() == old(
                                speaker,
                            ).queue_view().push((#[trigger] cues[k])@))
                    })
                },
            },
    {
        let key = name.to_owned();
        let n = self.commands.len();
        let mut i: usize = 0;
        proof {
            assert(self.commands@.skip(0) =~= self.commands@);
            lemma_find_command_range(self.commands@, name@);
        }
        while i < n
            invariant
                i <= n,
                n == self.commands@.len(),
                presser == old(presser),
                speaker == old(speaker),
                key@ == name@,
                match find_command(self.commands@, name@) {
                    None => find_command(self.commands@.skip(i as int), name@) is None,
                    Some(k) => i <= k && find_command(self.commands@.skip(i as int), name@)
                        == Some(k - i),
                },
            decreases n - i,
        {
            proof {
                assert(self.commands@.skip(i as int)[0] == self.commands@[i as int]);
                assert(self.commands@.skip(i as int).drop_first() =~= self.commands@.skip(i + 1));
                lemma_find_command_range(self.commands@.skip(i + 1), name@);
            }
            if self.commands[i].command == key {
                let cmd = &self.commands[i];
                let d = presser.push(cmd.keys.as_slice());
                if cmd.audio_files.len() > 0 {
                    let k = choose_index(cmd.audio_files.len());
                    let _ = speaker.play_wav(cmd.audio_files[k].as_str());
                }
                return d;
            }
            i = i + 1;
        }
        proof {
            assert(self.commands@.skip(n as int) =~= Seq::<CommandConfig>::empty());
        }
        None
    }
}

} // verus!
