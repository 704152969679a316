use vstd::prelude::*;

verus! {

/// Relies on `std::path::Path::exists`: whether a file is present at
/// `path` right now.  The answer depends on the file system, so nothing
/// can be promised of it.
#[verifier::external_body]
fn path_exists(path: &str) -> bool {
    std::path::Path::new(path).exists()
}

/// Queues audio cues for serial playback.  The library owns the queue
/// and the skip-missing-files rule; a playback worker outside the
/// library drains the queue and does the actual output.
pub struct Speaker {
    /// Paths waiting to be played, oldest first.
    pub queue: Vec<String>,
}

impl Speaker {
    /// The queued paths as character sequences, oldest first.
    pub open spec fn queue_view(&self) -> Seq<Seq<char>> {
        self.queue@.map_values(|s: String| s@)
    }

    /// A speaker with nothing queued.
    pub fn new() -> (s: Speaker)
        ensures
            s.queue_view().len() == 0,
    {
        Speaker { queue: Vec::new() }
    }

    /// Queues `path` exactly when it is present on disk, as the
    /// existence check reported.
    pub fn queue_if_present(&mut self, present: bool, path: &str)
        ensures
            present ==> final(self).queue_view() == old(self).queue_view().push(path@),
            !present ==> final(self).queue_view() == old(self).queue_view(),
    {
        if present {
            let ghost q0 = self.queue_view();
            self.queue.push(path.to_owned());
            proof {
                assert(self.queue_view() =~= q0.push(path@));
            }
        }
    }

    /// Queues the file for playback.  A missing file is skipped with a
    /// success result and no queue change; in every case the call
    /// succeeds and at most `path` itself is appended.
    pub fn play_wav(&mut self, path: &str) -> (r: Result<(), ()>)
        ensures
            r is Ok,
            final(self).queue_view() == old(self).queue_view() || final(self).queue_view() == old(
                self,
            ).queue_view().push(path@),
    {
        let present = path_exists(path);
        self.queue_if_present(present, path);
        Ok(())
    }

    /// Hands the playback worker the oldest queued path, if any.
    pub fn take_next(&mut self) -> (r: Option<String>)
        ensures
            old(self).queue_view().len() == 0 ==> (r is None && final(self).queue_view() == old(
                self,
            ).queue_view()),
            old(self).queue_view().len() > 0 ==> (r matches Some(p) && p@ == old(
                self,
            ).queue_view()[0] && final(self).queue_view() == old(self).queue_view().drop_first()),
    {
        if self.queue.len() > 0 {
            let ghost q0 = self.queue_view();
            let p = self.queue.remove(0);
            proof {
                assert(self.queue_view() =~= q0.drop_first());
            }
            Some(p)
        } else {
            None
        }
    }
}

} // verus!
