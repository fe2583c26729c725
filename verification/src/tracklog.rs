//! Tracklog coordinate source: a placeholder that never supplies
//! coordinates. A finished version would parse a GPX track log and pick
//! the fix nearest each file's capture time; until then the source
//! reports itself unusable and hands out empty strings.

use vstd::prelude::*;

use crate::tagger::Tagger;

verus! {

/// A coordinate source backed by a GPX track log; not yet able to
/// supply any coordinates.
pub struct TracklogTagger {}

impl TracklogTagger {
    /// Accepts the track-log path; the log is not read yet.
    pub fn new(_path: &str) -> (r: TracklogTagger)
        ensures
            !r.usable_spec(),
    {
        TracklogTagger {}
    }
}

impl Tagger for TracklogTagger {
    open spec fn coords_spec(&self, file: Seq<char>) -> (Seq<char>, Seq<char>) {
        (Seq::empty(), Seq::empty())
    }

    open spec fn usable_spec(&self) -> bool {
        false
    }

    fn get_coord_for_file(&self, _file: &str) -> (r: (String, String)) {
        (String::new(), String::new())
    }

    fn is_ok(&self) -> (r: bool) {
        false
    }
}

/// A tracklog source is never usable, so an update must never be asked
/// of it: callers check `is_ok` first and refuse to proceed.
pub proof fn lemma_tracklog_never_usable(t: TracklogTagger)
    ensures
        !t.usable_spec(),
{
}

} // verus!
