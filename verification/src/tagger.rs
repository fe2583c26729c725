//! The coordinate-source capability: something that can supply a
//! formatted (latitude, longitude) pair for a file path and report
//! whether it is usable at all.

use vstd::prelude::*;

verus! {

/// A source of formatted GPS coordinate strings, one pair per file.
pub trait Tagger {
    /// The pair of coordinate strings this source supplies for `file`.
    spec fn coords_spec(&self, file: Seq<char>) -> (Seq<char>, Seq<char>);

    /// Whether this source can supply coordinates at all.
    spec fn usable_spec(&self) -> bool;

    /// The formatted (latitude, longitude) pair for `file`.
    fn get_coord_for_file(&self, file: &str) -> (r: (String, String))
        ensures
            r.0@ == self.coords_spec(file@).0,
            r.1@ == self.coords_spec(file@).1,
    ;

    /// Whether this source is usable; callers must check this before
    /// asking to tag any file.
    fn is_ok(&self) -> (r: bool)
        ensures
            r == self.usable_spec(),
    ;
}

} // verus!
