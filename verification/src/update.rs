//! The handle to the records' data directory.  Fetching and refreshing
//! the directory's contents is outside work; the library only keeps where
//! the records live.

use vstd::prelude::*;

verus! {

/// Where the record files live.
pub struct Updater {
    pub data_dir: String,
}

impl Updater {
    /// A handle to the given directory.
    pub fn new(data_dir: String) -> (r: Updater)
        ensures
            r.data_dir == data_dir,
    {
        Updater { data_dir }
    }

    /// The directory the records are read from.
    pub fn data_dir(&self) -> (r: &String)
        ensures
            r == &self.data_dir,
    {
        &self.data_dir
    }
}

} // verus!
