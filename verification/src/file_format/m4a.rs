//! MPEG-4 audio files.

use vstd::prelude::*;

use super::{m4a_extension, seconds_of, DecodeError, FileFormat, Reading};

verus! {

/// A file in MPEG-4 audio format.
pub struct M4aFormat {
    path: String,
}

impl M4aFormat {
    /// The path of the file.
    pub closed spec fn path_spec(&self) -> Seq<char> {
        self.path@
    }

    /// The file at `path`.
    pub fn new(path: String) -> (r: Self)
        ensures
            r.path_spec() == path@,
    {
        Self { path }
    }

    /// The path of the file.
    pub fn path(&self) -> (p: &str)
        ensures
            p@ == self.path_spec(),
    {
        self.path.as_str()
    }
}

impl FileFormat for M4aFormat {
    open spec fn extension_spec(&self) -> Seq<char> {
        m4a_extension()
    }

    fn extension(&self) -> (ext: &'static str) {
        proof {
            reveal_strlit("m4a");
            assert("m4a"@ =~= m4a_extension());
        }
        "m4a"
    }

    fn duration(&self, reading: &Reading) -> (r: Result<u64, DecodeError>) {
        seconds_of(reading)
    }
}

} // verus!
