//! FLAC files.

use vstd::prelude::*;

use super::{flac_extension, seconds_of, DecodeError, FileFormat, Reading};

verus! {

/// A file in FLAC format.
pub struct FlacFormat {
    path: String,
}

impl FlacFormat {
    /// The path of the file.
    pub closed spec fn path_spec(&self) -> Seq<char> {
        self.path@
    }

    /// The file at `path`.
    pub fn new(path: String) -> (r: Self)
        ensures
            r.path_spec() == path@,
    {
        Self { path }
    }

    /// The path of the file.
    pub fn path(&self) -> (p: &str)
        ensures
            p@ == self.path_spec(),
    {
        self.path.as_str()
    }
}

impl FileFormat for FlacFormat {
    open spec fn extension_spec(&self) -> Seq<char> {
        flac_extension()
    }

    fn extension(&self) -> (ext: &'static str) {
        proof {
            reveal_strlit("flac");
            assert("flac"@ =~= flac_extension());
        }
        "flac"
    }

    fn duration(&self, reading: &Reading) -> (r: Result<u64, DecodeError>) {
        seconds_of(reading)
    }
}

} // verus!
