//! MP3 files.

use vstd::prelude::*;

use super::{mp3_extension, seconds_of, DecodeError, FileFormat, Reading};

verus! {

/// A file in MP3 format.
pub struct Mp3Format {
    path: String,
}

impl Mp3Format {
    /// The path of the file.
    pub closed spec fn path_spec(&self) -> Seq<char> {
        self.path@
    }

    /// The file at `path`.
    pub fn new(path: String) -> (r: Self)
        ensures
            r.path_spec() == path@,
    {
        Self { path }
    }

    /// The path of the file.
    pub fn path(&self) -> (p: &str)
        ensures
            p@ == self.path_spec(),
    {
        self.path.as_str()
    }
}

impl FileFormat for Mp3Format {
    open spec fn extension_spec(&self) -> Seq<char> {
        mp3_extension()
    }

    fn extension(&self) -> (ext: &'static str) {
        proof {
            reveal_strlit("mp3");
            assert("mp3"@ =~= mp3_extension());
        }
        "mp3"
    }

    fn duration(&self, reading: &Reading) -> (r: Result<u64, DecodeError>) {
        seconds_of(reading)
    }
}

} // verus!
