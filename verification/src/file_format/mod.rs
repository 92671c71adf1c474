//! The formats that count as music, told by a path's extension, and what a
//! metadata reader's findings say about a file's playing time.

use vstd::prelude::*;

use crate::text::str_eq;

use self::flac::FlacFormat;
use self::m4a::M4aFormat;
use self::mp3::Mp3Format;

pub mod flac;
pub mod m4a;
pub mod mp3;

verus! {

/// Why a file's playing time could not be determined.
#[derive(Clone, Copy, Debug, PartialEq, Eq, Structural)]
pub enum DecodeError {
    /// The file could not be opened or read.
    Io,
    /// The contents are not what the format prescribes.
    Decode,
    /// The file was read, and holds no information on its length.
    MissingMetadata,
}

/// What a metadata reader found in one file, as plain values.
#[derive(Clone, Copy, Debug, PartialEq, Eq, Structural)]
pub enum Reading {
    /// The file could not be opened or read.
    Unreadable,
    /// The contents could not be parsed.
    Malformed,
    /// The contents were parsed and say nothing about the length.
    NoLength,
    /// The stream's number of samples, and how many of them play per second.
    Samples { total_samples: u64, sample_rate: u32 },
    /// A playing time: whole seconds, and the nanoseconds beyond them.
    Length { seconds: u64, nanos: u32 },
}

/// The playing time in whole seconds that a reading stands for: the part
/// of a second is dropped. A sample count is divided by the sample rate; a
/// sample rate of zero describes no stream.
pub open spec fn reading_seconds(reading: Reading) -> Result<u64, DecodeError> {
    match reading {
        Reading::Unreadable => Err(DecodeError::Io),
        Reading::Malformed => Err(DecodeError::Decode),
        Reading::NoLength => Err(DecodeError::MissingMetadata),
        Reading::Samples { total_samples, sample_rate } => if sample_rate == 0 {
            Err(DecodeError::Decode)
        } else {
            Ok((total_samples / (sample_rate as u64)) as u64)
        },
        Reading::Length { seconds, .. } => Ok(seconds),
    }
}

/// Computes `reading_seconds`.
pub fn seconds_of(reading: &Reading) -> (r: Result<u64, DecodeError>)
    ensures
        r == reading_seconds(*reading),
{
    match *reading {
        Reading::Unreadable => Err(DecodeError::Io),
        Reading::Malformed => Err(DecodeError::Decode),
        Reading::NoLength => Err(DecodeError::MissingMetadata),
        Reading::Samples { total_samples, sample_rate } => {
            if sample_rate == 0 {
                Err(DecodeError::Decode)
            } else {
                Ok(total_samples / (sample_rate as u64))
            }
        },
        Reading::Length { seconds, .. } => Ok(seconds),
    }
}

/// The formats of the registry.
#[derive(Clone, Copy, Debug, PartialEq, Eq, Structural)]
pub enum FormatKind {
    Mp3,
    Flac,
    M4a,
}

/// The extension of MP3 files.
pub open spec fn mp3_extension() -> Seq<char> {
    seq!['m', 'p', '3']
}

/// The extension of FLAC files.
pub open spec fn flac_extension() -> Seq<char> {
    seq!['f', 'l', 'a', 'c']
}

/// The extension of MPEG-4 audio files.
pub open spec fn m4a_extension() -> Seq<char> {
    seq!['m', '4', 'a']
}

/// The extension that files of a format carry.
pub open spec fn kind_extension(kind: FormatKind) -> Seq<char> {
    match kind {
        FormatKind::Mp3 => mp3_extension(),
        FormatKind::Flac => flac_extension(),
        FormatKind::M4a => m4a_extension(),
    }
}

/// The registry: the format that an extension stands for. The match is
/// exact, so an extension in other letter case stands for none.
pub open spec fn format_for(ext: Seq<char>) -> Option<FormatKind> {
    if ext == mp3_extension() {
        Some(FormatKind::Mp3)
    } else if ext == flac_extension() {
        Some(FormatKind::Flac)
    } else if ext == m4a_extension() {
        Some(FormatKind::M4a)
    } else {
        None
    }
}

/// The classifier: whether a path's extension, if it has one, is that of a
/// music file.
pub open spec fn is_music_extension(ext: Option<Seq<char>>) -> bool {
    match ext {
        None => false,
        Some(e) => e == flac_extension() || e == m4a_extension() || e == mp3_extension(),
    }
}

/// The final component of a path as `std::path::Path::file_name` gives it,
/// in the path syntax of the platform that the library is built for; `None`
/// where the path ends in no name.
pub uninterp spec fn path_file_name(path: Seq<char>) -> Option<Seq<char>>;

/// Where the last dot of a file name stands; -1 where it has none.
pub open spec fn last_dot(name: Seq<char>) -> int
    decreases name.len(),
{
    if name.len() == 0 {
        -1
    } else if name.last() == '.' {
        name.len() - 1
    } else {
        last_dot(name.drop_last())
    }
}

/// The extension of a file name: what follows its last dot. A name without
/// a dot has none, and neither has one whose only dot is its first
/// character.
pub open spec fn extension_in(name: Seq<char>) -> Option<Seq<char>> {
    let dot = last_dot(name);
    if dot > 0 {
        Some(name.skip(dot + 1))
    } else {
        None
    }
}

/// The stem of a file name: what stands before the dot of its extension,
/// and the whole name where it has no extension.
pub open spec fn stem_in(name: Seq<char>) -> Seq<char> {
    let dot = last_dot(name);
    if dot > 0 {
        name.take(dot)
    } else {
        name
    }
}

/// The extension of a path: that of its file name.
pub open spec fn path_extension(path: Seq<char>) -> Option<Seq<char>> {
    match path_file_name(path) {
        Some(name) => extension_in(name),
        None => None,
    }
}

/// The last dot of a name is a dot, and no dot follows it.
pub proof fn lemma_last_dot(name: Seq<char>)
    ensures
        -1 <= last_dot(name) < name.len(),
        last_dot(name) >= 0 ==> name[last_dot(name)] == '.',
        forall|i: int| last_dot(name) < i < name.len() ==> name[i] != '.',
    decreases name.len(),
{
    if name.len() > 0 && name.last() != '.' {
        lemma_last_dot(name.drop_last());
        assert forall|i: int| last_dot(name) < i < name.len() implies name[i] != '.' by {
            if i < name.len() - 1 {
                assert(name.drop_last()[i] == name[i]);
            }
        }
    }
}

/// A name with an extension is its stem, a dot and the extension; the
/// extension holds no dot, and the stem is not empty.
pub proof fn lemma_name_splits(name: Seq<char>)
    ensures
        extension_in(name) matches Some(ext) ==> name == stem_in(name) + seq!['.'] + ext
            && !ext.contains('.') && stem_in(name).len() > 0,
        extension_in(name).is_none() ==> stem_in(name) == name,
{
    lemma_last_dot(name);
    let dot = last_dot(name);
    if dot > 0 {
        let ext = name.skip(dot + 1);
        assert(name =~= name.take(dot) + seq!['.'] + ext);
        if ext.contains('.') {
            let i = choose|i: int| 0 <= i < ext.len() && ext[i] == '.';
            assert(name[dot + 1 + i] == '.');
        }
    }
}

/// Whether the path is that of a music file.
pub open spec fn is_music_path(path: Seq<char>) -> bool {
    is_music_extension(path_extension(path))
}

/// Classifier and registry agree: an extension counts as music exactly when
/// the registry has a format for it, and that format carries the extension.
pub proof fn lemma_classifier_matches_registry(ext: Seq<char>)
    ensures
        is_music_extension(Some(ext)) <==> format_for(ext).is_some(),
        format_for(ext) matches Some(kind) ==> kind_extension(kind) == ext,
{
}

/// The three extensions are distinct, so each format is found under its own.
pub proof fn lemma_registry_finds_each_kind(kind: FormatKind)
    ensures
        format_for(kind_extension(kind)) == Some(kind),
{
    assert(mp3_extension()[0] != flac_extension()[0]);
    assert(mp3_extension()[1] != m4a_extension()[1]);
    assert(flac_extension().len() != m4a_extension().len());
}

/// `std::path::Path::extension` on `path`, the result as a `String`.
/// Trusted, as the documentation of the standard library states it: the
/// extension is taken from the path's file name; there is none where the
/// path has no file name, where the name has no dot, or where its only dot
/// is its first character; else it is what follows the last dot.
#[verifier::external_body]
fn extension_of(path: &str) -> (r: Option<String>)
    ensures
        match path_file_name(path@) {
            None => r.is_none(),
            Some(name) => match extension_in(name) {
                None => r.is_none(),
                Some(ext) => r matches Some(e) && e@ == ext,
            },
        },
{
    match std::path::Path::new(path).extension() {
        Some(ext) => Some(ext.to_string_lossy().into_owned()),
        None => None,
    }
}

/// Whether `ext` is one of the music extensions.
pub fn extension_is_music(ext: Option<&str>) -> (r: bool)
    ensures
        r == is_music_extension(
            match ext {
                Some(e) => Some(e@),
                None => None,
            },
        ),
{
    match ext {
        None => false,
        Some(e) => {
            proof {
                reveal_strlit("m4a");
                reveal_strlit("mp3");
                reveal_strlit("flac");
                assert("m4a"@ =~= m4a_extension());
                assert("mp3"@ =~= mp3_extension());
                assert("flac"@ =~= flac_extension());
            }
            str_eq(e, "m4a") || str_eq(e, "mp3") || str_eq(e, "flac")
        },
    }
}

/// Whether the file at `path` is a music file, judged by its extension.
pub fn is_music_file(path: &str) -> (r: bool)
    ensures
        r == is_music_path(path@),
{
    match extension_of(path) {
        None => false,
        Some(ext) => extension_is_music(Some(ext.as_str())),
    }
}

/// A music format with the path of a file in it: what tells the file's
/// extension, and its playing time from what a reader found in it.
pub trait FileFormat {
    /// The extension of the format.
    spec fn extension_spec(&self) -> Seq<char>;

    /// The extension of the format, in lower case and without a dot.
    fn extension(&self) -> (ext: &'static str)
        ensures
            ext@ == self.extension_spec(),
    ;

    /// The playing time in whole seconds, or why there is none.
    fn duration(&self, reading: &Reading) -> (r: Result<u64, DecodeError>)
        ensures
            r == reading_seconds(*reading),
    ;
}

/// A file of one of the registry's formats.
pub enum MusicFormat {
    Mp3(Mp3Format),
    Flac(FlacFormat),
    M4a(M4aFormat),
}

impl MusicFormat {
    /// Which format it is.
    pub open spec fn kind_spec(&self) -> FormatKind {
        match *self {
            MusicFormat::Mp3(_) => FormatKind::Mp3,
            MusicFormat::Flac(_) => FormatKind::Flac,
            MusicFormat::M4a(_) => FormatKind::M4a,
        }
    }

    /// The path of the file.
    pub open spec fn path_spec(&self) -> Seq<char> {
        match *self {
            MusicFormat::Mp3(f) => f.path_spec(),
            MusicFormat::Flac(f) => f.path_spec(),
            MusicFormat::M4a(f) => f.path_spec(),
        }
    }

    /// Which format it is.
    pub fn kind(&self) -> (k: FormatKind)
        ensures
            k == self.kind_spec(),
    {
        match self {
            MusicFormat::Mp3(_) => FormatKind::Mp3,
            MusicFormat::Flac(_) => FormatKind::Flac,
            MusicFormat::M4a(_) => FormatKind::M4a,
        }
    }

    /// The path of the file.
    pub fn path(&self) -> (p: &str)
        ensures
            p@ == self.path_spec(),
    {
        match self {
            MusicFormat::Mp3(f) => f.path(),
            MusicFormat::Flac(f) => f.path(),
            MusicFormat::M4a(f) => f.path(),
        }
    }
}

impl FileFormat for MusicFormat {
    open spec fn extension_spec(&self) -> Seq<char> {
        kind_extension(self.kind_spec())
    }

    fn extension(&self) -> (ext: &'static str) {
        match self {
            MusicFormat::Mp3(f) => f.extension(),
            MusicFormat::Flac(f) => f.extension(),
            MusicFormat::M4a(f) => f.extension(),
        }
    }

    fn duration(&self, reading: &Reading) -> (r: Result<u64, DecodeError>) {
        match self {
            MusicFormat::Mp3(f) => f.duration(reading),
            MusicFormat::Flac(f) => f.duration(reading),
            MusicFormat::M4a(f) => f.duration(reading),
        }
    }
}

/// Finds the format of a file.
pub struct FileFormatFactory {}

impl FileFormatFactory {
    /// What `new_file` returns for a path with the given extension: a file
    /// of the registry's format for it, holding the path.
    pub open spec fn new_file_spec(
        path: Seq<char>,
        ext: Option<Seq<char>>,
        r: Option<MusicFormat>,
    ) -> bool {
        match ext {
            None => r.is_none(),
            Some(e) => match format_for(e) {
                None => r.is_none(),
                Some(kind) => r matches Some(f) && f.kind_spec() == kind && f.path_spec()
                    == path,
            },
        }
    }

    /// The format for a file at `path` whose extension is `ext`, if the
    /// registry knows the extension.
    pub fn for_extension(path: &str, ext: Option<&str>) -> (r: Option<MusicFormat>)
        ensures
            Self::new_file_spec(
                path@,
                match ext {
                    Some(e) => Some(e@),
                    None => None,
                },
                r,
            ),
    {
        match ext {
            None => None,
            Some(e) => {
                proof {
                    reveal_strlit("m4a");
                    reveal_strlit("mp3");
                    reveal_strlit("flac");
                    assert("m4a"@ =~= m4a_extension());
                    assert("mp3"@ =~= mp3_extension());
                    assert("flac"@ =~= flac_extension());
                    lemma_registry_finds_each_kind(FormatKind::Mp3);
                    lemma_registry_finds_each_kind(FormatKind::Flac);
                    lemma_registry_finds_each_kind(FormatKind::M4a);
                }
                if str_eq(e, "mp3") {
                    Some(MusicFormat::Mp3(Mp3Format::new(path.to_owned())))
                } else if str_eq(e, "flac") {
                    Some(MusicFormat::Flac(FlacFormat::new(path.to_owned())))
                } else if str_eq(e, "m4a") {
                    Some(MusicFormat::M4a(M4aFormat::new(path.to_owned())))
                } else {
                    None
                }
            },
        }
    }

    /// The format of the file at `path`, told by its extension; `None` where
    /// the path has no extension or the registry does not know it.
    pub fn new_file(path: &str) -> (r: Option<MusicFormat>)
        ensures
            Self::new_file_spec(path@, path_extension(path@), r),
            r.is_some() == is_music_path(path@),
    {
        match extension_of(path) {
            None => None,
            Some(ext) => {
                proof {
                    lemma_classifier_matches_registry(ext@);
                }
                Self::for_extension(path, Some(ext.as_str()))
            },
        }
    }
}

} // verus!
