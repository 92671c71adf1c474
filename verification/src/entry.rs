//! One music file of the index: its folder, title, format, playing time and
//! identifier.

use vstd::prelude::*;

use crate::file_format::{path_file_name, stem_in, FileFormat, MusicFormat};
use crate::text::chars_of;

verus! {

/// A music file as the index lists it.
#[derive(Debug)]
pub struct FileEntry {
    /// The folder that holds the file, with its closing separator.
    pub folder: String,
    /// The file's name without its extension.
    pub name: String,
    /// The extension of the file's format.
    pub format: String,
    /// The playing time in whole seconds.
    pub duration: u64,
    /// An identifier that tells this entry from every other.
    pub uuid: String,
}

/// A `FileEntry` with its strings as character sequences.
pub struct EntryView {
    pub folder: Seq<char>,
    pub name: Seq<char>,
    pub format: Seq<char>,
    pub duration: u64,
    pub uuid: Seq<char>,
}

impl View for FileEntry {
    type V = EntryView;

    open spec fn view(&self) -> EntryView {
        EntryView {
            folder: self.folder@,
            name: self.name@,
            format: self.format@,
            duration: self.duration,
            uuid: self.uuid@,
        }
    }
}

impl EntryView {
    /// The entry with its identifier blanked: what two scans of the same
    /// tree agree on.
    pub open spec fn content(self) -> EntryView {
        EntryView { uuid: Seq::empty(), ..self }
    }
}

/// The entries of a sequence, each as its view.
pub open spec fn entry_views(files: Seq<FileEntry>) -> Seq<EntryView> {
    files.map_values(|e: FileEntry| e@)
}

/// The entries of a sequence, each without its identifier.
pub open spec fn contents(entries: Seq<EntryView>) -> Seq<EntryView> {
    entries.map_values(|e: EntryView| e.content())
}

/// The separator that closes a folder's name.
pub open spec fn separator() -> char {
    '/'
}

/// The name under which the directory at `path` is listed: the path with a
/// closing separator.
pub open spec fn folder_name(path: Seq<char>) -> Seq<char> {
    path.push(separator())
}

/// Computes `folder_name`.
pub fn folder_of(path: &str) -> (r: String)
    ensures
        r@ == folder_name(path@),
{
    let mut r = path.to_owned();
    r.append("/");
    proof {
        reveal_strlit("/");
        assert("/"@ =~= seq![separator()]);
        assert(r@ =~= folder_name(path@));
    }
    r
}

/// The stem of a path: that of its file name.
pub open spec fn path_file_stem(path: Seq<char>) -> Option<Seq<char>> {
    match path_file_name(path) {
        Some(name) => Some(stem_in(name)),
        None => None,
    }
}

/// The title of the file at `path`: its name without the extension, and
/// nothing where the path names no file.
pub open spec fn title_of(path: Seq<char>) -> Seq<char> {
    match path_file_stem(path) {
        Some(stem) => stem,
        None => Seq::empty(),
    }
}

/// `std::path::Path::file_stem` on `path`, the result as a `String`.
/// Trusted, as the documentation of the standard library states it: the
/// stem is taken from the path's file name, and there is none where the
/// path has no file name; it is the whole name where the name has no dot
/// or its only dot is its first character, else what stands before the last
/// dot.
#[verifier::external_body]
fn file_stem_of(path: &str) -> (r: Option<String>)
    ensures
        match path_file_name(path@) {
            None => r.is_none(),
            Some(name) => r matches Some(s) && s@ == stem_in(name),
        },
{
    match std::path::Path::new(path).file_stem() {
        Some(stem) => Some(stem.to_string_lossy().into_owned()),
        None => None,
    }
}

/// The title of the file at `path`.
pub fn title(path: &str) -> (r: String)
    ensures
        r@ == title_of(path@),
{
    match file_stem_of(path) {
        Some(stem) => stem,
        None => String::new(),
    }
}

/// A digit of lower-case hexadecimal notation.
pub open spec fn is_lower_hex(c: char) -> bool {
    ('0' <= c && c <= '9') || ('a' <= c && c <= 'f')
}

/// The shape of an identifier: 32 digits of lower-case hexadecimal notation.
pub open spec fn is_identifier(s: Seq<char>) -> bool {
    &&& s.len() == 32
    &&& forall|i: int| 0 <= i < 32 ==> is_lower_hex(#[trigger] s[i])
}

/// Where the hyphens stand in the text of a UUID.
pub open spec fn is_hyphen_position(i: int) -> bool {
    i == 8 || i == 13 || i == 18 || i == 23
}

/// The shape of a UUID in its usual text form: 36 characters, hyphens
/// after the 8th, 12th, 16th and 20th digit, and lower-case hexadecimal
/// digits elsewhere.
pub open spec fn is_hyphenated_uuid(s: Seq<char>) -> bool {
    &&& s.len() == 36
    &&& forall|i: int|
        0 <= i < 36 ==> if is_hyphen_position(i) {
            #[trigger] s[i] == '-'
        } else {
            is_lower_hex(s[i])
        }
}

/// The text of `uuid::Uuid::new_v4()`, a random UUID, as `Display` writes
/// it. Trusted: whatever the value, the text has the hyphenated lower-case
/// form. Nothing is claimed of the digits. The call gives up only where the
/// operating system hands out no random bytes.
#[verifier::external_body]
fn new_uuid_text() -> (r: String)
    ensures
        is_hyphenated_uuid(r@),
{
    uuid::Uuid::new_v4().to_string()
}

/// The characters of `s` that are no hyphen.
pub open spec fn without_hyphens(s: Seq<char>) -> Seq<char> {
    s.filter(|c: char| c != '-')
}

/// A sequence without hyphens is left as it is.
proof fn lemma_without_hyphens_keeps(s: Seq<char>)
    requires
        forall|i: int| 0 <= i < s.len() ==> s[i] != '-',
    ensures
        without_hyphens(s) == s,
    decreases s.len(),
{
    reveal(Seq::filter);
    if s.len() > 0 {
        lemma_without_hyphens_keeps(s.drop_last());
        assert(s =~= s.drop_last().push(s.last()));
    } else {
        assert(without_hyphens(s) =~= s);
    }
}

/// Without its hyphens the text of a UUID is an identifier.
pub proof fn lemma_uuid_without_hyphens(s: Seq<char>)
    requires
        is_hyphenated_uuid(s),
    ensures
        is_identifier(without_hyphens(s)),
{
    let pred = |c: char| c != '-';
    let hyphen = seq!['-'];
    let a = s.subrange(0, 8);
    let b = s.subrange(9, 13);
    let c = s.subrange(14, 18);
    let d = s.subrange(19, 23);
    let e = s.subrange(24, 36);
    assert(s[8] == '-' && s[13] == '-' && s[18] == '-' && s[23] == '-');
    assert(s =~= a + hyphen + b + hyphen + c + hyphen + d + hyphen + e);
    assert(hyphen.filter(pred) =~= Seq::<char>::empty()) by {
        reveal(Seq::filter);
        assert(hyphen.drop_last() =~= Seq::<char>::empty());
    }
    assert forall|i: int| 0 <= i < 36 && !is_hyphen_position(i) implies s[i] != '-' by {
        assert(is_lower_hex(s[i]));
    }
    lemma_without_hyphens_keeps(a);
    lemma_without_hyphens_keeps(b);
    lemma_without_hyphens_keeps(c);
    lemma_without_hyphens_keeps(d);
    lemma_without_hyphens_keeps(e);
    Seq::filter_distributes_over_add(a, hyphen, pred);
    Seq::filter_distributes_over_add(a + hyphen, b, pred);
    Seq::filter_distributes_over_add(a + hyphen + b, hyphen, pred);
    Seq::filter_distributes_over_add(a + hyphen + b + hyphen, c, pred);
    Seq::filter_distributes_over_add(a + hyphen + b + hyphen + c, hyphen, pred);
    Seq::filter_distributes_over_add(a + hyphen + b + hyphen + c + hyphen, d, pred);
    Seq::filter_distributes_over_add(a + hyphen + b + hyphen + c + hyphen + d, hyphen, pred);
    Seq::filter_distributes_over_add(
        a + hyphen + b + hyphen + c + hyphen + d + hyphen,
        e,
        pred,
    );
    let r = without_hyphens(s);
    assert(r =~= a + b + c + d + e);
    assert forall|i: int| 0 <= i < 32 implies is_lower_hex(#[trigger] r[i]) by {
        if i < 8 {
            assert(r[i] == s[i]);
        } else if i < 12 {
            assert(r[i] == s[i + 1]);
        } else if i < 16 {
            assert(r[i] == s[i + 2]);
        } else if i < 20 {
            assert(r[i] == s[i + 3]);
        } else {
            assert(r[i] == s[i + 4]);
        }
    }
}

/// `s` with every hyphen taken out.
pub fn remove_hyphens(s: &str) -> (r: String)
    ensures
        r@ == without_hyphens(s@),
{
    let chars = chars_of(s);
    let mut r = String::new();
    let mut i: usize = 0;
    assert(s@.take(0) =~= Seq::<char>::empty());
    while i < chars.len()
        invariant
            i <= chars.len(),
            chars@ == s@,
            r@ == without_hyphens(s@.take(i as int)),
        decreases chars.len() - i,
    {
        proof {
            assert(s@.take(i + 1) =~= s@.take(i as int).push(s@[i as int]));
            Seq::lemma_filter_push(s@.take(i as int), s@[i as int], |c: char| c != '-');
        }
        if chars[i] != '-' {
            let one = s.substring_char(i, i + 1);
            assert(one@ =~= seq![s@[i as int]]);
            r.append(one);
            assert(r@ =~= without_hyphens(s@.take(i as int)).push(s@[i as int]));
        }
        i = i + 1;
    }
    assert(s@.take(s@.len() as int) =~= s@);
    r
}

/// A new identifier, drawn at random. Two calls give the same one only by
/// a chance that the generator makes negligible; nothing here proves it.
pub fn fresh_id() -> (r: String)
    ensures
        is_identifier(r@),
{
    let text = new_uuid_text();
    proof {
        lemma_uuid_without_hyphens(text@);
    }
    remove_hyphens(text.as_str())
}

impl FileEntry {
    /// What `new` returns but for the identifier: the entry of a file of
    /// the given format in the given folder.
    pub open spec fn described(
        folder: Seq<char>,
        path: Seq<char>,
        format: Seq<char>,
        duration: u64,
    ) -> EntryView {
        EntryView { folder, name: title_of(path), format, duration, uuid: Seq::empty() }
    }

    /// The entry of the music file `file`, which lies in `folder` and plays
    /// for `duration` seconds, under a new identifier.
    pub fn new(folder: &str, file: &MusicFormat, duration: u64) -> (r: FileEntry)
        ensures
            r@.content() == Self::described(
                folder@,
                file.path_spec(),
                file.extension_spec(),
                duration,
            ),
            is_identifier(r@.uuid),
    {
        FileEntry {
            folder: folder.to_owned(),
            name: title(file.path()),
            format: file.extension().to_owned(),
            duration,
            uuid: fresh_id(),
        }
    }
}

} // verus!
