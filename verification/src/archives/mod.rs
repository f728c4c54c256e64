//! Archives: which reader a file needs, what its members are, and how one of
//! them is served.
use crate::paths;
use crate::paths::join;
use crate::text;
use crate::text::{cat2, ends_with, same, to_lowercase};
use nzb::NzbHandler;
use rar::RarHandler;
use sevenz::SevenZHandler;
use tar::TarHandler;
use tgz::TgzHandler;
use vstd::prelude::*;
use zip::ZipHandler;

pub mod cache;
pub mod laws;
pub mod nzb;
pub mod rar;
pub mod sessions;
pub mod sevenz;
pub mod source;
pub mod tar;
pub mod tgz;
pub mod torrent;
pub mod window;
pub mod zip;

verus! {

/// How long, in nanoseconds, an archive or NZB session outlives its last use
/// before it is swept, with what it owns.
///
/// A use is a request, or a response body still being read. What the timeout
/// has to cover is the player that comes back after it has closed every
/// connection.
pub const SESSION_IDLE_TIMEOUT: u64 = 600_000_000_000;

/// What is said when a RAR archive is requested of a build without RAR
/// support.
pub const RAR_DISABLED_ERROR: &'static str =
    "RAR support is not compiled into this build (rebuild with the \"rar\" cargo feature)";

/// The directory under the cache root that holds what the archive routes put
/// on disk: archives downloaded whole, and members extracted from them.
pub const SCRATCH_DIR_NAME: &'static str = ".archives";

/// Represents a file inside an archive.
#[derive(Debug, Clone)]
pub struct ArchiveEntry {
    /// Internal path in archive.
    pub path: String,
    pub size: u64,
    pub is_dir: bool,
}

/// What an [`ArchiveEntry`] says.
pub struct EntryView {
    pub path: Seq<char>,
    pub size: u64,
    pub is_dir: bool,
}

impl View for ArchiveEntry {
    type V = EntryView;

    open spec fn view(&self) -> EntryView {
        EntryView { path: self.path@, size: self.size, is_dir: self.is_dir }
    }
}

/// Where the archive handlers write: the cache root, and under it the one
/// directory everything of theirs goes in.
#[derive(Debug, Clone)]
pub struct CacheConfig {
    /// The cache root.
    pub cache_dir: String,
    /// Maximum cache size in bytes (0 = disabled).
    pub _cache_size: u64,
}

impl Default for CacheConfig {
    fn default() -> (c: Self)
        ensures
            c.cache_dir@ == Seq::<char>::empty(),
            c._cache_size == 0,
    {
        CacheConfig { cache_dir: String::new(), _cache_size: 0 }
    }
}

impl CacheConfig {
    /// `<cache root>/.archives`.
    pub fn scratch_dir(&self) -> (dir: String)
        ensures
            dir@ == paths::under(self.cache_dir@, SCRATCH_DIR_NAME@),
    {
        join(self.cache_dir.as_str(), SCRATCH_DIR_NAME)
    }
}

/// The recognised archive suffix a name in lower case ends with, the longest
/// first.
pub open spec fn suffix_spec(lower: Seq<char>) -> Option<Seq<char>> {
    if text::has_suffix(lower, ".tar.gz"@) {
        Some(".tar.gz"@)
    } else if text::has_suffix(lower, ".tgz"@) {
        Some(".tgz"@)
    } else if text::has_suffix(lower, ".zip"@) {
        Some(".zip"@)
    } else if text::has_suffix(lower, ".rar"@) {
        Some(".rar"@)
    } else if text::has_suffix(lower, ".7z"@) {
        Some(".7z"@)
    } else if text::has_suffix(lower, ".tar"@) {
        Some(".tar"@)
    } else if text::has_suffix(lower, ".nzb"@) {
        Some(".nzb"@)
    } else {
        None
    }
}

/// The text of an optional suffix.
pub open spec fn suffix_text(s: Option<&str>) -> Option<Seq<char>> {
    match s {
        Some(s) => Some(s@),
        None => None,
    }
}

/// The recognised archive suffix a name in lower case ends with.
pub fn suffix_of_lower(lower: &str) -> (r: Option<&'static str>)
    ensures
        suffix_text(r) == suffix_spec(lower@),
{
    if ends_with(lower, ".tar.gz") {
        Some(".tar.gz")
    } else if ends_with(lower, ".tgz") {
        Some(".tgz")
    } else if ends_with(lower, ".zip") {
        Some(".zip")
    } else if ends_with(lower, ".rar") {
        Some(".rar")
    } else if ends_with(lower, ".7z") {
        Some(".7z")
    } else if ends_with(lower, ".tar") {
        Some(".tar")
    } else if ends_with(lower, ".nzb") {
        Some(".nzb")
    } else {
        None
    }
}

/// The recognised archive suffix `name` ends with (case-insensitively), or
/// `None` when it has none. `name` may be a whole path or URL path; only its
/// end is looked at.
pub fn archive_suffix(name: &str) -> (r: Option<&'static str>)
    ensures
        suffix_text(r) == suffix_spec(text::lowered(name@)),
        vstd::utf8::is_ascii_chars(name@) ==> suffix_text(r) == suffix_spec(
            text::ascii_lowered(name@),
        ),
{
    let lower = to_lowercase(name);
    suffix_of_lower(lower.as_str())
}

/// Whether bytes start with others.
pub open spec fn begins(s: Seq<u8>, prefix: Seq<u8>) -> bool {
    prefix.len() <= s.len() && s.take(prefix.len() as int) == prefix
}

/// The archive suffix the first bytes of a file say it should have, by the
/// signatures the formats put at their start: `Rar!` and two bytes, `PK` and
/// two bytes, `7z` and four bytes, gzip's two bytes, and tar's `ustar` at
/// offset 257.
pub open spec fn magic_spec(head: Seq<u8>) -> Option<Seq<char>> {
    if begins(head, seq![0x52, 0x61, 0x72, 0x21, 0x1a, 0x07]) {
        Some(".rar"@)
    } else if begins(head, seq![0x50, 0x4b, 0x03, 0x04]) {
        Some(".zip"@)
    } else if begins(head, seq![0x37, 0x7a, 0xbc, 0xaf, 0x27, 0x1c]) {
        Some(".7z"@)
    } else if begins(head, seq![0x1f, 0x8b]) {
        Some(".tar.gz"@)
    } else if head.len() >= 262 && head.subrange(257, 262) == seq![
        0x75u8,
        0x73,
        0x74,
        0x61,
        0x72,
    ] {
        Some(".tar"@)
    } else {
        None
    }
}

fn starts(head: &[u8], prefix: &[u8]) -> (r: bool)
    ensures
        r == begins(head@, prefix@),
{
    if head.len() < prefix.len() {
        return false;
    }
    let mut i: usize = 0;
    while i < prefix.len()
        invariant
            i <= prefix@.len() <= head@.len(),
            forall|j: int| 0 <= j < i ==> head@[j] == prefix@[j],
        decreases prefix@.len() - i,
    {
        if head[i] != prefix[i] {
            proof {
                assert(head@.take(prefix@.len() as int)[i as int] == head@[i as int]);
            }
            return false;
        }
        i += 1;
    }
    proof {
        assert(head@.take(prefix@.len() as int) =~= prefix@);
    }
    true
}

/// The archive suffix the first bytes of a file say it should have. `head`
/// should be at least 262 bytes long to find a tar.
///
/// A download is named by the URL it came from, and a URL that ends in an id
/// rather than a filename says nothing about the format, while the bytes
/// always do. NZB is XML and has no signature to find here.
pub fn archive_suffix_from_magic(head: &[u8]) -> (r: Option<&'static str>)
    ensures
        suffix_text(r) == magic_spec(head@),
{
    let rar = [0x52u8, 0x61, 0x72, 0x21, 0x1a, 0x07];
    let zip = [0x50u8, 0x4b, 0x03, 0x04];
    let sevenz = [0x37u8, 0x7a, 0xbc, 0xaf, 0x27, 0x1c];
    let gzip = [0x1fu8, 0x8b];
    proof {
        assert(rar@ =~= seq![0x52, 0x61, 0x72, 0x21, 0x1a, 0x07]);
        assert(zip@ =~= seq![0x50, 0x4b, 0x03, 0x04]);
        assert(sevenz@ =~= seq![0x37, 0x7a, 0xbc, 0xaf, 0x27, 0x1c]);
        assert(gzip@ =~= seq![0x1f, 0x8b]);
    }
    if starts(head, rar.as_slice()) {
        Some(".rar")
    } else if starts(head, zip.as_slice()) {
        Some(".zip")
    } else if starts(head, sevenz.as_slice()) {
        Some(".7z")
    } else if starts(head, gzip.as_slice()) {
        Some(".tar.gz")
    } else if head.len() >= 262 && head[257] == 0x75 && head[258] == 0x73 && head[259] == 0x74
        && head[260] == 0x61 && head[261] == 0x72 {
        proof {
            assert(head@.subrange(257, 262) =~= seq![0x75u8, 0x73, 0x74, 0x61, 0x72]);
        }
        Some(".tar")
    } else {
        proof {
            if head@.len() >= 262 && head@.subrange(257, 262) == seq![
                0x75u8,
                0x73,
                0x74,
                0x61,
                0x72,
            ] {
                let s = head@.subrange(257, 262);
                assert(s[0] == head@[257] && s[1] == head@[258] && s[2] == head@[259] && s[3]
                    == head@[260] && s[4] == head@[261]);
            }
        }
        None
    }
}

/// How an opened member is served.
///
/// Most formats have to decode the member, and do so into a file that any
/// number of readers can be taken from while the decoding runs. A format
/// that needs no decoding serves a range of the archive itself.
#[derive(Debug, Clone, Copy, PartialEq, Eq, Structural)]
pub enum OpenedMember {
    /// Extract the member with this index, which has this many bytes.
    Extracted { index: usize, size: u64 },
    /// Serve this many bytes of the archive from this offset on.
    Direct { start: u64, len: u64 },
}

/// A reader for an archive, by its format.
#[derive(Debug, Clone)]
pub enum ArchiveReader {
    Zip(ZipHandler),
    Rar(RarHandler),
    SevenZ(SevenZHandler),
    Tar(TarHandler),
    Tgz(TgzHandler),
    Nzb(NzbHandler),
}

/// What a reader reads: the format, where the archive is, where its members
/// are extracted to, and how much may be there. A tar and an NZB are never
/// extracted.
pub enum ReaderView {
    Zip { path: Option<Seq<char>>, cache_dir: Seq<char> },
    Rar { path: Seq<char>, cache_dir: Seq<char> },
    SevenZ { path: Option<Seq<char>>, cache_dir: Seq<char> },
    Tar { path: Seq<char> },
    Tgz { path: Seq<char>, cache_dir: Seq<char> },
    Nzb { path: Seq<char> },
}

impl View for ArchiveReader {
    type V = ReaderView;

    open spec fn view(&self) -> ReaderView {
        match self {
            ArchiveReader::Zip(h) => ReaderView::Zip { path: h@.path, cache_dir: h@.cache_dir },
            ArchiveReader::Rar(h) => ReaderView::Rar { path: h@.path, cache_dir: h@.cache_dir },
            ArchiveReader::SevenZ(h) => ReaderView::SevenZ {
                path: h@.path,
                cache_dir: h@.cache_dir,
            },
            ArchiveReader::Tar(h) => ReaderView::Tar { path: h@ },
            ArchiveReader::Tgz(h) => ReaderView::Tgz { path: h@.path, cache_dir: h@.cache_dir },
            ArchiveReader::Nzb(h) => ReaderView::Nzb { path: h@ },
        }
    }
}

/// The reader for a path with a suffix. The format is chosen by suffix,
/// which is why a download has to be given one.
pub open spec fn reader_for(
    suffix: Seq<char>,
    path: Seq<char>,
    cache_dir: Seq<char>,
) -> Option<ReaderView> {
    if suffix == ".zip"@ {
        Some(ReaderView::Zip { path: Some(path), cache_dir })
    } else if suffix == ".rar"@ {
        Some(ReaderView::Rar { path, cache_dir })
    } else if suffix == ".7z"@ {
        Some(ReaderView::SevenZ { path: Some(path), cache_dir })
    } else if suffix == ".tar"@ {
        Some(ReaderView::Tar { path })
    } else if suffix == ".tar.gz"@ || suffix == ".tgz"@ {
        Some(ReaderView::Tgz { path, cache_dir })
    } else if suffix == ".nzb"@ {
        Some(ReaderView::Nzb { path })
    } else {
        None
    }
}

/// What asking for a reader comes to: the reader for the suffix, or the
/// refusal of a RAR by a build that cannot read one, or of anything else.
pub open spec fn is_answer(
    r: Result<ArchiveReader, String>,
    suffix: Option<Seq<char>>,
    path: Seq<char>,
    cache_dir: Seq<char>,
    rar: bool,
) -> bool {
    if suffix is None || reader_for(suffix->0, path, cache_dir) is None {
        &&& r is Err
        &&& is_refusal(r->Err_0@, path)
    } else if suffix->0 == ".rar"@ && !rar {
        r is Err && r->Err_0@ == RAR_DISABLED_ERROR@
    } else {
        r is Ok && Some(r->Ok_0@) == reader_for(suffix->0, path, cache_dir)
    }
}

/// Whether text is shown in quotes as it stands: letters and digits that
/// need no escape.
pub open spec fn is_shown_as_is(s: Seq<char>) -> bool {
    forall|i: int| 0 <= i < s.len() ==> #[trigger] is_plain_char(s[i])
}

/// A letter or a digit of ASCII.
pub open spec fn is_plain_char(c: char) -> bool {
    'a' <= c <= 'z' || 'A' <= c <= 'Z' || '0' <= c <= '9'
}

/// How the extension of a file is shown to a person.
pub open spec fn extension_text(extension: Option<Seq<char>>) -> Seq<char> {
    match extension {
        Some(e) => "Some(\""@ + e + "\")"@,
        None => "None"@,
    }
}

/// The extension of a path's file name, where it has one.
pub open spec fn path_extension(path: Seq<char>) -> Option<Seq<char>> {
    match paths::final_name(path) {
        Some(name) => paths::extension_of(name),
        None => None,
    }
}

/// Whether every machine shows the extension of a path in the same way: it
/// splits the path in the same places, and escapes nothing.
pub open spec fn is_shown_alike(path: Seq<char>) -> bool {
    &&& paths::is_plain_path(path)
    &&& path_extension(path) matches Some(e) ==> is_shown_as_is(e)
}

/// `std::path::Path::extension`, as its `Debug` shows it: said of the paths
/// whose extension every machine shows in the same way.
#[verifier::external_body]
fn extension_shown(path: &str) -> (s: String)
    ensures
        is_shown_alike(path@) ==> s@ == extension_text(path_extension(path@)),
{
    format!("{:?}", std::path::Path::new(path).extension())
}

/// What an archive of no known format is refused with.
pub open spec fn unsupported() -> Seq<char> {
    "Unsupported archive type: "@
}

/// Whether an error is the refusal of a path: it says what extension the
/// path has.
pub open spec fn is_refusal(e: Seq<char>, path: Seq<char>) -> bool {
    &&& text::has_prefix(e, unsupported())
    &&& is_shown_alike(path) ==> e == unsupported() + extension_text(path_extension(path))
}

proof fn lemma_rar_is_no_other()
    ensures
        ".rar"@ != ".zip"@,
        ".rar"@ != ".7z"@,
        ".rar"@ != ".tar"@,
        ".rar"@ != ".tar.gz"@,
        ".rar"@ != ".tgz"@,
        ".rar"@ != ".nzb"@,
{
    reveal_strlit(".rar");
    reveal_strlit(".zip");
    reveal_strlit(".7z");
    reveal_strlit(".tar");
    reveal_strlit(".tar.gz");
    reveal_strlit(".tgz");
    reveal_strlit(".nzb");
    assert(".rar"@[1] == 'r');
    assert(".zip"@[1] == 'z');
    assert(".tar"@[1] == 't');
    assert(".tgz"@[1] == 't');
    assert(".nzb"@[1] == 'n');
}

fn refuse(path: &str) -> (e: String)
    ensures
        is_refusal(e@, path@),
{
    let message = cat2("Unsupported archive type: ", extension_shown(path).as_str());
    proof {
        assert(message@.take(unsupported().len() as int) =~= unsupported());
    }
    message
}

/// The reader for an archive whose path has a suffix that was found, or none
/// did. `rar` is whether RAR support is part of the build.
pub fn reader_by_suffix(
    suffix: Option<&str>,
    path: &str,
    cache_config: CacheConfig,
    rar: bool,
) -> (r: Result<ArchiveReader, String>)
    ensures
        is_answer(r, suffix_text(suffix), path@, cache_config.cache_dir@, rar),
{
    let found = match suffix {
        Some(s) => s,
        None => {
            return Err(refuse(path));
        },
    };
    let owned = path.to_owned();
    proof {
        lemma_rar_is_no_other();
    }
    if same(found, ".zip") {
        Ok(ArchiveReader::Zip(ZipHandler::new(owned, cache_config)))
    } else if same(found, ".rar") {
        if rar {
            Ok(ArchiveReader::Rar(RarHandler::new_with_config(owned, cache_config)))
        } else {
            Err(RAR_DISABLED_ERROR.to_owned())
        }
    } else if same(found, ".7z") {
        Ok(ArchiveReader::SevenZ(SevenZHandler::new_with_config(owned, cache_config)))
    } else if same(found, ".tar") {
        Ok(ArchiveReader::Tar(TarHandler::new(owned)))
    } else if same(found, ".tar.gz") || same(found, ".tgz") {
        Ok(ArchiveReader::Tgz(TgzHandler::new(owned, cache_config)))
    } else if same(found, ".nzb") {
        Ok(ArchiveReader::Nzb(NzbHandler::new(owned)))
    } else {
        Err(refuse(path))
    }
}

/// Create an archive reader with custom cache configuration, by the suffix
/// of its path. `rar` is whether RAR support is part of the build.
pub fn get_archive_reader_with_config(path: &str, cache_config: CacheConfig, rar: bool) -> (r:
    Result<ArchiveReader, String>)
    ensures
        is_answer(r, suffix_spec(text::lowered(path@)), path@, cache_config.cache_dir@, rar),
{
    let suffix = archive_suffix(path);
    reader_by_suffix(suffix, path, cache_config, rar)
}

/// Every suffix that is recognised has a reader.
pub proof fn every_recognised_suffix_has_a_reader(
    name: Seq<char>,
    path: Seq<char>,
    cache_dir: Seq<char>,
)
    requires
        suffix_spec(name) is Some,
    ensures
        reader_for(suffix_spec(name)->0, path, cache_dir) is Some,
{
}

/// So has every suffix the first bytes of a file name.
pub proof fn every_signature_has_a_reader(
    head: Seq<u8>,
    path: Seq<char>,
    cache_dir: Seq<char>,
)
    requires
        magic_spec(head) is Some,
    ensures
        reader_for(magic_spec(head)->0, path, cache_dir) is Some,
{
}

/// The reader for an archive that is read as a stream, by its extension in
/// lower case: only the formats that can be.
pub fn streamed_reader(ext: &str, cache_config: CacheConfig) -> (r: Result<ArchiveReader, String>)
    ensures
        if ext@ == "zip"@ {
            r matches Ok(reader) && reader@ == (ReaderView::Zip {
                path: None,
                cache_dir: cache_config.cache_dir@,
            })
        } else if ext@ == "7z"@ {
            r matches Ok(reader) && reader@ == (ReaderView::SevenZ {
                path: None,
                cache_dir: cache_config.cache_dir@,
            })
        } else {
            r matches Err(e) && e@ == "Unsupported archive type for streaming: ."@ + ext@
        },
{
    if same(ext, "zip") {
        Ok(ArchiveReader::Zip(ZipHandler::new_with_reader(cache_config)))
    } else if same(ext, "7z") {
        Ok(ArchiveReader::SevenZ(SevenZHandler::new_with_reader(cache_config)))
    } else {
        Err(cat2("Unsupported archive type for streaming: .", ext))
    }
}

/// The reader for an archive that is read as a stream, by its extension
/// whatever its case.
pub fn get_archive_reader_from_stream(extension: &str, cache_config: CacheConfig) -> (r: Result<
    ArchiveReader,
    String,
>)
    ensures
        ({
            let ext = text::lowered(extension@);
            if ext == "zip"@ {
                r matches Ok(reader) && reader@ == (ReaderView::Zip {
                    path: None,
                    cache_dir: cache_config.cache_dir@,
                })
            } else if ext == "7z"@ {
                r matches Ok(reader) && reader@ == (ReaderView::SevenZ {
                    path: None,
                    cache_dir: cache_config.cache_dir@,
                })
            } else {
                r matches Err(e) && e@ == "Unsupported archive type for streaming: ."@ + ext
            }
        }),
{
    let ext = to_lowercase(extension);
    streamed_reader(ext.as_str(), cache_config)
}

} // verus!
