//! ZIP: a stored member is a range of the archive, any other is inflated.
use super::{ArchiveEntry, CacheConfig, EntryView, OpenedMember};
use crate::text::same;
use vstd::prelude::*;

verus! {

/// The fixed part of a ZIP local file header: signature, version, flags,
/// method, time, date, CRC, the two sizes and the two length fields.
pub const LOCAL_HEADER_BYTES: u64 = 30;

/// What a local file header starts with.
pub const LOCAL_HEADER_SIGNATURE: u32 = 0x0403_4b50;

/// How much of the archive is read, and of the member written, at a time.
pub const INFLATE_CHUNK_BYTES: usize = 262_144;

/// What a member the archive does not have is refused with.
pub const NOT_FOUND: &'static str = "File not found in archive";

/// What opening a member of an archive whose stream is gone says.
pub const CONSUMED: &'static str = "Archive source already consumed";

/// What listing an archive whose stream is gone says.
pub const NO_SOURCE: &'static str = "No source available or already consumed";

/// One member, as the archive's directory describes it.
#[derive(Debug, Clone)]
pub struct ZipMember {
    pub name: String,
    pub size: u64,
    pub is_dir: bool,
    /// Whether it is stored as it is.
    pub stored: bool,
    /// Where its local header is.
    pub header_offset: u64,
}

/// What a [`ZipMember`] says.
pub struct MemberView {
    pub name: Seq<char>,
    pub size: u64,
    pub is_dir: bool,
    pub stored: bool,
    pub header_offset: u64,
}

impl View for ZipMember {
    type V = MemberView;

    open spec fn view(&self) -> MemberView {
        MemberView {
            name: self.name@,
            size: self.size,
            is_dir: self.is_dir,
            stored: self.stored,
            header_offset: self.header_offset,
        }
    }
}

/// What a list of members says.
pub open spec fn members_view(s: Seq<ZipMember>) -> Seq<MemberView> {
    s.map_values(|m: ZipMember| m@)
}

/// Two bytes of a header as a number, the low one first.
pub open spec fn field(header: Seq<u8>, at: int) -> int {
    header[at] + header[at + 1] * 256
}

/// Whether a local header describes plain bytes: it has the signature of
/// one, and does not say that they are encrypted.
pub open spec fn is_plain(header: Seq<u8>) -> bool {
    &&& header[0] == 0x50
    &&& header[1] == 0x4b
    &&& header[2] == 0x03
    &&& header[3] == 0x04
    &&& field(header, 6) % 2 == 0
}

/// Where the bytes of the member whose local header is at `header_offset`
/// begin: behind the header, the name and the extra field.
pub open spec fn offset_spec(header: Seq<u8>, header_offset: u64) -> int {
    header_offset + LOCAL_HEADER_BYTES + field(header, 26) + field(header, 28)
}

/// Where the bytes of the member whose local header is at `header_offset`
/// begin, or `None` when they are not plainly there to be read.
///
/// The local header is the one that describes the bytes that follow it, so
/// it is the one that is read: the extra field may differ in length between
/// the directory and the local header.
pub fn stored_member_offset(header: &[u8], header_offset: u64) -> (r: Option<u64>)
    requires
        header@.len() == LOCAL_HEADER_BYTES,
        offset_spec(header@, header_offset) <= u64::MAX,
    ensures
        match r {
            Some(at) => is_plain(header@) && at == offset_spec(header@, header_offset),
            None => !is_plain(header@),
        },
{
    if header[0] != 0x50 || header[1] != 0x4b || header[2] != 0x03 || header[3] != 0x04 {
        return None;
    }
    // An encrypted member's bytes are not the member's, whatever its
    // compression method says.
    let flags: u64 = header[6] as u64 + header[7] as u64 * 256;
    if flags % 2 != 0 {
        return None;
    }
    let name: u64 = header[26] as u64 + header[27] as u64 * 256;
    let extra: u64 = header[28] as u64 + header[29] as u64 * 256;
    Some(header_offset + LOCAL_HEADER_BYTES + name + extra)
}

/// A ZIP, on disk or as a stream.
#[derive(Debug, Clone)]
pub struct ZipHandler {
    path: Option<String>,
    cache_config: CacheConfig,
}

/// What a [`ZipHandler`] reads, and where it writes.
pub struct ZipView {
    pub path: Option<Seq<char>>,
    pub cache_dir: Seq<char>,
}

impl View for ZipHandler {
    type V = ZipView;

    closed spec fn view(&self) -> ZipView {
        ZipView {
            path: match self.path {
                Some(p) => Some(p@),
                None => None,
            },
            cache_dir: self.cache_config.cache_dir@,
        }
    }
}

/// Where an archive is read from.
#[derive(Debug, Clone)]
pub enum ZipSource {
    /// The file at this path, opened anew.
    File(String),
    /// The stream that was handed over.
    Stream,
}

/// The first member with a name, from `from` on.
pub open spec fn member_from(s: Seq<MemberView>, name: Seq<char>, from: int) -> Option<int>
    decreases s.len() - from,
{
    if from < 0 || from >= s.len() {
        None
    } else if s[from].name == name {
        Some(from)
    } else {
        member_from(s, name, from + 1)
    }
}

/// The first member with a name.
pub open spec fn member_spec(s: Seq<MemberView>, name: Seq<char>) -> Option<int> {
    member_from(s, name, 0)
}

impl ZipHandler {
    pub fn new(path: String, cache_config: CacheConfig) -> (h: Self)
        ensures
            h@ == (ZipView { path: Some(path@), cache_dir: cache_config.cache_dir@ }),
    {
        ZipHandler { path: Some(path), cache_config }
    }

    /// An archive that is read as a stream.
    pub fn new_with_reader(cache_config: CacheConfig) -> (h: Self)
        ensures
            h@ == (ZipView { path: None, cache_dir: cache_config.cache_dir@ }),
    {
        ZipHandler { path: None, cache_config }
    }

    /// Where extracted members go.
    pub fn scratch_dir(&self) -> (dir: String)
        ensures
            dir@ == crate::paths::under(self@.cache_dir, super::SCRATCH_DIR_NAME@),
    {
        self.cache_config.scratch_dir()
    }

    /// Where the archive is read from: its path, where it has one, and the
    /// stream otherwise, for as long as that is there. `refusal` is what is
    /// said when it is not.
    pub fn source(&self, stream_is_there: bool, refusal: &str) -> (r: Result<ZipSource, String>)
        ensures
            match self@.path {
                Some(p) => r matches Ok(ZipSource::File(f)) && f@ == p,
                None => if stream_is_there {
                    r matches Ok(ZipSource::Stream)
                } else {
                    r matches Err(e) && e@ == refusal@
                },
            },
    {
        match &self.path {
            Some(p) => Ok(ZipSource::File(p.clone())),
            None => if stream_is_there {
                Ok(ZipSource::Stream)
            } else {
                Err(refusal.to_owned())
            },
        }
    }

    /// Whether a member is inflated on a thread of its own. One that comes
    /// from a stream is not: its reads wait, and a thread parked in one is
    /// never woken when the runtime goes down.
    pub fn inflates_on_a_thread(&self) -> (r: bool)
        ensures
            r == (self@.path is Some),
    {
        self.path.is_some()
    }

    /// List all files in the archive.
    pub fn list_files(&self, members: &Vec<ZipMember>) -> (r: Vec<ArchiveEntry>)
        ensures
            r@.map_values(|e: ArchiveEntry| e@) == members_view(members@).map_values(
                |m: MemberView| EntryView { path: m.name, size: m.size, is_dir: m.is_dir },
            ),
    {
        let mut out: Vec<ArchiveEntry> = Vec::new();
        let mut i: usize = 0;
        while i < members.len()
            invariant
                i <= members@.len(),
                out@.len() == i,
                forall|j: int|
                    0 <= j < i ==> (#[trigger] out@[j])@ == (EntryView {
                        path: members@[j].name@,
                        size: members@[j].size,
                        is_dir: members@[j].is_dir,
                    }),
            decreases members@.len() - i,
        {
            let m = &members[i];
            out.push(ArchiveEntry { path: m.name.clone(), size: m.size, is_dir: m.is_dir });
            i += 1;
        }
        proof {
            assert(out@.map_values(|e: ArchiveEntry| e@) =~= members_view(members@).map_values(
                |m: MemberView| EntryView { path: m.name, size: m.size, is_dir: m.is_dir },
            ));
        }
        out
    }

    /// The index of a member: the first with its path.
    pub fn find_member(&self, members: &Vec<ZipMember>, path: &str) -> (r: Result<usize, String>)
        ensures
            match (r, member_spec(members_view(members@), path@)) {
                (Ok(i), Some(k)) => i == k && i < members@.len(),
                (Err(e), None) => e@ == NOT_FOUND@,
                _ => false,
            },
    {
        let ghost all = members_view(members@);
        let mut i: usize = 0;
        while i < members.len()
            invariant
                i <= members@.len(),
                all == members_view(members@),
                member_spec(all, path@) == member_from(all, path@, i as int),
            decreases members@.len() - i,
        {
            proof {
                assert(all[i as int] == members@[i as int]@);
            }
            if same(members[i].name.as_str(), path) {
                return Ok(i);
            }
            i += 1;
        }
        Err(NOT_FOUND.to_owned())
    }

    /// How a member is served, given the local header of a stored one: a
    /// stored member is a range of the archive, unless its header does not
    /// say what it should.
    pub fn open_file(&self, members: &Vec<ZipMember>, index: usize, header: &[u8]) -> (r:
        OpenedMember)
        requires
            index < members@.len(),
            members@[index as int].stored ==> header@.len() == LOCAL_HEADER_BYTES && offset_spec(
                header@,
                members@[index as int].header_offset,
            ) <= u64::MAX,
        ensures
            r == opened(members@[index as int]@, index, header@),
    {
        let m = &members[index];
        if m.stored {
            match stored_member_offset(header, m.header_offset) {
                Some(start) => {
                    return OpenedMember::Direct { start, len: m.size };
                },
                None => {},
            }
        }
        OpenedMember::Extracted { index, size: m.size }
    }
}

/// How a member is served.
pub open spec fn opened(m: MemberView, index: usize, header: Seq<u8>) -> OpenedMember {
    if m.stored && is_plain(header) {
        OpenedMember::Direct { start: offset_spec(header, m.header_offset) as u64, len: m.size }
    } else {
        OpenedMember::Extracted { index, size: m.size }
    }
}

/// A member found by its path has that path, and none before it does.
pub proof fn the_first_of_a_name_is_found(s: Seq<MemberView>, name: Seq<char>, from: int)
    requires
        0 <= from <= s.len(),
    ensures
        match member_from(s, name, from) {
            Some(i) => from <= i < s.len() && s[i].name == name && forall|j: int|
                from <= j < i ==> (#[trigger] s[j]).name != name,
            None => forall|j: int| from <= j < s.len() ==> (#[trigger] s[j]).name != name,
        },
    decreases s.len() - from,
{
    if from < s.len() && s[from].name != name {
        the_first_of_a_name_is_found(s, name, from + 1);
    }
}

/// A member that is compressed or encrypted is never served as it lies in
/// the archive.
pub proof fn only_plain_members_are_served_in_place(m: MemberView, index: usize, header: Seq<u8>)
    ensures
        opened(m, index, header) is Direct <==> m.stored && is_plain(header),
        opened(m, index, header) matches OpenedMember::Direct { len, .. } ==> len == m.size,
        opened(m, index, header) matches OpenedMember::Extracted { size, .. } ==> size == m.size,
{
}

} // verus!
