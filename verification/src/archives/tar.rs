//! TAR: every member is a range of the archive.
use super::{ArchiveEntry, EntryView, OpenedMember};
use crate::text::same;
use vstd::prelude::*;

verus! {

/// What a member the archive does not have is refused with.
pub const NOT_FOUND: &'static str = "File not found in TAR archive";

/// One member, as its header describes it.
#[derive(Debug, Clone)]
pub struct TarMember {
    pub path: String,
    pub size: u64,
    pub is_dir: bool,
    /// Where its bytes are in the archive.
    pub offset: u64,
}

/// What a [`TarMember`] says.
pub struct TarMemberView {
    pub path: Seq<char>,
    pub size: u64,
    pub is_dir: bool,
    pub offset: u64,
}

impl View for TarMember {
    type V = TarMemberView;

    open spec fn view(&self) -> TarMemberView {
        TarMemberView {
            path: self.path@,
            size: self.size,
            is_dir: self.is_dir,
            offset: self.offset,
        }
    }
}

/// What a list of members says.
pub open spec fn members_view(s: Seq<TarMember>) -> Seq<TarMemberView> {
    s.map_values(|m: TarMember| m@)
}

/// The first member with a path, from `from` on.
pub open spec fn member_from(s: Seq<TarMemberView>, path: Seq<char>, from: int) -> Option<
    TarMemberView,
>
    decreases s.len() - from,
{
    if from < 0 || from >= s.len() {
        None
    } else if s[from].path == path {
        Some(s[from])
    } else {
        member_from(s, path, from + 1)
    }
}

/// A TAR on disk.
#[derive(Debug, Clone)]
pub struct TarHandler {
    path: String,
}

impl View for TarHandler {
    type V = Seq<char>;

    closed spec fn view(&self) -> Seq<char> {
        self.path@
    }
}

/// The files of an archive, in the order of their headers.
pub fn list_members(members: &Vec<TarMember>) -> (r: Vec<ArchiveEntry>)
    ensures
        r@.map_values(|e: ArchiveEntry| e@) == members_view(members@).map_values(
            |m: TarMemberView| EntryView { path: m.path, size: m.size, is_dir: m.is_dir },
        ),
{
    let mut out: Vec<ArchiveEntry> = Vec::new();
    let mut i: usize = 0;
    while i < members.len()
        invariant
            i <= members@.len(),
            out@.len() == i,
            forall|j: int|
                0 <= j < i ==> (#[trigger] out@[j])@ == (EntryView {
                    path: members@[j].path@,
                    size: members@[j].size,
                    is_dir: members@[j].is_dir,
                }),
        decreases members@.len() - i,
    {
        let m = &members[i];
        out.push(ArchiveEntry { path: m.path.clone(), size: m.size, is_dir: m.is_dir });
        i += 1;
    }
    proof {
        assert(out@.map_values(|e: ArchiveEntry| e@) =~= members_view(members@).map_values(
            |m: TarMemberView| EntryView { path: m.path, size: m.size, is_dir: m.is_dir },
        ));
    }
    out
}

impl TarHandler {
    pub fn new(path: String) -> (h: Self)
        ensures
            h@ == path@,
    {
        TarHandler { path }
    }

    /// Where the archive is.
    pub fn path(&self) -> (p: String)
        ensures
            p@ == self@,
    {
        self.path.clone()
    }

    /// List all files in the archive.
    pub fn list_files(&self, members: &Vec<TarMember>) -> (r: Vec<ArchiveEntry>)
        ensures
            r@.map_values(|e: ArchiveEntry| e@) == members_view(members@).map_values(
                |m: TarMemberView| EntryView { path: m.path, size: m.size, is_dir: m.is_dir },
            ),
    {
        list_members(members)
    }

    /// How a member is served: as the range of the archive its bytes are.
    pub fn open_file(&self, members: &Vec<TarMember>, path: &str) -> (r: Result<
        OpenedMember,
        String,
    >)
        ensures
            match (r, member_from(members_view(members@), path@, 0)) {
                (Ok(o), Some(m)) => o == (OpenedMember::Direct { start: m.offset, len: m.size }),
                (Err(e), None) => e@ == NOT_FOUND@,
                _ => false,
            },
    {
        let ghost all = members_view(members@);
        let mut i: usize = 0;
        while i < members.len()
            invariant
                i <= members@.len(),
                all == members_view(members@),
                member_from(all, path@, 0) == member_from(all, path@, i as int),
            decreases members@.len() - i,
        {
            proof {
                assert(all[i as int] == members@[i as int]@);
            }
            if same(members[i].path.as_str(), path) {
                return Ok(
                    OpenedMember::Direct { start: members[i].offset, len: members[i].size },
                );
            }
            i += 1;
        }
        Err(NOT_FOUND.to_owned())
    }
}

} // verus!
