//! RAR: members are found by the name they are listed under.
use super::{ArchiveEntry, CacheConfig, EntryView, OpenedMember};
use crate::text::cat2;
use vstd::prelude::*;

verus! {

/// A RAR archive on disk.
#[derive(Debug, Clone)]
pub struct RarHandler {
    path: String,
    cache_config: CacheConfig,
}

/// What a [`RarHandler`] reads, and where it writes.
pub struct RarView {
    pub path: Seq<char>,
    pub cache_dir: Seq<char>,
}

impl View for RarHandler {
    type V = RarView;

    closed spec fn view(&self) -> RarView {
        RarView { path: self.path@, cache_dir: self.cache_config.cache_dir@ }
    }
}

/// One member, as the archive's headers describe it.
#[derive(Debug, Clone)]
pub struct RarMember {
    pub name: String,
    pub is_directory: bool,
    /// Its length, where the headers that were seen say it.
    pub unpacked_size: Option<u64>,
}

/// What a [`RarMember`] says.
pub struct RarMemberView {
    pub name: Seq<char>,
    pub is_directory: bool,
    pub unpacked_size: Option<u64>,
}

impl View for RarMember {
    type V = RarMemberView;

    open spec fn view(&self) -> RarMemberView {
        RarMemberView {
            name: self.name@,
            is_directory: self.is_directory,
            unpacked_size: self.unpacked_size,
        }
    }
}

/// The index of a member: the one found by its listed name, and failing that
/// the one found by the name in its header.
pub fn member_index(sanitized: Option<usize>, raw: Option<usize>) -> (r: Option<usize>)
    ensures
        r == (if sanitized is Some {
            sanitized
        } else {
            raw
        }),
{
    match sanitized {
        Some(i) => Some(i),
        None => raw,
    }
}

/// What a member comes to: its index and its length. The length has to be
/// known, or a range of it could not be answered.
pub open spec fn resolved(
    index: Option<usize>,
    info: Option<RarMemberView>,
    target: Seq<char>,
) -> Result<(usize, u64), Seq<char>> {
    if index is None || info is None {
        Err("File not found in archive: "@ + target)
    } else if info->0.is_directory {
        Err("Cannot stream a directory entry: "@ + target)
    } else {
        match info->0.unpacked_size {
            Some(size) => Ok((index->0, size)),
            None => Err(
                "Uncompressed size for entry is not available (incomplete volume set?): "@
                    + target,
            ),
        }
    }
}

/// Resolve a listed entry name to its extraction index and uncompressed
/// size, given what the archive found under it.
pub fn resolve_entry(index: Option<usize>, info: Option<&RarMember>, target: &str) -> (r: Result<
    (usize, u64),
    String,
>)
    ensures
        ({
            let seen = match info {
                Some(m) => Some(m@),
                None => None,
            };
            match r {
                Ok(x) => resolved(index, seen, target@) == Ok::<(usize, u64), Seq<char>>(x),
                Err(e) => resolved(index, seen, target@) == Err::<(usize, u64), Seq<char>>(e@),
            }
        }),
{
    let i: usize = match index {
        Some(i) => i,
        None => {
            return Err(cat2("File not found in archive: ", target));
        },
    };
    let m = match info {
        Some(m) => m,
        None => {
            return Err(cat2("File not found in archive: ", target));
        },
    };
    if m.is_directory {
        return Err(cat2("Cannot stream a directory entry: ", target));
    }
    match m.unpacked_size {
        Some(size) => Ok((i, size)),
        None => Err(
            cat2(
                "Uncompressed size for entry is not available (incomplete volume set?): ",
                target,
            ),
        ),
    }
}

impl RarHandler {
    pub fn new(path: String) -> (h: Self)
        ensures
            h@ == (RarView { path: path@, cache_dir: Seq::empty() }),
    {
        RarHandler { path, cache_config: CacheConfig::default() }
    }

    pub fn new_with_config(path: String, cache_config: CacheConfig) -> (h: Self)
        ensures
            h@ == (RarView { path: path@, cache_dir: cache_config.cache_dir@ }),
    {
        RarHandler { path, cache_config }
    }

    /// Where the archive is.
    pub fn path(&self) -> (p: String)
        ensures
            p@ == self@.path,
    {
        self.path.clone()
    }

    /// Where extracted members go.
    pub fn scratch_dir(&self) -> (dir: String)
        ensures
            dir@ == crate::paths::under(self@.cache_dir, super::SCRATCH_DIR_NAME@),
    {
        self.cache_config.scratch_dir()
    }

    /// List all files in the archive. A member of unknown length is listed
    /// as empty.
    pub fn list_files(&self, members: &Vec<RarMember>) -> (r: Vec<ArchiveEntry>)
        ensures
            r@.map_values(|e: ArchiveEntry| e@) == members@.map_values(
                |m: RarMember|
                    EntryView {
                        path: m.name@,
                        size: match m.unpacked_size {
                            Some(n) => n,
                            None => 0,
                        },
                        is_dir: m.is_directory,
                    },
            ),
    {
        let mut out: Vec<ArchiveEntry> = Vec::new();
        let mut i: usize = 0;
        while i < members.len()
            invariant
                i <= members@.len(),
                out@.len() == i,
                forall|j: int|
                    0 <= j < i ==> (#[trigger] out@[j])@ == (EntryView {
                        path: members@[j].name@,
                        size: match members@[j].unpacked_size {
                            Some(n) => n,
                            None => 0,
                        },
                        is_dir: members@[j].is_directory,
                    }),
            decreases members@.len() - i,
        {
            let m = &members[i];
            let size: u64 = match m.unpacked_size {
                Some(n) => n,
                None => 0,
            };
            out.push(ArchiveEntry { path: m.name.clone(), size, is_dir: m.is_directory });
            i += 1;
        }
        proof {
            assert(out@.map_values(|e: ArchiveEntry| e@) =~= members@.map_values(
                |m: RarMember|
                    EntryView {
                        path: m.name@,
                        size: match m.unpacked_size {
                            Some(n) => n,
                            None => 0,
                        },
                        is_dir: m.is_directory,
                    },
            ));
        }
        out
    }

    /// How a member is served: extracted, with its length known up front.
    pub fn open_file(&self, index: Option<usize>, info: Option<&RarMember>, path: &str) -> (r:
        Result<OpenedMember, String>)
        ensures
            ({
                let seen = match info {
                    Some(m) => Some(m@),
                    None => None,
                };
                match (r, resolved(index, seen, path@)) {
                    (Ok(o), Ok((index, size))) => o == (OpenedMember::Extracted { index, size }),
                    (Err(e), Err(f)) => e@ == f,
                    _ => false,
                }
            }),
    {
        match resolve_entry(index, info, path) {
            Ok((index, size)) => Ok(OpenedMember::Extracted { index, size }),
            Err(e) => Err(e),
        }
    }
}

} // verus!
