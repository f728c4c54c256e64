//! TAR inside gzip: one pass finds a member and copies it.
use super::tar;
use super::tar::{list_members, TarMember};
use super::{ArchiveEntry, CacheConfig, EntryView};
use crate::text::same;
use vstd::prelude::*;

verus! {

/// What a scan's error says when it stopped because nobody is waiting for
/// its answer any more.
pub const SCAN_ABANDONED: &'static str =
    "tgz scan abandoned: nobody is waiting for the member any more";

/// What a member the archive does not have is refused with.
pub const NOT_FOUND: &'static str = "File not found in TGZ";

/// A TAR inside gzip on disk.
#[derive(Debug, Clone)]
pub struct TgzHandler {
    path: String,
    cache_config: CacheConfig,
}

/// What a [`TgzHandler`] reads, and where it writes.
pub struct TgzView {
    pub path: Seq<char>,
    pub cache_dir: Seq<char>,
}

impl View for TgzHandler {
    type V = TgzView;

    closed spec fn view(&self) -> TgzView {
        TgzView { path: self.path@, cache_dir: self.cache_config.cache_dir@ }
    }
}

impl TgzHandler {
    pub fn new(path: String, cache_config: CacheConfig) -> (h: Self)
        ensures
            h@ == (TgzView { path: path@, cache_dir: cache_config.cache_dir@ }),
    {
        TgzHandler { path, cache_config }
    }

    /// Where the archive is.
    pub fn path(&self) -> (p: String)
        ensures
            p@ == self@.path,
    {
        self.path.clone()
    }

    /// Where extracted members go.
    pub fn scratch_dir(&self) -> (dir: String)
        ensures
            dir@ == crate::paths::under(self@.cache_dir, super::SCRATCH_DIR_NAME@),
    {
        self.cache_config.scratch_dir()
    }

    /// List all files in the archive.
    pub fn list_files(&self, members: &Vec<TarMember>) -> (r: Vec<ArchiveEntry>)
        ensures
            r@.map_values(|e: ArchiveEntry| e@) == tar::members_view(members@).map_values(
                |m: tar::TarMemberView|
                    EntryView { path: m.path, size: m.size, is_dir: m.is_dir },
            ),
    {
        list_members(members)
    }
}

/// The opener's end of a scan.
#[derive(Debug, Clone, Copy, PartialEq, Eq, Structural)]
pub enum Opener {
    /// It waits for the member's size.
    Waiting,
    /// It went away before it was told.
    Gone,
    /// It was told.
    Told,
}

/// What a scan does next.
#[derive(Debug, Clone, Copy, PartialEq, Eq, Structural)]
pub enum ScanStep {
    /// Go on to the next entry.
    Next,
    /// Tell the opener this size, and wait for a writer to copy into.
    Tell(u64),
    /// Stop: nobody wants the member.
    Stop,
}

/// One pass over an archive for one member.
///
/// The size has to be known before there is anything to write to. It is in
/// the member's header, so the scan stops there, hands the size over, and
/// copies the member's bytes from where it already is.
#[derive(Debug)]
pub struct Scan {
    target: String,
    opener: Opener,
}

/// What a [`Scan`] is.
pub struct ScanView {
    pub target: Seq<char>,
    pub opener: Opener,
}

impl View for Scan {
    type V = ScanView;

    closed spec fn view(&self) -> ScanView {
        ScanView { target: self.target@, opener: self.opener }
    }
}

/// What a scan does with an entry: it tells the opener of the one it is
/// looking for, if the opener still waits.
pub open spec fn scan_spec(s: ScanView, path: Seq<char>, size: u64) -> ScanStep {
    if path != s.target {
        ScanStep::Next
    } else if s.opener is Waiting {
        ScanStep::Tell(size)
    } else {
        ScanStep::Stop
    }
}

impl Scan {
    /// A scan for a member that somebody waits for.
    pub fn new(target: String) -> (s: Self)
        ensures
            s@ == (ScanView { target: target@, opener: Opener::Waiting }),
    {
        Scan { target, opener: Opener::Waiting }
    }

    /// The opener went away. Once it has been told that is no news.
    pub fn opener_gone(&mut self)
        ensures
            final(self)@ == (ScanView {
                opener: if old(self)@.opener is Told {
                    Opener::Told
                } else {
                    Opener::Gone
                },
                ..old(self)@
            }),
    {
        match self.opener {
            Opener::Told => {},
            _ => {
                self.opener = Opener::Gone;
            },
        }
    }

    /// Whether the archive may be read on: not while the scan looks for the
    /// header and nobody waits for it. A gzip stream can only be read from
    /// its start, so the way to a member may be long. Once the header is
    /// found every read goes through.
    pub fn may_read(&self) -> (r: Result<(), String>)
        ensures
            match r {
                Ok(()) => !(self@.opener is Gone),
                Err(e) => self@.opener is Gone && e@ == SCAN_ABANDONED@,
            },
    {
        match self.opener {
            Opener::Gone => Err(SCAN_ABANDONED.to_owned()),
            _ => Ok(()),
        }
    }

    /// The archive has no more entries: a member nobody was told of is not
    /// among them.
    pub fn ended(&self) -> (r: Result<(), String>)
        ensures
            match r {
                Ok(()) => self@.opener is Told,
                Err(e) => !(self@.opener is Told) && e@ == NOT_FOUND@,
            },
    {
        match self.opener {
            Opener::Told => Ok(()),
            _ => Err(NOT_FOUND.to_owned()),
        }
    }

    /// What to do with the entry the scan has come to.
    pub fn entry(&mut self, path: &str, size: u64) -> (r: ScanStep)
        ensures
            r == scan_spec(old(self)@, path@, size),
            final(self)@ == (if r is Tell {
                ScanView { opener: Opener::Told, ..old(self)@ }
            } else {
                old(self)@
            }),
    {
        if !same(path, self.target.as_str()) {
            return ScanStep::Next;
        }
        match self.opener {
            Opener::Waiting => {
                self.opener = Opener::Told;
                ScanStep::Tell(size)
            },
            _ => ScanStep::Stop,
        }
    }
}

/// What the entries of an archive make of a scan, one after the other.
pub open spec fn scanned(s: ScanView, members: Seq<tar::TarMemberView>, from: int) -> ScanStep
    decreases members.len() - from,
{
    if from < 0 || from >= members.len() {
        ScanStep::Next
    } else {
        match scan_spec(s, members[from].path, members[from].size) {
            ScanStep::Next => scanned(s, members, from + 1),
            step => step,
        }
    }
}

/// An opener that waits is told the size of the first member of that path,
/// and of no other.
pub proof fn the_opener_is_told_the_size_of_its_member(
    target: Seq<char>,
    members: Seq<tar::TarMemberView>,
    from: int,
)
    requires
        0 <= from,
    ensures
        ({
            let s = ScanView { target, opener: Opener::Waiting };
            match tar::member_from(members, target, from) {
                Some(m) => scanned(s, members, from) == ScanStep::Tell(m.size),
                None => scanned(s, members, from) == ScanStep::Next,
            }
        }),
    decreases members.len() - from,
{
    if from < members.len() && members[from].path != target {
        the_opener_is_told_the_size_of_its_member(target, members, from + 1);
    }
}

/// A scan whose opener has gone never hands anything over.
pub proof fn a_scan_nobody_waits_for_tells_nobody(
    target: Seq<char>,
    members: Seq<tar::TarMemberView>,
    from: int,
)
    ensures
        !(scanned(ScanView { target, opener: Opener::Gone }, members, from) is Tell),
    decreases members.len() - from,
{
    if 0 <= from < members.len() {
        a_scan_nobody_waits_for_tells_nobody(target, members, from + 1);
    }
}

} // verus!
