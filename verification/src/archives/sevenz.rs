//! 7z: a member is reached by decoding its block from the start.
use super::{ArchiveEntry, CacheConfig, EntryView, OpenedMember};
use crate::text::{cat2, cat3, same};
use vstd::prelude::*;

verus! {

/// What a drain's error says when the cache it was draining towards was
/// abandoned.
pub const SKIP_ABANDONED: &'static str = "abandoned while skipping to the member";

/// What a drain that is abandoned says.
pub fn skip_error(why: &str) -> (e: String)
    ensures
        e@ == SKIP_ABANDONED@ + ": "@ + why@,
{
    cat3(SKIP_ABANDONED, ": ", why)
}

/// One entry, as the archive's directory describes it.
#[derive(Debug, Clone)]
pub struct SevenZEntry {
    pub name: String,
    pub size: u64,
    pub is_dir: bool,
    /// The block its bytes are in; an empty entry has none.
    pub block: Option<usize>,
}

/// What a [`SevenZEntry`] says.
pub struct SevenZEntryView {
    pub name: Seq<char>,
    pub size: u64,
    pub is_dir: bool,
    pub block: Option<usize>,
}

impl View for SevenZEntry {
    type V = SevenZEntryView;

    open spec fn view(&self) -> SevenZEntryView {
        SevenZEntryView {
            name: self.name@,
            size: self.size,
            is_dir: self.is_dir,
            block: self.block,
        }
    }
}

/// What a list of entries says.
pub open spec fn entries_view(s: Seq<SevenZEntry>) -> Seq<SevenZEntryView> {
    s.map_values(|m: SevenZEntry| m@)
}

/// The first file with a name, from `from` on.
pub open spec fn entry_from(s: Seq<SevenZEntryView>, name: Seq<char>, from: int) -> Option<int>
    decreases s.len() - from,
{
    if from < 0 || from >= s.len() {
        None
    } else if !s[from].is_dir && s[from].name == name {
        Some(from)
    } else {
        entry_from(s, name, from + 1)
    }
}

/// The first file with a name.
pub open spec fn entry_spec(s: Seq<SevenZEntryView>, name: Seq<char>) -> Option<int> {
    entry_from(s, name, 0)
}

/// What a file the archive does not have is refused with.
pub open spec fn not_found(name: Seq<char>) -> Seq<char> {
    "File not found in archive: "@ + name
}

/// The index of a file: the first with its name that is no directory.
pub fn find_entry(files: &Vec<SevenZEntry>, name: &str) -> (r: Result<usize, String>)
    ensures
        match (r, entry_spec(entries_view(files@), name@)) {
            (Ok(i), Some(k)) => i == k && i < files@.len(),
            (Err(e), None) => e@ == not_found(name@),
            _ => false,
        },
{
    let ghost all = entries_view(files@);
    let mut i: usize = 0;
    while i < files.len()
        invariant
            i <= files@.len(),
            all == entries_view(files@),
            entry_spec(all, name@) == entry_from(all, name@, i as int),
        decreases files@.len() - i,
    {
        proof {
            assert(all[i as int] == files@[i as int]@);
        }
        if !files[i].is_dir && same(files[i].name.as_str(), name) {
            return Ok(i);
        }
        i += 1;
    }
    Err(cat2("File not found in archive: ", name))
}

/// A 7z archive, on disk or as a stream.
#[derive(Debug, Clone)]
pub struct SevenZHandler {
    path: Option<String>,
    cache_config: CacheConfig,
}

/// What a [`SevenZHandler`] reads, and where it writes.
pub struct SevenZView {
    pub path: Option<Seq<char>>,
    pub cache_dir: Seq<char>,
}

impl View for SevenZHandler {
    type V = SevenZView;

    closed spec fn view(&self) -> SevenZView {
        SevenZView {
            path: match self.path {
                Some(p) => Some(p@),
                None => None,
            },
            cache_dir: self.cache_config.cache_dir@,
        }
    }
}

impl SevenZHandler {
    pub fn new_with_config(path: String, cache_config: CacheConfig) -> (h: Self)
        ensures
            h@ == (SevenZView { path: Some(path@), cache_dir: cache_config.cache_dir@ }),
    {
        SevenZHandler { path: Some(path), cache_config }
    }

    /// An archive that is read as a stream.
    pub fn new_with_reader(cache_config: CacheConfig) -> (h: Self)
        ensures
            h@ == (SevenZView { path: None, cache_dir: cache_config.cache_dir@ }),
    {
        SevenZHandler { path: None, cache_config }
    }

    /// Where the archive is, if it is on disk.
    pub fn path(&self) -> (r: Option<String>)
        ensures
            match (r, self@.path) {
                (Some(a), Some(b)) => a@ == b,
                (None, None) => true,
                _ => false,
            },
    {
        match &self.path {
            Some(p) => Some(p.clone()),
            None => None,
        }
    }

    /// Where extracted members go.
    pub fn scratch_dir(&self) -> (dir: String)
        ensures
            dir@ == crate::paths::under(self@.cache_dir, super::SCRATCH_DIR_NAME@),
    {
        self.cache_config.scratch_dir()
    }

    /// List all files in the archive.
    pub fn list_files(&self, files: &Vec<SevenZEntry>) -> (r: Vec<ArchiveEntry>)
        ensures
            r@.map_values(|e: ArchiveEntry| e@) == entries_view(files@).map_values(
                |m: SevenZEntryView| EntryView { path: m.name, size: m.size, is_dir: m.is_dir },
            ),
    {
        let mut out: Vec<ArchiveEntry> = Vec::new();
        let mut i: usize = 0;
        while i < files.len()
            invariant
                i <= files@.len(),
                out@.len() == i,
                forall|j: int|
                    0 <= j < i ==> (#[trigger] out@[j])@ == (EntryView {
                        path: files@[j].name@,
                        size: files@[j].size,
                        is_dir: files@[j].is_dir,
                    }),
            decreases files@.len() - i,
        {
            let m = &files[i];
            out.push(ArchiveEntry { path: m.name.clone(), size: m.size, is_dir: m.is_dir });
            i += 1;
        }
        proof {
            assert(out@.map_values(|e: ArchiveEntry| e@) =~= entries_view(files@).map_values(
                |m: SevenZEntryView| EntryView { path: m.name, size: m.size, is_dir: m.is_dir },
            ));
        }
        out
    }

    /// How a member is served: extracted, with its length known up front.
    pub fn open_file(&self, files: &Vec<SevenZEntry>, path: &str) -> (r: Result<
        OpenedMember,
        String,
    >)
        ensures
            match (r, entry_spec(entries_view(files@), path@)) {
                (Ok(o), Some(k)) => o == (OpenedMember::Extracted {
                    index: k as usize,
                    size: files@[k].size,
                }),
                (Err(e), None) => e@ == not_found(path@),
                _ => false,
            },
    {
        match find_entry(files, path) {
            Ok(index) => Ok(OpenedMember::Extracted { index, size: files[index].size }),
            Err(e) => Err(e),
        }
    }
}

/// What to do with an entry of a block that is decoded.
#[derive(Debug, Clone, Copy, PartialEq, Eq, Structural)]
pub enum EntryStep {
    /// Write its bytes, and decode no further.
    Copy,
    /// Decode its bytes and drop them: the ones behind them come next.
    Drain,
}

/// One member while its block is decoded.
///
/// Within a solid block the stream is strictly sequential, so the entries
/// before the member are decoded and drained to reach its data at the right
/// offset.
#[derive(Debug)]
pub struct Extraction {
    target: usize,
    block: Option<usize>,
    extracted: bool,
    write_error: Option<String>,
}

/// What an [`Extraction`] is.
pub struct ExtractionView {
    /// The member, by its index.
    pub target: usize,
    /// The block it is in.
    pub block: Option<usize>,
    /// Whether the decoder has come to it.
    pub extracted: bool,
    /// Why it could not be written.
    pub write_error: Option<Seq<char>>,
}

impl View for Extraction {
    type V = ExtractionView;

    closed spec fn view(&self) -> ExtractionView {
        ExtractionView {
            target: self.target,
            block: self.block,
            extracted: self.extracted,
            write_error: match self.write_error {
                Some(e) => Some(e@),
                None => None,
            },
        }
    }
}

/// How an extraction ends, given how the decoding ended: an empty member
/// needs no decoding at all.
pub open spec fn outcome(
    x: ExtractionView,
    decoded: Result<(), Seq<char>>,
    name: Seq<char>,
) -> Result<(), Seq<char>> {
    if x.block is None {
        Ok(())
    } else {
        match decoded {
            Err(e) => Err("7z decompression failed: "@ + e),
            Ok(()) => match x.write_error {
                Some(e) => Err("Failed to write decompressed data: "@ + e),
                None => if x.extracted {
                    Ok(())
                } else {
                    Err("Entry missing from its 7z block: "@ + name)
                },
            },
        }
    }
}

/// What a result says.
pub open spec fn result_view(r: Result<(), String>) -> Result<(), Seq<char>> {
    match r {
        Ok(()) => Ok(()),
        Err(e) => Err(e@),
    }
}

impl Extraction {
    /// Extract the member with this name.
    pub fn new(files: &Vec<SevenZEntry>, entry_name: &str) -> (r: Result<Self, String>)
        ensures
            match (r, entry_spec(entries_view(files@), entry_name@)) {
                (Ok(x), Some(k)) => x@ == (ExtractionView {
                    target: k as usize,
                    block: files@[k].block,
                    extracted: false,
                    write_error: None,
                }),
                (Err(e), None) => e@ == not_found(entry_name@),
                _ => false,
            },
    {
        match find_entry(files, entry_name) {
            Ok(target) => Ok(
                Extraction {
                    target,
                    block: files[target].block,
                    extracted: false,
                    write_error: None,
                },
            ),
            Err(e) => Err(e),
        }
    }

    /// The block to decode: an empty member has none.
    pub fn block(&self) -> (r: Option<usize>)
        ensures
            r == self@.block,
    {
        self.block
    }

    /// What to do with the entry the decoder has come to.
    pub fn entry(&mut self, index: usize) -> (r: EntryStep)
        ensures
            r == (if index == old(self)@.target {
                EntryStep::Copy
            } else {
                EntryStep::Drain
            }),
            final(self)@ == (ExtractionView {
                extracted: old(self)@.extracted || index == old(self)@.target,
                ..old(self)@
            }),
    {
        if index == self.target {
            self.extracted = true;
            EntryStep::Copy
        } else {
            EntryStep::Drain
        }
    }

    /// Take in how writing the member ended.
    pub fn copied(&mut self, result: Result<(), String>)
        ensures
            final(self)@ == match result {
                Ok(()) => old(self)@,
                Err(e) => ExtractionView { write_error: Some(e@), ..old(self)@ },
            },
    {
        match result {
            Ok(()) => {},
            Err(e) => {
                self.write_error = Some(e);
            },
        }
    }

    /// How the extraction ended, given how the decoding did.
    pub fn finish(self, decoded: Result<(), String>, entry_name: &str) -> (r: Result<(), String>)
        ensures
            result_view(r) == outcome(self@, result_view(decoded), entry_name@),
    {
        if self.block.is_none() {
            return Ok(());
        }
        match decoded {
            Err(e) => {
                return Err(cat2("7z decompression failed: ", e.as_str()));
            },
            Ok(()) => {},
        }
        match self.write_error {
            Some(e) => {
                return Err(cat2("Failed to write decompressed data: ", e.as_str()));
            },
            None => {},
        }
        if self.extracted {
            Ok(())
        } else {
            Err(cat2("Entry missing from its 7z block: ", entry_name))
        }
    }
}

/// An extraction succeeds only for a member that was written, or that has no
/// bytes.
pub proof fn only_a_written_member_is_extracted(
    x: ExtractionView,
    decoded: Result<(), Seq<char>>,
    name: Seq<char>,
)
    ensures
        outcome(x, decoded, name) is Ok <==> x.block is None || (decoded is Ok && x.extracted
            && x.write_error is None),
{
}

} // verus!
