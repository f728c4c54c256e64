//! Files posted to Usenet: an index of segments, fetched and decoded one
//! after the other.
use super::ArchiveEntry;
use vstd::prelude::*;

pub mod nntp;
pub mod session;
pub mod stream;

verus! {

/// One segment of a posted file.
#[derive(Debug, Clone)]
pub struct NzbSegment {
    pub bytes: u64,
    pub number: u32,
    /// The message id of the article that holds it.
    pub id: String,
}

/// What a [`NzbSegment`] says.
pub struct SegmentView {
    pub bytes: u64,
    pub number: u32,
    pub id: Seq<char>,
}

impl View for NzbSegment {
    type V = SegmentView;

    open spec fn view(&self) -> SegmentView {
        SegmentView { bytes: self.bytes, number: self.number, id: self.id@ }
    }
}

impl NzbSegment {
    /// The same segment again.
    pub fn copy(&self) -> (s: Self)
        ensures
            s@ == self@,
    {
        NzbSegment { bytes: self.bytes, number: self.number, id: self.id.clone() }
    }
}

/// What a list of segments says.
pub open spec fn segments_view(s: Seq<NzbSegment>) -> Seq<SegmentView> {
    s.map_values(|x: NzbSegment| x@)
}

/// One posted file.
#[derive(Debug, Clone)]
pub struct NzbFile {
    pub subject: String,
    pub segments: Vec<NzbSegment>,
}

/// The index of a post.
#[derive(Debug, Clone)]
pub struct Nzb {
    pub files: Vec<NzbFile>,
}

/// How many bytes segments have together.
pub open spec fn total_bytes(s: Seq<SegmentView>) -> int
    decreases s.len(),
{
    if s.len() == 0 {
        0
    } else {
        total_bytes(s.drop_last()) + s.last().bytes
    }
}

proof fn lemma_total_grows(s: Seq<SegmentView>, i: int)
    requires
        0 <= i <= s.len(),
    ensures
        0 <= total_bytes(s.take(i)) <= total_bytes(s),
    decreases s.len(),
{
    if i == s.len() {
        assert(s.take(i) =~= s);
        if i > 0 {
            lemma_total_grows(s.drop_last(), i - 1);
            assert(s.drop_last().take(i - 1) =~= s.drop_last());
        }
    } else {
        lemma_total_grows(s.drop_last(), i);
        assert(s.drop_last().take(i) =~= s.take(i));
    }
}

/// A post that lies on disk.
#[derive(Debug, Clone)]
pub struct NzbHandler {
    path: String,
}

/// What opening a member of a post that lies on disk says.
pub const NOT_IMPLEMENTED: &'static str =
    "Direct NZB file streaming from disk not fully implemented (requires NNTP connection details)";

impl View for NzbHandler {
    type V = Seq<char>;

    closed spec fn view(&self) -> Seq<char> {
        self.path@
    }
}

/// What a listing of a post says.
pub open spec fn entry_of(f: NzbFile, e: ArchiveEntry) -> bool {
    e.path@ == f.subject@ && e.size == total_bytes(segments_view(f.segments@)) && !e.is_dir
}

fn size_of(f: &NzbFile) -> (n: u64)
    requires
        total_bytes(segments_view(f.segments@)) <= u64::MAX,
    ensures
        n == total_bytes(segments_view(f.segments@)),
{
    let ghost all = segments_view(f.segments@);
    let mut n: u64 = 0;
    let mut i: usize = 0;
    proof {
        assert(all.take(0) =~= Seq::<SegmentView>::empty());
    }
    while i < f.segments.len()
        invariant
            i <= f.segments@.len(),
            all == segments_view(f.segments@),
            n == total_bytes(all.take(i as int)),
            total_bytes(all) <= u64::MAX,
        decreases f.segments@.len() - i,
    {
        proof {
            assert(all.take(i + 1).drop_last() =~= all.take(i as int));
            assert(all.take(i + 1).last() == f.segments@[i as int]@);
            lemma_total_grows(all, i + 1);
        }
        n = n + f.segments[i].bytes;
        i += 1;
    }
    proof {
        assert(all.take(all.len() as int) =~= all);
    }
    n
}

impl NzbHandler {
    pub fn new(path: String) -> (h: Self)
        ensures
            h@ == path@,
    {
        NzbHandler { path }
    }

    /// Where the post lies.
    pub fn path(&self) -> (p: String)
        ensures
            p@ == self@,
    {
        self.path.clone()
    }

    /// The files of a post: each under its subject, as long as its segments
    /// are together.
    pub fn list_files(&self, nzb: &Nzb) -> (r: Vec<ArchiveEntry>)
        requires
            forall|i: int|
                0 <= i < nzb.files@.len() ==> total_bytes(
                    segments_view((#[trigger] nzb.files@[i]).segments@),
                ) <= u64::MAX,
        ensures
            r@.len() == nzb.files@.len(),
            forall|i: int| 0 <= i < r@.len() ==> entry_of(nzb.files@[i], #[trigger] r@[i]),
    {
        let mut out: Vec<ArchiveEntry> = Vec::new();
        let mut i: usize = 0;
        while i < nzb.files.len()
            invariant
                i <= nzb.files@.len(),
                out@.len() == i,
                forall|k: int|
                    0 <= k < nzb.files@.len() ==> total_bytes(
                        segments_view((#[trigger] nzb.files@[k]).segments@),
                    ) <= u64::MAX,
                forall|k: int| 0 <= k < i ==> entry_of(nzb.files@[k], #[trigger] out@[k]),
            decreases nzb.files@.len() - i,
        {
            let f = &nzb.files[i];
            let size: u64 = size_of(f);
            out.push(ArchiveEntry { path: f.subject.clone(), size, is_dir: false });
            i += 1;
        }
        out
    }
}

} // verus!
