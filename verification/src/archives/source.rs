//! What an archive session owns, and for how long.
//!
//! The first request for a member extracts it, and every later one reads
//! that extraction, whether it is still being written or finished.
use super::{get_archive_reader_with_config, ArchiveReader, CacheConfig};
use crate::text;
use crate::text::same;
use vstd::prelude::*;

verus! {

/// One extraction: the member it is of, and the number its file is kept
/// under.
#[derive(Debug)]
struct MemberCache {
    member: String,
    cache: u64,
}

/// The members of an archive extracted so far.
#[derive(Debug)]
pub struct MemberCaches {
    entries: Vec<MemberCache>,
}

/// What there is to do to read a member.
#[derive(Debug, Clone, Copy, PartialEq, Eq, Structural)]
pub enum OpenStep {
    /// Read this extraction.
    Read(u64),
    /// Open the archive and extract the member.
    Extract,
}

spec fn cache_at(s: Seq<MemberCache>, member: Seq<char>) -> Option<u64>
    decreases s.len(),
{
    if s.len() == 0 {
        None
    } else if s.last().member@ == member {
        Some(s.last().cache)
    } else {
        cache_at(s.drop_last(), member)
    }
}

spec fn distinct(s: Seq<MemberCache>) -> bool {
    forall|i: int, j: int|
        0 <= i < j < s.len() ==> (#[trigger] s[i]).member@ != (#[trigger] s[j]).member@
}

proof fn lemma_cache_at(s: Seq<MemberCache>, member: Seq<char>)
    ensures
        match cache_at(s, member) {
            Some(c) => exists|i: int|
                0 <= i < s.len() && (#[trigger] s[i]).member@ == member && s[i].cache == c,
            None => forall|i: int| 0 <= i < s.len() ==> (#[trigger] s[i]).member@ != member,
        },
    decreases s.len(),
{
    if s.len() > 0 {
        if s.last().member@ == member {
            assert(s[s.len() - 1] == s.last());
        } else {
            let front = s.drop_last();
            lemma_cache_at(front, member);
            match cache_at(front, member) {
                Some(c) => {
                    let i = choose|i: int|
                        0 <= i < front.len() && (#[trigger] front[i]).member@ == member
                            && front[i].cache == c;
                    assert(s[i] == front[i]);
                },
                None => {
                    assert forall|i: int| 0 <= i < s.len() implies (#[trigger] s[i]).member@
                        != member by {
                        if i < front.len() {
                            assert(front[i] == s[i]);
                        }
                    }
                },
            }
        }
    }
}

proof fn lemma_cache_is_at(s: Seq<MemberCache>, i: int)
    requires
        distinct(s),
        0 <= i < s.len(),
    ensures
        cache_at(s, s[i].member@) == Some(s[i].cache),
{
    lemma_cache_at(s, s[i].member@);
    match cache_at(s, s[i].member@) {
        Some(c) => {
            let j = choose|j: int|
                0 <= j < s.len() && (#[trigger] s[j]).member@ == s[i].member@ && s[j].cache == c;
            if j < i {
                assert(s[j].member@ != s[i].member@);
            } else if i < j {
                assert(s[i].member@ != s[j].member@);
            }
        },
        None => {},
    }
}

proof fn lemma_cache_removed(s: Seq<MemberCache>, i: int)
    requires
        distinct(s),
        0 <= i < s.len(),
    ensures
        distinct(s.remove(i)),
        cache_at(s.remove(i), s[i].member@) is None,
        forall|m: Seq<char>|
            m != s[i].member@ ==> #[trigger] cache_at(s.remove(i), m) == cache_at(s, m),
{
    let r = s.remove(i);
    assert forall|a: int, b: int| 0 <= a < b < r.len() implies (#[trigger] r[a]).member@ != (
    #[trigger] r[b]).member@ by {
        let x = if a < i {
            a
        } else {
            a + 1
        };
        let y = if b < i {
            b
        } else {
            b + 1
        };
        assert(s[x].member@ != s[y].member@);
    }
    lemma_cache_at(r, s[i].member@);
    if cache_at(r, s[i].member@) is Some {
        let j = choose|j: int|
            0 <= j < r.len() && (#[trigger] r[j]).member@ == s[i].member@ && r[j].cache
                == cache_at(r, s[i].member@)->0;
        if j < i {
            assert(s[j].member@ != s[i].member@);
        } else {
            assert(s[i].member@ != s[j + 1].member@);
        }
    }
    assert forall|m: Seq<char>| m != s[i].member@ implies #[trigger] cache_at(r, m) == cache_at(
        s,
        m,
    ) by {
        lemma_cache_at(r, m);
        lemma_cache_at(s, m);
        match cache_at(s, m) {
            Some(c) => {
                let k = choose|k: int|
                    0 <= k < s.len() && (#[trigger] s[k]).member@ == m && s[k].cache == c;
                let j = if k < i {
                    k
                } else {
                    k - 1
                };
                assert(r[j] == s[k]);
                lemma_cache_is_at(r, j);
            },
            None => {
                if cache_at(r, m) is Some {
                    let j = choose|j: int|
                        0 <= j < r.len() && (#[trigger] r[j]).member@ == m && r[j].cache
                            == cache_at(r, m)->0;
                    let k = if j < i {
                        j
                    } else {
                        j + 1
                    };
                    assert(s[k] == r[j]);
                }
            },
        }
    }
}

impl Default for MemberCaches {
    fn default() -> (c: Self)
        ensures
            c.well_formed(),
            forall|m: Seq<char>| #[trigger] c.cache_of(m) is None,
    {
        MemberCaches { entries: Vec::new() }
    }
}

/// What is left of an extraction once those that failed are dropped.
pub open spec fn unfailed(cache: Option<u64>, failed: Seq<u64>) -> Option<u64> {
    match cache {
        Some(c) => if failed.contains(c) {
            None
        } else {
            Some(c)
        },
        None => None,
    }
}

/// What there is to do to read a member with an extraction, or without one.
pub open spec fn open_spec(cache: Option<u64>) -> OpenStep {
    match cache {
        Some(c) => OpenStep::Read(c),
        None => OpenStep::Extract,
    }
}

fn is_among(s: &Vec<u64>, c: u64) -> (r: bool)
    ensures
        r == s@.contains(c),
{
    let mut i: usize = 0;
    while i < s.len()
        invariant
            i <= s@.len(),
            forall|j: int| 0 <= j < i ==> s@[j] != c,
        decreases s@.len() - i,
    {
        if s[i] == c {
            return true;
        }
        i += 1;
    }
    false
}

impl MemberCaches {
    /// Whether no member is there twice.
    pub closed spec fn well_formed(&self) -> bool {
        distinct(self.entries@)
    }

    /// The extraction of a member.
    pub closed spec fn cache_of(&self, member: Seq<char>) -> Option<u64> {
        cache_at(self.entries@, member)
    }

    fn position(&self, member: &str) -> (r: Option<usize>)
        requires
            self.well_formed(),
        ensures
            match r {
                Some(i) => i < self.entries@.len() && self.entries@[i as int].member@ == member@
                    && self.cache_of(member@) == Some(self.entries@[i as int].cache),
                None => self.cache_of(member@) is None,
            },
    {
        let mut i: usize = 0;
        while i < self.entries.len()
            invariant
                i <= self.entries@.len(),
                distinct(self.entries@),
                forall|j: int| 0 <= j < i ==> (#[trigger] self.entries@[j]).member@ != member@,
            decreases self.entries@.len() - i,
        {
            if same(self.entries[i].member.as_str(), member) {
                proof {
                    lemma_cache_is_at(self.entries@, i as int);
                }
                return Some(i);
            }
            i += 1;
        }
        proof {
            lemma_cache_at(self.entries@, member@);
        }
        None
    }

    /// Drop the extractions that failed: decoding failed, or nothing read
    /// them for long enough that the writer gave up. A new reader would only
    /// be told so.
    pub fn drop_failed(&mut self, failed: &Vec<u64>)
        requires
            old(self).well_formed(),
        ensures
            final(self).well_formed(),
            forall|m: Seq<char>| #[trigger]
                final(self).cache_of(m) == unfailed(old(self).cache_of(m), failed@),
    {
        let mut i: usize = 0;
        while i < self.entries.len()
            invariant
                i <= self.entries@.len(),
                distinct(self.entries@),
                forall|j: int|
                    0 <= j < i ==> !failed@.contains((#[trigger] self.entries@[j]).cache),
                forall|m: Seq<char>|
                    unfailed(#[trigger] cache_at(self.entries@, m), failed@) == unfailed(
                        old(self).cache_of(m),
                        failed@,
                    ),
            decreases self.entries@.len() - i,
        {
            if is_among(failed, self.entries[i].cache) {
                let ghost all = self.entries@;
                proof {
                    lemma_cache_removed(all, i as int);
                    lemma_cache_is_at(all, i as int);
                }
                self.entries.remove(i);
                proof {
                    assert forall|m: Seq<char>|
                        unfailed(#[trigger] cache_at(self.entries@, m), failed@) == unfailed(
                            old(self).cache_of(m),
                            failed@,
                        ) by {
                        assert(unfailed(cache_at(all, m), failed@) == unfailed(
                            old(self).cache_of(m),
                            failed@,
                        ));
                    }
                }
            } else {
                i += 1;
            }
        }
        proof {
            assert forall|m: Seq<char>| #[trigger]
                self.cache_of(m) == unfailed(old(self).cache_of(m), failed@) by {
                lemma_cache_at(self.entries@, m);
            }
        }
    }

    /// What there is to do to read a member: read its extraction, where
    /// there is one that did not fail. `failed` names those that did.
    pub fn open(&mut self, member: &str, failed: &Vec<u64>) -> (r: OpenStep)
        requires
            old(self).well_formed(),
        ensures
            final(self).well_formed(),
            r == open_spec(unfailed(old(self).cache_of(member@), failed@)),
            forall|m: Seq<char>| #[trigger]
                final(self).cache_of(m) == unfailed(old(self).cache_of(m), failed@),
    {
        self.drop_failed(failed);
        match self.position(member) {
            Some(i) => OpenStep::Read(self.entries[i].cache),
            None => OpenStep::Extract,
        }
    }

    /// The extraction of a member is gone from disk: it is extracted again.
    pub fn gone(&mut self, member: &str) -> (r: OpenStep)
        requires
            old(self).well_formed(),
        ensures
            final(self).well_formed(),
            r == OpenStep::Extract,
            final(self).cache_of(member@) is None,
            forall|m: Seq<char>|
                m != member@ ==> #[trigger] final(self).cache_of(m) == old(self).cache_of(m),
    {
        match self.position(member) {
            Some(i) => {
                proof {
                    lemma_cache_removed(self.entries@, i as int);
                }
                self.entries.remove(i);
            },
            None => {},
        }
        OpenStep::Extract
    }

    /// Keep the extraction of a member.
    pub fn extracted(&mut self, member: &str, cache: u64)
        requires
            old(self).well_formed(),
        ensures
            final(self).well_formed(),
            final(self).cache_of(member@) == Some(cache),
            forall|m: Seq<char>|
                m != member@ ==> #[trigger] final(self).cache_of(m) == old(self).cache_of(m),
    {
        self.gone(member);
        let ghost rest = self.entries@;
        let ghost mid = *self;
        self.entries.push(MemberCache { member: member.to_owned(), cache });
        proof {
            let s = self.entries@;
            assert(s.drop_last() =~= rest);
            lemma_cache_at(rest, member@);
            assert forall|i: int, j: int| 0 <= i < j < s.len() implies (#[trigger] s[i]).member@
                != (#[trigger] s[j]).member@ by {
                assert(s[i] == rest[i]);
                if j < rest.len() {
                    assert(s[j] == rest[j]);
                }
            }
            assert forall|m: Seq<char>| m != member@ implies #[trigger] self.cache_of(m)
                == mid.cache_of(m) by {}
        }
    }
}

/// An archive on disk: where it is, what it was created from, and whether
/// this server fetched it.
#[derive(Debug)]
pub struct ArchiveSource {
    path: String,
    origin: String,
    downloaded: bool,
    cache_config: CacheConfig,
    members: MemberCaches,
}

/// What an [`ArchiveSource`] says of itself.
pub struct SourceView {
    pub path: Seq<char>,
    /// The URL or local path the client named. Two sessions naming the same
    /// origin share one source.
    pub origin: Seq<char>,
    /// Whether the file is the source's own, and goes with it.
    pub downloaded: bool,
    /// The cache root its members are extracted under.
    pub cache_dir: Seq<char>,
}

impl View for ArchiveSource {
    type V = SourceView;

    closed spec fn view(&self) -> SourceView {
        SourceView {
            path: self.path@,
            origin: self.origin@,
            downloaded: self.downloaded,
            cache_dir: self.cache_config.cache_dir@,
        }
    }
}

impl ArchiveSource {
    /// Whether no member is extracted twice.
    pub closed spec fn well_formed(&self) -> bool {
        self.members.well_formed()
    }

    /// The extraction of a member.
    pub closed spec fn cache_of(&self, member: Seq<char>) -> Option<u64> {
        self.members.cache_of(member)
    }

    /// An archive that was already on disk; nothing here owns the file.
    pub fn local(path: String, origin: String, cache_config: CacheConfig) -> (s: Self)
        ensures
            s@ == (SourceView {
                path: path@,
                origin: origin@,
                downloaded: false,
                cache_dir: cache_config.cache_dir@,
            }),
            s.well_formed(),
            forall|m: Seq<char>| #[trigger] s.cache_of(m) is None,
    {
        ArchiveSource {
            path,
            origin,
            downloaded: false,
            cache_config,
            members: MemberCaches::default(),
        }
    }

    /// An archive this server downloaded, under a name with the suffix the
    /// reader is chosen by. The file lives as long as the source does.
    pub fn downloaded(path: String, origin: String, cache_config: CacheConfig) -> (s: Self)
        ensures
            s@ == (SourceView {
                path: path@,
                origin: origin@,
                downloaded: true,
                cache_dir: cache_config.cache_dir@,
            }),
            s.well_formed(),
            forall|m: Seq<char>| #[trigger] s.cache_of(m) is None,
    {
        ArchiveSource {
            path,
            origin,
            downloaded: true,
            cache_config,
            members: MemberCaches::default(),
        }
    }

    /// What there is to do to read a member: read the one extraction of it
    /// this source keeps, or make it.
    pub fn open_member(&mut self, member: &str, failed: &Vec<u64>) -> (r: OpenStep)
        requires
            old(self).well_formed(),
        ensures
            final(self).well_formed(),
            final(self)@ == old(self)@,
            r == open_spec(unfailed(old(self).cache_of(member@), failed@)),
            forall|m: Seq<char>| #[trigger]
                final(self).cache_of(m) == unfailed(old(self).cache_of(m), failed@),
    {
        self.members.open(member, failed)
    }

    /// The extraction of a member is gone from disk: it is extracted again.
    pub fn member_gone(&mut self, member: &str)
        requires
            old(self).well_formed(),
        ensures
            final(self).well_formed(),
            final(self)@ == old(self)@,
            final(self).cache_of(member@) is None,
            forall|m: Seq<char>|
                m != member@ ==> #[trigger] final(self).cache_of(m) == old(self).cache_of(m),
    {
        self.members.gone(member);
    }

    /// Keep the extraction of a member, for the life of the source.
    pub fn member_extracted(&mut self, member: &str, cache: u64)
        requires
            old(self).well_formed(),
        ensures
            final(self).well_formed(),
            final(self)@ == old(self)@,
            final(self).cache_of(member@) == Some(cache),
            forall|m: Seq<char>|
                m != member@ ==> #[trigger] final(self).cache_of(m) == old(self).cache_of(m),
    {
        self.members.extracted(member, cache);
    }

    /// Where the archive is.
    pub fn path(&self) -> (p: String)
        ensures
            p@ == self@.path,
    {
        self.path.clone()
    }

    /// What it was created from.
    pub fn origin(&self) -> (o: String)
        ensures
            o@ == self@.origin,
    {
        self.origin.clone()
    }

    /// Whether the file goes with the source.
    pub fn owns_its_file(&self) -> (r: bool)
        ensures
            r == self@.downloaded,
    {
        self.downloaded
    }

    /// A reader over the archive, chosen by the path's suffix. `rar` is
    /// whether RAR support is part of the build.
    pub fn reader(&self, rar: bool) -> (r: Result<ArchiveReader, String>)
        ensures
            super::is_answer(
                r,
                super::suffix_spec(text::lowered(self@.path)),
                self@.path,
                self@.cache_dir,
                rar,
            ),
    {
        let config = CacheConfig {
            cache_dir: self.cache_config.cache_dir.clone(),
            _cache_size: self.cache_config._cache_size,
        };
        get_archive_reader_with_config(self.path.as_str(), config, rar)
    }
}

/// One archive being served: the archive and the member chosen for it.
#[derive(Debug)]
pub struct ArchiveSession {
    pub source: ArchiveSource,
    pub selected_file: Option<String>,
}

/// A member is extracted once: what was extracted is what every later
/// request reads, as long as it did not fail.
pub proof fn a_member_is_extracted_once(cache: u64, failed: Seq<u64>)
    requires
        !failed.contains(cache),
    ensures
        open_spec(unfailed(Some(cache), failed)) == OpenStep::Read(cache),
{
}

/// An extraction that failed is never read again.
pub proof fn a_failed_extraction_is_done_again(cache: Option<u64>, failed: Seq<u64>)
    ensures
        open_spec(unfailed(cache, failed)) matches OpenStep::Read(c) ==> !failed.contains(c),
        cache matches Some(c) ==> (failed.contains(c) ==> open_spec(unfailed(cache, failed))
            is Extract),
{
}

} // verus!
