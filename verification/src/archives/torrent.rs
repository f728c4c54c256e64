//! An archive inside a torrent, as something with an owner.
//!
//! One [`TorrentArchive`] per torrent and path inside it holds the
//! extractions of its members, so the first request extracts and every later
//! one reads the extraction that is there.
use super::sessions;
use super::sessions::{Lease, Sessions};
use super::source;
use super::source::{MemberCaches, OpenStep};
use crate::text::cat3;
use vstd::prelude::*;

verus! {

/// One archive inside one torrent: the extractions of its members.
#[derive(Debug)]
pub struct TorrentArchive {
    pub members: MemberCaches,
}

impl Default for TorrentArchive {
    fn default() -> (a: Self)
        ensures
            a.members.well_formed(),
            forall|m: Seq<char>| #[trigger] a.members.cache_of(m) is None,
    {
        TorrentArchive { members: MemberCaches::default() }
    }
}

/// The archives inside torrents that are being read right now, swept when
/// idle.
pub struct TorrentArchives {
    sessions: Sessions<TorrentArchive>,
}

/// What an archive inside a torrent is kept under.
pub open spec fn archive_key(info_hash: Seq<char>, path: Seq<char>) -> Seq<char> {
    info_hash + "/"@ + path
}

impl TorrentArchives {
    /// Whether the registry, and the extractions of every archive in it, are
    /// sound.
    pub closed spec fn well_formed(&self) -> bool {
        self.sessions.well_formed() && forall|key: Seq<char>|
            (#[trigger] self.sessions.session(key)) matches Some(s)
                ==> s.value.members.well_formed()
    }

    /// The archive under a key.
    pub closed spec fn archive(&self, key: Seq<char>) -> Option<
        sessions::SessionView<TorrentArchive>,
    > {
        self.sessions.session(key)
    }

    /// How long an archive may be idle.
    pub closed spec fn timeout(&self) -> u64 {
        self.sessions.timeout()
    }

    /// How many archives have been opened so far.
    pub closed spec fn opened(&self) -> u64 {
        self.sessions.next()
    }

    pub fn new(idle_timeout: u64) -> (a: Self)
        ensures
            a.well_formed(),
            a.timeout() == idle_timeout,
            a.opened() == 0,
            forall|key: Seq<char>| #[trigger] a.archive(key) is None,
    {
        TorrentArchives { sessions: Sessions::new(idle_timeout) }
    }

    /// What there is to do to read `member` of the archive at `path` inside
    /// the torrent `info_hash`, and the lease on the archive, which is to be
    /// held for as long as the response body reads. `failed` names the
    /// extractions that did.
    pub fn open_member(
        &mut self,
        info_hash: &str,
        path: &str,
        member: &str,
        failed: &Vec<u64>,
        now: u64,
    ) -> (r: (OpenStep, Option<Lease>))
        requires
            old(self).well_formed(),
            old(self).opened() < u64::MAX,
            old(self).archive(archive_key(info_hash@, path@)) matches Some(s) ==> s.leases
                < usize::MAX,
        ensures
            final(self).well_formed(),
            final(self).timeout() == old(self).timeout(),
            r.1 is Some,
            final(self).opened() == old(self).opened() + (if old(self).archive(
                archive_key(info_hash@, path@),
            ) is None {
                1int
            } else {
                0
            }),
            forall|k: Seq<char>|
                k != archive_key(info_hash@, path@) ==> #[trigger] final(self).archive(k) == (
                match old(self).archive(archive_key(info_hash@, path@)) {
                    Some(_) => old(self).archive(k),
                    // One that is new makes room for itself.
                    None => sessions::left(old(self).archive(k), now, old(self).timeout()),
                }),
            ({
                let key = archive_key(info_hash@, path@);
                let after = final(self).archive(key);
                &&& after is Some
                &&& after->0.id == r.1->0@
                &&& after->0.last_used == now
                &&& match old(self).archive(key) {
                    Some(s) => {
                        &&& after->0.id == s.id
                        &&& after->0.leases == s.leases + 1
                        &&& r.0 == source::open_spec(
                            source::unfailed(s.value.members.cache_of(member@), failed@),
                        )
                        &&& forall|m: Seq<char>| #[trigger]
                            after->0.value.members.cache_of(m) == source::unfailed(
                                s.value.members.cache_of(m),
                                failed@,
                            )
                    },
                    None => {
                        &&& after->0.leases == 1
                        &&& r.0 == OpenStep::Extract
                        &&& forall|m: Seq<char>| #[trigger]
                            after->0.value.members.cache_of(m) is None
                    },
                }
            }),
    {
        let key = cat3(info_hash, "/", path);
        let found = self.sessions.get(key.as_str(), now);
        let lease = match found {
            Some(lease) => lease,
            None => {
                self.sessions.insert(key.clone(), TorrentArchive::default(), now);
                match self.sessions.get(key.as_str(), now) {
                    Some(lease) => lease,
                    None => {
                        return (OpenStep::Extract, None);
                    },
                }
            },
        };
        let ghost mid = self.sessions;
        let mut archive = self.sessions.swap_value(&lease, TorrentArchive::default());
        let step = archive.members.open(member, failed);
        self.sessions.swap_value(&lease, archive);
        proof {
            assert forall|k: Seq<char>| k != key@ implies #[trigger] self.sessions.session(k)
                == mid.session(k) by {
                if mid.session(k) is Some && mid.session(k)->0.id == lease@ {
                    sessions::no_two_keys_share_a_session(mid, k, key@);
                }
            }
        }
        (step, Some(lease))
    }

    /// Keep the extraction of a member of the archive at `path` inside the
    /// torrent `info_hash`, if the archive is still there.
    pub fn member_extracted(
        &mut self,
        info_hash: &str,
        path: &str,
        member: &str,
        cache: u64,
        now: u64,
    )
        requires
            old(self).well_formed(),
            old(self).archive(archive_key(info_hash@, path@)) matches Some(s) ==> s.leases
                < usize::MAX,
        ensures
            final(self).well_formed(),
            final(self).timeout() == old(self).timeout(),
            final(self).opened() == old(self).opened(),
            forall|k: Seq<char>|
                k != archive_key(info_hash@, path@) ==> #[trigger] final(self).archive(k) == old(self).archive(k),
            ({
                let key = archive_key(info_hash@, path@);
                match (old(self).archive(key), final(self).archive(key)) {
                    (None, None) => true,
                    (Some(s), Some(after)) => {
                        &&& after.id == s.id
                        &&& after.leases == s.leases
                        &&& after.last_used == now
                        &&& after.value.members.cache_of(member@) == Some(cache)
                        &&& forall|m: Seq<char>|
                            m != member@ ==> #[trigger] after.value.members.cache_of(m)
                                == s.value.members.cache_of(m)
                    },
                    _ => false,
                }
            }),
    {
        let key = cat3(info_hash, "/", path);
        if let Some(lease) = self.sessions.get(key.as_str(), now) {
            let ghost mid = self.sessions;
            let mut archive = self.sessions.swap_value(&lease, TorrentArchive::default());
            archive.members.extracted(member, cache);
            self.sessions.swap_value(&lease, archive);
            proof {
                assert forall|k: Seq<char>| k != key@ implies mid.session(k) is None || (
                #[trigger] mid.session(k))->0.id != lease@ by {
                    if mid.session(k) is Some && mid.session(k)->0.id == lease@ {
                        sessions::no_two_keys_share_a_session(mid, k, key@);
                    }
                }
            }
            self.sessions.release(lease, now);
        }
    }

    /// The extraction of a member is gone from disk: it is to be extracted
    /// again.
    pub fn member_gone(&mut self, info_hash: &str, path: &str, member: &str, now: u64)
        requires
            old(self).well_formed(),
            old(self).archive(archive_key(info_hash@, path@)) matches Some(s) ==> s.leases
                < usize::MAX,
        ensures
            final(self).well_formed(),
            final(self).timeout() == old(self).timeout(),
            final(self).opened() == old(self).opened(),
            forall|k: Seq<char>|
                k != archive_key(info_hash@, path@) ==> #[trigger] final(self).archive(k) == old(self).archive(k),
            ({
                let key = archive_key(info_hash@, path@);
                match (old(self).archive(key), final(self).archive(key)) {
                    (None, None) => true,
                    (Some(s), Some(after)) => {
                        &&& after.id == s.id
                        &&& after.leases == s.leases
                        &&& after.last_used == now
                        &&& after.value.members.cache_of(member@) is None
                        &&& forall|m: Seq<char>|
                            m != member@ ==> #[trigger] after.value.members.cache_of(m)
                                == s.value.members.cache_of(m)
                    },
                    _ => false,
                }
            }),
    {
        let key = cat3(info_hash, "/", path);
        if let Some(lease) = self.sessions.get(key.as_str(), now) {
            let ghost mid = self.sessions;
            let mut archive = self.sessions.swap_value(&lease, TorrentArchive::default());
            archive.members.gone(member);
            self.sessions.swap_value(&lease, archive);
            proof {
                assert forall|k: Seq<char>| k != key@ implies mid.session(k) is None || (
                #[trigger] mid.session(k))->0.id != lease@ by {
                    if mid.session(k) is Some && mid.session(k)->0.id == lease@ {
                        sessions::no_two_keys_share_a_session(mid, k, key@);
                    }
                }
            }
            self.sessions.release(lease, now);
        }
    }

    /// Whether there is a number left for another archive.
    pub fn has_room(&self) -> (r: bool)
        ensures
            r == (self.opened() < u64::MAX),
    {
        self.sessions.has_room()
    }

    /// Whether the archive at `path` inside the torrent `info_hash` is being
    /// read, or was not long ago.
    pub fn is_open(&self, info_hash: &str, path: &str) -> (r: bool)
        requires
            self.well_formed(),
        ensures
            r == (self.archive(archive_key(info_hash@, path@)) is Some),
    {
        let key = cat3(info_hash, "/", path);
        self.sessions.contains(key.as_str())
    }

    /// Remove every archive nothing has read for the idle timeout, as of
    /// `now`.
    pub fn sweep(&mut self, now: u64)
        requires
            old(self).well_formed(),
        ensures
            final(self).well_formed(),
            final(self).timeout() == old(self).timeout(),
            final(self).opened() == old(self).opened(),
            forall|key: Seq<char>| #[trigger]
                final(self).archive(key) == sessions::left(
                    old(self).archive(key),
                    now,
                    old(self).timeout(),
                ),
    {
        self.sessions.sweep(now);
    }

    /// Give a lease back.
    pub fn release(&mut self, lease: Lease, now: u64)
        requires
            old(self).well_formed(),
        ensures
            final(self).well_formed(),
            final(self).timeout() == old(self).timeout(),
            final(self).opened() == old(self).opened(),
            forall|key: Seq<char>| #[trigger]
                final(self).archive(key) == (match old(self).archive(key) {
                    Some(s) => if s.id == lease@ && s.leases > 0 {
                        Some(
                            sessions::SessionView {
                                leases: (s.leases - 1) as nat,
                                last_used: now,
                                ..s
                            },
                        )
                    } else {
                        Some(s)
                    },
                    None => None,
                }),
    {
        self.sessions.release(lease, now);
    }

    /// How many archives there are.
    pub fn len(&self) -> (n: usize)
        ensures
            n == self.held().len(),
    {
        self.sessions.len()
    }

    /// The keys there are archives under.
    pub closed spec fn held(&self) -> Set<Seq<char>> {
        self.sessions.held()
    }
}

} // verus!
