//! One post being served: its index, and how many connections fetch its
//! segments.
use super::stream;
use super::stream::NzbFileStream;
use super::{Nzb, NzbFile};
use crate::text;
use crate::text::{cat2, contains};
use vstd::prelude::*;

verus! {

/// The most connections one session opens to one server, whatever the caller
/// asked for. Providers sell plans of 20 to 60 connections and refuse the
/// rest.
pub const MAX_CONNECTIONS_PER_SERVER: u32 = 50;

/// The servers a post is fetched from.
#[derive(Clone, Debug)]
pub struct NzbConfig {
    pub servers: Vec<NzbServerConfig>,
    /// Where the index came from.
    pub nzb_url: String,
}

/// One server, and how it is reached.
#[derive(Clone, Debug)]
pub struct NzbServerConfig {
    pub host: String,
    pub port: u16,
    pub user: Option<String>,
    pub pass: Option<String>,
    pub ssl: bool,
    pub connections: u32,
}

/// How many connections a server gets for what was asked for: at least one,
/// and no more than the cap.
pub open spec fn clamped(asked: u32) -> u32 {
    if asked < 1 {
        1
    } else if asked > MAX_CONNECTIONS_PER_SERVER {
        MAX_CONNECTIONS_PER_SERVER
    } else {
        asked
    }
}

/// How many connections a server gets for what was asked for. Zero
/// connections is a pool every fetch waits on forever, and more than the cap
/// is sockets the provider will refuse.
pub fn clamp_connections(asked: u32) -> (r: u32)
    ensures
        r == clamped(asked),
        1 <= r <= MAX_CONNECTIONS_PER_SERVER,
{
    if asked < 1 {
        1
    } else if asked > MAX_CONNECTIONS_PER_SERVER {
        MAX_CONNECTIONS_PER_SERVER
    } else {
        asked
    }
}

/// Whether a server is another with its connections clamped.
pub open spec fn is_clamped(from: NzbServerConfig, to: NzbServerConfig) -> bool {
    to == (NzbServerConfig { connections: clamped(from.connections), ..from })
}

/// How many connections servers get together.
pub open spec fn total(servers: Seq<NzbServerConfig>) -> int
    decreases servers.len(),
{
    if servers.len() == 0 {
        0
    } else {
        total(servers.drop_last()) + servers.last().connections
    }
}

/// One post being served.
#[derive(Debug)]
pub struct NzbSession {
    pub key: String,
    pub config: NzbConfig,
    pub nzb: Nzb,
}

/// The first file of a post whose subject names a file.
pub open spec fn named(files: Seq<NzbFile>, filename: Seq<char>) -> Option<int>
    decreases files.len(),
{
    if files.len() == 0 {
        None
    } else {
        match named(files.drop_last(), filename) {
            Some(i) => Some(i),
            None => if text::holds(files.last().subject@, filename) {
                Some(files.len() - 1)
            } else {
                None
            },
        }
    }
}

impl NzbSession {
    /// A session over a post. Each server's `connections` is clamped here,
    /// so no caller can ask for more and no route has to remember to check.
    pub fn new(key: String, config: NzbConfig, nzb: Nzb) -> (s: Self)
        ensures
            s.key == key,
            s.nzb == nzb,
            s.config.nzb_url == config.nzb_url,
            s.config.servers@.len() == config.servers@.len(),
            forall|i: int|
                0 <= i < config.servers@.len() ==> is_clamped(
                    config.servers@[i],
                    #[trigger] s.config.servers@[i],
                ),
    {
        let mut servers = config.servers;
        let ghost given = servers@;
        let n: usize = servers.len();
        let mut i: usize = 0;
        while i < n
            invariant
                i <= n,
                n == servers@.len(),
                n == given.len(),
                forall|k: int| 0 <= k < i ==> is_clamped(given[k], #[trigger] servers@[k]),
                forall|k: int| i <= k < n ==> given[k] == #[trigger] servers@[k],
            decreases n - i,
        {
            let asked: u32 = servers[i].connections;
            servers[i].connections = clamp_connections(asked);
            i += 1;
        }
        NzbSession { key, config: NzbConfig { servers, nzb_url: config.nzb_url }, nzb }
    }

    /// How many connections the session's pool holds.
    pub fn total_connections(&self) -> (n: usize)
        requires
            total(self.config.servers@) <= usize::MAX,
        ensures
            n == total(self.config.servers@),
    {
        let ghost all = self.config.servers@;
        let mut n: usize = 0;
        let mut i: usize = 0;
        proof {
            assert(all.take(0) =~= Seq::<NzbServerConfig>::empty());
        }
        while i < self.config.servers.len()
            invariant
                i <= self.config.servers@.len(),
                all == self.config.servers@,
                n == total(all.take(i as int)),
                total(all) <= usize::MAX,
            decreases self.config.servers@.len() - i,
        {
            proof {
                assert(all.take(i + 1).drop_last() =~= all.take(i as int));
                lemma_total_grows(all, i + 1);
            }
            n = n + self.config.servers[i].connections as usize;
            i += 1;
        }
        proof {
            assert(all.take(all.len() as int) =~= all);
        }
        n
    }

    /// A stream over the file whose subject names `filename`.
    pub fn stream_file(&self, filename: &str) -> (r: Result<NzbFileStream, String>)
        ensures
            match (r, named(self.nzb.files@, filename@)) {
                (Ok(s), Some(i)) => s.well_formed() && s@ == (stream::NzbStreamView {
                    segments: stream::in_order(
                        super::segments_view(self.nzb.files@[i].segments@),
                    ),
                    fetched: 0,
                    buffer: Seq::empty(),
                    fetching: false,
                }),
                (Err(e), None) => e@ == "File not found in NZB: "@ + filename@,
                _ => false,
            },
    {
        let ghost all = self.nzb.files@;
        let mut i: usize = 0;
        while i < self.nzb.files.len()
            invariant
                i <= self.nzb.files@.len(),
                all == self.nzb.files@,
                named(all.take(i as int), filename@) is None,
            decreases self.nzb.files@.len() - i,
        {
            proof {
                assert(all.take(i + 1).drop_last() =~= all.take(i as int));
                assert(all.take(i + 1).last() == all[i as int]);
            }
            let file = &self.nzb.files[i];
            if contains(file.subject.as_str(), filename) {
                proof {
                    assert(named(all.take(i + 1), filename@) == Some(i as int));
                    lemma_named(all, filename@, i + 1);
                }
                return Ok(NzbFileStream::new(file));
            }
            i += 1;
        }
        proof {
            assert(all.take(all.len() as int) =~= all);
        }
        Err(cat2("File not found in NZB: ", filename))
    }
}

/// The name and the password a server is authenticated with: only where both
/// are known.
pub fn credentials(server: &NzbServerConfig) -> (r: Option<(String, String)>)
    ensures
        match r {
            Some((u, p)) => server.user is Some && server.pass is Some && u@ == server.user->0@
                && p@ == server.pass->0@,
            None => server.user is None || server.pass is None,
        },
{
    match (&server.user, &server.pass) {
        (Some(u), Some(p)) => Some((u.clone(), p.clone())),
        _ => None,
    }
}

proof fn lemma_total_grows(s: Seq<NzbServerConfig>, i: int)
    requires
        0 <= i <= s.len(),
    ensures
        0 <= total(s.take(i)) <= total(s),
    decreases s.len(),
{
    if i == s.len() {
        assert(s.take(i) =~= s);
        if i > 0 {
            lemma_total_grows(s.drop_last(), i - 1);
            assert(s.drop_last().take(i - 1) =~= s.drop_last());
        }
    } else {
        lemma_total_grows(s.drop_last(), i);
        assert(s.drop_last().take(i) =~= s.take(i));
    }
}

proof fn lemma_named(files: Seq<NzbFile>, filename: Seq<char>, n: int)
    requires
        0 <= n <= files.len(),
        named(files.take(n), filename) is Some,
    ensures
        named(files, filename) == named(files.take(n), filename),
    decreases files.len(),
{
    if n == files.len() {
        assert(files.take(n) =~= files);
    } else {
        assert(files.drop_last().take(n) =~= files.take(n));
        lemma_named(files.drop_last(), filename, n);
    }
}

/// No caller can ask for more than the cap, and none for nothing: a session's
/// servers together get between one connection each and the cap each.
pub proof fn connections_are_capped(servers: Seq<NzbServerConfig>)
    requires
        forall|i: int|
            0 <= i < servers.len() ==> 1 <= (#[trigger] servers[i]).connections
                <= MAX_CONNECTIONS_PER_SERVER,
    ensures
        servers.len() <= total(servers) <= servers.len() * MAX_CONNECTIONS_PER_SERVER,
    decreases servers.len(),
{
    if servers.len() > 0 {
        let front = servers.drop_last();
        assert forall|i: int| 0 <= i < front.len() implies 1 <= (#[trigger] front[i]).connections
            <= MAX_CONNECTIONS_PER_SERVER by {
            assert(front[i] == servers[i]);
        }
        connections_are_capped(front);
        assert(servers[servers.len() - 1] == servers.last());
    }
}

} // verus!
