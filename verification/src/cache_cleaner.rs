//! The cache's figures, and what a clean leaves behind.
//!
//! Every byte of the cache has one owner that knows whether anybody wants
//! it. A clean asks the owners for their slack, and the figures a client
//! reads come from what the owners say they hold.
use crate::cache_budget;
use crate::cache_budget::CacheLimit;
use crate::text;
use crate::text::{cat2, cat4, cat7, decimal};
use vstd::prelude::*;

verus! {

/// What the torrent store says it holds.
#[derive(Debug, Clone, Copy, PartialEq, Eq, Structural)]
pub struct CacheHoldings {
    pub total_bytes: u64,
    pub protected_bytes: u64,
    pub protected_files: usize,
}

impl Default for CacheHoldings {
    fn default() -> (h: Self)
        ensures
            h == (CacheHoldings { total_bytes: 0, protected_bytes: 0, protected_files: 0 }),
    {
        CacheHoldings { total_bytes: 0, protected_bytes: 0, protected_files: 0 }
    }
}

/// What the proxy cache says nothing may take.
#[derive(Debug, Clone, Copy, PartialEq, Eq, Structural)]
pub struct ProxyProtection {
    pub bytes: u64,
    pub entities: usize,
}

/// What the cache currently occupies against its limit.
#[derive(Debug, Clone, Copy, PartialEq, Eq, Structural)]
pub struct CacheUsage {
    /// Occupancy of the torrent store and the proxy cache right now, as
    /// their owners count it.
    pub total_bytes: u64,
    /// The limit actually enforced. `None` only when neither the setting nor
    /// the volume caps anything.
    pub limit_bytes: Option<u64>,
    /// How much of `total_bytes` nothing may take right now. Never more than
    /// `total_bytes`: it is a part of that figure and a client reads it as
    /// one.
    pub protected_bytes: u64,
    /// How many files and proxied entities that is.
    pub protected_files: usize,
}

impl Default for CacheUsage {
    fn default() -> (u: Self)
        ensures
            u == (CacheUsage {
                total_bytes: 0,
                limit_bytes: None,
                protected_bytes: 0,
                protected_files: 0,
            }),
    {
        CacheUsage { total_bytes: 0, limit_bytes: None, protected_bytes: 0, protected_files: 0 }
    }
}

/// A cap as a client is told it: the cap of everything is none.
pub open spec fn told(cap: Option<int>) -> Option<int> {
    match cap {
        Some(c) => if c == u64::MAX {
            None
        } else {
            Some(c)
        },
        None => None,
    }
}

/// A cap as a whole number.
pub open spec fn whole(cap: Option<u64>) -> Option<int> {
    match cap {
        Some(c) => Some(c as int),
        None => None,
    }
}

/// The two owners' readings against the cap.
///
/// Protection is added rather than intersected because the two owners hold
/// two disjoint sets of bytes, and then held to the total, because the two
/// are priced from different bases.
pub fn cache_usage(
    torrents: CacheHoldings,
    proxy_bytes: u64,
    proxy_protection: ProxyProtection,
    limit: CacheLimit,
) -> (u: CacheUsage)
    requires
        torrents.total_bytes + proxy_bytes <= u64::MAX,
        torrents.protected_bytes + proxy_protection.bytes <= u64::MAX,
        torrents.protected_files + proxy_protection.entities <= usize::MAX,
    ensures
        u.total_bytes == torrents.total_bytes + proxy_bytes,
        whole(u.limit_bytes) == told(cache_budget::effective_spec(limit, u.total_bytes)),
        u.protected_bytes == cache_budget::smaller(
            torrents.protected_bytes + proxy_protection.bytes,
            u.total_bytes as int,
        ),
        u.protected_files == torrents.protected_files + proxy_protection.entities,
        // What is protected is part of what there is.
        u.protected_bytes <= u.total_bytes,
{
    let total_bytes: u64 = torrents.total_bytes + proxy_bytes;
    let limit_bytes: Option<u64> = match limit.effective(total_bytes) {
        Some(cap) => if cap == u64::MAX {
            None
        } else {
            Some(cap)
        },
        None => None,
    };
    let protected: u64 = torrents.protected_bytes + proxy_protection.bytes;
    let protected_bytes: u64 = if protected <= total_bytes {
        protected
    } else {
        total_bytes
    };
    CacheUsage {
        total_bytes,
        limit_bytes,
        protected_bytes,
        protected_files: torrents.protected_files + proxy_protection.entities,
    }
}

/// What one clean left behind, in occupancy bytes throughout.
#[derive(Debug, Clone, Copy, PartialEq, Eq, Structural)]
pub struct EvictionReport {
    /// Occupancy of the cache once the owners had given their slack back.
    pub total: u64,
    /// How much of `total` nothing may take.
    pub protected: u64,
    /// How many files and proxied entities that is.
    pub protected_files: usize,
    /// How far `total` fell across the call.
    pub freed: u64,
    /// How many piece files and chunks that took.
    pub deleted: usize,
    /// The limit in force when this answered, or `None` when nothing caps
    /// the cache. A cap of exactly 0 is the tightest cap there is, the
    /// opposite of none.
    pub limit: Option<u64>,
    /// How far over its cap the cache still is.
    pub over_limit: u64,
}

impl Default for EvictionReport {
    fn default() -> (r: Self)
        ensures
            r == (EvictionReport {
                total: 0,
                protected: 0,
                protected_files: 0,
                freed: 0,
                deleted: 0,
                limit: None,
                over_limit: 0,
            }),
    {
        EvictionReport {
            total: 0,
            protected: 0,
            protected_files: 0,
            freed: 0,
            deleted: 0,
            limit: None,
            over_limit: 0,
        }
    }
}

/// How far one figure is above another, and nothing where it is not.
pub open spec fn excess(a: int, b: int) -> int {
    if a > b {
        a - b
    } else {
        0
    }
}

/// The report of a clean, from the figures before it and after it and from
/// what the owners deleted.
pub fn report_of_a_clean(before: &CacheUsage, after: &CacheUsage, deleted: usize) -> (r:
    EvictionReport)
    ensures
        r.total == after.total_bytes,
        r.protected == after.protected_bytes,
        r.protected_files == after.protected_files,
        r.freed == excess(before.total_bytes as int, after.total_bytes as int),
        r.deleted == deleted,
        r.limit == after.limit_bytes,
        r.over_limit == match after.limit_bytes {
            Some(limit) => excess(after.total_bytes as int, limit as int),
            None => 0,
        },
{
    let limit: u64 = match after.limit_bytes {
        Some(limit) => limit,
        None => u64::MAX,
    };
    EvictionReport {
        total: after.total_bytes,
        protected: after.protected_bytes,
        protected_files: after.protected_files,
        freed: before.total_bytes.saturating_sub(after.total_bytes),
        deleted,
        limit: after.limit_bytes,
        over_limit: after.total_bytes.saturating_sub(limit),
    }
}

/// The line that says what keeps a cache over its limit.
pub open spec fn shortfall_text(r: EvictionReport) -> Seq<char> {
    "Cache is "@ + text::dec(r.over_limit as nat) + " bytes over its limit after freeing "@
        + text::dec(r.freed as nat) + " bytes from "@ + text::dec(r.deleted as nat) + " files: "@
        + (text::dec(r.protected as nat) + " bytes in "@ + text::dec(r.protected_files as nat)
        + " files are protected (a live torrent is writing them, or a pinned download keeps them) and cannot be evicted"@)
}

impl EvictionReport {
    /// Whether this call reclaimed anything.
    pub fn made_room(&self) -> (r: bool)
        ensures
            r == (self.freed > 0),
    {
        self.freed > 0
    }

    /// The line to log when the cache is still over the limit, naming what
    /// protection kept. `None` when the cache is under its limit (or has
    /// none).
    pub fn shortfall_message(&self) -> (r: Option<String>)
        ensures
            match r {
                Some(m) => self.over_limit > 0 && m@ == shortfall_text(*self),
                None => self.over_limit == 0,
            },
    {
        if self.over_limit == 0 {
            return None;
        }
        let over = decimal(self.over_limit);
        let freed = decimal(self.freed);
        let deleted = decimal(self.deleted as u64);
        let protected = decimal(self.protected);
        let files = decimal(self.protected_files as u64);
        let head = cat7(
            "Cache is ",
            over.as_str(),
            " bytes over its limit after freeing ",
            freed.as_str(),
            " bytes from ",
            deleted.as_str(),
            " files: ",
        );
        let tail = cat4(
            protected.as_str(),
            " bytes in ",
            files.as_str(),
            " files are protected (a live torrent is writing them, or a pinned download keeps them) and cannot be evicted",
        );
        Some(cat2(head.as_str(), tail.as_str()))
    }
}

/// Two figures are as far apart as the one is above the other, and only one
/// of them is above.
pub proof fn only_one_figure_is_above_the_other(a: int, b: int)
    ensures
        excess(a, b) >= 0,
        excess(b, a) >= 0,
        excess(a, b) - excess(b, a) == a - b,
        excess(a, b) == 0 || excess(b, a) == 0,
{
}

/// What a client is told caps the cache is what caps it, and a client is
/// told of no cap only where nothing is kept from the cache.
pub proof fn a_cap_is_told_as_it_is(limit: CacheLimit, occupied: u64)
    ensures
        ({
            let cap = cache_budget::effective_spec(limit, occupied);
            &&& told(cap) matches Some(c) ==> cap == Some(c) && c < 0xffff_ffff_ffff_ffff
            &&& told(cap) is None ==> cap is None || cap == Some(0xffff_ffff_ffff_ffffint)
            &&& 0 < limit.configured < 0xffff_ffff_ffff_ffff ==> (told(cap) matches Some(c) && c
                <= limit.configured)
            &&& limit.available is Some ==> told(cap) is Some
        }),
{
}

/// A cap is the same number, told as a whole number or in bytes.
pub proof fn a_cap_is_one_number(a: Option<u64>, b: Option<u64>)
    ensures
        whole(a) == whole(b) <==> a == b,
        a matches Some(c) ==> whole(a) == Some(c as int),
{
}

} // verus!
