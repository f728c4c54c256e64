//! What the torrent-data volume may hold.
//!
//! The cap wants two numbers: what the operator configured, and what the
//! filesystem can still give on top of what the cache already holds.
use vstd::prelude::*;

verus! {

/// Free space on the cache's volume that the torrent cache is kept out of.
/// Below this line a stream that still wants bytes is refused, so it is
/// exactly the line the cache must stay off.
pub const CACHE_FREE_SPACE_FLOOR: u64 = 536_870_912;

/// How often, in seconds, the process restates the budget on its own.
pub const BUDGET_INTERVAL: u64 = 60;

/// What caps the cache on one run: what the operator configured and what the
/// filesystem can still give.
#[derive(Debug, Clone, Copy, PartialEq, Eq, Structural)]
pub struct CacheLimit {
    /// The configured size in bytes: `u64::MAX` when unset, and 0 for no
    /// limit.
    pub configured: u64,
    /// Bytes the volume holding the cache will still give an unprivileged
    /// writer, or `None` when it could not be read.
    pub available: Option<u64>,
}

/// What the volume would offer the cache if it were empty, less the floor.
pub open spec fn from_disk(available: u64, occupied: u64) -> int {
    let whole = if occupied + available > u64::MAX {
        u64::MAX as int
    } else {
        occupied + available
    };
    if whole > CACHE_FREE_SPACE_FLOOR {
        whole - CACHE_FREE_SPACE_FLOOR
    } else {
        0
    }
}

/// The smaller of two numbers.
pub open spec fn smaller(a: int, b: int) -> int {
    if a <= b {
        a
    } else {
        b
    }
}

/// The cap on a cache: the smaller of the configured size, where there is
/// one, and what the volume gives, where that could be read.
pub open spec fn effective_spec(limit: CacheLimit, occupied: u64) -> Option<int> {
    match limit.available {
        Some(available) => Some(
            if limit.configured != 0 {
                smaller(limit.configured as int, from_disk(available, occupied))
            } else {
                from_disk(available, occupied)
            },
        ),
        None => if limit.configured != 0 {
            Some(limit.configured as int)
        } else {
            None
        },
    }
}

impl CacheLimit {
    /// A limit with no filesystem reading behind it.
    pub fn configured(configured: u64) -> (limit: Self)
        ensures
            limit == (CacheLimit { configured, available: None }),
    {
        CacheLimit { configured, available: None }
    }

    /// The cap to enforce against `occupied` bytes of cache, or `None` for no
    /// cap at all.
    ///
    /// `occupied + available` is what the volume would offer if the cache
    /// were empty, so holding [`CACHE_FREE_SPACE_FLOOR`] of that back leaves
    /// the most the cache may occupy without the free space crossing the
    /// floor. Saturating throughout: a volume already under the floor yields
    /// a cap below current occupancy.
    pub fn effective(&self, occupied: u64) -> (r: Option<u64>)
        ensures
            match r {
                Some(cap) => effective_spec(*self, occupied) == Some(cap as int),
                None => effective_spec(*self, occupied) is None,
            },
    {
        match self.available {
            Some(available) => {
                let whole: u64 = occupied.saturating_add(available);
                let disk: u64 = whole.saturating_sub(CACHE_FREE_SPACE_FLOOR);
                if self.configured != 0 && self.configured <= disk {
                    Some(self.configured)
                } else {
                    Some(disk)
                }
            },
            None => if self.configured != 0 {
                Some(self.configured)
            } else {
                None
            },
        }
    }

    /// Whether the filesystem, rather than the operator, is what caps the
    /// cache at `occupied` bytes.
    pub fn disk_bound(&self, occupied: u64) -> (r: bool)
        ensures
            r == match effective_spec(*self, occupied) {
                Some(cap) => if self.configured == 0 {
                    cap < u64::MAX
                } else {
                    cap < self.configured
                },
                None => false,
            },
    {
        match self.effective(occupied) {
            Some(cap) => if self.configured == 0 {
                cap < u64::MAX
            } else {
                cap < self.configured
            },
            None => false,
        }
    }
}

/// The cap a publication states, from the three readings behind it: the
/// configured size, the volume's free space, and what the owners of the
/// cache say they hold.
pub fn cap_to_publish(configured: u64, available: Option<u64>, occupied: u64) -> (r: Option<u64>)
    ensures
        match r {
            Some(cap) => effective_spec(CacheLimit { configured, available }, occupied) == Some(
                cap as int,
            ),
            None => effective_spec(CacheLimit { configured, available }, occupied) is None,
        },
{
    let limit = CacheLimit { configured, available };
    limit.effective(occupied)
}

/// What has been published of the cap.
#[derive(Debug, Clone, Copy, PartialEq, Eq, Structural)]
pub enum CacheBudget {
    /// Nothing has been published.
    Unknown,
    /// It was published that there is no cap.
    Unlimited,
    /// It was published that the cache may hold this many bytes.
    Bytes(u64),
}

/// The cell the cap is published in.
#[derive(Debug, Clone, Copy, PartialEq, Eq, Structural)]
pub struct RetentionBudget {
    published: CacheBudget,
}

impl View for RetentionBudget {
    type V = CacheBudget;

    closed spec fn view(&self) -> CacheBudget {
        self.published
    }
}

impl Default for RetentionBudget {
    fn default() -> (b: Self)
        ensures
            b@ == CacheBudget::Unknown,
    {
        RetentionBudget { published: CacheBudget::Unknown }
    }
}

/// What a publication of a cap reads as: no cap is still a publication.
pub open spec fn published(limit: Option<u64>) -> CacheBudget {
    match limit {
        Some(bytes) => CacheBudget::Bytes(bytes),
        None => CacheBudget::Unlimited,
    }
}

impl RetentionBudget {
    /// What has been published.
    pub fn get(&self) -> (r: CacheBudget)
        ensures
            r == self@,
    {
        self.published
    }

    /// Publish a cap, or that there is none.
    pub fn set(&mut self, limit: Option<u64>)
        ensures
            final(self)@ == published(limit),
    {
        self.published = match limit {
            Some(bytes) => CacheBudget::Bytes(bytes),
            None => CacheBudget::Unlimited,
        };
    }
}

/// Publish `limit` as the cache budget: the one writer of the cell.
pub fn publish(budget: &mut RetentionBudget, limit: Option<u64>)
    ensures
        final(budget)@ == published(limit),
{
    budget.set(limit);
}

/// The floor is never eaten into: whatever the cache holds and the volume
/// still gives, a cache filled to its cap leaves the floor free, or all of
/// the volume's bytes where they are fewer than that.
pub proof fn the_free_space_floor_is_never_eaten_into(
    configured: u64,
    available: u64,
    occupied: u64,
)
    ensures
        ({
            let whole = occupied + available;
            let cap = effective_spec(
                CacheLimit { configured, available: Some(available) },
                occupied,
            )->0;
            whole - smaller(cap, whole) >= smaller(CACHE_FREE_SPACE_FLOOR as int, whole)
        }),
{
}

/// The cap is never above the configured size, where there is one, nor above
/// what the volume gives, where that could be read; and it is one of the two.
pub proof fn the_cap_is_the_smaller_of_the_two(limit: CacheLimit, occupied: u64)
    requires
        effective_spec(limit, occupied) is Some,
    ensures
        ({
            let cap = effective_spec(limit, occupied)->0;
            &&& limit.configured != 0 ==> cap <= limit.configured
            &&& limit.available is Some ==> cap <= from_disk(limit.available->0, occupied)
            &&& cap == limit.configured || (limit.available is Some && cap == from_disk(
                limit.available->0,
                occupied,
            ))
        }),
{
}

/// There is no cap only where none is configured and the volume could not be
/// read: a volume with no room at all is a cap of nothing, not no cap.
pub proof fn a_volume_that_was_read_always_caps(limit: CacheLimit, occupied: u64)
    ensures
        effective_spec(limit, occupied) is None <==> limit.configured == 0
            && limit.available is None,
{
}

/// A volume under the floor asks for less than is held, so there is work to
/// do.
pub proof fn a_volume_under_the_floor_asks_for_less(
    configured: u64,
    available: u64,
    occupied: u64,
)
    requires
        available < CACHE_FREE_SPACE_FLOOR,
        occupied > 0,
    ensures
        effective_spec(CacheLimit { configured, available: Some(available) }, occupied)->0
            < occupied,
{
}

/// Half a gibibyte of what the volume could hold, were the cache empty, is
/// left to others; the rest is the cache's.
pub proof fn half_a_gibibyte_is_left_to_others(available: u64, occupied: u64)
    requires
        occupied + available <= u64::MAX,
    ensures
        occupied + available >= 0x2000_0000 ==> from_disk(available, occupied) + 0x2000_0000
            == occupied + available,
        occupied + available <= 0x2000_0000 ==> from_disk(available, occupied) == 0,
{
}

/// Without a limit of its own a cache has what the volume leaves it; with
/// one it has no more than that, and all of it where the volume leaves that
/// much.
pub proof fn a_limit_only_takes_away(configured: u64, available: u64, occupied: u64)
    requires
        occupied + available <= u64::MAX,
        occupied + available >= 0x2000_0000,
    ensures
        effective_spec(CacheLimit { configured: 0, available: Some(available) }, occupied) == Some(
            occupied + available - 0x2000_0000,
        ),
        0 < configured <= occupied + available - 0x2000_0000 ==> effective_spec(
            CacheLimit { configured, available: Some(available) },
            occupied,
        ) == Some(configured as int),
        configured > 0 ==> effective_spec(CacheLimit { configured, available: None }, occupied)
            == Some(configured as int),
{
}

} // verus!
