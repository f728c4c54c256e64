//! How much the cache may hold, and what cleaning it comes to.
use stream_server::cache_budget::{
    cap_to_publish, publish, CacheBudget, CacheLimit, RetentionBudget, BUDGET_INTERVAL,
    CACHE_FREE_SPACE_FLOOR,
};
use stream_server::cache_cleaner::{
    cache_usage, report_of_a_clean, CacheHoldings, CacheUsage, EvictionReport, ProxyProtection,
};

const MIB: u64 = 1024 * 1024;

/// The size of a chunk of a proxied stream.
const CHUNK: u64 = 4 * MIB;

#[test]
fn a_budget_published_from_the_volume_alone_is_a_budget_like_any_other() {
    let mut budget = RetentionBudget::default();
    assert_eq!(
        budget.get(),
        CacheBudget::Unknown,
        "nothing has published one yet"
    );

    let cap = cap_to_publish(u64::MAX, Some(CACHE_FREE_SPACE_FLOOR + 8 * MIB), 0);
    publish(&mut budget, cap);
    assert_eq!(
        budget.get(),
        CacheBudget::Bytes(8 * MIB),
        "a reading of the volume is a cap whether or not a walk produced it"
    );
}

/// The cap is the smaller of the two, and which one binds depends only
/// on the numbers: plenty of room and `cacheSize` governs; a nearly full
/// volume and the filesystem does, whatever `cacheSize` says -- including
/// the unset `u64::MAX` that let a 4 GB television fill up.
#[test]
fn the_effective_limit_is_the_smaller_of_the_setting_and_the_volume() {
    let gib = 1024 * 1024 * 1024;

    // Room to spare: 8 GiB free, so the disk would allow occupancy up to
    // 1 + 8 - 0.5 = 8.5 GiB and the 2 GiB setting is what bites.
    let roomy = CacheLimit {
        configured: 2 * gib,
        available: Some(8 * gib),
    };
    assert_eq!(roomy.effective(gib), Some(2 * gib));
    assert!(!roomy.disk_bound(gib));

    // The owner's box: nothing configured, 3 GiB of cache and 523 MiB
    // free. The cache may keep what it has plus the free space above the
    // floor -- 11 MiB of headroom, not the 1.4 GiB film.
    let television = CacheLimit {
        configured: u64::MAX,
        available: Some(523 * 1024 * 1024),
    };
    assert_eq!(
        television.effective(3 * gib),
        Some(3 * gib + 523 * 1024 * 1024 - CACHE_FREE_SPACE_FLOOR)
    );
    assert!(television.disk_bound(3 * gib));

    // A generous setting on the same box does not buy room the device
    // does not have.
    let configured_too_high = CacheLimit {
        configured: 10 * gib,
        ..television
    };
    assert_eq!(
        configured_too_high.effective(3 * gib),
        television.effective(3 * gib)
    );
    assert!(configured_too_high.disk_bound(3 * gib));
}

/// The floor is never eaten into, and the arithmetic that keeps it out of
/// reach saturates rather than wrapping: a volume already below the floor
/// asks for eviction below current occupancy, and one with no room at all
/// asks for everything -- neither may come out as "no limit".
#[test]
fn the_free_space_floor_is_never_eaten_into() {
    // Whatever occupancy the cache is at, the cap leaves the floor free.
    for occupied in [0u64, 1, 4096, 1_000_000_000] {
        for available in [0u64, 1, CACHE_FREE_SPACE_FLOOR, 5_000_000_000] {
            let limit = CacheLimit {
                configured: u64::MAX,
                available: Some(available),
            };
            let effective = limit.effective(occupied).unwrap();
            let free_at_the_cap = occupied + available - effective.min(occupied + available);
            assert!(
                free_at_the_cap >= CACHE_FREE_SPACE_FLOOR.min(occupied + available),
                "occupied={occupied} available={available} effective={effective}"
            );
        }
    }

    // Below the floor: the cap is under what is there, so the size rule
    // has work to do rather than seeing "already under the limit".
    let squeezed = CacheLimit {
        configured: u64::MAX,
        available: Some(1024),
    };
    assert!(squeezed.effective(4096).unwrap() < 4096);

    // Nothing left at all: a cap of 0 that must still read as a cap.
    let full = CacheLimit {
        configured: u64::MAX,
        available: Some(0),
    };
    assert_eq!(full.effective(0), Some(0));
    assert!(full.disk_bound(0));
}

#[test]
fn an_unreadable_volume_leaves_the_configured_limit_alone() {
    assert_eq!(CacheLimit::configured(1024).effective(4096), Some(1024));
    assert_eq!(
        CacheLimit::configured(u64::MAX).effective(4096),
        Some(u64::MAX)
    );
    assert_eq!(CacheLimit::configured(0).effective(4096), None);
    assert!(!CacheLimit::configured(0).disk_bound(4096));

    // What `cache_roots` builds when the root's free space cannot be
    // read: a cap with no filesystem reading behind it, so the
    // configured cap -- or no cap -- is what it enforces.
    for (configured, expected) in [(1024, Some(1024)), (u64::MAX, Some(u64::MAX)), (0, None)] {
        let limit = CacheLimit {
            configured,
            available: None,
        };
        assert_eq!(limit, CacheLimit::configured(configured));
        assert_eq!(limit.effective(4096), expected);
        assert!(!limit.disk_bound(4096));
    }
}

#[test]
fn a_protection_is_never_more_than_the_total_it_is_part_of() {
    let usage = cache_usage(
        CacheHoldings::default(),
        // Nothing booked: every chunk under the proxy root was written
        // by the process before this one.
        0,
        ProxyProtection {
            bytes: 16 * CHUNK,
            entities: 1,
        },
        CacheLimit::configured(u64::MAX),
    );
    assert_eq!(usage.total_bytes, 0);
    assert_eq!(
        usage.protected_bytes, 0,
        "a part of nothing is nothing, whatever the window covers"
    );

    // And with the same chunks booked, the protection is the whole of
    // the figure, which is what "cleaning cannot help" honestly looks
    // like.
    let counted = cache_usage(
        CacheHoldings::default(),
        16 * CHUNK,
        ProxyProtection {
            bytes: 16 * CHUNK,
            entities: 1,
        },
        CacheLimit::configured(u64::MAX),
    );
    assert_eq!(
        (counted.total_bytes, counted.protected_bytes),
        (16 * CHUNK, 16 * CHUNK)
    );
}

#[test]
fn shortfall_message_is_only_for_a_run_that_stayed_over_the_limit() {
    let under = EvictionReport {
        total: 10,
        limit: Some(20),
        ..EvictionReport::default()
    };
    assert_eq!(under.shortfall_message(), None);
    let unlimited = EvictionReport {
        total: u64::MAX,
        limit: None,
        ..EvictionReport::default()
    };
    assert_eq!(unlimited.shortfall_message(), None, "nothing caps it");
    let over = EvictionReport {
        total: 30,
        limit: Some(20),
        over_limit: 10,
        protected: 25,
        protected_files: 3,
        freed: 5,
        deleted: 1,
    };
    assert!(over.shortfall_message().is_some());

    // A cap of exactly 0 is the tightest cap there is, not the absence
    // of one: any volume whose occupancy plus free space is under the
    // floor gets one, and that is the device most in need of the line
    // that says what is holding the cache up.
    let capped_at_nothing = EvictionReport {
        total: 4096,
        protected: 4096,
        protected_files: 1,
        limit: Some(0),
        over_limit: 4096,
        ..EvictionReport::default()
    };
    assert!(
        capped_at_nothing.shortfall_message().is_some(),
        "a cap of 0 is a cap, and this run is over it"
    );
}

#[test]
fn a_clean_made_room_only_when_it_actually_reclaimed_something() {
    let freed_nothing = EvictionReport {
        total: 4096,
        protected: 4096,
        protected_files: 1,
        limit: Some(1024),
        over_limit: 3072,
        ..EvictionReport::default()
    };
    assert!(!freed_nothing.made_room());
    assert!(
        freed_nothing.shortfall_message().is_some(),
        "and the run says what protection held instead"
    );

    let freed_something = EvictionReport {
        total: 1024,
        freed: 4096,
        deleted: 1,
        limit: Some(2048),
        ..EvictionReport::default()
    };
    assert!(freed_something.made_room());
    assert!(freed_something.shortfall_message().is_none());
}
