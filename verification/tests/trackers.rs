//! Trackers: when a list is fetched, and what is kept of it.
use std::cell::RefCell;
use stream_server::trackers::{
    parse_tracker_list, Age, RefreshAction, RefreshEvent, SourceUrl, TrackerList, TrackerManager,
    TrackerStorage, DEFAULT_TRACKERS_URL, KEPT_TRACKERS, REFRESH_INTERVAL,
};

struct Stored {
    cached: Vec<String>,
    updated: RefCell<i64>,
    saved: RefCell<usize>,
}

impl TrackerStorage for Stored {
    fn gives_trackers(&self, _list: TrackerList) -> bool {
        unreachable!("nothing runs this")
    }

    fn gives_time(&self, _timestamp: i64) -> bool {
        unreachable!("nothing runs this")
    }

    fn gives_url(&self, _url: SourceUrl) -> bool {
        unreachable!("nothing runs this")
    }

    fn was_told(&self, _list: TrackerList, _timestamp: i64) -> bool {
        unreachable!("nothing runs this")
    }

    fn get_cached_trackers(&self) -> Vec<String> {
        self.cached.clone()
    }

    fn get_last_updated(&self) -> i64 {
        *self.updated.borrow()
    }

    fn get_source_url(&self) -> String {
        "http://trackers.example/list".to_string()
    }

    fn save_trackers(&self, _trackers: Vec<String>, timestamp: i64) {
        *self.updated.borrow_mut() = timestamp;
        *self.saved.borrow_mut() += 1;
    }
}

fn stored(cached: &[&str], updated: i64) -> Stored {
    Stored {
        cached: cached.iter().map(|s| s.to_string()).collect(),
        updated: RefCell::new(updated),
        saved: RefCell::new(0),
    }
}

#[test]
fn a_list_is_one_tracker_a_line() {
    assert_eq!(
        parse_tracker_list("udp://a:1/announce\r\n\n  http://b/announce  \n\n"),
        vec!["udp://a:1/announce".to_string(), "http://b/announce".to_string()]
    );
    assert!(parse_tracker_list("").is_empty());
}

#[test]
fn a_fresh_list_is_not_fetched_again() {
    let mut manager = TrackerManager::offline();
    let storage = stored(&["udp://a"], 1_000);
    assert!(matches!(manager.refresh_if_needed(Some(&storage), 1_000), RefreshAction::Done));
    assert_eq!(manager.get_trackers(), vec!["udp://a".to_string()]);
    assert!(matches!(
        manager.refresh_if_needed(Some(&storage), 1_000 + REFRESH_INTERVAL - 1),
        RefreshAction::Done
    ));
    assert_eq!(manager.age(1_000, 1_000), Age::InUse);
}

#[test]
fn an_old_or_an_empty_list_is_fetched_and_ranked() {
    let mut manager = TrackerManager::offline();
    let old = stored(&["udp://a"], 1_000);
    assert!(matches!(
        manager.refresh_if_needed(Some(&old), 1_000 + REFRESH_INTERVAL),
        RefreshAction::Fetch { url, rank: true } if url == "http://trackers.example/list"
    ));
    let empty = stored(&[], 1_000);
    assert!(matches!(
        manager.refresh_if_needed(Some(&empty), 1_001),
        RefreshAction::Fetch { rank: true, .. }
    ));
    assert!(manager.get_trackers().is_empty());
}

#[test]
fn a_forced_refresh_makes_the_storage_forget() {
    let mut manager = TrackerManager::offline();
    let storage = stored(&["udp://a"], REFRESH_INTERVAL * 2);
    assert!(matches!(
        manager.force_refresh(Some(&storage), REFRESH_INTERVAL * 2),
        RefreshAction::Fetch { rank: true, .. }
    ));
    assert_eq!(*storage.saved.borrow(), 1);
}

#[test]
fn without_a_storage_the_default_list_is_fetched() {
    let mut manager = TrackerManager::offline();
    assert!(matches!(
        manager.refresh_if_needed::<Stored>(None, 0),
        RefreshAction::Fetch { url, rank: false } if url == DEFAULT_TRACKERS_URL
    ));
    assert!(matches!(
        manager.force_refresh::<Stored>(None, 0),
        RefreshAction::Fetch { url, rank: false } if url == DEFAULT_TRACKERS_URL
    ));
    for trackers in [vec!["udp://x".to_string()], Vec::new()] {
        assert!(matches!(
            manager.refresh_step(RefreshEvent::Fetched { trackers, rank: false }, 0),
            RefreshAction::Done
        ));
        assert_eq!(manager.get_trackers(), vec!["udp://x".to_string()]);
    }
}

/// What was ranked is cut to what is kept, saved with the time, and used
/// only once it is saved.
#[test]
fn what_is_saved_is_used() {
    let mut manager = TrackerManager::offline();
    let ranked: Vec<String> = (0..30).map(|i| format!("udp://{i}")).collect();
    let raw = RefreshEvent::Fetched { trackers: ranked.clone(), rank: true };
    match manager.refresh_step(raw, 7) {
        RefreshAction::Rank(trackers) => assert_eq!(trackers, ranked),
        other => panic!("{other:?}"),
    }
    let saved = match manager.refresh_step(RefreshEvent::Ranked(ranked.clone()), 7) {
        RefreshAction::Save { trackers, timestamp: 7 } => trackers,
        other => panic!("{other:?}"),
    };
    assert_eq!(saved, ranked[..KEPT_TRACKERS].to_vec());
    assert!(manager.get_trackers().is_empty());
    assert!(matches!(
        manager.refresh_step(RefreshEvent::Saved(saved.clone()), 7),
        RefreshAction::Done
    ));
    assert_eq!(manager.get_trackers(), saved);
}

#[test]
fn an_empty_list_changes_nothing() {
    let mut manager = TrackerManager::offline();
    manager.load_from_cache(vec!["udp://a".to_string()]);
    for rank in [true, false] {
        let event = RefreshEvent::Fetched { trackers: Vec::new(), rank };
        assert!(matches!(manager.refresh_step(event, 1), RefreshAction::Done));
    }
    assert_eq!(manager.get_trackers(), vec!["udp://a".to_string()]);
}

/// A forced refresh has the storage save nothing, with the time zero.
#[test]
fn a_forced_refresh_fetches() {
    let mut manager = TrackerManager::offline();
    match manager.refresh_step(RefreshEvent::Forced { stored: true }, REFRESH_INTERVAL) {
        RefreshAction::Forget { trackers, timestamp: 0 } => assert!(trackers.is_empty()),
        other => panic!("{other:?}"),
    }
    assert!(matches!(
        manager.refresh_step(RefreshEvent::Forgotten, REFRESH_INTERVAL),
        RefreshAction::AskAge
    ));
    assert!(matches!(
        manager.refresh_step(RefreshEvent::LastUpdated(0), REFRESH_INTERVAL),
        RefreshAction::AskSource
    ));
    assert!(matches!(
        manager.refresh_step(RefreshEvent::Start { stored: true }, 0),
        RefreshAction::AskAge
    ));
}
