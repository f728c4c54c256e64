//! What background traffic is claimed.
use std::cell::{Cell, RefCell};
use stream_server::traffic::{
    BackgroundTraffic, TrafficWindow, TransferTotals, TRAFFIC_WINDOW, TRAFFIC_WINDOW_STALE_AFTER,
};

const WINDOW: u64 = TRAFFIC_WINDOW;

/// A window and the connection it is reading: a test moves bytes in
/// either direction where peers would.
struct Fixture {
    window: RefCell<TrafficWindow>,
    totals: Cell<TransferTotals>,
}

impl Fixture {
    fn new() -> Self {
        Self {
            window: RefCell::new(TrafficWindow::new()),
            totals: Cell::default(),
        }
    }

    fn download(&self, bytes: u64) {
        let mut totals = self.totals.get();
        totals.fetched += bytes;
        self.totals.set(totals);
    }

    fn upload(&self, bytes: u64) {
        let mut totals = self.totals.get();
        totals.uploaded += bytes;
        self.totals.set(totals);
    }

    fn ask(&self, now: u64, playing: bool) -> BackgroundTraffic {
        self.window.borrow_mut().sample_at(now, self.totals.get(), playing)
    }
}

#[test]
fn nothing_can_be_said_from_a_single_reading() {
    let f = Fixture::new();
    f.download(1_000_000);
    let first = f.ask(0, false);
    assert!(
        !first.downloading && !first.active,
        "the first reading is a baseline: a total is not a rate, and everything the \
         torrents ever moved is in it"
    );

    f.download(1);
    assert!(
        f.ask(WINDOW, false).active,
        "the second reading is the rate"
    );
}

/// The two halves are judged apart, because a client shows them apart:
/// one glyph for down, one for up, one for both, and a control for each.
#[test]
fn each_direction_is_its_own_half() {
    let f = Fixture::new();
    f.ask(0, false);

    f.download(1);
    let down = f.ask(WINDOW, false);
    assert!(down.downloading && !down.uploading && down.active);

    f.upload(1);
    let up = f.ask(WINDOW * 2, false);
    assert!(!up.downloading && up.uploading && up.active);

    f.download(1);
    f.upload(1);
    let both = f.ask(WINDOW * 3, false);
    assert!(both.downloading && both.uploading && both.active);

    let neither = f.ask(WINDOW * 4, false);
    assert!(!neither.downloading && !neither.uploading && !neither.active);
}

#[test]
fn a_counter_that_stopped_growing_puts_the_light_out() {
    let f = Fixture::new();
    f.ask(0, false);
    f.download(1);
    assert!(f.ask(WINDOW, false).active);

    // Nothing moves over the next window.
    let quiet = f.ask(WINDOW * 2, false);
    assert!(!quiet.downloading && !quiet.active);
}

/// A torrent that paused or left takes its bytes out of the sum. Less
/// than before is not more than before, so nothing is claimed.
#[test]
fn a_sum_that_dropped_has_not_grown() {
    let f = Fixture::new();
    f.download(1_000);
    f.upload(1_000);
    f.ask(0, false);

    f.totals.set(TransferTotals::default());
    let after = f.ask(WINDOW, false);
    assert!(!after.downloading && !after.uploading && !after.active);
    assert_eq!((after.bytes_downloaded, after.bytes_uploaded), (0, 0));
}

#[test]
fn the_verdict_holds_for_the_length_of_a_window() {
    let f = Fixture::new();
    f.ask(0, false);
    f.download(1);
    assert!(f.ask(WINDOW, false).active);

    // Every caller inside the window gets the standing verdict, so the
    // light cannot flicker at the polling rate -- and asking twice does
    // not consume the window the other caller is measuring.
    for now in WINDOW + 1..WINDOW * 2 {
        assert!(f.ask(now, false).active, "verdict changed at {now}");
    }
    assert!(!f.ask(WINDOW * 2, false).active);
}

#[test]
fn traffic_a_player_was_there_for_is_not_background() {
    let f = Fixture::new();
    f.ask(0, true);
    f.download(1_000);

    let playing = f.ask(WINDOW, true);
    assert!(playing.playing, "the player is reported as is");
    assert!(!playing.active, "and somebody was watching the bytes move");

    // Playback ends here, and the bytes it moved are still in the totals.
    // The window they moved in saw a player, so it is not ours to claim.
    f.download(1_000);
    assert!(
        !f.ask(WINDOW * 2, false).active,
        "the light lit for the window playback was in, one window after it ended"
    );

    // A window that nobody was watching any part of, and traffic in it.
    f.download(1_000);
    assert!(f.ask(WINDOW * 3, false).active);
}

#[test]
fn a_player_seen_since_the_window_closed_puts_it_out_at_once() {
    let f = Fixture::new();
    f.ask(0, false);
    f.download(1);
    f.upload(1);
    let lit = f.ask(WINDOW, false);
    assert!(lit.downloading && lit.uploading);

    let started = f.ask(WINDOW + 1, true);
    assert!(
        !started.downloading && !started.uploading && !started.active,
        "playback that starts mid-window has to take both halves with it, not wait \
         for the window to close"
    );
    assert!(
        !f.ask(WINDOW + 2, false).active,
        "and the rest of that window is spoken for, whatever the next call sees"
    );
}

#[test]
fn a_gap_nobody_watched_starts_the_measurement_over() {
    let f = Fixture::new();
    f.ask(0, false);
    f.download(1);
    assert!(f.ask(WINDOW, false).active);

    // The process was suspended, or the caller stopped asking. Whatever
    // moved in the meantime moved over a stretch we cannot say anything
    // about -- a player could have been in any of it.
    f.download(1_000_000);
    let after_the_gap = f.ask(WINDOW + TRAFFIC_WINDOW_STALE_AFTER + 1, false);
    assert!(
        !after_the_gap.downloading && !after_the_gap.active,
        "a window that stretched past the stale bound is a baseline, not a verdict"
    );

    // And it is a baseline, so the next ordinary window works again.
    f.download(1);
    assert!(
        f.ask(
            WINDOW + TRAFFIC_WINDOW_STALE_AFTER + 1 + WINDOW,
            false
        )
        .active
    );
}

#[test]
fn the_totals_are_reported_whatever_the_verdict() {
    let f = Fixture::new();
    f.download(7);
    f.upload(11);
    let answer = f.ask(0, false);
    assert_eq!((answer.bytes_downloaded, answer.bytes_uploaded), (7, 11));
    assert_eq!(answer.window_secs, WINDOW);
}
