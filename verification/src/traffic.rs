//! The one question a client asks of the connection, and the judge that
//! answers it.
//!
//! "Is this server using your connection while you are not watching?" It is
//! answered in two halves, down and up, because a client shows them apart,
//! and `active` is their disjunction. The judge is arithmetic over two
//! readings and a flag: it knows nothing about engines, and it is fed by
//! whoever can see all of them.
use vstd::prelude::*;

verus! {

/// The stretch of time "traffic is moving" is judged over, in seconds.
///
/// A counter that has not grown since the last reading is the measurement.
/// Five seconds is short enough that the answer is about now, and long
/// enough to cover the gaps a live connection has anyway.
pub const TRAFFIC_WINDOW: u64 = 5;

/// How long a window may stretch, in seconds, before its verdict is thrown
/// away rather than reported: past this bound the reading is used as a fresh
/// baseline.
pub const TRAFFIC_WINDOW_STALE_AFTER: u64 = 20;

/// Bytes received from peers and sent to them, summed over the torrents
/// that exist.
#[derive(Debug, Clone, Copy, PartialEq, Eq, Structural)]
pub struct TransferTotals {
    pub fetched: u64,
    pub uploaded: u64,
}

impl Default for TransferTotals {
    fn default() -> (t: Self)
        ensures
            t.fetched == 0,
            t.uploaded == 0,
    {
        TransferTotals { fetched: 0, uploaded: 0 }
    }
}

/// What a client's activity light is: each direction of the connection over
/// the last window, with nothing playing over it.
#[derive(Debug, Clone, Copy, PartialEq, Eq, Structural)]
pub struct BackgroundTraffic {
    /// `downloading || uploading`.
    pub active: bool,
    /// Bytes came in from peers over the last closed window and nothing was
    /// playing over it or since.
    pub downloading: bool,
    /// Bytes went out to peers over the last closed window and nothing was
    /// playing over it or since.
    pub uploading: bool,
    /// Whether a player is reading from this server as this is answered.
    pub playing: bool,
    /// The sums the verdict was judged from.
    pub bytes_downloaded: u64,
    pub bytes_uploaded: u64,
    /// The window the halves were judged over ([`TRAFFIC_WINDOW`]).
    pub window_secs: u64,
}

/// What is kept between readings.
pub struct WindowView {
    /// False until a first reading has been taken.
    pub started: bool,
    /// When the standing verdict's window closed, and the totals then.
    pub at_secs: u64,
    pub totals: TransferTotals,
    /// The standing verdict, per half.
    pub downloading: bool,
    pub uploading: bool,
    /// Whether anything has been seen playing since the window closed.
    pub seen_playing: bool,
}

/// The state one traffic verdict is kept in between readings.
///
/// A call inside the current window returns the standing verdict unchanged,
/// with one exception, playback, which puts the light out the moment it is
/// seen.
#[derive(Debug)]
pub struct TrafficWindow {
    started: bool,
    at_secs: u64,
    totals: TransferTotals,
    downloading: bool,
    uploading: bool,
    seen_playing: bool,
}

/// The time from one reading to the next: none where the clock stepped back.
pub open spec fn elapsed(from: u64, to: u64) -> int {
    if to >= from {
        to - from
    } else {
        0
    }
}

/// Whether a reading closes the window: the first reading does, and so does
/// one a whole window after the last that did.
pub open spec fn closes(s: WindowView, now: u64) -> bool {
    !s.started || elapsed(s.at_secs, now) >= TRAFFIC_WINDOW
}

/// Whether the window a reading closes may be reported at all: there was a
/// reading to measure from, not too long ago, and nobody was seen playing.
pub open spec fn is_quiet(s: WindowView, now: u64, playing: bool) -> bool {
    s.started && elapsed(s.at_secs, now) <= TRAFFIC_WINDOW_STALE_AFTER && !s.seen_playing
        && !playing
}

/// What a reading leaves to be kept.
pub open spec fn window_after(
    s: WindowView,
    now: u64,
    totals: TransferTotals,
    playing: bool,
) -> WindowView {
    if closes(s, now) {
        WindowView {
            started: true,
            at_secs: now,
            totals,
            downloading: is_quiet(s, now, playing) && totals.fetched > s.totals.fetched,
            uploading: is_quiet(s, now, playing) && totals.uploaded > s.totals.uploaded,
            seen_playing: playing,
        }
    } else {
        WindowView { seen_playing: s.seen_playing || playing, ..s }
    }
}

/// What is answered once a reading has been taken in.
pub open spec fn answer(s: WindowView, totals: TransferTotals, playing: bool) -> BackgroundTraffic {
    let downloading = s.downloading && !s.seen_playing;
    let uploading = s.uploading && !s.seen_playing;
    BackgroundTraffic {
        active: downloading || uploading,
        downloading,
        uploading,
        playing,
        bytes_downloaded: totals.fetched,
        bytes_uploaded: totals.uploaded,
        window_secs: TRAFFIC_WINDOW,
    }
}

impl View for TrafficWindow {
    type V = WindowView;

    closed spec fn view(&self) -> WindowView {
        WindowView {
            started: self.started,
            at_secs: self.at_secs,
            totals: self.totals,
            downloading: self.downloading,
            uploading: self.uploading,
            seen_playing: self.seen_playing,
        }
    }
}

/// What is kept before the first reading.
pub open spec fn nothing_read() -> WindowView {
    WindowView {
        started: false,
        at_secs: 0,
        totals: TransferTotals { fetched: 0, uploaded: 0 },
        downloading: false,
        uploading: false,
        seen_playing: false,
    }
}

impl Default for TrafficWindow {
    fn default() -> (w: Self)
        ensures
            w@ == nothing_read(),
    {
        TrafficWindow::new()
    }
}

impl TrafficWindow {
    pub fn new() -> (w: Self)
        ensures
            w@ == nothing_read(),
    {
        TrafficWindow {
            started: false,
            at_secs: 0,
            totals: TransferTotals { fetched: 0, uploaded: 0 },
            downloading: false,
            uploading: false,
            seen_playing: false,
        }
    }

    /// Read the connection's totals against the last reading and answer the
    /// light's question, `now_secs` on the window's own clock. `playing` is
    /// whether a player is reading right now, and it is judged over the same
    /// window as the traffic: a window is "not watched" only if no
    /// observation of it, or of the time since, found a player.
    pub fn sample_at(&mut self, now_secs: u64, totals: TransferTotals, playing: bool) -> (r:
        BackgroundTraffic)
        ensures
            final(self)@ == window_after(old(self)@, now_secs, totals, playing),
            r == answer(final(self)@, totals, playing),
    {
        let seen = self.seen_playing || playing;
        let elapsed: u64 = now_secs.saturating_sub(self.at_secs);
        if !self.started || elapsed >= TRAFFIC_WINDOW {
            let judged = self.started && elapsed <= TRAFFIC_WINDOW_STALE_AFTER;
            let quiet = judged && !seen;
            self.downloading = quiet && totals.fetched > self.totals.fetched;
            self.uploading = quiet && totals.uploaded > self.totals.uploaded;
            self.started = true;
            self.at_secs = now_secs;
            self.totals = totals;
            // This observation belongs to the window that just opened.
            self.seen_playing = playing;
        } else {
            self.seen_playing = seen;
        }
        let downloading = self.downloading && !self.seen_playing;
        let uploading = self.uploading && !self.seen_playing;
        BackgroundTraffic {
            active: downloading || uploading,
            downloading,
            uploading,
            playing,
            bytes_downloaded: totals.fetched,
            bytes_uploaded: totals.uploaded,
            window_secs: TRAFFIC_WINDOW,
        }
    }
}

/// What a reading answers.
pub open spec fn sampled(
    s: WindowView,
    now: u64,
    totals: TransferTotals,
    playing: bool,
) -> BackgroundTraffic {
    answer(window_after(s, now, totals, playing), totals, playing)
}

/// A first reading is a baseline: nothing can be said from a single total.
pub proof fn a_first_reading_claims_nothing(
    s: WindowView,
    now: u64,
    totals: TransferTotals,
    playing: bool,
)
    requires
        !s.started,
    ensures
        !sampled(s, now, totals, playing).active,
{
}

/// While a player is seen, nothing is claimed of the background.
pub proof fn a_player_puts_the_light_out(s: WindowView, now: u64, totals: TransferTotals)
    ensures
        !sampled(s, now, totals, true).active,
{
}

/// Once a player was seen, nothing is claimed until a window has closed in
/// which none was: not by a later reading of the same window, and not by the
/// one that closes it.
pub proof fn a_window_a_player_was_seen_in_is_never_claimed(
    s: WindowView,
    now: u64,
    totals: TransferTotals,
    playing: bool,
)
    requires
        s.seen_playing,
    ensures
        !sampled(s, now, totals, playing).active,
        !closes(s, now) ==> window_after(s, now, totals, playing).seen_playing,
{
}

/// Inside a window the verdict stands, whatever the counters do and however
/// often it is asked for.
pub proof fn the_verdict_holds_for_the_length_of_a_window(
    s: WindowView,
    now: u64,
    totals: TransferTotals,
)
    requires
        !closes(s, now),
    ensures
        window_after(s, now, totals, false) == s,
        sampled(s, now, totals, false).downloading == (s.downloading && !s.seen_playing),
        sampled(s, now, totals, false).uploading == (s.uploading && !s.seen_playing),
{
}

/// A half is claimed when its window closes only if its counter grew over
/// it. One that dropped, because a torrent left, has not grown.
pub proof fn only_a_counter_that_grew_is_claimed(
    s: WindowView,
    now: u64,
    totals: TransferTotals,
    playing: bool,
)
    requires
        closes(s, now),
    ensures
        sampled(s, now, totals, playing).downloading ==> totals.fetched > s.totals.fetched,
        sampled(s, now, totals, playing).uploading ==> totals.uploaded > s.totals.uploaded,
{
}

/// Each direction is its own half: over an ordinary window nobody was seen
/// in, a half is claimed exactly if its counter grew.
pub proof fn a_quiet_window_claims_what_grew(s: WindowView, now: u64, totals: TransferTotals)
    requires
        s.started,
        !s.seen_playing,
        TRAFFIC_WINDOW <= elapsed(s.at_secs, now) <= TRAFFIC_WINDOW_STALE_AFTER,
    ensures
        sampled(s, now, totals, false).downloading == (totals.fetched > s.totals.fetched),
        sampled(s, now, totals, false).uploading == (totals.uploaded > s.totals.uploaded),
{
}

/// A gap nobody watched starts the measurement over: its reading claims
/// nothing and is the baseline of the next.
pub proof fn a_gap_nobody_watched_starts_over(
    s: WindowView,
    now: u64,
    totals: TransferTotals,
    playing: bool,
)
    requires
        elapsed(s.at_secs, now) > TRAFFIC_WINDOW_STALE_AFTER,
    ensures
        !sampled(s, now, totals, playing).active,
        window_after(s, now, totals, playing).at_secs == now,
        window_after(s, now, totals, playing).totals == totals,
{
}

/// An answer tells the totals and whether somebody plays as they are, the
/// length of the window, and that there is traffic where there is any of the
/// two kinds.
pub proof fn an_answer_tells_what_was_read(
    s: WindowView,
    now: u64,
    totals: TransferTotals,
    playing: bool,
)
    ensures
        ({
            let a = sampled(s, now, totals, playing);
            &&& a.bytes_downloaded == totals.fetched
            &&& a.bytes_uploaded == totals.uploaded
            &&& a.playing == playing
            &&& a.window_secs == 5
            &&& a.active <==> a.downloading || a.uploading
        }),
{
}

/// A window closes after five seconds, and the next starts from what was
/// read then; one that nobody looked at for more than twenty claims nothing.
pub proof fn a_window_closes_after_five_seconds(
    s: WindowView,
    now: u64,
    totals: TransferTotals,
    playing: bool,
)
    requires
        s.started,
        s.at_secs <= now,
    ensures
        ({
            let w = window_after(s, now, totals, playing);
            let grew = totals.fetched > s.totals.fetched;
            let gave = totals.uploaded > s.totals.uploaded;
            let quiet = now - s.at_secs <= 20 && !s.seen_playing && !playing;
            &&& now - s.at_secs < 5 ==> w.at_secs == s.at_secs && w.totals == s.totals
                && w.downloading == s.downloading && w.uploading == s.uploading && (w.seen_playing
                <==> s.seen_playing || playing)
            &&& now - s.at_secs >= 5 ==> w.at_secs == now && w.totals == totals && (w.downloading
                <==> quiet && grew) && (w.uploading <==> quiet && gave) && w.seen_playing == playing
            &&& w.started
        }),
{
}

} // verus!
