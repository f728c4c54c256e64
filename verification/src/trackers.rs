//! The trackers announced to: when they are fetched anew, and which of them
//! are kept.
use crate::text;
use crate::text::{split, trimmed};
use vstd::prelude::*;

verus! {

/// Where the list of trackers is fetched from when nothing says otherwise.
pub const DEFAULT_TRACKERS_URL: &'static str =
    "https://raw.githubusercontent.com/ngosang/trackerslist/master/trackers_best.txt";

/// How long, in seconds, a list of trackers is good for.
pub const REFRESH_INTERVAL: i64 = 86_400;

/// How often, in seconds, the age of the list is looked at.
pub const REFRESH_CHECK_INTERVAL: u64 = 3_600;

/// How many trackers are kept of a list that was ranked.
pub const KEPT_TRACKERS: usize = 20;

/// Trackers that a storage gives or is given.
pub struct TrackerList {
    pub trackers: Seq<Seq<char>>,
}

/// A URL that a storage gives.
pub struct SourceUrl {
    pub url: Seq<char>,
}

/// Where trackers persist. An implementation answers from settings that may
/// change between two questions, so nothing is promised of its answers but
/// that they are its own.
pub trait TrackerStorage {
    /// Whether these are trackers the storage may give.
    spec fn gives_trackers(&self, list: TrackerList) -> bool;

    /// Whether this is a time the storage may give.
    spec fn gives_time(&self, timestamp: i64) -> bool;

    /// Whether this is a URL the storage may give.
    spec fn gives_url(&self, url: SourceUrl) -> bool;

    /// Whether the storage was told to save these trackers with this time.
    spec fn was_told(&self, list: TrackerList, timestamp: i64) -> bool;

    /// Get cached trackers from settings.
    fn get_cached_trackers(&self) -> (r: Vec<String>)
        ensures
            self.gives_trackers(TrackerList { trackers: text::texts(r@) }),
    ;

    /// Get Unix timestamp when trackers were last updated.
    fn get_last_updated(&self) -> (r: i64)
        ensures
            self.gives_time(r),
    ;

    /// Get the URL to fetch tracker list from.
    fn get_source_url(&self) -> (r: String)
        ensures
            self.gives_url(SourceUrl { url: r@ }),
    ;

    /// Save trackers and timestamp to persistent storage.
    fn save_trackers(&self, trackers: Vec<String>, timestamp: i64)
        ensures
            self.was_told(TrackerList { trackers: text::texts(trackers@) }, timestamp),
    ;
}

/// What a refresh learns.
#[derive(Debug, Clone)]
pub enum RefreshEvent {
    /// It is time to look at the age of the trackers. `stored` is whether
    /// there is a storage.
    Start { stored: bool },
    /// Somebody wants new trackers now.
    Forced { stored: bool },
    /// The storage forgot what it was told to.
    Forgotten,
    /// When the storage last saved trackers.
    LastUpdated(i64),
    /// The trackers the storage has.
    Cached(Vec<String>),
    /// Where the storage wants them from.
    Source(String),
    /// The trackers a list names that was fetched.
    Fetched { trackers: Vec<String>, rank: bool },
    /// The same, the best first.
    Ranked(Vec<String>),
    /// The storage saved these.
    Saved(Vec<String>),
}

/// What a refresh does next.
#[derive(Debug, Clone)]
pub enum RefreshAction {
    /// Ask the storage when it last saved trackers.
    AskAge,
    /// Ask the storage for its trackers.
    AskCache,
    /// Ask the storage where to fetch trackers from.
    AskSource,
    /// Have the storage save this, so that it forgets what it has.
    Forget { trackers: Vec<String>, timestamp: i64 },
    /// Fetch a list. `rank` is whether it is ranked and saved.
    Fetch { url: String, rank: bool },
    /// Rank these.
    Rank(Vec<String>),
    /// Have the storage save these.
    Save { trackers: Vec<String>, timestamp: i64 },
    /// Nothing more.
    Done,
}

/// What a [`RefreshEvent`] says.
pub enum EventView {
    Start { stored: bool },
    Forced { stored: bool },
    Forgotten,
    LastUpdated(i64),
    Cached(Seq<Seq<char>>),
    Source(Seq<char>),
    Fetched { trackers: Seq<Seq<char>>, rank: bool },
    Ranked(Seq<Seq<char>>),
    Saved(Seq<Seq<char>>),
}

/// What a [`RefreshAction`] says.
pub enum ActionView {
    AskAge,
    AskCache,
    AskSource,
    Forget { trackers: Seq<Seq<char>>, timestamp: i64 },
    Fetch { url: Seq<char>, rank: bool },
    Rank(Seq<Seq<char>>),
    Save { trackers: Seq<Seq<char>>, timestamp: i64 },
    Done,
}

impl View for RefreshEvent {
    type V = EventView;

    open spec fn view(&self) -> EventView {
        match *self {
            RefreshEvent::Start { stored } => EventView::Start { stored },
            RefreshEvent::Forced { stored } => EventView::Forced { stored },
            RefreshEvent::Forgotten => EventView::Forgotten,
            RefreshEvent::LastUpdated(at) => EventView::LastUpdated(at),
            RefreshEvent::Cached(l) => EventView::Cached(text::texts(l@)),
            RefreshEvent::Source(url) => EventView::Source(url@),
            RefreshEvent::Fetched { trackers, rank } => EventView::Fetched {
                trackers: text::texts(trackers@),
                rank,
            },
            RefreshEvent::Ranked(l) => EventView::Ranked(text::texts(l@)),
            RefreshEvent::Saved(l) => EventView::Saved(text::texts(l@)),
        }
    }
}

impl View for RefreshAction {
    type V = ActionView;

    open spec fn view(&self) -> ActionView {
        match *self {
            RefreshAction::AskAge => ActionView::AskAge,
            RefreshAction::AskCache => ActionView::AskCache,
            RefreshAction::AskSource => ActionView::AskSource,
            RefreshAction::Forget { trackers, timestamp } => ActionView::Forget {
                trackers: text::texts(trackers@),
                timestamp,
            },
            RefreshAction::Fetch { url, rank } => ActionView::Fetch { url: url@, rank },
            RefreshAction::Rank(l) => ActionView::Rank(text::texts(l@)),
            RefreshAction::Save { trackers, timestamp } => ActionView::Save {
                trackers: text::texts(trackers@),
                timestamp,
            },
            RefreshAction::Done => ActionView::Done,
        }
    }
}

/// The trackers in use.
#[derive(Debug, Clone)]
pub struct TrackerManager {
    trackers: Vec<String>,
}

impl View for TrackerManager {
    type V = Seq<Seq<char>>;

    closed spec fn view(&self) -> Seq<Seq<char>> {
        text::texts(self.trackers@)
    }
}

/// Whether a list that was updated at a time is still fresh.
pub open spec fn fresh(last_updated: i64, now: i64) -> bool {
    now - last_updated < REFRESH_INTERVAL
}

/// What is decided before anything else is asked for.
#[derive(Debug, Clone, Copy, PartialEq, Eq, Structural)]
pub enum Age {
    /// The list is fresh and at hand.
    InUse,
    /// The list is fresh but not at hand: the cache may have it.
    AskCache,
    /// The list is old.
    Old,
}

/// What is decided of a list by its age and by whether it is at hand.
pub open spec fn age_spec(at_hand: bool, last_updated: i64, now: i64) -> Age {
    if !fresh(last_updated, now) {
        Age::Old
    } else if at_hand {
        Age::InUse
    } else {
        Age::AskCache
    }
}

/// The lines of a list that name a tracker, without the white space around
/// them.
pub open spec fn listed(lines: Seq<Seq<char>>) -> Seq<Seq<char>>
    decreases lines.len(),
{
    if lines.len() == 0 {
        lines
    } else {
        let before = listed(lines.drop_last());
        let line = text::trim(lines.last());
        if line.len() > 0 {
            before.push(line)
        } else {
            before
        }
    }
}

/// The trackers a list that was fetched names: one per line that is not
/// blank.
pub fn parse_tracker_list(list: &str) -> (r: Vec<String>)
    ensures
        text::texts(r@) == listed(text::split_spec(list@, '\n')),
{
    let lines = split(list, '\n');
    let ghost all = text::texts(lines@);
    let mut out: Vec<String> = Vec::new();
    let mut i: usize = 0;
    proof {
        assert(text::texts(out@) =~= listed(all.take(0)));
    }
    while i < lines.len()
        invariant
            i <= lines@.len(),
            all == text::texts(lines@),
            text::texts(out@) == listed(all.take(i as int)),
        decreases lines@.len() - i,
    {
        proof {
            assert(all.take(i + 1).drop_last() =~= all.take(i as int));
            assert(all.take(i + 1).last() == lines@[i as int]@);
        }
        let line = trimmed(lines[i].as_str());
        if !line.as_str().is_empty() {
            let ghost before = text::texts(out@);
            let ghost added = line@;
            out.push(line);
            proof {
                assert(text::texts(out@) =~= before.push(added));
            }
        }
        i += 1;
    }
    proof {
        assert(all.take(all.len() as int) =~= all);
    }
    out
}

/// The first of ranked trackers, as many as are kept.
pub open spec fn best(ranked: Seq<Seq<char>>) -> Seq<Seq<char>> {
    if ranked.len() > KEPT_TRACKERS {
        ranked.take(KEPT_TRACKERS as int)
    } else {
        ranked
    }
}

/// What a refresh makes of what it learned at the time `now`: the trackers
/// in use from then on, and what it does next.
///
/// Without a storage the default list is fetched and kept. With one, a list
/// that is fresh is used, from the cache if it is not at hand; an old one is
/// fetched from where the storage says, ranked, saved with the time, and then
/// used. A list that was fetched and is empty changes nothing.
pub open spec fn refresh_spec(at_hand: Seq<Seq<char>>, event: EventView, now: i64) -> (
    Seq<Seq<char>>,
    ActionView,
) {
    match event {
        EventView::Start { stored: true } => (at_hand, ActionView::AskAge),
        EventView::Forced { stored: true } => (
            at_hand,
            ActionView::Forget { trackers: Seq::empty(), timestamp: 0 },
        ),
        EventView::Start { .. } | EventView::Forced { .. } => (
            at_hand,
            ActionView::Fetch { url: DEFAULT_TRACKERS_URL@, rank: false },
        ),
        EventView::Forgotten => (at_hand, ActionView::AskAge),
        EventView::LastUpdated(at) => match age_spec(at_hand.len() > 0, at, now) {
            Age::InUse => (at_hand, ActionView::Done),
            Age::AskCache => (at_hand, ActionView::AskCache),
            Age::Old => (at_hand, ActionView::AskSource),
        },
        EventView::Cached(trackers) => if trackers.len() > 0 {
            (trackers, ActionView::Done)
        } else {
            (at_hand, ActionView::AskSource)
        },
        EventView::Source(url) => (at_hand, ActionView::Fetch { url, rank: true }),
        EventView::Fetched { trackers, rank } => if trackers.len() == 0 {
            (at_hand, ActionView::Done)
        } else if rank {
            (at_hand, ActionView::Rank(trackers))
        } else {
            (trackers, ActionView::Done)
        },
        EventView::Ranked(trackers) => (
            at_hand,
            ActionView::Save { trackers: best(trackers), timestamp: now },
        ),
        EventView::Saved(trackers) => (trackers, ActionView::Done),
    }
}

/// What a storage is asked, and what comes of its answers: the time it last
/// saved trackers; its trackers, where that is not long ago and none are at
/// hand; and where to fetch them from, where that is needed.
pub open spec fn consulted(
    at_hand: Seq<Seq<char>>,
    at: i64,
    cached: Seq<Seq<char>>,
    url: Seq<char>,
    now: i64,
) -> (Seq<Seq<char>>, ActionView) {
    let (at_hand, action) = refresh_spec(at_hand, EventView::LastUpdated(at), now);
    let (at_hand, action) = if action is AskCache {
        refresh_spec(at_hand, EventView::Cached(cached), now)
    } else {
        (at_hand, action)
    };
    if action is AskSource {
        refresh_spec(at_hand, EventView::Source(url), now)
    } else {
        (at_hand, action)
    }
}

/// Whether a storage's own answers lead from the trackers at hand to what
/// comes of them.
pub open spec fn is_consulted<S: TrackerStorage>(
    storage: S,
    before: Seq<Seq<char>>,
    now: i64,
    after: Seq<Seq<char>>,
    action: ActionView,
) -> bool {
    exists|at: i64, cached: Seq<Seq<char>>, url: Seq<char>|
        {
            &&& storage.gives_time(at)
            &&& storage.gives_trackers(TrackerList { trackers: cached }) || !(age_spec(
                before.len() > 0,
                at,
                now,
            ) is AskCache)
            &&& storage.gives_url(SourceUrl { url }) || !(action is Fetch)
            &&& (after, action) == #[trigger] consulted(before, at, cached, url, now)
        }
}

impl TrackerManager {
    /// A manager that knows no trackers.
    pub fn offline() -> (m: Self)
        ensures
            m@ == Seq::<Seq<char>>::empty(),
    {
        let m = TrackerManager { trackers: Vec::new() };
        proof {
            assert(text::texts(m.trackers@) =~= Seq::<Seq<char>>::empty());
        }
        m
    }

    /// The current list of trackers.
    pub fn get_trackers(&self) -> (r: Vec<String>)
        ensures
            text::texts(r@) == self@,
    {
        let mut out: Vec<String> = Vec::new();
        let mut i: usize = 0;
        while i < self.trackers.len()
            invariant
                i <= self.trackers@.len(),
                text::texts(out@) == text::texts(self.trackers@).take(i as int),
            decreases self.trackers@.len() - i,
        {
            let ghost before = text::texts(out@);
            out.push(self.trackers[i].clone());
            proof {
                assert(text::texts(out@) =~= before.push(self.trackers@[i as int]@));
                assert(text::texts(self.trackers@).take(i + 1) =~= text::texts(
                    self.trackers@,
                ).take(i as int).push(self.trackers@[i as int]@));
            }
            i += 1;
        }
        proof {
            assert(text::texts(self.trackers@).take(self.trackers@.len() as int) =~= text::texts(
                self.trackers@,
            ));
        }
        out
    }

    /// Use the cached trackers, unless there are none. Whether there were.
    pub fn load_from_cache(&mut self, cached: Vec<String>) -> (loaded: bool)
        ensures
            loaded == (cached@.len() > 0),
            final(self)@ == (if cached@.len() > 0 {
                text::texts(cached@)
            } else {
                old(self)@
            }),
    {
        if cached.len() > 0 {
            self.trackers = cached;
            true
        } else {
            false
        }
    }

    /// What is decided of the list by its age and by whether it is at hand.
    pub fn age(&self, last_updated: i64, now: i64) -> (r: Age)
        ensures
            r == age_spec(self@.len() > 0, last_updated, now),
    {
        proof {
            assert(self@.len() == self.trackers@.len());
        }
        if now as i128 - last_updated as i128 >= REFRESH_INTERVAL as i128 {
            return Age::Old;
        }
        if self.trackers.len() > 0 {
            Age::InUse
        } else {
            Age::AskCache
        }
    }

    /// Take in what a refresh learned, and say what it does next.
    pub fn refresh_step(&mut self, event: RefreshEvent, now: i64) -> (r: RefreshAction)
        ensures
            (final(self)@, r@) == refresh_spec(old(self)@, event@, now),
    {
        proof {
            assert(self@.len() == self.trackers@.len());
        }
        match event {
            RefreshEvent::Start { stored } => if stored {
                RefreshAction::AskAge
            } else {
                RefreshAction::Fetch { url: DEFAULT_TRACKERS_URL.to_owned(), rank: false }
            },
            RefreshEvent::Forced { stored } => if stored {
                let nothing: Vec<String> = Vec::new();
                proof {
                    assert(text::texts(nothing@) =~= Seq::<Seq<char>>::empty());
                }
                RefreshAction::Forget { trackers: nothing, timestamp: 0 }
            } else {
                RefreshAction::Fetch { url: DEFAULT_TRACKERS_URL.to_owned(), rank: false }
            },
            RefreshEvent::Forgotten => RefreshAction::AskAge,
            RefreshEvent::LastUpdated(at) => match self.age(at, now) {
                Age::InUse => RefreshAction::Done,
                Age::AskCache => RefreshAction::AskCache,
                Age::Old => RefreshAction::AskSource,
            },
            RefreshEvent::Cached(trackers) => if self.load_from_cache(trackers) {
                RefreshAction::Done
            } else {
                RefreshAction::AskSource
            },
            RefreshEvent::Source(url) => RefreshAction::Fetch { url, rank: true },
            RefreshEvent::Fetched { trackers, rank } => if trackers.len() == 0 {
                RefreshAction::Done
            } else if rank {
                RefreshAction::Rank(trackers)
            } else {
                self.trackers = trackers;
                RefreshAction::Done
            },
            RefreshEvent::Ranked(trackers) => {
                let ghost all = text::texts(trackers@);
                let mut top = trackers;
                if top.len() > KEPT_TRACKERS {
                    top.truncate(KEPT_TRACKERS);
                    proof {
                        assert(text::texts(top@) =~= all.take(KEPT_TRACKERS as int));
                    }
                }
                RefreshAction::Save { trackers: top, timestamp: now }
            },
            RefreshEvent::Saved(trackers) => {
                self.trackers = trackers;
                RefreshAction::Done
            },
        }
    }

    /// Ask a storage what a refresh has to know, up to where something is
    /// fetched.
    fn consult<S: TrackerStorage>(&mut self, storage: &S, now: i64) -> (r: RefreshAction)
        ensures
            is_consulted(*storage, old(self)@, now, final(self)@, r@),
    {
        let at: i64 = storage.get_last_updated();
        let ghost mut cached: Seq<Seq<char>> = Seq::empty();
        let ghost mut url: Seq<char> = Seq::empty();
        let mut action = self.refresh_step(RefreshEvent::LastUpdated(at), now);
        if let RefreshAction::AskCache = action {
            let trackers = storage.get_cached_trackers();
            proof {
                cached = text::texts(trackers@);
            }
            action = self.refresh_step(RefreshEvent::Cached(trackers), now);
        }
        if let RefreshAction::AskSource = action {
            let source = storage.get_source_url();
            proof {
                url = source@;
            }
            action = self.refresh_step(RefreshEvent::Source(source), now);
        }
        proof {
            assert((self@, action@) == consulted(old(self)@, at, cached, url, now));
        }
        action
    }

    /// What there is to do to have fresh trackers at the time `now`, once
    /// the storage has been asked, if there is one: nothing, or to fetch a
    /// list and hand it to [`TrackerManager::refresh_step`].
    pub fn refresh_if_needed<S: TrackerStorage>(&mut self, storage: Option<&S>, now: i64) -> (r:
        RefreshAction)
        ensures
            match storage {
                None => (final(self)@, r@) == refresh_spec(
                    old(self)@,
                    EventView::Start { stored: false },
                    now,
                ),
                Some(s) => is_consulted(*s, old(self)@, now, final(self)@, r@),
            },
    {
        let action = self.refresh_step(RefreshEvent::Start { stored: storage.is_some() }, now);
        match storage {
            None => action,
            Some(s) => self.consult(s, now),
        }
    }

    /// Look for trackers now, whatever the age of those at hand: the storage
    /// is told to save nothing with the time zero, so that it forgets its
    /// list, and then asked as ever.
    pub fn force_refresh<S: TrackerStorage>(&mut self, storage: Option<&S>, now: i64) -> (r:
        RefreshAction)
        ensures
            match storage {
                None => (final(self)@, r@) == refresh_spec(
                    old(self)@,
                    EventView::Forced { stored: false },
                    now,
                ),
                Some(s) => {
                    &&& s.was_told(TrackerList { trackers: Seq::empty() }, 0)
                    &&& is_consulted(*s, old(self)@, now, final(self)@, r@)
                },
            },
    {
        let action = self.refresh_step(RefreshEvent::Forced { stored: storage.is_some() }, now);
        match storage {
            None => action,
            Some(s) => {
                if let RefreshAction::Forget { trackers, timestamp } = action {
                    s.save_trackers(trackers, timestamp);
                }
                self.consult(s, now)
            },
        }
    }
}

/// A list that is fresh and at hand is never fetched again.
pub proof fn a_fresh_list_is_not_fetched_again(last_updated: i64, now: i64)
    requires
        now - last_updated < REFRESH_INTERVAL,
    ensures
        age_spec(true, last_updated, now) is InUse,
        !(age_spec(false, last_updated, now) is Old),
{
}

/// No blank line, and no white space around a line, ever names a tracker.
pub proof fn every_listed_tracker_has_a_name(lines: Seq<Seq<char>>, i: int)
    requires
        0 <= i < listed(lines).len(),
    ensures
        listed(lines)[i].len() > 0,
        exists|k: int| 0 <= k < lines.len() && listed(lines)[i] == text::trim(#[trigger] lines[k]),
    decreases lines.len(),
{
    let before = listed(lines.drop_last());
    if i < before.len() {
        every_listed_tracker_has_a_name(lines.drop_last(), i);
        let k = choose|k: int|
            0 <= k < lines.drop_last().len() && before[i] == text::trim(
                #[trigger] lines.drop_last()[k],
            );
        assert(lines[k] == lines.drop_last()[k]);
    } else {
        assert(lines[lines.len() - 1] == lines.last());
    }
}

/// A storage that forgot, as a forced refresh has it forget, is asked where
/// to fetch from: a time of zero is no fresh one, from a day after the epoch
/// on.
pub proof fn a_forced_refresh_fetches(
    at_hand: Seq<Seq<char>>,
    cached: Seq<Seq<char>>,
    url: Seq<char>,
    now: i64,
)
    requires
        now >= REFRESH_INTERVAL,
    ensures
        refresh_spec(at_hand, EventView::Forced { stored: true }, now) == (
            at_hand,
            ActionView::Forget { trackers: Seq::empty(), timestamp: 0 },
        ),
        consulted(at_hand, 0, cached, url, now) == (
            at_hand,
            ActionView::Fetch { url, rank: true },
        ),
{
}

/// What is saved is what is used: trackers that were ranked are saved with
/// the time, no more than are kept, and used once they are saved.
pub proof fn what_is_saved_is_used(at_hand: Seq<Seq<char>>, ranked: Seq<Seq<char>>, now: i64)
    ensures
        ({
            let (before, action) = refresh_spec(at_hand, EventView::Ranked(ranked), now);
            &&& before == at_hand
            &&& action == (ActionView::Save { trackers: best(ranked), timestamp: now })
            &&& best(ranked).len() <= KEPT_TRACKERS
            &&& refresh_spec(before, EventView::Saved(best(ranked)), now) == (
                best(ranked),
                ActionView::Done,
            )
        }),
{
}

/// A fetch that gives nothing loses nothing: it changes no tracker and saves
/// none.
pub proof fn an_empty_list_changes_nothing(at_hand: Seq<Seq<char>>, rank: bool, now: i64)
    ensures
        refresh_spec(at_hand, EventView::Fetched { trackers: Seq::empty(), rank }, now) == (
            at_hand,
            ActionView::Done,
        ),
{
}

/// The trackers of a list are its lines that are not blank, without the
/// white space around them, in their order.
pub proof fn a_list_has_a_tracker_on_each_line(lines: Seq<Seq<char>>)
    ensures
        listed(lines) == lines.filter_map(
            |line: Seq<char>|
                if text::trim(line).len() > 0 {
                    Some(text::trim(line))
                } else {
                    None
                },
        ),
    decreases lines.len(),
{
    let f = |line: Seq<char>|
        if text::trim(line).len() > 0 {
            Some(text::trim(line))
        } else {
            None
        };
    if lines.len() == 0 {
        assert(listed(lines) =~= lines.filter_map(f));
    } else {
        a_list_has_a_tracker_on_each_line(lines.drop_last());
        let before = lines.drop_last().filter_map(f);
        let line = text::trim(lines.last());
        if line.len() > 0 {
            assert(before.push(line) =~= before + seq![line]);
        }
    }
}

/// The first twenty of the ranked trackers are kept, and all where there are
/// no more.
pub proof fn the_best_twenty_are_kept(ranked: Seq<Seq<char>>)
    ensures
        ranked.len() <= 20 ==> best(ranked) == ranked,
        ranked.len() > 20 ==> best(ranked).len() == 20 && forall|i: int|
            0 <= i < 20 ==> #[trigger] best(ranked)[i] == ranked[i],
{
}

/// A list is old a day after it was made; until then the one at hand is
/// used, or the one in the cache where none is.
pub proof fn a_list_is_good_for_a_day(at_hand: Seq<Seq<char>>, at: i64, now: i64)
    ensures
        now - at >= 86_400 ==> refresh_spec(at_hand, EventView::LastUpdated(at), now) == (
            at_hand,
            ActionView::AskSource,
        ),
        now - at < 86_400 && at_hand.len() > 0 ==> refresh_spec(
            at_hand,
            EventView::LastUpdated(at),
            now,
        ) == (at_hand, ActionView::Done),
        now - at < 86_400 && at_hand.len() == 0 ==> refresh_spec(
            at_hand,
            EventView::LastUpdated(at),
            now,
        ) == (at_hand, ActionView::AskCache),
{
}

/// Trackers that the cache has are used, and where it has none the source is
/// asked. What the source lists is ranked, and what was ranked is saved and
/// then used; without a storage the list itself is used.
pub proof fn what_is_fetched_is_ranked_saved_and_used(
    at_hand: Seq<Seq<char>>,
    trackers: Seq<Seq<char>>,
    url: Seq<char>,
    now: i64,
)
    requires
        trackers.len() > 0,
    ensures
        refresh_spec(at_hand, EventView::Start { stored: true }, now) == (
            at_hand,
            ActionView::AskAge,
        ),
        refresh_spec(at_hand, EventView::Forgotten, now) == (at_hand, ActionView::AskAge),
        refresh_spec(at_hand, EventView::Cached(trackers), now) == (trackers, ActionView::Done),
        refresh_spec(at_hand, EventView::Cached(Seq::empty()), now) == (
            at_hand,
            ActionView::AskSource,
        ),
        refresh_spec(at_hand, EventView::Source(url), now) == (
            at_hand,
            ActionView::Fetch { url, rank: true },
        ),
        refresh_spec(at_hand, EventView::Fetched { trackers, rank: true }, now) == (
            at_hand,
            ActionView::Rank(trackers),
        ),
        refresh_spec(at_hand, EventView::Start { stored: false }, now) == refresh_spec(
            at_hand,
            EventView::Forced { stored: false },
            now,
        ),
        refresh_spec(at_hand, EventView::Start { stored: false }, now) == (
            at_hand,
            ActionView::Fetch {
                url: "https://raw.githubusercontent.com/ngosang/trackerslist/master/trackers_best.txt"@,
                rank: false,
            },
        ),
        refresh_spec(at_hand, EventView::Fetched { trackers, rank: false }, now) == (
            trackers,
            ActionView::Done,
        ),
        refresh_spec(at_hand, EventView::Saved(trackers), now) == (trackers, ActionView::Done),
{
}

/// Without a storage the list of the default source is fetched and used as
/// it comes, and so is a list that was saved.
pub proof fn without_a_storage_what_is_fetched_is_used(
    at_hand: Seq<Seq<char>>,
    trackers: Seq<Seq<char>>,
    now: i64,
)
    requires
        trackers.len() > 0,
    ensures
        ({
            let (before, action) = refresh_spec(at_hand, EventView::Start { stored: false }, now);
            &&& before == at_hand
            &&& action matches ActionView::Fetch { url, rank } && url == DEFAULT_TRACKERS_URL@
                && !rank && refresh_spec(before, EventView::Fetched { trackers, rank }, now) == (
                trackers,
                ActionView::Done,
            )
        }),
        refresh_spec(at_hand, EventView::Saved(trackers), now) == (trackers, ActionView::Done),
{
}

} // verus!
