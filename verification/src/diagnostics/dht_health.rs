//! One clear report on whether the mainline DHT works on this network.
//!
//! The routing table is sampled on a timer and the conclusion is reported
//! once: when the DHT comes up, when it has demonstrably not come up within
//! [`BOOTSTRAP_GRACE`], and when it recovers after that.
use vstd::prelude::*;

verus! {

/// How long a cold DHT is given, in seconds, before it is reported as
/// unavailable. Generous on purpose: a false "DHT unavailable" is worse than
/// a late true one.
pub const BOOTSTRAP_GRACE: u64 = 90;

/// How often the routing table is sampled, in seconds.
pub const POLL_INTERVAL: u64 = 30;

/// One sample of the DHT.
#[derive(Debug, Clone, Copy, PartialEq, Eq, Structural)]
pub struct DhtStatus {
    /// Whether a DHT is running at all.
    pub enabled: bool,
    /// How many nodes the two routing tables hold.
    pub nodes: u64,
    pub nodes_v6: u64,
    /// Whether it ever held any.
    pub ever_bootstrapped: bool,
}

impl Default for DhtStatus {
    fn default() -> (s: Self)
        ensures
            s == (DhtStatus { enabled: false, nodes: 0, nodes_v6: 0, ever_bootstrapped: false }),
    {
        DhtStatus { enabled: false, nodes: 0, nodes_v6: 0, ever_bootstrapped: false }
    }
}

/// Whether a sample found a node to ask.
pub open spec fn usable(s: DhtStatus) -> bool {
    s.enabled && (s.nodes > 0 || s.nodes_v6 > 0)
}

impl DhtStatus {
    /// Whether a sample found a node to ask.
    pub fn is_usable(&self) -> (r: bool)
        ensures
            r == usable(*self),
    {
        self.enabled && (self.nodes > 0 || self.nodes_v6 > 0)
    }
}

/// The one-off conclusions worth a log line above debug.
#[derive(Debug, Clone, Copy, PartialEq, Eq, Structural)]
pub enum DhtReport {
    /// The DHT has nodes: peer discovery is fully working.
    Bootstrapped,
    /// [`BOOTSTRAP_GRACE`] passed with an empty routing table. Reported once.
    Unavailable,
    /// It came up after [`DhtReport::Unavailable`] was reported, so that
    /// warning no longer holds.
    Recovered,
}

/// What has been reported so far.
#[derive(Debug, Clone, Copy, PartialEq, Eq, Structural)]
pub enum Phase {
    /// Nothing reported yet, still inside the grace window.
    Waiting,
    /// [`DhtReport::Bootstrapped`] or [`DhtReport::Recovered`] was reported;
    /// nothing more to say for the rest of the session.
    Up,
    /// [`DhtReport::Unavailable`] was reported; only a recovery is news.
    Down,
    /// No DHT is running at all, so there is nothing to report ever.
    Disabled,
}

/// What a sample makes of the phase, and what is worth reporting of it.
pub open spec fn observed(phase: Phase, since_start: u64, status: DhtStatus) -> (
    Phase,
    Option<DhtReport>,
) {
    if !status.enabled {
        (Phase::Disabled, None)
    } else {
        match phase {
            Phase::Disabled => (Phase::Disabled, None),
            Phase::Up => (Phase::Up, None),
            Phase::Waiting => if usable(status) {
                (Phase::Up, Some(DhtReport::Bootstrapped))
            } else if since_start >= BOOTSTRAP_GRACE {
                (Phase::Down, Some(DhtReport::Unavailable))
            } else {
                (Phase::Waiting, None)
            },
            Phase::Down => if usable(status) {
                (Phase::Up, Some(DhtReport::Recovered))
            } else {
                (Phase::Down, None)
            },
        }
    }
}

/// Turns a stream of [`DhtStatus`] samples into at most a couple of
/// log-worthy conclusions. `observe` takes the time since the first sample
/// rather than reading a clock.
#[derive(Debug)]
pub struct DhtHealthReporter {
    phase: Phase,
}

impl View for DhtHealthReporter {
    type V = Phase;

    closed spec fn view(&self) -> Phase {
        self.phase
    }
}

impl Default for DhtHealthReporter {
    fn default() -> (r: Self)
        ensures
            r@ == Phase::Waiting,
    {
        DhtHealthReporter { phase: Phase::Waiting }
    }
}

impl DhtHealthReporter {
    /// Fold in one sample taken `since_start` seconds after the reporter
    /// began, and say what (if anything) is worth reporting above debug
    /// level.
    pub fn observe(&mut self, since_start: u64, status: DhtStatus) -> (r: Option<DhtReport>)
        ensures
            (final(self)@, r) == observed(old(self)@, since_start, status),
    {
        if !status.enabled {
            // A backend with no DHT is a deliberate configuration, not a
            // network problem: latch it so a later sample cannot warn.
            self.phase = Phase::Disabled;
            return None;
        }
        let up = status.is_usable();
        match self.phase {
            Phase::Disabled | Phase::Up => None,
            Phase::Waiting => {
                if up {
                    self.phase = Phase::Up;
                    Some(DhtReport::Bootstrapped)
                } else if since_start >= BOOTSTRAP_GRACE {
                    self.phase = Phase::Down;
                    Some(DhtReport::Unavailable)
                } else {
                    None
                }
            },
            Phase::Down => {
                if up {
                    self.phase = Phase::Up;
                    Some(DhtReport::Recovered)
                } else {
                    None
                }
            },
        }
    }
}

/// What a run of samples, each with its time, reports in order.
pub open spec fn reports(phase: Phase, samples: Seq<(u64, DhtStatus)>) -> Seq<DhtReport>
    decreases samples.len(),
{
    if samples.len() == 0 {
        Seq::empty()
    } else {
        let (next, report) = observed(phase, samples[0].0, samples[0].1);
        let rest = reports(next, samples.drop_first());
        match report {
            Some(r) => seq![r] + rest,
            None => rest,
        }
    }
}

/// Once the DHT came up, or there is none, nothing is reported any more.
pub proof fn a_settled_reporter_is_silent(phase: Phase, samples: Seq<(u64, DhtStatus)>)
    requires
        phase is Up || phase is Disabled,
    ensures
        reports(phase, samples) == Seq::<DhtReport>::empty(),
    decreases samples.len(),
{
    if samples.len() > 0 {
        let next = observed(phase, samples[0].0, samples[0].1).0;
        a_settled_reporter_is_silent(next, samples.drop_first());
    }
}

/// After the warning, a recovery is the only thing ever reported, once.
pub proof fn a_warning_is_only_ever_taken_back(samples: Seq<(u64, DhtStatus)>)
    ensures
        reports(Phase::Down, samples) == Seq::<DhtReport>::empty() || reports(
            Phase::Down,
            samples,
        ) == seq![DhtReport::Recovered],
    decreases samples.len(),
{
    if samples.len() > 0 {
        let (next, report) = observed(Phase::Down, samples[0].0, samples[0].1);
        let rest = samples.drop_first();
        if next is Down {
            a_warning_is_only_ever_taken_back(rest);
        } else {
            a_settled_reporter_is_silent(next, rest);
            assert(seq![DhtReport::Recovered] + Seq::<DhtReport>::empty() =~= seq![
                DhtReport::Recovered,
            ]);
        }
    }
}

/// A whole session reports nothing, or that the DHT came up, or one warning
/// that may be taken back once: however many samples are taken.
pub proof fn a_session_reports_one_conclusion(samples: Seq<(u64, DhtStatus)>)
    ensures
        ({
            let r = reports(Phase::Waiting, samples);
            ||| r == Seq::<DhtReport>::empty()
            ||| r == seq![DhtReport::Bootstrapped]
            ||| r == seq![DhtReport::Unavailable]
            ||| r == seq![DhtReport::Unavailable, DhtReport::Recovered]
        }),
    decreases samples.len(),
{
    if samples.len() > 0 {
        let (next, report) = observed(Phase::Waiting, samples[0].0, samples[0].1);
        let rest = samples.drop_first();
        if next is Waiting {
            a_session_reports_one_conclusion(rest);
        } else if next is Down {
            a_warning_is_only_ever_taken_back(rest);
            assert(seq![DhtReport::Unavailable] + Seq::<DhtReport>::empty() =~= seq![
                DhtReport::Unavailable,
            ]);
            assert(seq![DhtReport::Unavailable] + seq![DhtReport::Recovered] =~= seq![
                DhtReport::Unavailable,
                DhtReport::Recovered,
            ]);
        } else {
            a_settled_reporter_is_silent(next, rest);
            assert(seq![DhtReport::Bootstrapped] + Seq::<DhtReport>::empty() =~= seq![
                DhtReport::Bootstrapped,
            ]);
        }
    }
}

/// Nothing is reported as unavailable before the grace window is over.
pub proof fn no_warning_before_the_grace_is_over(samples: Seq<(u64, DhtStatus)>)
    requires
        forall|i: int| 0 <= i < samples.len() ==> (#[trigger] samples[i]).0 < BOOTSTRAP_GRACE,
    ensures
        !reports(Phase::Waiting, samples).contains(DhtReport::Unavailable),
    decreases samples.len(),
{
    if samples.len() > 0 {
        let (next, report) = observed(Phase::Waiting, samples[0].0, samples[0].1);
        let rest = samples.drop_first();
        assert forall|i: int| 0 <= i < rest.len() implies (#[trigger] rest[i]).0
            < BOOTSTRAP_GRACE by {
            assert(rest[i] == samples[i + 1]);
        }
        if next is Waiting {
            no_warning_before_the_grace_is_over(rest);
        } else {
            a_settled_reporter_is_silent(next, rest);
        }
    }
}

/// A look at a session's nodes settles it once there are any, of either
/// kind; ninety seconds without one are reported, and the first node after
/// that is too; a session without the network is settled at once.
pub proof fn a_look_settles_a_session(since_start: u64, status: DhtStatus)
    ensures
        !status.enabled ==> forall|p: Phase| #[trigger] observed(p, since_start, status) == (
            Phase::Disabled,
            None::<DhtReport>,
        ),
        status.enabled && (status.nodes > 0 || status.nodes_v6 > 0) ==> observed(
            Phase::Waiting,
            since_start,
            status,
        ) == (Phase::Up, Some(DhtReport::Bootstrapped)) && observed(
            Phase::Down,
            since_start,
            status,
        ) == (Phase::Up, Some(DhtReport::Recovered)),
        status.enabled && status.nodes == 0 && status.nodes_v6 == 0 && since_start < 90 ==> observed(
            Phase::Waiting,
            since_start,
            status,
        ) == (Phase::Waiting, None::<DhtReport>),
        status.enabled && status.nodes == 0 && status.nodes_v6 == 0 && since_start >= 90
            ==> observed(Phase::Waiting, since_start, status) == (
            Phase::Down,
            Some(DhtReport::Unavailable),
        ),
        status.enabled && status.nodes == 0 && status.nodes_v6 == 0 ==> observed(
            Phase::Down,
            since_start,
            status,
        ) == (Phase::Down, None::<DhtReport>),
        status.enabled ==> observed(Phase::Up, since_start, status) == (
            Phase::Up,
            None::<DhtReport>,
        ),
{
}

} // verus!
