//! When a DHT is reported on.
use stream_server::diagnostics::dht_health::{
    DhtHealthReporter, DhtReport, DhtStatus, BOOTSTRAP_GRACE, POLL_INTERVAL,
};

fn usable(nodes: u64) -> DhtStatus {
    DhtStatus {
        enabled: true,
        nodes,
        nodes_v6: 0,
        ever_bootstrapped: nodes > 0,
    }
}

fn cold() -> DhtStatus {
    DhtStatus {
        enabled: true,
        ..DhtStatus::default()
    }
}

#[test]
fn a_dht_that_comes_up_is_reported_once_and_then_never_again() {
    let mut reporter = DhtHealthReporter::default();
    assert_eq!(reporter.observe(0, cold()), None);
    assert_eq!(
        reporter.observe(30, usable(8)),
        Some(DhtReport::Bootstrapped)
    );
    for secs in [60, 90, 600, 3600] {
        assert_eq!(
            reporter.observe(secs, usable(8)),
            None,
            "{secs}s"
        );
    }
    // Even an empty routing table later is not news: it bootstrapped.
    assert_eq!(reporter.observe(7200, cold()), None);
}

/// The whole point: half an hour of a dead DHT is ONE warning, not one
/// per librqbit bootstrap retry.
#[test]
fn an_unreachable_dht_warns_once_not_every_sample() {
    let mut reporter = DhtHealthReporter::default();
    let mut reports = Vec::new();
    // 28 minutes of samples at the real poll interval -- the length of
    // the field session that prompted this.
    let samples = (28 * 60) / POLL_INTERVAL;
    for tick in 0..samples {
        let since_start = POLL_INTERVAL * tick;
        if let Some(report) = reporter.observe(since_start, cold()) {
            reports.push((since_start, report));
        }
    }
    assert_eq!(
        reports,
        vec![(BOOTSTRAP_GRACE, DhtReport::Unavailable)],
        "exactly one report, at the end of the grace window"
    );
}

#[test]
fn nothing_is_reported_before_the_grace_window_expires() {
    let mut reporter = DhtHealthReporter::default();
    assert_eq!(
        reporter.observe(BOOTSTRAP_GRACE - 1, cold()),
        None
    );
    assert_eq!(
        reporter.observe(BOOTSTRAP_GRACE, cold()),
        Some(DhtReport::Unavailable)
    );
}

#[test]
fn a_recovery_retracts_the_warning_once() {
    let mut reporter = DhtHealthReporter::default();
    assert_eq!(
        reporter.observe(BOOTSTRAP_GRACE, cold()),
        Some(DhtReport::Unavailable)
    );
    assert_eq!(reporter.observe(120, cold()), None);
    assert_eq!(
        reporter.observe(150, usable(3)),
        Some(DhtReport::Recovered)
    );
    assert_eq!(reporter.observe(180, usable(3)), None);
    assert_eq!(reporter.observe(210, cold()), None);
}

#[test]
fn a_backend_without_a_dht_never_reports_anything() {
    let mut reporter = DhtHealthReporter::default();
    for secs in [0, 90, 600, 3600] {
        assert_eq!(
            reporter.observe(secs, DhtStatus::default()),
            None,
            "{secs}s"
        );
    }
}
