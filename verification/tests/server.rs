//! What a run does, and in which order.
use stream_server::addr::{IpAddr, Ipv4Addr, SocketAddr};
use stream_server::config::ServerConfig;
use stream_server::lifecycle::{FirstEvent, ShutdownSource};
use stream_server::server::{Outcome, Phase, Run};

/// Everything a run does when each thing comes to what `outcome` says.
fn all_phases(mut run: Run, outcome: impl Fn(Phase) -> Outcome) -> Vec<Phase> {
    let mut seen = vec![run.phase()];
    while run.phase() != Phase::Return {
        match run.step(outcome(run.phase())) {
            Ok(next) => seen.push(next),
            Err(_) => break,
        }
    }
    seen
}

fn asked(p: Phase) -> Outcome {
    match p {
        Phase::Serve => Outcome::Stopped(FirstEvent::Asked(ShutdownSource::External)),
        _ => Outcome::Done,
    }
}

#[test]
fn an_embedded_run_does_little() {
    let seen = all_phases(Run::new(ServerConfig::embedded(), false), asked);
    assert_eq!(
        seen,
        vec![
            Phase::BindHttp,
            Phase::CreateDirs,
            Phase::LoadSettings,
            Phase::OpenDiskEngine,
            Phase::MakeToken,
            Phase::PrepareDownloadsDir,
            Phase::StartCacheCleaner,
            Phase::StartDhtHealth,
            Phase::ReportReady,
            Phase::Serve,
            Phase::Drain,
            Phase::AbortTasks,
            Phase::StopLanMedia,
            Phase::Return,
        ]
    );
}

#[test]
fn the_programs_own_run_does_the_rest_too() {
    let seen = all_phases(Run::new(ServerConfig::binary_default(), false), asked);
    for phase in [
        Phase::InstallPanicHook,
        Phase::OpenLogs,
        Phase::InstallCrashHandler,
        Phase::LogContext,
        Phase::PrintToken,
        Phase::StartMemorySampler,
        Phase::StartSsdpDiscovery,
        Phase::Announce,
        Phase::FindCertificate,
        Phase::ServeHttps,
    ] {
        assert!(seen.contains(&phase), "{phase:?}");
    }
    assert!(!seen.contains(&Phase::StartTui));
    // Log files are opened once in a process.
    let again = all_phases(Run::new(ServerConfig::binary_default(), true), asked);
    assert!(!again.contains(&Phase::OpenLogs) && !again.contains(&Phase::LogContext));
}

#[test]
fn what_cannot_be_done_is_made_up_for() {
    let seen = all_phases(Run::new(ServerConfig::embedded(), false), |p| match p {
        Phase::OpenDiskEngine | Phase::PrepareDownloadsDir => Outcome::Not,
        _ => asked(p),
    });
    assert!(seen.contains(&Phase::OpenMemoryEngine));
    assert!(seen.contains(&Phase::SaveSettings));
    let unset = all_phases(Run::new(ServerConfig::embedded(), false), |p| match p {
        Phase::LoadSettings => Outcome::Not,
        _ => asked(p),
    });
    assert!(!unset.contains(&Phase::PrepareDownloadsDir));
    assert!(!unset.contains(&Phase::SaveSettings));
    let no_https = all_phases(Run::new(ServerConfig::binary_default(), false), |p| match p {
        Phase::FindCertificate => Outcome::Not,
        _ => asked(p),
    });
    assert!(!no_https.contains(&Phase::ServeHttps));
}

#[test]
fn a_configured_lan_listener_is_bound_before_ready() {
    let mut cfg = ServerConfig::embedded();
    cfg.lan_media_addr =
        Some(SocketAddr { ip: IpAddr::V4(Ipv4Addr::unspecified()), port: 0 });
    let seen = all_phases(Run::new(cfg, false), asked);
    let lan = seen.iter().position(|p| *p == Phase::BindLanMedia).expect("bound");
    let ready = seen.iter().position(|p| *p == Phase::ReportReady).expect("ready");
    assert!(lan < ready);
}

#[test]
fn a_failure_ends_the_run_where_it_is() {
    let mut run = Run::new(ServerConfig::embedded(), false);
    assert_eq!(
        run.step(Outcome::Failed("port taken".to_string())),
        Err("port taken".to_string())
    );
    assert_eq!(run.phase(), Phase::BindHttp);
    assert_eq!(run.config().graceful_shutdown_timeout, 3);
}

#[test]
fn a_run_goes_on_without_what_it_can_do_without() {
    let failing = |p| match p {
        Phase::OpenDiskEngine | Phase::ServeHttps | Phase::PrepareDownloadsDir
        | Phase::SaveSettings => Outcome::Failed("no".to_string()),
        _ => asked(p),
    };
    let seen = all_phases(Run::new(ServerConfig::binary_default(), false), failing);
    assert!(seen.contains(&Phase::OpenMemoryEngine));
    assert!(seen.contains(&Phase::ServeHttps));
    assert!(seen.contains(&Phase::SaveSettings));
    assert_eq!(seen.last(), Some(&Phase::Return));
}

#[test]
fn a_drain_that_takes_too_long_ends_the_process_only_where_it_may() {
    let stuck = |p| match p {
        Phase::Drain => Outcome::Not,
        _ => asked(p),
    };
    let program = all_phases(Run::new(ServerConfig::binary_default(), false), stuck);
    assert!(program.contains(&Phase::ExitProcess));
    let embedded = all_phases(Run::new(ServerConfig::embedded(), false), stuck);
    assert!(!embedded.contains(&Phase::ExitProcess));
}

#[test]
fn a_run_says_who_ended_it() {
    let mut run = Run::new(ServerConfig::embedded(), false);
    while run.phase() != Phase::Return {
        let outcome = asked(run.phase());
        run.step(outcome).expect("nothing fails");
    }
    assert_eq!(run.source(), Some(ShutdownSource::External));

    let mut run = Run::new(ServerConfig::embedded(), false);
    while run.phase() != Phase::Return {
        let outcome = match run.phase() {
            Phase::Serve => Outcome::Stopped(FirstEvent::Ended(None)),
            _ => Outcome::Done,
        };
        let next = run.step(outcome).expect("nothing fails");
        assert_ne!(next, Phase::Drain);
    }
    assert_eq!(run.source(), None);
}
