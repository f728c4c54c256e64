//! A server's run, from its first bind to its last task: what is done, in
//! which order, and what is left out.
use crate::auth::ServerAuth;
use crate::config;
use crate::config::ServerConfig;
use crate::lifecycle;
use crate::lifecycle::{shut_down, Ending, FirstEvent, ShutdownSource};
use vstd::prelude::*;

verus! {

/// Something a run does.
#[derive(Debug, Clone, Copy, PartialEq, Eq, Structural)]
pub enum Phase {
    /// Bind the HTTP listener.
    BindHttp,
    /// Find and make the directories.
    CreateDirs,
    InstallPanicHook,
    /// Open the log files. Not done where a subscriber is there already.
    OpenLogs,
    InstallCrashHandler,
    /// Say in the logs what was started.
    LogContext,
    /// Load the settings. Not done where no downloads directory is set.
    LoadSettings,
    /// Open the engine that keeps its downloads on the disk. Not done where
    /// it is unavailable.
    OpenDiskEngine,
    /// Open an engine that keeps them in memory instead.
    OpenMemoryEngine,
    /// Make the token of the control API.
    MakeToken,
    /// Print it, once, to whoever started the program.
    PrintToken,
    /// Prepare the downloads directory. Not done where it is unusable.
    PrepareDownloadsDir,
    /// Save the settings, without the directory that was unusable.
    SaveSettings,
    StartCacheCleaner,
    StartMemorySampler,
    StartSsdpDiscovery,
    /// Start what says whether the DHT works.
    StartDhtHealth,
    StartTui,
    /// Bind the LAN media listener.
    BindLanMedia,
    /// Print where the server listens.
    Announce,
    /// Tell whoever waits that the server is up.
    ReportReady,
    /// Look for a certificate. Not done where there is none.
    FindCertificate,
    /// Serve over TLS too.
    ServeHttps,
    /// Serve until the server ends or is asked to stop.
    Serve,
    /// Let the responses in flight end. Not done where time runs out.
    Drain,
    /// End the process.
    ExitProcess,
    AbortTasks,
    StopLanMedia,
    /// Return who asked the server to stop.
    Return,
}

/// What came of doing it.
#[derive(Debug)]
pub enum Outcome {
    Done,
    /// It could not be done, and the run goes on without it.
    Not,
    /// Serving came to an end.
    Stopped(FirstEvent),
    /// It failed, and the run with it, unless it can do without.
    Failed(String),
}

/// What a run has learned on its way.
#[derive(Debug, Clone, Copy, PartialEq, Eq, Structural)]
pub struct Facts {
    pub logs_installed: bool,
    pub memory_only: bool,
    pub downloads_dir: bool,
    pub cleared: bool,
    pub certificate: bool,
    pub first: Option<FirstEvent>,
    pub drained: bool,
}

/// The order things are done in.
pub open spec fn order() -> Seq<Phase> {
    seq![
        Phase::BindHttp,
        Phase::CreateDirs,
        Phase::InstallPanicHook,
        Phase::OpenLogs,
        Phase::InstallCrashHandler,
        Phase::LogContext,
        Phase::LoadSettings,
        Phase::OpenDiskEngine,
        Phase::OpenMemoryEngine,
        Phase::MakeToken,
        Phase::PrintToken,
        Phase::PrepareDownloadsDir,
        Phase::SaveSettings,
        Phase::StartCacheCleaner,
        Phase::StartMemorySampler,
        Phase::StartSsdpDiscovery,
        Phase::StartDhtHealth,
        Phase::StartTui,
        Phase::BindLanMedia,
        Phase::Announce,
        Phase::ReportReady,
        Phase::FindCertificate,
        Phase::ServeHttps,
        Phase::Serve,
        Phase::Drain,
        Phase::ExitProcess,
        Phase::AbortTasks,
        Phase::StopLanMedia,
        Phase::Return,
    ]
}

/// Whether a thing is done: as the configuration says, and as what was
/// learned before makes it necessary. `logs_before` is whether the process
/// has its log files already: they are then its for good.
pub open spec fn wanted(c: ServerConfig, logs_before: bool, f: Facts, p: Phase) -> bool {
    match p {
        Phase::InstallPanicHook | Phase::InstallCrashHandler => c.manage_process_globals,
        Phase::OpenLogs => c.init_logging && !logs_before,
        Phase::LogContext => f.logs_installed,
        Phase::OpenMemoryEngine => f.memory_only,
        Phase::PrintToken => c.print_startup && c.auth == ServerAuth::Generated,
        Phase::PrepareDownloadsDir => f.downloads_dir,
        Phase::SaveSettings => f.cleared,
        Phase::StartCacheCleaner => c.enable_cache_cleaner,
        Phase::StartMemorySampler => c.enable_memory_sampler,
        Phase::StartSsdpDiscovery => c.enable_ssdp_discovery,
        Phase::StartTui => c.use_tui,
        Phase::BindLanMedia => c.lan_media_addr is Some,
        Phase::Announce => c.print_startup,
        Phase::FindCertificate => c.https_addr is Some,
        Phase::ServeHttps => f.certificate,
        Phase::Drain => f.first matches Some(FirstEvent::Asked(_)),
        Phase::ExitProcess => f.first matches Some(first) && lifecycle::ending(
            first,
            f.drained,
            c.exit_process_on_shutdown_timeout,
        ) is ExitProcess,
        _ => true,
    }
}

/// Whether a run goes on without a thing that failed. A disk that cannot
/// hold downloads, a directory that is gone and a certificate that will not
/// load leave a server that is still of use.
pub open spec fn may_fail(p: Phase) -> bool {
    p is OpenDiskEngine || p is PrepareDownloadsDir || p is SaveSettings || p is ServeHttps
}

/// What is known once a thing was done, or was not.
pub open spec fn learned(f: Facts, p: Phase, o: Outcome) -> Facts {
    match p {
        Phase::OpenLogs => Facts { logs_installed: o is Done, ..f },
        Phase::LoadSettings => Facts { downloads_dir: o is Done, ..f },
        Phase::OpenDiskEngine => Facts { memory_only: !(o is Done), ..f },
        Phase::PrepareDownloadsDir => Facts { cleared: !(o is Done), ..f },
        Phase::FindCertificate => Facts { certificate: o is Done, ..f },
        Phase::Serve => Facts {
            first: Some(
                match o {
                    Outcome::Stopped(first) => first,
                    _ => FirstEvent::Ended(None),
                },
            ),
            ..f
        },
        Phase::Drain => Facts { drained: o is Done, ..f },
        _ => f,
    }
}

/// The place of the first thing, from a place on, that is done.
pub open spec fn next_from(c: ServerConfig, logs_before: bool, f: Facts, k: int) -> int
    decreases order().len() - k,
{
    if k >= order().len() - 1 {
        order().len() - 1
    } else if wanted(c, logs_before, f, order()[k]) {
        k
    } else {
        next_from(c, logs_before, f, k + 1)
    }
}

/// Who a run says asked it to stop, once it is over.
pub open spec fn told(f: Facts) -> Option<ShutdownSource> {
    match f.first {
        Some(FirstEvent::Asked(source)) => Some(source),
        Some(FirstEvent::Ended(source)) => source,
        None => None,
    }
}

/// A server's run.
#[derive(Debug)]
pub struct Run {
    cfg: ServerConfig,
    logs_before: bool,
    facts: Facts,
    phases: Vec<Phase>,
    at: usize,
}

/// Where a run is.
pub struct RunView {
    pub cfg: ServerConfig,
    pub logs_before: bool,
    pub facts: Facts,
    pub at: int,
}

impl View for Run {
    type V = RunView;

    closed spec fn view(&self) -> RunView {
        RunView {
            cfg: self.cfg,
            logs_before: self.logs_before,
            facts: self.facts,
            at: self.at as int,
        }
    }
}

fn phases() -> (v: Vec<Phase>)
    ensures
        v@ == order(),
{
    let v: Vec<Phase> =
        vec![
        Phase::BindHttp,
        Phase::CreateDirs,
        Phase::InstallPanicHook,
        Phase::OpenLogs,
        Phase::InstallCrashHandler,
        Phase::LogContext,
        Phase::LoadSettings,
        Phase::OpenDiskEngine,
        Phase::OpenMemoryEngine,
        Phase::MakeToken,
        Phase::PrintToken,
        Phase::PrepareDownloadsDir,
        Phase::SaveSettings,
        Phase::StartCacheCleaner,
        Phase::StartMemorySampler,
        Phase::StartSsdpDiscovery,
        Phase::StartDhtHealth,
        Phase::StartTui,
        Phase::BindLanMedia,
        Phase::Announce,
        Phase::ReportReady,
        Phase::FindCertificate,
        Phase::ServeHttps,
        Phase::Serve,
        Phase::Drain,
        Phase::ExitProcess,
        Phase::AbortTasks,
        Phase::StopLanMedia,
        Phase::Return,
    ];
    proof {
        assert(v@ =~= order());
    }
    v
}

impl Run {
    /// Whether the run is at one of its phases.
    pub closed spec fn well_formed(self) -> bool {
        self.phases@ == order() && self.at < order().len()
    }

    /// A run that is about to bind its listener.
    pub fn new(cfg: ServerConfig, logs_before: bool) -> (r: Self)
        ensures
            r.well_formed(),
            r@.cfg == cfg,
            r@.logs_before == logs_before,
            r@.at == 0,
            r@.facts == (Facts {
                logs_installed: false,
                memory_only: false,
                downloads_dir: false,
                cleared: false,
                certificate: false,
                first: None,
                drained: false,
            }),
    {
        Run {
            cfg,
            logs_before,
            facts: Facts {
                logs_installed: false,
                memory_only: false,
                downloads_dir: false,
                cleared: false,
                certificate: false,
                first: None,
                drained: false,
            },
            phases: phases(),
            at: 0,
        }
    }

    /// The configuration of the run.
    pub fn config(&self) -> (c: &ServerConfig)
        ensures
            *c == self@.cfg,
    {
        &self.cfg
    }

    /// What is to be done now.
    pub fn phase(&self) -> (p: Phase)
        requires
            self.well_formed(),
        ensures
            p == order()[self@.at],
    {
        self.phases[self.at]
    }

    /// Whether a thing is done.
    fn wants(&self, p: Phase, f: Facts) -> (r: bool)
        ensures
            r == wanted(self@.cfg, self@.logs_before, f, p),
    {
        match p {
            Phase::InstallPanicHook | Phase::InstallCrashHandler => self.cfg.manage_process_globals,
            Phase::OpenLogs => self.cfg.init_logging && !self.logs_before,
            Phase::LogContext => f.logs_installed,
            Phase::OpenMemoryEngine => f.memory_only,
            Phase::PrintToken => self.cfg.print_startup && self.cfg.auth == ServerAuth::Generated,
            Phase::PrepareDownloadsDir => f.downloads_dir,
            Phase::SaveSettings => f.cleared,
            Phase::StartCacheCleaner => self.cfg.enable_cache_cleaner,
            Phase::StartMemorySampler => self.cfg.enable_memory_sampler,
            Phase::StartSsdpDiscovery => self.cfg.enable_ssdp_discovery,
            Phase::StartTui => self.cfg.use_tui,
            Phase::BindLanMedia => self.cfg.lan_media_addr.is_some(),
            Phase::Announce => self.cfg.print_startup,
            Phase::FindCertificate => self.cfg.https_addr.is_some(),
            Phase::ServeHttps => f.certificate,
            Phase::Drain => match f.first {
                Some(FirstEvent::Asked(_)) => true,
                _ => false,
            },
            Phase::ExitProcess => match f.first {
                Some(first) => match shut_down(
                    first,
                    f.drained,
                    self.cfg.exit_process_on_shutdown_timeout,
                ) {
                    Ending::ExitProcess => true,
                    Ending::Return(_) => false,
                },
                None => false,
            },
            _ => true,
        }
    }

    /// Take in what came of the phase the run is at, and say what is next.
    /// A failure of what the run cannot do without ends it where it is, with
    /// what went wrong.
    pub fn step(&mut self, outcome: Outcome) -> (r: Result<Phase, String>)
        requires
            old(self).well_formed(),
        ensures
            final(self).well_formed(),
            if outcome is Failed && !may_fail(order()[old(self)@.at]) {
                &&& r matches Err(why) && why@ == outcome->Failed_0@
                &&& final(self)@ == old(self)@
            } else {
                let f = learned(old(self)@.facts, order()[old(self)@.at], outcome);
                let to = next_from(old(self)@.cfg, old(self)@.logs_before, f, old(self)@.at + 1);
                &&& r == Ok::<Phase, String>(order()[to])
                &&& final(self)@ == (RunView { facts: f, at: to, ..old(self)@ })
            },
    {
        let done: bool = match &outcome {
            Outcome::Done => true,
            _ => false,
        };
        let mut f = self.facts;
        match self.phase() {
            Phase::OpenLogs => {
                f.logs_installed = done;
            },
            Phase::LoadSettings => {
                f.downloads_dir = done;
            },
            Phase::OpenDiskEngine => {
                f.memory_only = !done;
            },
            Phase::PrepareDownloadsDir => {
                f.cleared = !done;
            },
            Phase::FindCertificate => {
                f.certificate = done;
            },
            Phase::Serve => {
                f.first = Some(
                    match &outcome {
                        Outcome::Stopped(first) => *first,
                        _ => FirstEvent::Ended(None),
                    },
                );
            },
            Phase::Drain => {
                f.drained = done;
            },
            _ => {},
        }
        let spared = match self.phase() {
            Phase::OpenDiskEngine
            | Phase::PrepareDownloadsDir
            | Phase::SaveSettings
            | Phase::ServeHttps => true,
            _ => false,
        };
        if let Outcome::Failed(e) = outcome {
            if !spared {
                return Err(e);
            }
        }
        let last: usize = self.phases.len() - 1;
        let mut k: usize = if self.at < last {
            self.at + 1
        } else {
            last
        };
        while k < last && !self.wants(self.phases[k], f)
            invariant
                self.well_formed(),
                self@ == old(self)@,
                last == order().len() - 1,
                self.phases@ == order(),
                k <= last,
                next_from(self@.cfg, self@.logs_before, f, old(self)@.at + 1) == next_from(
                    self@.cfg,
                    self@.logs_before,
                    f,
                    k as int,
                ),
            decreases last - k,
        {
            k += 1;
        }
        self.facts = f;
        self.at = k;
        Ok(self.phases[k])
    }

    /// Who asked the server to stop, if anyone did.
    pub fn source(&self) -> (r: Option<ShutdownSource>)
        ensures
            r == told(self@.facts),
    {
        match self.facts.first {
            Some(FirstEvent::Asked(source)) => Some(source),
            Some(FirstEvent::Ended(source)) => source,
            None => None,
        }
    }
}

/// Nothing that is to be done is left out, and nothing else is done.
pub proof fn a_run_does_what_is_wanted(
    c: ServerConfig,
    logs_before: bool,
    f: Facts,
    from: int,
    j: int,
)
    requires
        0 <= from < order().len(),
    ensures
        from <= next_from(c, logs_before, f, from) < order().len(),
        wanted(c, logs_before, f, order()[next_from(c, logs_before, f, from)]),
        from <= j < order().len() && wanted(c, logs_before, f, order()[j]) ==> next_from(
            c,
            logs_before,
            f,
            from,
        ) <= j,
    decreases order().len() - from,
{
    if from < order().len() - 1 && !wanted(c, logs_before, f, order()[from]) {
        a_run_does_what_is_wanted(c, logs_before, f, from + 1, j);
    }
}

/// By the time a server is reported ready, whatever listener was asked for
/// listens, and the token has been made.
pub proof fn ready_is_reported_once_everything_listens(i: int, j: int)
    requires
        0 <= i < order().len(),
        0 <= j < order().len(),
        order()[j] is ReportReady,
        order()[i] is BindHttp || order()[i] is BindLanMedia || order()[i] is MakeToken,
    ensures
        i < j,
{
}

/// Whoever ends a server that is up, its tasks are ended and its LAN
/// listener is stopped before its run returns, unless the process ends.
pub proof fn a_run_leaves_nothing_behind(
    c: ServerConfig,
    logs_before: bool,
    f: Facts,
    i: int,
    j: int,
)
    requires
        0 <= i < order().len(),
        0 <= j < order().len(),
        order()[i] is AbortTasks || order()[i] is StopLanMedia,
        order()[j] is Return,
    ensures
        i < j,
        wanted(c, logs_before, f, order()[i]),
{
}

/// An embedder's server installs nothing in its process, prints nothing, and
/// never ends it, whatever happens.
pub proof fn an_embedded_run_leaves_the_process_alone(
    c: ServerConfig,
    logs_before: bool,
    f: Facts,
    p: Phase,
)
    requires
        config::is_embedded(c),
        p is InstallPanicHook || p is InstallCrashHandler || p is OpenLogs || p is PrintToken
            || p is Announce || p is ExitProcess,
    ensures
        !wanted(c, logs_before, f, p),
{
}

/// A run that gets past its engine has one: in memory where there is none on
/// the disk, and then only.
pub proof fn a_run_has_one_engine(c: ServerConfig, logs_before: bool, f: Facts, o: Outcome)
    ensures
        wanted(c, logs_before, f, Phase::OpenDiskEngine),
        wanted(c, logs_before, learned(f, Phase::OpenDiskEngine, o), Phase::OpenMemoryEngine)
            == !(o is Done),
        !may_fail(Phase::OpenMemoryEngine),
{
}

/// A run binds its port before anything else, opens its logs before what
/// they are to hold, makes its token before it listens on the LAN, says that
/// it is ready once it listens, and after it has served drains, ends the
/// process or its tasks, and returns.
pub proof fn a_run_goes_in_this_order()
    ensures
        order().len() == 29,
        order()[0] is BindHttp,
        order()[1] is CreateDirs,
        order()[2] is InstallPanicHook,
        order()[3] is OpenLogs,
        order()[4] is InstallCrashHandler,
        order()[5] is LogContext,
        order()[6] is LoadSettings,
        order()[7] is OpenDiskEngine,
        order()[8] is OpenMemoryEngine,
        order()[9] is MakeToken,
        order()[10] is PrintToken,
        order()[11] is PrepareDownloadsDir,
        order()[12] is SaveSettings,
        order()[13] is StartCacheCleaner,
        order()[14] is StartMemorySampler,
        order()[15] is StartSsdpDiscovery,
        order()[16] is StartDhtHealth,
        order()[17] is StartTui,
        order()[18] is BindLanMedia,
        order()[19] is Announce,
        order()[20] is ReportReady,
        order()[21] is FindCertificate,
        order()[22] is ServeHttps,
        order()[23] is Serve,
        order()[24] is Drain,
        order()[25] is ExitProcess,
        order()[26] is AbortTasks,
        order()[27] is StopLanMedia,
        order()[28] is Return,
{
}

/// Each phase of a run has its turn where there is something for it to do.
pub proof fn a_phase_is_wanted_where_it_has_something_to_do(
    c: ServerConfig,
    logs_before: bool,
    f: Facts,
)
    ensures
        wanted(c, logs_before, f, Phase::BindHttp),
        wanted(c, logs_before, f, Phase::CreateDirs),
        wanted(c, logs_before, f, Phase::LoadSettings),
        wanted(c, logs_before, f, Phase::OpenDiskEngine),
        wanted(c, logs_before, f, Phase::MakeToken),
        wanted(c, logs_before, f, Phase::StartDhtHealth),
        wanted(c, logs_before, f, Phase::ReportReady),
        wanted(c, logs_before, f, Phase::Serve),
        wanted(c, logs_before, f, Phase::AbortTasks),
        wanted(c, logs_before, f, Phase::StopLanMedia),
        wanted(c, logs_before, f, Phase::Return),
        wanted(c, logs_before, f, Phase::InstallPanicHook) == c.manage_process_globals,
        wanted(c, logs_before, f, Phase::InstallCrashHandler) == c.manage_process_globals,
        wanted(c, logs_before, f, Phase::OpenLogs) == (c.init_logging && !logs_before),
        wanted(c, logs_before, f, Phase::LogContext) == f.logs_installed,
        wanted(c, logs_before, f, Phase::OpenMemoryEngine) == f.memory_only,
        wanted(c, logs_before, f, Phase::PrintToken) == (c.print_startup && c.auth
            == ServerAuth::Generated),
        wanted(c, logs_before, f, Phase::PrepareDownloadsDir) == f.downloads_dir,
        wanted(c, logs_before, f, Phase::SaveSettings) == f.cleared,
        wanted(c, logs_before, f, Phase::StartCacheCleaner) == c.enable_cache_cleaner,
        wanted(c, logs_before, f, Phase::StartMemorySampler) == c.enable_memory_sampler,
        wanted(c, logs_before, f, Phase::StartSsdpDiscovery) == c.enable_ssdp_discovery,
        wanted(c, logs_before, f, Phase::StartTui) == c.use_tui,
        wanted(c, logs_before, f, Phase::BindLanMedia) == (c.lan_media_addr is Some),
        wanted(c, logs_before, f, Phase::Announce) == c.print_startup,
        wanted(c, logs_before, f, Phase::FindCertificate) == (c.https_addr is Some),
        wanted(c, logs_before, f, Phase::ServeHttps) == f.certificate,
        wanted(c, logs_before, f, Phase::Drain) <==> (f.first matches Some(FirstEvent::Asked(_))),
        wanted(c, logs_before, f, Phase::ExitProcess) <==> (f.first matches Some(
            FirstEvent::Asked(_),
        )) && !f.drained && c.exit_process_on_shutdown_timeout,
{
}

/// What a phase's outcome says of the run: whether the logs are there, a
/// directory for downloads is set, the engine on disk has to be done
/// without, the directory was cleared, a certificate was found, why serving
/// ended, and whether everything drained in time.
pub proof fn a_run_learns_from_each_outcome(f: Facts, done: Outcome, other: Outcome, first: FirstEvent)
    requires
        done is Done,
        !(other is Done),
    ensures
        learned(f, Phase::OpenLogs, done) == (Facts { logs_installed: true, ..f }),
        learned(f, Phase::OpenLogs, other) == (Facts { logs_installed: false, ..f }),
        learned(f, Phase::LoadSettings, done) == (Facts { downloads_dir: true, ..f }),
        learned(f, Phase::LoadSettings, other) == (Facts { downloads_dir: false, ..f }),
        learned(f, Phase::OpenDiskEngine, done) == (Facts { memory_only: false, ..f }),
        learned(f, Phase::OpenDiskEngine, other) == (Facts { memory_only: true, ..f }),
        learned(f, Phase::PrepareDownloadsDir, done) == (Facts { cleared: false, ..f }),
        learned(f, Phase::PrepareDownloadsDir, other) == (Facts { cleared: true, ..f }),
        learned(f, Phase::FindCertificate, done) == (Facts { certificate: true, ..f }),
        learned(f, Phase::FindCertificate, other) == (Facts { certificate: false, ..f }),
        learned(f, Phase::Drain, done) == (Facts { drained: true, ..f }),
        learned(f, Phase::Drain, other) == (Facts { drained: false, ..f }),
        learned(f, Phase::Serve, Outcome::Stopped(first)) == (Facts { first: Some(first), ..f }),
        told(Facts { first: Some(first), ..f }) == (match first {
            FirstEvent::Asked(source) => Some(source),
            FirstEvent::Ended(source) => source,
        }),
{
}

/// A run goes on without the engine on disk, without the directory for
/// downloads, without its settings saved and without HTTPS; without anything
/// else it ends.
pub proof fn a_run_goes_on_without_these(p: Phase)
    ensures
        may_fail(p) <==> p is OpenDiskEngine || p is PrepareDownloadsDir || p is SaveSettings
            || p is ServeHttps,
{
}

} // verus!
