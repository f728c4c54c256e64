//! How a server comes up, and how it goes down.
use crate::text::cat2;
use vstd::prelude::*;

verus! {

/// Who asked a server to stop.
#[derive(Clone, Copy, Debug, Eq, PartialEq, Structural)]
pub enum ShutdownSource {
    CtrlC,
    Tui,
    External,
}

/// What happened first to a server that was serving.
#[derive(Clone, Copy, Debug, Eq, PartialEq, Structural)]
pub enum FirstEvent {
    /// It ended, with a shutdown under way or not.
    Ended(Option<ShutdownSource>),
    /// It was asked to stop.
    Asked(ShutdownSource),
}

/// How a server ends.
#[derive(Clone, Copy, Debug, Eq, PartialEq, Structural)]
pub enum Ending {
    /// It returns, with who asked it to stop.
    Return(Option<ShutdownSource>),
    /// The process ends with it.
    ExitProcess,
}

/// How a server ends: at once where it ended by itself, and otherwise when
/// its responses have ended, or have been given long enough. Then the process
/// ends with it where it is the server's own, and where it is not the server
/// is dropped, so that a restart can go on.
pub open spec fn ending(first: FirstEvent, drained: bool, exit_process: bool) -> Ending {
    match first {
        FirstEvent::Ended(source) => Ending::Return(source),
        FirstEvent::Asked(source) => if !drained && exit_process {
            Ending::ExitProcess
        } else {
            Ending::Return(Some(source))
        },
    }
}

/// How a server ends. `drained` is whether it ended within the time a
/// shutdown is given, and `exit_process` whether the process may be ended.
pub fn shut_down(first: FirstEvent, drained: bool, exit_process: bool) -> (r: Ending)
    ensures
        r == ending(first, drained, exit_process),
{
    match first {
        FirstEvent::Ended(source) => Ending::Return(source),
        FirstEvent::Asked(source) => if !drained && exit_process {
            Ending::ExitProcess
        } else {
            Ending::Return(Some(source))
        },
    }
}

/// A server that does not own the process never ends it, whatever happens.
pub proof fn an_embedded_server_never_ends_the_process(first: FirstEvent, drained: bool)
    ensures
        ending(first, drained, false) is Return,
{
}

/// A server that was asked to stop says who asked.
pub proof fn a_shutdown_names_its_source(
    source: ShutdownSource,
    drained: bool,
    exit_process: bool,
)
    ensures
        ending(FirstEvent::Asked(source), drained, exit_process) matches Ending::Return(s) ==> s
            == Some(source),
{
}

/// What became of a request to stop.
#[derive(Clone, Copy, Debug, Eq, PartialEq, Structural)]
pub enum StopRequest {
    /// It was taken.
    Taken,
    /// One was taken already.
    AlreadyAsked,
    /// There is no server to take it.
    Stopped,
}

/// What asking a server to stop comes to: asking twice is asking once.
pub fn shutdown(request: StopRequest) -> (r: Result<(), String>)
    ensures
        match r {
            Ok(()) => !(request is Stopped),
            Err(e) => request is Stopped && e@ == "server is already stopped"@,
        },
{
    match request {
        StopRequest::Taken | StopRequest::AlreadyAsked => Ok(()),
        StopRequest::Stopped => Err("server is already stopped".to_owned()),
    }
}

/// How the thread of a server that never said it was ready ended.
#[derive(Debug)]
pub enum EarlyEnd {
    /// It returned without an error.
    Returned,
    /// It failed.
    Failed(String),
    /// It panicked.
    Panicked,
}

/// Why a start failed.
pub fn why_not_ready(end: EarlyEnd) -> (e: String)
    ensures
        e@ == (match end {
            EarlyEnd::Returned => "server exited before reporting ready"@,
            EarlyEnd::Failed(why) => why@,
            EarlyEnd::Panicked => "server thread panicked before reporting ready"@,
        }),
{
    match end {
        EarlyEnd::Returned => "server exited before reporting ready".to_owned(),
        EarlyEnd::Failed(why) => why,
        EarlyEnd::Panicked => "server thread panicked before reporting ready".to_owned(),
    }
}

/// What there is to do with the LAN media listener.
#[derive(Clone, Copy, Debug, Eq, PartialEq, Structural)]
pub enum LanMediaStep {
    Stop,
    Start,
    /// The operator forbids it.
    Forbidden,
}

/// What starting a listener the operator forbids says.
pub const LAN_MEDIA_FORBIDDEN: &'static str =
    "the lanMediaEnabled setting forbids the LAN media listener;                  set it through POST /settings (or update_settings) first";

/// What there is to do with the LAN media listener: stopping it is always
/// allowed, and starting it only where the setting is.
pub fn set_lan_media(enabled: bool, allowed: bool) -> (r: LanMediaStep)
    ensures
        r == (if !enabled {
            LanMediaStep::Stop
        } else if allowed {
            LanMediaStep::Start
        } else {
            LanMediaStep::Forbidden
        }),
{
    if !enabled {
        LanMediaStep::Stop
    } else if allowed {
        LanMediaStep::Start
    } else {
        LanMediaStep::Forbidden
    }
}

/// A group of routes.
#[derive(Clone, Copy, Debug, Eq, PartialEq, Structural)]
pub enum RouteGroup {
    /// A torrent file's bytes.
    Stream,
    /// A member of an archive.
    Archive,
    /// A file of a Usenet post.
    Nzb,
    /// The add-on that serves the files on this machine.
    LocalAddon,
    /// A relay of whatever URL the caller names.
    Proxy,
    /// The same over FTP.
    Ftp,
    /// Everything else: settings, downloads, statistics, the torrent session.
    Control,
}

/// Whether a group is open: a player fetches it by a plain URL and cannot
/// attach a header.
pub open spec fn is_open(g: RouteGroup) -> bool {
    !(g is Control)
}

/// Whether a group is served to the local network: only what hands out bytes
/// of torrents and archives the machine's own side has created. It is spelled
/// as what is safe, so that a new group is off the network until it is named
/// here.
pub open spec fn on_lan(g: RouteGroup) -> bool {
    g is Stream || g is Archive || g is Nzb || g is LocalAddon
}

/// Whether a group is open to a request without a token.
pub fn is_media_route(group: RouteGroup) -> (r: bool)
    ensures
        r == is_open(group),
{
    match group {
        RouteGroup::Control => false,
        _ => true,
    }
}

/// Whether a group is served to the local network.
pub fn is_lan_media_route(group: RouteGroup) -> (r: bool)
    ensures
        r == on_lan(group),
{
    match group {
        RouteGroup::Stream | RouteGroup::Archive | RouteGroup::Nzb | RouteGroup::LocalAddon => true,
        RouteGroup::Proxy | RouteGroup::Ftp | RouteGroup::Control => false,
    }
}

/// The local network gets nothing a stranger on it could make this machine
/// do: no control route, and no relay.
pub proof fn the_lan_gets_no_control_and_no_relay(g: RouteGroup)
    requires
        on_lan(g),
    ensures
        is_open(g),
        !(g is Control) && !(g is Proxy) && !(g is Ftp),
{
}

/// The process ends exactly where a shutdown was asked for, its time ran out
/// and the server may end the process; otherwise the run returns, and says
/// who asked for the shutdown or why it ended.
pub proof fn the_process_ends_only_where_it_may(
    source: ShutdownSource,
    ended: Option<ShutdownSource>,
    drained: bool,
    exit_process: bool,
)
    ensures
        ending(FirstEvent::Asked(source), drained, exit_process) is ExitProcess <==> !drained
            && exit_process,
        drained || !exit_process ==> ending(FirstEvent::Asked(source), drained, exit_process)
            == Ending::Return(Some(source)),
        ending(FirstEvent::Ended(ended), drained, exit_process) == Ending::Return(ended),
{
}

/// Routes that stream, and those alone, are there on the LAN; every route
/// but the controlling ones is open.
pub proof fn the_lan_gets_the_streams(g: RouteGroup)
    ensures
        on_lan(g) <==> g is Stream || g is Archive || g is Nzb || g is LocalAddon,
        is_open(g) <==> !(g is Control),
{
}

} // verus!
