//! How a server is configured, and what that makes of a start.
use crate::addr;
use crate::addr::{IpAddr, Ipv4Addr, Ipv6Addr, SocketAddr};
use crate::auth::ServerAuth;
use crate::paths;
use crate::paths::join;
use crate::text;
use crate::text::{cat2, trimmed};
use vstd::prelude::*;

verus! {

/// Default log directives, applied without any environment variable.
///
/// `librqbit` is here at WARN because it is the only place a storage failure
/// is reported at all. `librqbit_dht::dht` and `librqbit_upnp` are turned
/// back down to ERROR on top of that, because both retry a network operation
/// forever and WARN on every single attempt.
pub const DEFAULT_LOG_FILTER: &'static str =
    "server=info,stream_server=info,tower_http=info,enginefs=info,librqbit=warn,librqbit_dht::dht=error,librqbit_upnp=error";

pub const DEFAULT_HTTP_PORT: u16 = 11470;

pub const DEFAULT_HTTPS_PORT: u16 = 12470;

/// The port the incoming BitTorrent listener binds.
#[derive(Debug, Clone, Copy, PartialEq, Eq, Structural)]
pub enum TorrentListenPort {
    /// Any free port, so any number of embedded servers coexist.
    Ephemeral,
    /// The first free one from `from` on, below `to`.
    Range { from: u16, to: u16 },
}

impl Default for TorrentListenPort {
    fn default() -> (p: Self)
        ensures
            p == (TorrentListenPort::Range { from: 42000, to: 42010 }),
    {
        TorrentListenPort::Range { from: 42000, to: 42010 }
    }
}

/// How a server is configured.
#[derive(Clone, Debug)]
pub struct ServerConfig {
    pub http_addr: SocketAddr,
    pub https_addr: Option<SocketAddr>,
    pub public_base_url: Option<String>,
    /// Settings, logs and certificates. `None` uses the platform config dir;
    /// embedders must set it explicitly.
    pub config_dir: Option<String>,
    /// Torrent downloads, session/DHT state and archive caches. `None` means
    /// `config_dir/cache` when `config_dir` is set, otherwise the platform
    /// cache dir.
    pub cache_dir: Option<String>,
    pub use_tui: bool,
    pub init_logging: bool,
    pub manage_process_globals: bool,
    pub listen_for_ctrl_c: bool,
    pub print_startup: bool,
    pub exit_process_on_shutdown_timeout: bool,
    pub enable_cache_cleaner: bool,
    pub enable_memory_sampler: bool,
    pub enable_ssdp_discovery: bool,
    /// How long, in seconds, a shutdown waits for responses to end.
    pub graceful_shutdown_timeout: u64,
    /// How the control API authenticates (media routes are always open).
    pub auth: ServerAuth,
    pub torrent_listen_port: TorrentListenPort,
    /// Where the LAN media listener binds when it runs; `None` means there
    /// is no LAN listener at all.
    pub lan_media_addr: Option<SocketAddr>,
    /// Whether DHT bootstrap names are resolved to address literals at start.
    pub resolve_dht_bootstrap_names: bool,
}

/// Whether a configuration is an embedder's: loopback only, no process
/// globals touched, nothing printed.
pub open spec fn is_embedded(c: ServerConfig) -> bool {
    &&& c.http_addr == (SocketAddr {
        ip: IpAddr::V4(Ipv4Addr { bits: 0x7f00_0001 }),
        port: DEFAULT_HTTP_PORT,
    })
    &&& c.https_addr is None
    &&& c.public_base_url is None
    &&& c.config_dir is None
    &&& c.cache_dir is None
    &&& !c.use_tui
    &&& !c.init_logging
    &&& !c.manage_process_globals
    &&& !c.listen_for_ctrl_c
    &&& !c.print_startup
    &&& !c.exit_process_on_shutdown_timeout
    &&& c.enable_cache_cleaner
    &&& !c.enable_memory_sampler
    &&& !c.enable_ssdp_discovery
    &&& c.graceful_shutdown_timeout == 3
    &&& c.auth == ServerAuth::Generated
    &&& c.torrent_listen_port == TorrentListenPort::Ephemeral
    &&& c.lan_media_addr is None
    &&& c.resolve_dht_bootstrap_names
}

/// Whether a configuration is that of the program on its own: it listens on
/// every address, and the process is its own.
pub open spec fn is_binary_default(c: ServerConfig) -> bool {
    &&& c.http_addr == (SocketAddr {
        ip: IpAddr::V4(Ipv4Addr { bits: 0 }),
        port: DEFAULT_HTTP_PORT,
    })
    &&& c.https_addr == Some(
        SocketAddr { ip: IpAddr::V4(Ipv4Addr { bits: 0 }), port: DEFAULT_HTTPS_PORT },
    )
    &&& c.public_base_url matches Some(u) && u@ == "http://127.0.0.1:11470"@
    &&& c.config_dir is None
    &&& c.cache_dir is None
    &&& !c.use_tui
    &&& c.init_logging
    &&& c.manage_process_globals
    &&& c.listen_for_ctrl_c
    &&& c.print_startup
    &&& c.exit_process_on_shutdown_timeout
    &&& c.enable_cache_cleaner
    &&& c.enable_memory_sampler
    &&& c.enable_ssdp_discovery
    &&& c.graceful_shutdown_timeout == 3
    &&& c.auth == ServerAuth::Generated
    &&& c.torrent_listen_port == (TorrentListenPort::Range { from: 42000, to: 42010 })
    &&& c.lan_media_addr is None
    &&& c.resolve_dht_bootstrap_names
}

impl Default for ServerConfig {
    fn default() -> (c: Self)
        ensures
            is_embedded(c),
    {
        ServerConfig::embedded()
    }
}

impl ServerConfig {
    pub fn embedded() -> (c: Self)
        ensures
            is_embedded(c),
    {
        ServerConfig {
            http_addr: SocketAddr {
                ip: IpAddr::V4(Ipv4Addr::localhost()),
                port: DEFAULT_HTTP_PORT,
            },
            https_addr: None,
            public_base_url: None,
            config_dir: None,
            cache_dir: None,
            use_tui: false,
            init_logging: false,
            manage_process_globals: false,
            listen_for_ctrl_c: false,
            print_startup: false,
            exit_process_on_shutdown_timeout: false,
            enable_cache_cleaner: true,
            enable_memory_sampler: false,
            enable_ssdp_discovery: false,
            graceful_shutdown_timeout: 3,
            auth: ServerAuth::Generated,
            torrent_listen_port: TorrentListenPort::Ephemeral,
            lan_media_addr: None,
            resolve_dht_bootstrap_names: true,
        }
    }

    pub fn binary_default() -> (c: Self)
        ensures
            is_binary_default(c),
    {
        ServerConfig {
            http_addr: SocketAddr {
                ip: IpAddr::V4(Ipv4Addr::unspecified()),
                port: DEFAULT_HTTP_PORT,
            },
            https_addr: Some(
                SocketAddr { ip: IpAddr::V4(Ipv4Addr::unspecified()), port: DEFAULT_HTTPS_PORT },
            ),
            public_base_url: Some("http://127.0.0.1:11470".to_owned()),
            config_dir: None,
            cache_dir: None,
            use_tui: false,
            init_logging: true,
            manage_process_globals: true,
            listen_for_ctrl_c: true,
            print_startup: true,
            exit_process_on_shutdown_timeout: true,
            enable_cache_cleaner: true,
            enable_memory_sampler: true,
            enable_ssdp_discovery: true,
            graceful_shutdown_timeout: 3,
            auth: ServerAuth::Generated,
            torrent_listen_port: TorrentListenPort::default(),
            lan_media_addr: None,
            resolve_dht_bootstrap_names: true,
        }
    }
}

// ---------------------------------------------------------------------
// Where things go

/// The text of an optional string.
pub open spec fn optional(s: Option<String>) -> Option<Seq<char>> {
    match s {
        Some(s) => Some(s@),
        None => None,
    }
}

/// What a start that finds no directory says.
pub const NO_CONFIG_DIR: &'static str =
    "Could not find config directory; set ServerConfig::config_dir explicitly";

/// The config and cache directories: from the configuration alone whenever it
/// names a config directory, and from the platform's otherwise.
pub open spec fn dirs_spec(
    config_dir: Option<Seq<char>>,
    cache_dir: Option<Seq<char>>,
    platform_config: Option<Seq<char>>,
    platform_cache: Option<Seq<char>>,
) -> Option<(Seq<char>, Seq<char>)> {
    let config = match config_dir {
        Some(d) => Some(d),
        None => match platform_config {
            Some(p) => Some(paths::under(p, "stremio-server"@)),
            None => None,
        },
    };
    match config {
        None => None,
        Some(config) => Some(
            (
                config,
                match cache_dir {
                    Some(d) => d,
                    None => if config_dir is None && platform_cache is Some {
                        paths::under(platform_cache->0, "stremio-server"@)
                    } else {
                        paths::under(config, "cache"@)
                    },
                },
            ),
        ),
    }
}

/// Resolve the config and cache directories. An unset `cache_dir` lands
/// inside a `config_dir` that is named instead of consulting the user's
/// directories: embedders run without them, so nothing on the startup path
/// may depend on one. `platform_config` and `platform_cache` are the
/// platform's, where it has them.
pub fn resolve_dirs(
    cfg: &ServerConfig,
    platform_config: Option<String>,
    platform_cache: Option<String>,
) -> (r: Result<(String, String), String>)
    ensures
        match (
            r,
            dirs_spec(
                optional(cfg.config_dir),
                optional(cfg.cache_dir),
                optional(platform_config),
                optional(platform_cache),
            ),
        ) {
            (Ok((a, b)), Some((c, d))) => a@ == c && b@ == d,
            (Err(e), None) => e@ == NO_CONFIG_DIR@,
            _ => false,
        },
{
    let config_dir: String = match &cfg.config_dir {
        Some(path) => path.clone(),
        None => match platform_config {
            Some(p) => join(p.as_str(), "stremio-server"),
            None => {
                return Err(NO_CONFIG_DIR.to_owned());
            },
        },
    };
    let cache_dir: String = match &cfg.cache_dir {
        Some(path) => path.clone(),
        None => {
            if cfg.config_dir.is_some() {
                join(config_dir.as_str(), "cache")
            } else {
                match platform_cache {
                    Some(p) => join(p.as_str(), "stremio-server"),
                    None => join(config_dir.as_str(), "cache"),
                }
            }
        },
    };
    Ok((config_dir, cache_dir))
}

/// Where the logs of a server go.
pub fn log_dir(config_dir: &str) -> (p: String)
    ensures
        p@ == paths::under(config_dir@, "logs"@),
{
    join(config_dir, "logs")
}

/// Where the settings of a server are kept.
pub fn settings_path(config_dir: &str) -> (p: String)
    ensures
        p@ == paths::under(config_dir@, "settings.json"@),
{
    join(config_dir, "settings.json")
}

/// Nothing on the startup path depends on the platform's directories when
/// the configuration names one.
pub proof fn a_named_config_dir_decides_alone(
    config_dir: Seq<char>,
    cache_dir: Option<Seq<char>>,
    a: Option<Seq<char>>,
    b: Option<Seq<char>>,
    c: Option<Seq<char>>,
    d: Option<Seq<char>>,
)
    ensures
        dirs_spec(Some(config_dir), cache_dir, a, b) == dirs_spec(
            Some(config_dir),
            cache_dir,
            c,
            d,
        ),
        dirs_spec(Some(config_dir), cache_dir, a, b) is Some,
{
}

/// The address a client on this machine connects to: a listener on every
/// address is reached at the machine's own.
pub open spec fn connectable(a: SocketAddr) -> SocketAddr {
    if addr::unspecified(a.ip) {
        SocketAddr {
            ip: match a.ip {
                IpAddr::V4(_) => IpAddr::V4(Ipv4Addr { bits: 0x7f00_0001 }),
                IpAddr::V6(_) => IpAddr::V6(Ipv6Addr { bits: 1 }),
            },
            port: a.port,
        }
    } else {
        a
    }
}

/// The address a client on this machine connects to.
pub fn connectable_addr(addr: SocketAddr) -> (r: SocketAddr)
    ensures
        r == connectable(addr),
{
    if !addr.ip.is_unspecified() {
        return addr;
    }
    match addr.ip {
        IpAddr::V4(_) => SocketAddr { ip: IpAddr::V4(Ipv4Addr::localhost()), port: addr.port },
        IpAddr::V6(_) => SocketAddr { ip: IpAddr::V6(Ipv6Addr { bits: 1 }), port: addr.port },
    }
}

/// A connectable address names a machine, and keeps the port.
pub proof fn a_connectable_address_names_a_machine(a: SocketAddr)
    ensures
        !addr::unspecified(connectable(a).ip),
        connectable(a).port == a.port,
        connectable(connectable(a)) == connectable(a),
{
}

/// The URL the server advertises: the configured one, or its own address.
/// `authority` is the connectable address as a URL spells it.
pub fn base_url(cfg: &ServerConfig, authority: &str) -> (r: String)
    ensures
        r@ == (match cfg.public_base_url {
            Some(u) => u@,
            None => "http://"@ + authority@,
        }),
{
    match &cfg.public_base_url {
        Some(u) => u.clone(),
        None => cat2("http://", authority),
    }
}

// ---------------------------------------------------------------------
// What a start does

/// The log directives in force: those of the environment, unless they are
/// blank, and the default ones otherwise.
pub fn log_filter(rust_log: Option<&str>) -> (r: String)
    ensures
        r@ == (match rust_log {
            Some(d) => if text::trim(d@).len() > 0 {
                d@
            } else {
                DEFAULT_LOG_FILTER@
            },
            None => DEFAULT_LOG_FILTER@,
        }),
{
    match rust_log {
        Some(d) => {
            if trimmed(d).as_str().is_empty() {
                DEFAULT_LOG_FILTER.to_owned()
            } else {
                d.to_owned()
            }
        },
        None => DEFAULT_LOG_FILTER.to_owned(),
    }
}

/// Where log lines go besides the log files.
#[derive(Debug, Clone, Copy, PartialEq, Eq, Structural)]
pub enum LogSink {
    /// To the terminal interface.
    Tui,
    /// To the terminal.
    Terminal,
    /// Nowhere.
    FilesOnly,
}

/// Where log lines go besides the log files.
pub fn log_sink(use_tui: bool, stdout_is_terminal: bool) -> (s: LogSink)
    ensures
        s == (if use_tui {
            LogSink::Tui
        } else if stdout_is_terminal {
            LogSink::Terminal
        } else {
            LogSink::FilesOnly
        }),
{
    if use_tui {
        LogSink::Tui
    } else if stdout_is_terminal {
        LogSink::Terminal
    } else {
        LogSink::FilesOnly
    }
}

/// An embedder's server touches nothing of the process it lives in.
pub proof fn an_embedded_server_leaves_the_process_alone(c: ServerConfig)
    requires
        is_embedded(c),
    ensures
        !c.manage_process_globals && !c.init_logging && !c.print_startup
            && !c.exit_process_on_shutdown_timeout,
        addr::own(c.http_addr.ip),
        c.https_addr is None && c.lan_media_addr is None,
{
}

/// The configuration lies where it is said to, or in the platform's place
/// under the server's name. The cache lies where it is said to; where only
/// the configuration's place is said, beside it; and otherwise in the
/// platform's place under the server's name, or, where there is none, beside
/// the configuration.
pub proof fn directories_lie_where_they_are_said_to(
    config_dir: Seq<char>,
    cache_dir: Seq<char>,
    platform_config: Seq<char>,
    platform_cache: Option<Seq<char>>,
)
    ensures
        dirs_spec(Some(config_dir), Some(cache_dir), Some(platform_config), platform_cache)
            == Some((config_dir, cache_dir)),
        dirs_spec(Some(config_dir), None, Some(platform_config), platform_cache) == Some(
            (config_dir, paths::under(config_dir, "cache"@)),
        ),
        dirs_spec(None, Some(cache_dir), Some(platform_config), platform_cache) == Some(
            (paths::under(platform_config, "stremio-server"@), cache_dir),
        ),
        platform_cache matches Some(p) ==> dirs_spec(
            None,
            None,
            Some(platform_config),
            platform_cache,
        ) == Some(
            (
                paths::under(platform_config, "stremio-server"@),
                paths::under(p, "stremio-server"@),
            ),
        ),
        dirs_spec(None, None, Some(platform_config), None) == Some(
            (
                paths::under(platform_config, "stremio-server"@),
                paths::under(paths::under(platform_config, "stremio-server"@), "cache"@),
            ),
        ),
        dirs_spec(None, Some(cache_dir), None, platform_cache) is None,
        dirs_spec(None, None, None, platform_cache) is None,
{
}

/// An address that stands for all of a machine's is reached on the machine
/// itself; any other is reached as it is.
pub proof fn an_unspecified_address_is_reached_at_home(port: u16, other: SocketAddr)
    ensures
        connectable(SocketAddr { ip: IpAddr::V4(Ipv4Addr { bits: 0 }), port }) == (SocketAddr {
            ip: IpAddr::V4(Ipv4Addr { bits: 0x7f00_0001 }),
            port,
        }),
        connectable(SocketAddr { ip: IpAddr::V6(Ipv6Addr { bits: 0 }), port }) == (SocketAddr {
            ip: IpAddr::V6(Ipv6Addr { bits: 1 }),
            port,
        }),
        other.ip != IpAddr::V4(Ipv4Addr { bits: 0 }) && other.ip != IpAddr::V6(
            Ipv6Addr { bits: 0 },
        ) ==> connectable(other) == other,
{
}

/// What an embedded server is set up with: it listens on the machine itself
/// alone, on the usual port, keeps its cache clean, draws its own token, and
/// neither announces itself nor touches what belongs to the process.
pub proof fn an_embedded_server_keeps_to_itself(c: ServerConfig)
    requires
        is_embedded(c),
    ensures
        c.http_addr == (SocketAddr {
            ip: IpAddr::V4(Ipv4Addr { bits: 0x7f00_0001 }),
            port: 11470,
        }),
        c.public_base_url is None && c.config_dir is None && c.cache_dir is None,
        c.enable_cache_cleaner && !c.enable_memory_sampler && !c.enable_ssdp_discovery,
        !c.use_tui && !c.listen_for_ctrl_c,
        c.graceful_shutdown_timeout == 3,
        c.auth == ServerAuth::Generated,
        c.torrent_listen_port == TorrentListenPort::Ephemeral,
        c.resolve_dht_bootstrap_names,
{
}

/// What the program is set up with: it listens everywhere, with and without
/// TLS, on the usual ports, and does all that belongs to a process of its
/// own.
pub proof fn the_program_serves_the_network(c: ServerConfig)
    requires
        is_binary_default(c),
    ensures
        c.http_addr == (SocketAddr { ip: IpAddr::V4(Ipv4Addr { bits: 0 }), port: 11470 }),
        c.https_addr == Some(
            SocketAddr { ip: IpAddr::V4(Ipv4Addr { bits: 0 }), port: 12470 },
        ),
        c.public_base_url matches Some(u) && u@ == "http://127.0.0.1:11470"@,
        c.config_dir is None && c.cache_dir is None && c.lan_media_addr is None,
        c.init_logging && c.manage_process_globals && c.listen_for_ctrl_c && c.print_startup,
        c.exit_process_on_shutdown_timeout && c.enable_cache_cleaner && c.enable_memory_sampler
            && c.enable_ssdp_discovery && c.resolve_dht_bootstrap_names,
        !c.use_tui,
        c.graceful_shutdown_timeout == 3,
        c.auth == ServerAuth::Generated,
        c.torrent_listen_port == (TorrentListenPort::Range { from: 42000, to: 42010 }),
{
}

} // verus!
