//! Configurations, directories, listeners, and how a server starts and ends.
use stream_server::addr::{IpAddr, Ipv4Addr, Ipv6Addr, SocketAddr};
use stream_server::config::{
    base_url, connectable_addr, log_dir, log_filter, log_sink, resolve_dirs, settings_path,
    LogSink, ServerConfig, TorrentListenPort, DEFAULT_HTTPS_PORT, DEFAULT_HTTP_PORT,
    DEFAULT_LOG_FILTER, NO_CONFIG_DIR,
};
use stream_server::https::{staged, HttpsListener, InstallStep, ServeStep, NO_LISTENER};
use stream_server::lifecycle::{
    is_lan_media_route, is_media_route, set_lan_media, shut_down, shutdown, why_not_ready,
    EarlyEnd, Ending, FirstEvent, LanMediaStep, RouteGroup, ShutdownSource, StopRequest,
    LAN_MEDIA_FORBIDDEN,
};

fn addr(ip: [u8; 4], port: u16) -> SocketAddr {
    SocketAddr { ip: IpAddr::V4(Ipv4Addr::new(ip[0], ip[1], ip[2], ip[3])), port }
}

#[test]
fn the_default_directives_cover_every_crate_that_reports_trouble() {
    for crate_name in ["server", "stream_server", "enginefs", "librqbit"] {
        assert!(
            DEFAULT_LOG_FILTER
                .split(',')
                .any(|directive| directive.starts_with(&format!("{crate_name}="))),
            "{crate_name} is missing from {DEFAULT_LOG_FILTER}"
        );
    }
    // Parses as directives at all.
    tracing_subscriber::EnvFilter::new(DEFAULT_LOG_FILTER);
}

#[test]
fn an_embedded_server_is_on_loopback_and_leaves_the_process_alone() {
    let cfg = ServerConfig::default();
    assert_eq!(cfg.http_addr, addr([127, 0, 0, 1], DEFAULT_HTTP_PORT));
    assert_eq!(cfg.https_addr, None);
    assert_eq!(cfg.torrent_listen_port, TorrentListenPort::Ephemeral);
    assert!(!cfg.manage_process_globals && !cfg.init_logging && !cfg.print_startup);
    assert!(cfg.enable_cache_cleaner && cfg.resolve_dht_bootstrap_names);
}

#[test]
fn the_program_listens_everywhere() {
    let cfg = ServerConfig::binary_default();
    assert_eq!(cfg.http_addr, addr([0, 0, 0, 0], 11470));
    assert_eq!(cfg.https_addr, Some(addr([0, 0, 0, 0], DEFAULT_HTTPS_PORT)));
    assert_eq!(cfg.public_base_url.as_deref(), Some("http://127.0.0.1:11470"));
    assert_eq!(
        cfg.torrent_listen_port,
        TorrentListenPort::Range { from: 42000, to: 42010 }
    );
    assert_eq!(cfg.graceful_shutdown_timeout, 3);
}

#[test]
fn directories_come_from_the_configuration_before_the_platform() {
    let mut cfg = ServerConfig::embedded();
    let platform = || (Some("/home/u/.config".to_string()), Some("/home/u/.cache".to_string()));
    let (a, b) = platform();
    assert_eq!(
        resolve_dirs(&cfg, a, b),
        Ok((
            "/home/u/.config/stremio-server".to_string(),
            "/home/u/.cache/stremio-server".to_string()
        ))
    );
    assert_eq!(
        resolve_dirs(&cfg, Some("/c".to_string()), None),
        Ok(("/c/stremio-server".to_string(), "/c/stremio-server/cache".to_string()))
    );
    assert_eq!(resolve_dirs(&cfg, None, Some("/k".to_string())), Err(NO_CONFIG_DIR.to_string()));
    cfg.config_dir = Some("/data/app".to_string());
    let (a, b) = platform();
    assert_eq!(
        resolve_dirs(&cfg, a, b),
        Ok(("/data/app".to_string(), "/data/app/cache".to_string()))
    );
    cfg.cache_dir = Some("/big".to_string());
    assert_eq!(
        resolve_dirs(&cfg, None, None),
        Ok(("/data/app".to_string(), "/big".to_string()))
    );
}

#[test]
fn a_listener_on_every_address_is_reached_on_this_machine() {
    assert_eq!(connectable_addr(addr([0, 0, 0, 0], 9)), addr([127, 0, 0, 1], 9));
    assert_eq!(connectable_addr(addr([10, 0, 0, 1], 9)), addr([10, 0, 0, 1], 9));
    let any = SocketAddr { ip: IpAddr::V6(Ipv6Addr { bits: 0 }), port: 9 };
    assert_eq!(
        connectable_addr(any),
        SocketAddr { ip: IpAddr::V6(Ipv6Addr { bits: 1 }), port: 9 }
    );
    assert_eq!(base_url(&ServerConfig::embedded(), "127.0.0.1:9"), "http://127.0.0.1:9");
    assert_eq!(
        base_url(&ServerConfig::binary_default(), "127.0.0.1:9"),
        "http://127.0.0.1:11470"
    );
}

#[test]
fn log_directives_come_from_the_environment_unless_they_are_blank() {
    assert_eq!(log_filter(Some("debug")), "debug");
    assert_eq!(log_filter(Some("  ")), DEFAULT_LOG_FILTER);
    assert_eq!(log_filter(None), DEFAULT_LOG_FILTER);
}

#[test]
fn log_lines_go_where_they_are_seen() {
    assert_eq!(log_sink(true, true), LogSink::Tui);
    assert_eq!(log_sink(false, true), LogSink::Terminal);
    assert_eq!(log_sink(false, false), LogSink::FilesOnly);
    assert_eq!(log_dir("/d"), "/d/logs");
    assert_eq!(settings_path("/d/"), "/d/settings.json");
}

#[test]
fn a_server_ends_the_process_only_where_it_may_and_must() {
    let asked = FirstEvent::Asked(ShutdownSource::External);
    assert_eq!(shut_down(asked, false, true), Ending::ExitProcess);
    assert_eq!(
        shut_down(asked, true, true),
        Ending::Return(Some(ShutdownSource::External))
    );
    assert_eq!(
        shut_down(asked, false, false),
        Ending::Return(Some(ShutdownSource::External))
    );
    assert_eq!(shut_down(FirstEvent::Ended(None), false, true), Ending::Return(None));
}

#[test]
fn asking_a_server_to_stop_twice_is_asking_once() {
    assert_eq!(shutdown(StopRequest::Taken), Ok(()));
    assert_eq!(shutdown(StopRequest::AlreadyAsked), Ok(()));
    assert_eq!(
        shutdown(StopRequest::Stopped),
        Err("server is already stopped".to_string())
    );
    assert_eq!(why_not_ready(EarlyEnd::Returned), "server exited before reporting ready");
    assert_eq!(why_not_ready(EarlyEnd::Failed("port taken".to_string())), "port taken");
    assert_eq!(
        why_not_ready(EarlyEnd::Panicked),
        "server thread panicked before reporting ready"
    );
}

#[test]
fn the_operator_has_the_last_word_on_the_lan_listener() {
    assert_eq!(set_lan_media(true, true), LanMediaStep::Start);
    assert_eq!(set_lan_media(true, false), LanMediaStep::Forbidden);
    assert_eq!(set_lan_media(false, false), LanMediaStep::Stop);
    assert!(LAN_MEDIA_FORBIDDEN.contains("lanMediaEnabled"));
}

#[test]
fn the_lan_gets_no_control_and_no_relay() {
    for group in [RouteGroup::Control, RouteGroup::Proxy, RouteGroup::Ftp] {
        assert!(!is_lan_media_route(group), "{group:?}");
    }
    for group in [
        RouteGroup::Stream,
        RouteGroup::Archive,
        RouteGroup::Nzb,
        RouteGroup::LocalAddon,
    ] {
        assert!(is_lan_media_route(group) && is_media_route(group), "{group:?}");
    }
    assert!(!is_media_route(RouteGroup::Control));
    assert!(is_media_route(RouteGroup::Proxy));
}

#[test]
fn https_is_served_once_there_is_a_certificate() {
    let at = addr([0, 0, 0, 0], 12470);
    let mut https = HttpsListener::new(Some(at), "/d");
    assert!(https.cert_path().starts_with("/d/"));
    assert!(https.key_path().starts_with("/d/"));
    assert!(!https.certificate_present(true, false));
    assert!(https.certificate_present(true, true));
    assert!(matches!(https.start_if_certificate_present(false), ServeStep::Nothing));
    assert!(matches!(https.start_if_certificate_present(true), ServeStep::Bind(a) if a == at));
    https.started(at);
    assert!(matches!(https.start_if_certificate_present(true), ServeStep::Running(a) if a == at));
    assert!(matches!(
        https.install_certificate(),
        InstallStep::Install { stop: Some(s), bind } if s == at && bind == at
    ));
    assert_eq!(staged("/d/cert.pem"), "/d/cert.pem.tmp");
}

#[test]
fn no_address_means_no_https() {
    let mut https = HttpsListener::new(None, "/d");
    assert!(matches!(https.start_if_certificate_present(true), ServeStep::Nothing));
    assert!(matches!(https.install_certificate(), InstallStep::Refuse));
    assert_eq!(https.bound_addr(), None);
    assert_eq!(https.stop(), None);
    assert!(NO_LISTENER.contains("https_addr"));
}
