//! Which address a receiver is given.
use stream_server::addr::{IpAddr, Ipv4Addr, Ipv6Addr, SocketAddr};
use stream_server::lan_media::{
    base_url, host_for_peer, pick_host, LanMedia, LocalIpv4Interface, StartStep, NOT_CONFIGURED,
};

fn iface(name: &str, ip: [u8; 4], prefixlen: u8) -> LocalIpv4Interface {
    let mask = if prefixlen == 0 {
        0
    } else {
        u32::MAX << (32 - prefixlen)
    };
    LocalIpv4Interface {
        name: name.to_string(),
        ip: Ipv4Addr::new(ip[0], ip[1], ip[2], ip[3]),
        netmask: mask,
    }
}

fn v4(a: u8, b: u8, c: u8, d: u8) -> IpAddr {
    IpAddr::V4(Ipv4Addr::new(a, b, c, d))
}

fn loopback() -> LocalIpv4Interface {
    iface("lo", [127, 0, 0, 1], 8)
}

fn wifi() -> LocalIpv4Interface {
    iface("wlan0", [192, 168, 1, 20], 24)
}

/// A carrier that hands out an RFC1918 address, so this case can only be
/// decided by the interface name.
fn cellular() -> LocalIpv4Interface {
    iface("rmnet_data0", [10, 82, 3, 4], 24)
}

/// The peer a caller passes when it has no receiver address at all --
/// which is every platform that does not report one. It matches no
/// interface's subnet, so it is the ranking's real workload rather than
/// an edge case.
const NO_PEER: Ipv4Addr = Ipv4Addr { bits: 0 };

/// The whole of the host pick, on the shapes of host it runs on.
///
/// Everything here is a pure function over a list, so the awkward cases
/// -- a phone on Wi-Fi and cellular at once, a machine with a VPN up or
/// containers running, an interface the kernel gave no netmask, a host
/// with nothing but loopback -- are built rather than found, and no case
/// touches the network.
#[test]
fn pick_host_ranks_what_a_receiver_could_reach() {
    let cases: [(&str, Vec<LocalIpv4Interface>, Ipv4Addr, Option<Ipv4Addr>); 18] = [
        (
            "the interface on the peer's subnet wins over the ones that merely come first",
            vec![loopback(), iface("docker0", [172, 17, 0, 1], 16), wifi()],
            Ipv4Addr::new(192, 168, 1, 50),
            Some(Ipv4Addr::new(192, 168, 1, 20)),
        ),
        (
            "a peer on the bridge's subnet is answered with the bridge, ranking or not",
            vec![loopback(), iface("docker0", [172, 17, 0, 1], 16), wifi()],
            Ipv4Addr::new(172, 17, 0, 9),
            Some(Ipv4Addr::new(172, 17, 0, 1)),
        ),
        (
            "loopback is a subnet like any other for the match",
            vec![loopback(), wifi()],
            Ipv4Addr::localhost(),
            Some(Ipv4Addr::localhost()),
        ),
        (
            "a phone on Wi-Fi and cellular at once answers Wi-Fi, cellular listed first",
            vec![loopback(), cellular(), wifi()],
            NO_PEER,
            Some(Ipv4Addr::new(192, 168, 1, 20)),
        ),
        (
            "and answers Wi-Fi with the enumeration the other way round",
            vec![loopback(), wifi(), cellular()],
            NO_PEER,
            Some(Ipv4Addr::new(192, 168, 1, 20)),
        ),
        (
            "a VPN's address looks like a LAN address and still loses to the LAN",
            vec![loopback(), iface("tun0", [10, 8, 0, 6], 24), wifi()],
            NO_PEER,
            Some(Ipv4Addr::new(192, 168, 1, 20)),
        ),
        (
            "a macOS VPN too, whose name the `tun` prefix does not match",
            vec![loopback(), iface("utun0", [10, 8, 0, 6], 24), wifi()],
            NO_PEER,
            Some(Ipv4Addr::new(192, 168, 1, 20)),
        ),
        (
            "a container bridge with no peer to match is the tie this ranking is for",
            vec![loopback(), iface("docker0", [172, 17, 0, 1], 16), wifi()],
            NO_PEER,
            Some(Ipv4Addr::new(192, 168, 1, 20)),
        ),
        (
            "and it loses listed last too, so it is the rank deciding and not the order",
            vec![loopback(), wifi(), iface("docker0", [172, 17, 0, 1], 16)],
            NO_PEER,
            Some(Ipv4Addr::new(192, 168, 1, 20)),
        ),
        (
            "a libvirt bridge is the same tie under another name",
            vec![loopback(), iface("virbr0", [192, 168, 122, 1], 24), wifi()],
            NO_PEER,
            Some(Ipv4Addr::new(192, 168, 1, 20)),
        ),
        (
            "the hotspot this device hands out is not a way back to the receiver",
            vec![loopback(), iface("ap0", [192, 168, 43, 1], 24), wifi()],
            NO_PEER,
            Some(Ipv4Addr::new(192, 168, 1, 20)),
        ),
        (
            "a MediaTek phone's cellular link ranks with every other carrier link",
            vec![loopback(), iface("ccmni0", [10, 50, 1, 2], 24), wifi()],
            NO_PEER,
            Some(Ipv4Addr::new(192, 168, 1, 20)),
        ),
        (
            "an ordinary interface wins even carrying a public address a tunnel's is private",
            vec![
                iface("wg0", [10, 9, 0, 2], 24),
                iface("eth0", [198, 51, 100, 7], 24),
            ],
            NO_PEER,
            Some(Ipv4Addr::new(198, 51, 100, 7)),
        ),
        (
            "a peer behind a router we cannot see still gets the one routable address",
            vec![loopback(), iface("eth0", [10, 1, 2, 3], 24)],
            Ipv4Addr::new(203, 0, 113, 5),
            Some(Ipv4Addr::new(10, 1, 2, 3)),
        ),
        (
            "a cellular address is a last resort, not a disqualification",
            vec![loopback(), cellular()],
            NO_PEER,
            Some(Ipv4Addr::new(10, 82, 3, 4)),
        ),
        (
            "nothing but loopback and a peer that is not on it: no URL to give",
            vec![loopback()],
            Ipv4Addr::new(203, 0, 113, 5),
            None,
        ),
        (
            "an interface the kernel gave no netmask is on nobody's subnet, not everybody's",
            vec![loopback(), iface("rmnet_data0", [10, 82, 3, 4], 0), wifi()],
            NO_PEER,
            Some(Ipv4Addr::new(192, 168, 1, 20)),
        ),
        (
            "loopback with no netmask does not swallow the match either",
            vec![iface("lo", [127, 0, 0, 1], 0), wifi()],
            NO_PEER,
            Some(Ipv4Addr::new(192, 168, 1, 20)),
        ),
    ];
    for (why, interfaces, peer, expected) in cases {
        assert_eq!(pick_host(&interfaces, peer), expected, "{why}");
    }
}

/// A listener bound to one address answers only there, so that address is
/// the URL host whatever the peer is.
#[test]
fn host_for_peer_uses_a_specific_bind_address_verbatim() {
    let bound = SocketAddr { ip: v4(192, 168, 1, 20), port: 11471 };
    assert_eq!(
        host_for_peer(bound, v4(10, 0, 0, 9), &[loopback()]),
        Some(v4(192, 168, 1, 20))
    );
}

/// A wildcard bind goes through the interfaces, and a v4-mapped v6 peer
/// resolves to the same one as the plain v4 one.
#[test]
fn host_for_peer_picks_a_local_interface_for_a_wildcard_bind() {
    let bound = SocketAddr { ip: v4(0, 0, 0, 0), port: 11471 };
    assert_eq!(
        host_for_peer(bound, IpAddr::V4(Ipv4Addr::localhost()), &[loopback(), wifi()]),
        Some(IpAddr::V4(Ipv4Addr::localhost()))
    );
    assert_eq!(
        host_for_peer(
            bound,
            IpAddr::V6(Ipv4Addr::localhost().to_ipv6_mapped()),
            &[loopback(), wifi()]
        ),
        Some(IpAddr::V4(Ipv4Addr::localhost()))
    );
}

#[test]
fn a_receiver_with_no_v4_address_gets_no_host() {
    let bound = SocketAddr { ip: v4(0, 0, 0, 0), port: 1 };
    assert_eq!(
        host_for_peer(bound, IpAddr::V6(Ipv6Addr { bits: 1 }), &[loopback(), wifi()]),
        None
    );
}

#[test]
fn a_base_url_is_what_a_url_makes_of_an_authority() {
    assert_eq!(
        base_url("192.168.1.20:11471"),
        Some("http://192.168.1.20:11471/".to_string())
    );
    assert_eq!(base_url("192.168.1.20:80"), Some("http://192.168.1.20/".to_string()));
    assert_eq!(base_url("192.168.1.20:notaport"), None);
}

#[test]
fn a_listener_is_bound_once_and_forgets_its_address_when_it_stops() {
    let at = SocketAddr { ip: v4(0, 0, 0, 0), port: 0 };
    let bound = SocketAddr { ip: v4(0, 0, 0, 0), port: 40_000 };
    let mut lan = LanMedia::new(Some(at));
    assert_eq!(lan.configured_addr(), Some(at));
    assert_eq!(lan.bound_addr(), None);
    assert_eq!(lan.authority_for(v4(192, 168, 1, 9), &[wifi()]), None);
    assert!(matches!(lan.start(), StartStep::Bind(a) if a == at));
    lan.started(bound);
    assert!(matches!(lan.start(), StartStep::Running(a) if a == bound));
    assert_eq!(
        lan.authority_for(v4(192, 168, 1, 9), &[loopback(), wifi()]),
        Some(SocketAddr { ip: v4(192, 168, 1, 20), port: 40_000 })
    );
    lan.record_request();
    lan.record_request();
    assert_eq!(lan.requests_served(), 2);
    assert_eq!(lan.stop(), Some(bound));
    assert_eq!(lan.stop(), None);
    assert_eq!(lan.bound_addr(), None);
    assert_eq!(lan.requests_served(), 0);
}

#[test]
fn a_listener_without_an_address_is_never_bound() {
    let mut lan = LanMedia::new(None);
    assert!(matches!(lan.start(), StartStep::NotConfigured));
    assert_eq!(lan.bound_addr(), None);
    assert!(!NOT_CONFIGURED.is_empty());
}
