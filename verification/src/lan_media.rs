//! The optional second HTTP listener that serves media bytes to the local
//! network.
//!
//! A receiver on the LAN cannot fetch anything from a loopback-only server,
//! and it must not be handed the control API. So this is a whole second
//! listener, started and stopped per cast session: what is here says when it
//! binds, what it answers of itself, and which of this machine's addresses a
//! receiver is told.
use crate::addr;
use crate::addr::{IpAddr, Ipv4Addr, SocketAddr};
use crate::text;
use crate::text::{cat3, chars_of, same_ignoring_case, substring};
use vstd::prelude::*;

verus! {

/// One address of this machine, and the interface it is on.
#[derive(Debug, Clone)]
pub struct LocalIpv4Interface {
    pub name: String,
    pub ip: Ipv4Addr,
    /// The interface's netmask; nothing where the kernel reported none.
    pub netmask: u32,
}

/// What a [`LocalIpv4Interface`] says.
pub struct InterfaceView {
    pub name: Seq<char>,
    pub ip: Ipv4Addr,
    pub netmask: u32,
}

impl View for LocalIpv4Interface {
    type V = InterfaceView;

    open spec fn view(&self) -> InterfaceView {
        InterfaceView { name: self.name@, ip: self.ip, netmask: self.netmask }
    }
}

/// Whether an address is on an interface's own subnet. An interface with no
/// netmask cannot be matched: a mask of nothing would match everybody.
pub open spec fn on_subnet(i: InterfaceView, peer: Ipv4Addr) -> bool {
    i.netmask != 0 && i.ip.bits & i.netmask == peer.bits & i.netmask
}

/// Whether a text starts with a prefix, whatever the case of its letters.
pub open spec fn starts_like(name: Seq<char>, prefix: Seq<char>) -> bool {
    prefix.len() <= name.len() && text::ascii_lowered(name.take(prefix.len() as int))
        == text::ascii_lowered(prefix)
}

/// Whether an interface is one a receiver on a home network cannot be
/// behind, whatever address it carries, by the prefix of its name: cellular
/// links (`rmnet`, `ccmni`, `pdp_ip`), tunnels (`tun`, `utun`, `tap`, `wg`),
/// container and VM bridges (`docker`, `br-`, `veth`, `virbr`, `vboxnet`),
/// interfaces this device hands out (`ap0`, `p2p`, `rndis`), and `dummy`.
pub open spec fn off_lan(name: Seq<char>) -> bool {
    ||| starts_like(name, "rmnet"@)
    ||| starts_like(name, "ccmni"@)
    ||| starts_like(name, "pdp_ip"@)
    ||| starts_like(name, "tun"@)
    ||| starts_like(name, "utun"@)
    ||| starts_like(name, "tap"@)
    ||| starts_like(name, "wg"@)
    ||| starts_like(name, "docker"@)
    ||| starts_like(name, "br-"@)
    ||| starts_like(name, "veth"@)
    ||| starts_like(name, "virbr"@)
    ||| starts_like(name, "vboxnet"@)
    ||| starts_like(name, "ap0"@)
    ||| starts_like(name, "p2p"@)
    ||| starts_like(name, "rndis"@)
    ||| starts_like(name, "dummy"@)
}

/// How plausibly a receiver on the same home network could reach one of our
/// addresses, best first.
///
/// An interface the receiver cannot be behind is no way back to it whatever
/// address it carries, so both of its ranks sit below every ordinary
/// interface. Within a kind, a private address is what a device on a home
/// network has and anything else is a worse guess.
#[derive(Debug, Clone, Copy, PartialEq, Eq, Structural)]
pub enum Reachability {
    /// A private address on an ordinary interface.
    PrivateOnOrdinary,
    /// Any other address on an ordinary interface.
    OtherOnOrdinary,
    /// A private address on an interface the receiver is not behind.
    PrivateOffLan,
    /// Everything else.
    OtherOffLan,
}

/// The rank of an interface's address.
pub open spec fn reach(i: InterfaceView) -> Reachability {
    if off_lan(i.name) {
        if addr::private(i.ip) {
            Reachability::PrivateOffLan
        } else {
            Reachability::OtherOffLan
        }
    } else {
        if addr::private(i.ip) {
            Reachability::PrivateOnOrdinary
        } else {
            Reachability::OtherOnOrdinary
        }
    }
}

/// A rank as a number, the best one lowest.
pub open spec fn rank(r: Reachability) -> int {
    match r {
        Reachability::PrivateOnOrdinary => 0,
        Reachability::OtherOnOrdinary => 1,
        Reachability::PrivateOffLan => 2,
        Reachability::OtherOffLan => 3,
    }
}

impl Reachability {
    /// The rank as a number, the best one lowest.
    pub fn rank(&self) -> (r: u8)
        ensures
            r == rank(*self),
    {
        match self {
            Reachability::PrivateOnOrdinary => 0,
            Reachability::OtherOnOrdinary => 1,
            Reachability::PrivateOffLan => 2,
            Reachability::OtherOffLan => 3,
        }
    }
}

fn is_like(name: &str, prefix: &str) -> (r: bool)
    ensures
        r == starts_like(name@, prefix@),
{
    let v = chars_of(name);
    let n: usize = chars_of(prefix).len();
    if n > v.len() {
        return false;
    }
    proof {
        assert(v@.subrange(0, n as int) =~= v@.take(n as int));
    }
    let head = substring(v.as_slice(), 0, n);
    same_ignoring_case(head.as_str(), prefix)
}

/// Whether an interface is one a receiver on a home network cannot be
/// behind.
pub fn is_off_lan(name: &str) -> (r: bool)
    ensures
        r == off_lan(name@),
{
    is_like(name, "rmnet") || is_like(name, "ccmni") || is_like(name, "pdp_ip") || is_like(
        name,
        "tun",
    ) || is_like(name, "utun") || is_like(name, "tap") || is_like(name, "wg") || is_like(
        name,
        "docker",
    ) || is_like(name, "br-") || is_like(name, "veth") || is_like(name, "virbr") || is_like(
        name,
        "vboxnet",
    ) || is_like(name, "ap0") || is_like(name, "p2p") || is_like(name, "rndis") || is_like(
        name,
        "dummy",
    )
}

/// The rank of an interface's address.
pub fn reachability(iface: &LocalIpv4Interface) -> (r: Reachability)
    ensures
        r == reach(iface@),
{
    match (is_off_lan(iface.name.as_str()), iface.ip.is_private()) {
        (false, true) => Reachability::PrivateOnOrdinary,
        (false, false) => Reachability::OtherOnOrdinary,
        (true, true) => Reachability::PrivateOffLan,
        (true, false) => Reachability::OtherOffLan,
    }
}

/// Whether an address is on an interface's own subnet.
pub fn same_subnet(iface: &LocalIpv4Interface, peer: Ipv4Addr) -> (r: bool)
    ensures
        r == on_subnet(iface@, peer),
{
    if iface.netmask == 0 {
        return false;
    }
    iface.ip.bits & iface.netmask == peer.bits & iface.netmask
}

/// What a list of interfaces says.
pub open spec fn interfaces_view(s: Seq<LocalIpv4Interface>) -> Seq<InterfaceView> {
    s.map_values(|i: LocalIpv4Interface| i@)
}

/// The first interface whose subnet an address is on.
pub open spec fn first_on_subnet(s: Seq<InterfaceView>, peer: Ipv4Addr) -> Option<InterfaceView>
    decreases s.len(),
{
    if s.len() == 0 {
        None
    } else {
        match first_on_subnet(s.drop_last(), peer) {
            Some(i) => Some(i),
            None => if on_subnet(s.last(), peer) {
                Some(s.last())
            } else {
                None
            },
        }
    }
}

/// The interface with the best rank, the first of those that share it.
/// Loopback is never a guess worth making.
pub open spec fn best(s: Seq<InterfaceView>) -> Option<InterfaceView>
    decreases s.len(),
{
    if s.len() == 0 {
        None
    } else {
        let before = best(s.drop_last());
        let i = s.last();
        if addr::loopback(i.ip) {
            before
        } else {
            match before {
                Some(b) => if rank(reach(i)) < rank(reach(b)) {
                    Some(i)
                } else {
                    Some(b)
                },
                None => Some(i),
            }
        }
    }
}

/// The address a receiver is told: that of the interface whose subnet it is
/// on, and the best guess where there is none.
pub open spec fn host_spec(s: Seq<InterfaceView>, peer: Ipv4Addr) -> Option<Ipv4Addr> {
    match first_on_subnet(s, peer) {
        Some(i) => Some(i.ip),
        None => match best(s) {
            Some(i) => Some(i.ip),
            None => None,
        },
    }
}

/// The local IPv4 address to advertise to a receiver at `peer`.
///
/// The interface whose subnet contains `peer` wins outright. Failing that
/// the candidates are ranked (see [`Reachability`]) and the best one wins,
/// ties keeping enumeration order. `None` only when the host has nothing but
/// loopback and `peer` is not on it either.
pub fn pick_host(interfaces: &[LocalIpv4Interface], peer: Ipv4Addr) -> (r: Option<Ipv4Addr>)
    ensures
        r == host_spec(interfaces_view(interfaces@), peer),
{
    let ghost all = interfaces_view(interfaces@);
    let mut matched: Option<Ipv4Addr> = None;
    let mut i: usize = 0;
    while i < interfaces.len()
        invariant
            i <= interfaces@.len(),
            all == interfaces_view(interfaces@),
            match first_on_subnet(all.take(i as int), peer) {
                Some(m) => matched == Some(m.ip),
                None => matched is None,
            },
        decreases interfaces@.len() - i,
    {
        proof {
            assert(all.take(i + 1).drop_last() =~= all.take(i as int));
            assert(all.take(i + 1).last() == interfaces@[i as int]@);
        }
        if matched.is_none() && same_subnet(&interfaces[i], peer) {
            matched = Some(interfaces[i].ip);
        }
        i += 1;
    }
    proof {
        assert(all.take(all.len() as int) =~= all);
    }
    if matched.is_some() {
        return matched;
    }
    best_host(interfaces)
}

fn best_host(interfaces: &[LocalIpv4Interface]) -> (r: Option<Ipv4Addr>)
    ensures
        match best(interfaces_view(interfaces@)) {
            Some(i) => r == Some(i.ip),
            None => r is None,
        },
{
    let ghost all = interfaces_view(interfaces@);
    let mut found: Option<Ipv4Addr> = None;
    let mut found_rank: u8 = 0;
    let mut i: usize = 0;
    while i < interfaces.len()
        invariant
            i <= interfaces@.len(),
            all == interfaces_view(interfaces@),
            match best(all.take(i as int)) {
                Some(b) => found == Some(b.ip) && found_rank == rank(reach(b)),
                None => found is None,
            },
        decreases interfaces@.len() - i,
    {
        proof {
            assert(all.take(i + 1).drop_last() =~= all.take(i as int));
            assert(all.take(i + 1).last() == interfaces@[i as int]@);
        }
        if !interfaces[i].ip.is_loopback() {
            let r: u8 = reachability(&interfaces[i]).rank();
            if found.is_none() || r < found_rank {
                found = Some(interfaces[i].ip);
                found_rank = r;
            }
        }
        i += 1;
    }
    proof {
        assert(all.take(all.len() as int) =~= all);
    }
    found
}

/// The host a URL for `peer` names, given what the listener bound: the
/// address it bound, where that is one, and one of this machine's otherwise.
pub open spec fn host_for_spec(
    bound: SocketAddr,
    peer: IpAddr,
    s: Seq<InterfaceView>,
) -> Option<IpAddr> {
    if !addr::unspecified(bound.ip) {
        Some(bound.ip)
    } else {
        let v4 = match peer {
            IpAddr::V4(p) => Some(p),
            IpAddr::V6(p) => addr::mapped(p),
        };
        match v4 {
            Some(p) => match host_spec(s, p) {
                Some(h) => Some(IpAddr::V4(h)),
                None => None,
            },
            None => None,
        }
    }
}

/// The host a URL for `peer` should name, given what the listener bound and
/// the addresses of this machine. A v4-mapped v6 peer is what a dual-stack
/// socket reports for a plain IPv4 receiver.
pub fn host_for_peer(bound: SocketAddr, peer: IpAddr, interfaces: &[LocalIpv4Interface]) -> (r:
    Option<IpAddr>)
    ensures
        r == host_for_spec(bound, peer, interfaces_view(interfaces@)),
{
    if !bound.ip.is_unspecified() {
        return Some(bound.ip);
    }
    let v4: Ipv4Addr = match peer {
        IpAddr::V4(p) => p,
        IpAddr::V6(p) => match p.to_ipv4_mapped() {
            Some(p) => p,
            None => {
                return None;
            },
        },
    };
    match pick_host(interfaces, v4) {
        Some(h) => Some(IpAddr::V4(h)),
        None => None,
    }
}

/// What `url::Url::parse` makes of a text: the URL as it spells it, or
/// nothing where the text is none.
pub uninterp spec fn parsed_url(s: Seq<char>) -> Option<Seq<char>>;

/// `url::Url::parse`: a text as a URL, in the spelling of that crate.
#[verifier::external_body]
fn parse_url(s: &str) -> (r: Option<String>)
    ensures
        match r {
            Some(u) => parsed_url(s@) == Some(u@),
            None => parsed_url(s@) is None,
        },
{
    url::Url::parse(s).ok().map(|u| u.as_str().to_owned())
}

/// The base URL of a listener that a receiver reaches at `authority`, the
/// host and the port as a URL spells them, e.g. `http://192.168.1.7:11471/`.
pub fn base_url(authority: &str) -> (r: Option<String>)
    ensures
        match r {
            Some(u) => parsed_url("http://"@ + authority@ + "/"@) == Some(u@),
            None => parsed_url("http://"@ + authority@ + "/"@) is None,
        },
{
    let whole = cat3("http://", authority, "/");
    parse_url(whole.as_str())
}

// ---------------------------------------------------------------------
// The listener

/// What there is to do to start a listener.
#[derive(Debug, Clone, Copy, PartialEq, Eq, Structural)]
pub enum StartStep {
    /// Nothing: it runs, at this address.
    Running(SocketAddr),
    /// Bind this address.
    Bind(SocketAddr),
    /// Refuse: no address is configured.
    NotConfigured,
}

/// What a start that finds no address says.
pub const NOT_CONFIGURED: &'static str =
    "no LAN media address is configured; set ServerConfig::lan_media_addr to the address the listener should bind";

/// The LAN media listener's control block.
#[derive(Debug)]
pub struct LanMedia {
    configured_addr: Option<SocketAddr>,
    bound: Option<SocketAddr>,
    requests: u64,
}

/// What a [`LanMedia`] says.
pub struct LanMediaView {
    /// Where a listener binds when it is started.
    pub configured_addr: Option<SocketAddr>,
    /// Where the running listener is bound.
    pub bound: Option<SocketAddr>,
    /// Requests that have reached the listener since the cast session it is
    /// serving began.
    pub requests: u64,
}

impl View for LanMedia {
    type V = LanMediaView;

    closed spec fn view(&self) -> LanMediaView {
        LanMediaView {
            configured_addr: self.configured_addr,
            bound: self.bound,
            requests: self.requests,
        }
    }
}

impl LanMedia {
    pub fn new(configured_addr: Option<SocketAddr>) -> (l: Self)
        ensures
            l@ == (LanMediaView { configured_addr, bound: None, requests: 0 }),
    {
        LanMedia { configured_addr, bound: None, requests: 0 }
    }

    /// The address a listener would bind, whether or not one is running.
    pub fn configured_addr(&self) -> (r: Option<SocketAddr>)
        ensures
            r == self@.configured_addr,
    {
        self.configured_addr
    }

    /// The address the listener is bound to right now, or `None` when it is
    /// not running.
    pub fn bound_addr(&self) -> (r: Option<SocketAddr>)
        ensures
            r == self@.bound,
    {
        self.bound
    }

    /// What there is to do to start serving. An already-running listener is
    /// left alone. The request count is reset either way: it belongs to the
    /// session that is being started, not to the listener.
    pub fn start(&mut self) -> (r: StartStep)
        ensures
            final(self)@ == (LanMediaView { requests: 0, ..old(self)@ }),
            r == match old(self)@.bound {
                Some(addr) => StartStep::Running(addr),
                None => match old(self)@.configured_addr {
                    Some(addr) => StartStep::Bind(addr),
                    None => StartStep::NotConfigured,
                },
            },
    {
        self.requests = 0;
        match self.bound {
            Some(addr) => StartStep::Running(addr),
            None => match self.configured_addr {
                Some(addr) => StartStep::Bind(addr),
                None => StartStep::NotConfigured,
            },
        }
    }

    /// The listener runs, at this address.
    pub fn started(&mut self, bound: SocketAddr)
        ensures
            final(self)@ == (LanMediaView { bound: Some(bound), ..old(self)@ }),
    {
        self.bound = Some(bound);
    }

    /// The listener is to stop: where it was bound, if it ran.
    pub fn stop(&mut self) -> (r: Option<SocketAddr>)
        ensures
            r == old(self)@.bound,
            final(self)@ == (LanMediaView { bound: None, requests: 0, ..old(self)@ }),
    {
        let was: Option<SocketAddr> = self.bound;
        self.bound = None;
        self.requests = 0;
        was
    }

    /// Count one request arriving on the listener. The count wraps past its
    /// largest value.
    pub fn record_request(&mut self)
        ensures
            final(self)@ == (LanMediaView {
                requests: if old(self)@.requests == u64::MAX {
                    0
                } else {
                    (old(self)@.requests + 1) as u64
                },
                ..old(self)@
            }),
    {
        self.requests = self.requests.wrapping_add(1);
    }

    /// How many requests have reached the listener since the current cast
    /// session began.
    pub fn requests_served(&self) -> (n: u64)
        ensures
            n == self@.requests,
    {
        self.requests
    }

    /// The host a receiver at `peer` is told, and the port. `None` when the
    /// listener is not running, or has no address the receiver could reach.
    pub fn authority_for(&self, peer: IpAddr, interfaces: &[LocalIpv4Interface]) -> (r: Option<
        SocketAddr,
    >)
        ensures
            r == match self@.bound {
                Some(bound) => match host_for_spec(bound, peer, interfaces_view(interfaces@)) {
                    Some(ip) => Some(SocketAddr { ip, port: bound.port }),
                    None => None,
                },
                None => None,
            },
    {
        match self.bound {
            Some(bound) => match host_for_peer(bound, peer, interfaces) {
                Some(ip) => Some(SocketAddr { ip, port: bound.port }),
                None => None,
            },
            None => None,
        }
    }
}

// ---------------------------------------------------------------------
// Laws

proof fn lemma_first_on_subnet(s: Seq<InterfaceView>, peer: Ipv4Addr)
    ensures
        match first_on_subnet(s, peer) {
            Some(m) => on_subnet(m, peer) && s.contains(m),
            None => forall|i: int| 0 <= i < s.len() ==> !on_subnet(#[trigger] s[i], peer),
        },
    decreases s.len(),
{
    if s.len() > 0 {
        let front = s.drop_last();
        lemma_first_on_subnet(front, peer);
        match first_on_subnet(front, peer) {
            Some(m) => {
                let k = choose|k: int| 0 <= k < front.len() && front[k] == m;
                assert(s[k] == m);
            },
            None => {
                assert(s[s.len() - 1] == s.last());
                assert forall|i: int| 0 <= i < s.len() - 1 implies !on_subnet(
                    #[trigger] s[i],
                    peer,
                ) by {
                    assert(front[i] == s[i]);
                }
            },
        }
    }
}

proof fn lemma_best(s: Seq<InterfaceView>)
    ensures
        match best(s) {
            Some(b) => s.contains(b) && !addr::loopback(b.ip) && forall|i: int|
                0 <= i < s.len() && !addr::loopback((#[trigger] s[i]).ip) ==> rank(reach(b))
                    <= rank(reach(s[i])),
            None => forall|i: int| 0 <= i < s.len() ==> addr::loopback((#[trigger] s[i]).ip),
        },
    decreases s.len(),
{
    if s.len() > 0 {
        let front = s.drop_last();
        lemma_best(front);
        assert(s[s.len() - 1] == s.last());
        assert forall|i: int| 0 <= i < s.len() - 1 implies #[trigger] s[i] == front[i] by {}
        match best(front) {
            Some(b) => {
                let k = choose|k: int| 0 <= k < front.len() && front[k] == b;
                assert(s[k] == b);
            },
            None => {},
        }
    }
}

/// A receiver on the subnet of one of our interfaces is told an address of
/// such an interface, whatever else there is.
pub proof fn a_shared_subnet_wins(s: Seq<InterfaceView>, peer: Ipv4Addr, i: int)
    requires
        0 <= i < s.len(),
        on_subnet(s[i], peer),
    ensures
        exists|k: int|
            0 <= k < s.len() && on_subnet(#[trigger] s[k], peer) && host_spec(s, peer) == Some(
                s[k].ip,
            ),
{
    lemma_first_on_subnet(s, peer);
    let m = first_on_subnet(s, peer)->0;
    let k = choose|k: int| 0 <= k < s.len() && s[k] == m;
    assert(on_subnet(s[k], peer));
}

/// Without a shared subnet the receiver is told the address of an interface
/// no other one that is not loopback outranks.
pub proof fn the_best_guess_is_outranked_by_none(s: Seq<InterfaceView>, peer: Ipv4Addr, i: int)
    requires
        forall|k: int| 0 <= k < s.len() ==> !on_subnet(#[trigger] s[k], peer),
        0 <= i < s.len(),
        !addr::loopback(s[i].ip),
    ensures
        exists|k: int|
            0 <= k < s.len() && host_spec(s, peer) == Some((#[trigger] s[k]).ip)
                && !addr::loopback(s[k].ip) && rank(reach(s[k])) <= rank(reach(s[i])),
{
    lemma_first_on_subnet(s, peer);
    if first_on_subnet(s, peer) is Some {
        let m = first_on_subnet(s, peer)->0;
        let k = choose|k: int| 0 <= k < s.len() && s[k] == m;
        assert(!on_subnet(s[k], peer));
    }
    lemma_best(s);
    let b = best(s)->0;
    let k = choose|k: int| 0 <= k < s.len() && s[k] == b;
    assert(s[k] == b);
}

/// There is no address to tell exactly if every one of ours is loopback and
/// the receiver shares no subnet with any of them.
pub proof fn no_host_only_on_loopback(s: Seq<InterfaceView>, peer: Ipv4Addr)
    ensures
        host_spec(s, peer) is None <==> forall|i: int|
            0 <= i < s.len() ==> addr::loopback((#[trigger] s[i]).ip) && !on_subnet(s[i], peer),
{
    lemma_first_on_subnet(s, peer);
    lemma_best(s);
    if host_spec(s, peer) is Some {
        match first_on_subnet(s, peer) {
            Some(m) => {
                let k = choose|k: int| 0 <= k < s.len() && s[k] == m;
                assert(on_subnet(s[k], peer));
            },
            None => {
                let b = best(s)->0;
                let k = choose|k: int| 0 <= k < s.len() && s[k] == b;
                assert(!addr::loopback(s[k].ip));
            },
        }
    }
}

// ---------------------------------------------------------------------
// Which interface a player reaches

proof fn lemma_starts(prefix: Seq<char>, rest: Seq<char>)
    ensures
        starts_like(prefix + rest, prefix),
{
    assert((prefix + rest).take(prefix.len() as int) =~= prefix);
}

/// Mobile data, tunnels, bridges of virtual machines and containers, and
/// tethering are no way to a player on the LAN, whatever number they have.
pub proof fn interfaces_of_no_lan_are_known_by_name(rest: Seq<char>)
    ensures
        off_lan("rmnet"@ + rest),
        off_lan("ccmni"@ + rest),
        off_lan("pdp_ip"@ + rest),
        off_lan("tun"@ + rest),
        off_lan("utun"@ + rest),
        off_lan("tap"@ + rest),
        off_lan("wg"@ + rest),
        off_lan("docker"@ + rest),
        off_lan("br-"@ + rest),
        off_lan("veth"@ + rest),
        off_lan("virbr"@ + rest),
        off_lan("vboxnet"@ + rest),
        off_lan("ap0"@ + rest),
        off_lan("p2p"@ + rest),
        off_lan("rndis"@ + rest),
        off_lan("dummy"@ + rest),
{
    lemma_starts("rmnet"@, rest);
    lemma_starts("ccmni"@, rest);
    lemma_starts("pdp_ip"@, rest);
    lemma_starts("tun"@, rest);
    lemma_starts("utun"@, rest);
    lemma_starts("tap"@, rest);
    lemma_starts("wg"@, rest);
    lemma_starts("docker"@, rest);
    lemma_starts("br-"@, rest);
    lemma_starts("veth"@, rest);
    lemma_starts("virbr"@, rest);
    lemma_starts("vboxnet"@, rest);
    lemma_starts("ap0"@, rest);
    lemma_starts("p2p"@, rest);
    lemma_starts("rndis"@, rest);
    lemma_starts("dummy"@, rest);
}

/// The case of an interface's name does not matter.
pub proof fn the_case_of_a_name_does_not_matter(a: Seq<char>, b: Seq<char>)
    requires
        text::ascii_lowered(a) == text::ascii_lowered(b),
    ensures
        off_lan(a) == off_lan(b),
{
    assert(text::ascii_lowered(a).len() == a.len());
    assert(text::ascii_lowered(b).len() == b.len());
    assert forall|p: Seq<char>| #[trigger] starts_like(a, p) == starts_like(b, p) by {
        if p.len() <= a.len() {
            let n = p.len() as int;
            assert(text::ascii_lowered(a.take(n)) =~= text::ascii_lowered(a).take(n));
            assert(text::ascii_lowered(b.take(n)) =~= text::ascii_lowered(b).take(n));
        }
    }
    assert(starts_like(a, "rmnet"@) == starts_like(b, "rmnet"@));
    assert(starts_like(a, "ccmni"@) == starts_like(b, "ccmni"@));
    assert(starts_like(a, "pdp_ip"@) == starts_like(b, "pdp_ip"@));
    assert(starts_like(a, "tun"@) == starts_like(b, "tun"@));
    assert(starts_like(a, "utun"@) == starts_like(b, "utun"@));
    assert(starts_like(a, "tap"@) == starts_like(b, "tap"@));
    assert(starts_like(a, "wg"@) == starts_like(b, "wg"@));
    assert(starts_like(a, "docker"@) == starts_like(b, "docker"@));
    assert(starts_like(a, "br-"@) == starts_like(b, "br-"@));
    assert(starts_like(a, "veth"@) == starts_like(b, "veth"@));
    assert(starts_like(a, "virbr"@) == starts_like(b, "virbr"@));
    assert(starts_like(a, "vboxnet"@) == starts_like(b, "vboxnet"@));
    assert(starts_like(a, "ap0"@) == starts_like(b, "ap0"@));
    assert(starts_like(a, "p2p"@) == starts_like(b, "p2p"@));
    assert(starts_like(a, "rndis"@) == starts_like(b, "rndis"@));
    assert(starts_like(a, "dummy"@) == starts_like(b, "dummy"@));
}

/// An Ethernet or a wireless interface is one of a LAN.
pub proof fn ordinary_interfaces_are_on_a_lan(rest: Seq<char>)
    ensures
        !off_lan("eth"@ + rest),
        !off_lan("en"@ + rest),
        !off_lan("wlan"@ + rest),
{
    reveal_strlit("eth");
    reveal_strlit("en");
    reveal_strlit("wlan");
    reveal_strlit("rmnet");
    reveal_strlit("ccmni");
    reveal_strlit("pdp_ip");
    reveal_strlit("tun");
    reveal_strlit("utun");
    reveal_strlit("tap");
    reveal_strlit("wg");
    reveal_strlit("docker");
    reveal_strlit("br-");
    reveal_strlit("veth");
    reveal_strlit("virbr");
    reveal_strlit("vboxnet");
    reveal_strlit("ap0");
    reveal_strlit("p2p");
    reveal_strlit("rndis");
    reveal_strlit("dummy");
    let names = seq!["eth"@ + rest, "en"@ + rest, "wlan"@ + rest];
    assert forall|k: int, p: Seq<char>|
        0 <= k < 3 && p.len() >= 2 && (text::ascii_lower(p[0]) != text::ascii_lower(names[k][0])
            || text::ascii_lower(p[1]) != text::ascii_lower(names[k][1])) implies
        !(#[trigger] starts_like(names[k], p)) by {
        if starts_like(names[k], p) {
            let n = p.len() as int;
            assert(text::ascii_lowered(names[k].take(n))[0] == text::ascii_lower(names[k][0]));
            assert(text::ascii_lowered(names[k].take(n))[1] == text::ascii_lower(names[k][1]));
            assert(text::ascii_lowered(p)[0] == text::ascii_lower(p[0]));
            assert(text::ascii_lowered(p)[1] == text::ascii_lower(p[1]));
        }
    }
    assert(names[0] == "eth"@ + rest && names[1] == "en"@ + rest && names[2] == "wlan"@ + rest);
    assert(names[0][0] == 'e' && names[1][0] == 'e' && names[2][0] == 'w' && names[2][1] == 'l');
    assert(!starts_like(names[0], "rmnet"@) && !starts_like(names[1], "rmnet"@) && !starts_like(names[2], "rmnet"@));
    assert(!starts_like(names[0], "ccmni"@) && !starts_like(names[1], "ccmni"@) && !starts_like(names[2], "ccmni"@));
    assert(!starts_like(names[0], "pdp_ip"@) && !starts_like(names[1], "pdp_ip"@) && !starts_like(names[2], "pdp_ip"@));
    assert(!starts_like(names[0], "tun"@) && !starts_like(names[1], "tun"@) && !starts_like(names[2], "tun"@));
    assert(!starts_like(names[0], "utun"@) && !starts_like(names[1], "utun"@) && !starts_like(names[2], "utun"@));
    assert(!starts_like(names[0], "tap"@) && !starts_like(names[1], "tap"@) && !starts_like(names[2], "tap"@));
    assert(!starts_like(names[0], "wg"@) && !starts_like(names[1], "wg"@) && !starts_like(names[2], "wg"@));
    assert(!starts_like(names[0], "docker"@) && !starts_like(names[1], "docker"@) && !starts_like(names[2], "docker"@));
    assert(!starts_like(names[0], "br-"@) && !starts_like(names[1], "br-"@) && !starts_like(names[2], "br-"@));
    assert(!starts_like(names[0], "veth"@) && !starts_like(names[1], "veth"@) && !starts_like(names[2], "veth"@));
    assert(!starts_like(names[0], "virbr"@) && !starts_like(names[1], "virbr"@) && !starts_like(names[2], "virbr"@));
    assert(!starts_like(names[0], "vboxnet"@) && !starts_like(names[1], "vboxnet"@) && !starts_like(names[2], "vboxnet"@));
    assert(!starts_like(names[0], "ap0"@) && !starts_like(names[1], "ap0"@) && !starts_like(names[2], "ap0"@));
    assert(!starts_like(names[0], "p2p"@) && !starts_like(names[1], "p2p"@) && !starts_like(names[2], "p2p"@));
    assert(!starts_like(names[0], "rndis"@) && !starts_like(names[1], "rndis"@) && !starts_like(names[2], "rndis"@));
    assert(!starts_like(names[0], "dummy"@) && !starts_like(names[1], "dummy"@) && !starts_like(names[2], "dummy"@));
}

/// Whether a player more likely reaches one interface than another: one that
/// is on a LAN by its name more likely than one that is not, and of two that
/// are alike there, a private address more likely than another.
pub open spec fn likelier(a: InterfaceView, b: InterfaceView) -> bool {
    if off_lan(a.name) == off_lan(b.name) {
        addr::private(a.ip) && !addr::private(b.ip)
    } else {
        off_lan(b.name)
    }
}

proof fn lemma_best_is_first(s: Seq<InterfaceView>) -> (k: int)
    ensures
        match best(s) {
            None => forall|i: int| 0 <= i < s.len() ==> addr::loopback((#[trigger] s[i]).ip),
            Some(b) => {
                &&& 0 <= k < s.len() && s[k] == b && !addr::loopback(b.ip)
                &&& forall|i: int|
                    0 <= i < s.len() && !addr::loopback((#[trigger] s[i]).ip) ==> !likelier(s[i], b)
                        && (i < k ==> likelier(b, s[i]))
            },
        },
    decreases s.len(),
{
    if s.len() == 0 {
        0
    } else {
        let front = s.drop_last();
        let k = lemma_best_is_first(front);
        let n = s.len() - 1;
        let last = s.last();
        assert forall|a: InterfaceView, b: InterfaceView| #[trigger] likelier(a, b) == (rank(
            reach(a),
        ) < rank(reach(b))) by {
        }
        assert forall|i: int| 0 <= i < n implies #[trigger] s[i] == front[i] by {
        }
        if addr::loopback(last.ip) {
            k
        } else {
            match best(front) {
                None => n,
                Some(b) => if rank(reach(last)) < rank(reach(b)) {
                    n
                } else {
                    k
                },
            }
        }
    }
}

/// Where no interface shares a subnet with the player, the address given is
/// that of the first interface that no other is likelier than, those that
/// only the machine itself reaches aside.
pub proof fn the_likeliest_interface_is_guessed(s: Seq<InterfaceView>, peer: Ipv4Addr) -> (k: int)
    requires
        forall|i: int| 0 <= i < s.len() ==> !on_subnet(#[trigger] s[i], peer),
        exists|i: int| 0 <= i < s.len() && !addr::loopback((#[trigger] s[i]).ip),
    ensures
        0 <= k < s.len(),
        host_spec(s, peer) == Some(s[k].ip),
        !addr::loopback(s[k].ip),
        forall|i: int|
            0 <= i < s.len() && !addr::loopback((#[trigger] s[i]).ip) ==> !likelier(s[i], s[k]) && (
            i < k ==> likelier(s[k], s[i])),
{
    lemma_first_shared(s, peer);
    lemma_best_is_first(s)
}

proof fn lemma_first_shared(s: Seq<InterfaceView>, peer: Ipv4Addr) -> (k: int)
    ensures
        match first_on_subnet(s, peer) {
            None => forall|i: int| 0 <= i < s.len() ==> !on_subnet(#[trigger] s[i], peer),
            Some(f) => 0 <= k < s.len() && s[k] == f && on_subnet(f, peer) && forall|i: int|
                0 <= i < k ==> !on_subnet(#[trigger] s[i], peer),
        },
    decreases s.len(),
{
    if s.len() == 0 {
        0
    } else {
        let front = s.drop_last();
        let k = lemma_first_shared(front, peer);
        assert forall|i: int| 0 <= i < front.len() implies #[trigger] s[i] == front[i] by {
        }
        if first_on_subnet(front, peer) is Some {
            k
        } else {
            s.len() - 1
        }
    }
}

/// The first interface that shares a subnet with the player gives its
/// address, whatever the others are.
pub proof fn the_first_shared_subnet_is_taken(
    s: Seq<InterfaceView>,
    peer: Ipv4Addr,
    k: int,
)
    requires
        0 <= k < s.len(),
        s[k].netmask != 0 && s[k].ip.bits & s[k].netmask == peer.bits & s[k].netmask,
        forall|i: int|
            0 <= i < k ==> (#[trigger] s[i]).netmask == 0 || s[i].ip.bits & s[i].netmask
                != peer.bits & s[i].netmask,
    ensures
        host_spec(s, peer) == Some(s[k].ip),
{
    let f = lemma_first_shared(s, peer);
    assert(on_subnet(s[k], peer));
    if f < k {
        assert(!on_subnet(s[f], peer));
    }
}

/// A listener that is bound to one address is reached there; one that is
/// bound to all is reached at the address for the player, who is the same
/// whether the address came in the shorter or the longer form; a player of
/// the longer form alone is given none.
pub proof fn a_listener_is_reached_where_it_is_bound(
    bound: SocketAddr,
    peer: Ipv4Addr,
    s: Seq<InterfaceView>,
)
    ensures
        !addr::unspecified(bound.ip) ==> host_for_spec(bound, IpAddr::V4(peer), s) == Some(
            bound.ip,
        ),
        addr::unspecified(bound.ip) ==> host_for_spec(bound, IpAddr::V4(peer), s) == (match host_spec(
            s,
            peer,
        ) {
            Some(h) => Some(IpAddr::V4(h)),
            None => None,
        }),
        host_for_spec(
            bound,
            IpAddr::V6(addr::Ipv6Addr { bits: (0xffff_0000_0000 + peer.bits) as u128 }),
            s,
        ) == host_for_spec(bound, IpAddr::V4(peer), s),
        addr::unspecified(bound.ip) ==> forall|bits: u128|
            bits > 0xffff_ffff_ffff ==> #[trigger] host_for_spec(
                bound,
                IpAddr::V6(addr::Ipv6Addr { bits }),
                s,
            ) is None,
{
}

} // verus!
