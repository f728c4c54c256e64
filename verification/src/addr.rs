//! Network addresses as numbers.
use vstd::prelude::*;

verus! {

/// An IPv4 address: its four octets as one number, the first one highest.
#[derive(Debug, Clone, Copy, PartialEq, Eq, Structural)]
pub struct Ipv4Addr {
    pub bits: u32,
}

/// The first octet of an address.
pub open spec fn first_octet(bits: u32) -> int {
    bits as int / 0x100_0000
}

/// Whether an address is one of the loopback ones.
pub open spec fn loopback(a: Ipv4Addr) -> bool {
    first_octet(a.bits) == 127
}

/// Whether an address is one a home network hands out: `10.0.0.0/8`,
/// `172.16.0.0/12` or `192.168.0.0/16`.
pub open spec fn private(a: Ipv4Addr) -> bool {
    ||| first_octet(a.bits) == 10
    ||| a.bits as int / 0x10_0000 == 172 * 16 + 1
    ||| a.bits as int / 0x1_0000 == 192 * 256 + 168
}

impl Ipv4Addr {
    /// The address with the four octets.
    pub fn new(a: u8, b: u8, c: u8, d: u8) -> (r: Self)
        ensures
            r.bits == a * 0x100_0000 + b * 0x1_0000 + c * 0x100 + d,
    {
        Ipv4Addr { bits: a as u32 * 0x100_0000 + b as u32 * 0x1_0000 + c as u32 * 0x100 + d as u32 }
    }

    /// The address of the machine itself, `127.0.0.1`.
    pub fn localhost() -> (r: Self)
        ensures
            r.bits == 0x7f00_0001,
    {
        Ipv4Addr { bits: 0x7f00_0001 }
    }

    /// The address of no machine, `0.0.0.0`.
    pub fn unspecified() -> (r: Self)
        ensures
            r.bits == 0,
    {
        Ipv4Addr { bits: 0 }
    }

    pub fn is_loopback(&self) -> (r: bool)
        ensures
            r == loopback(*self),
    {
        self.bits / 0x100_0000 == 127
    }

    pub fn is_private(&self) -> (r: bool)
        ensures
            r == private(*self),
    {
        self.bits / 0x100_0000 == 10 || self.bits / 0x10_0000 == 2753 || self.bits / 0x1_0000
            == 49320
    }
}

/// An IPv6 address: its sixteen octets as one number, the first one highest.
#[derive(Debug, Clone, Copy, PartialEq, Eq, Structural)]
pub struct Ipv6Addr {
    pub bits: u128,
}

/// The IPv4 address an IPv6 address stands for: `::ffff:a.b.c.d`.
pub open spec fn mapped(a: Ipv6Addr) -> Option<Ipv4Addr> {
    if a.bits as int / 0x1_0000_0000 == 0xffff {
        Some(Ipv4Addr { bits: (a.bits as int % 0x1_0000_0000) as u32 })
    } else {
        None
    }
}

impl Ipv6Addr {
    /// The IPv4 address this one stands for, if it does.
    pub fn to_ipv4_mapped(&self) -> (r: Option<Ipv4Addr>)
        ensures
            r == mapped(*self),
    {
        if self.bits / 0x1_0000_0000 == 0xffff {
            Some(Ipv4Addr { bits: (self.bits % 0x1_0000_0000) as u32 })
        } else {
            None
        }
    }
}

impl Ipv4Addr {
    /// The IPv6 address that stands for this one.
    pub fn to_ipv6_mapped(&self) -> (r: Ipv6Addr)
        ensures
            mapped(r) == Some(*self),
    {
        Ipv6Addr { bits: 0xffff_0000_0000 + self.bits as u128 }
    }
}

/// An address of a machine.
#[derive(Debug, Clone, Copy, PartialEq, Eq, Structural)]
pub enum IpAddr {
    V4(Ipv4Addr),
    V6(Ipv6Addr),
}

/// Whether an address is that of no machine: a listener bound to it answers
/// on every address it has.
pub open spec fn unspecified(a: IpAddr) -> bool {
    match a {
        IpAddr::V4(a) => a.bits == 0,
        IpAddr::V6(a) => a.bits == 0,
    }
}

/// Whether an address is a machine's own.
pub open spec fn own(a: IpAddr) -> bool {
    match a {
        IpAddr::V4(a) => loopback(a),
        IpAddr::V6(a) => a.bits == 1,
    }
}

impl IpAddr {
    pub fn is_unspecified(&self) -> (r: bool)
        ensures
            r == unspecified(*self),
    {
        match self {
            IpAddr::V4(a) => a.bits == 0,
            IpAddr::V6(a) => a.bits == 0,
        }
    }

    pub fn is_loopback(&self) -> (r: bool)
        ensures
            r == own(*self),
    {
        match self {
            IpAddr::V4(a) => a.is_loopback(),
            IpAddr::V6(a) => a.bits == 1,
        }
    }
}

/// An address of a socket.
#[derive(Debug, Clone, Copy, PartialEq, Eq, Structural)]
pub struct SocketAddr {
    pub ip: IpAddr,
    pub port: u16,
}

/// An address of four numbers is loopback where the first is 127, and
/// private where it is 10, 172 with a second from 16 to 31, or 192 with a
/// second of 168.
pub proof fn an_address_is_told_by_its_first_numbers(a: u8, b: u8, c: u8, d: u8)
    ensures
        ({
            let addr = Ipv4Addr { bits: (((a * 256 + b) * 256 + c) * 256 + d) as u32 };
            &&& loopback(addr) <==> a == 127
            &&& private(addr) <==> a == 10 || (a == 172 && 16 <= b <= 31) || (a == 192 && b == 168)
            &&& unspecified(IpAddr::V4(addr)) <==> a == 0 && b == 0 && c == 0 && d == 0
            &&& own(IpAddr::V4(addr)) <==> a == 127
        }),
{
}

/// An address of the longer kind carries a shorter one behind eighty zero
/// bits and sixteen ones; no other does.
pub proof fn a_mapped_address_is_carried_in_its_last_bits(n: u32, bits: u128)
    ensures
        mapped(Ipv6Addr { bits: (0xffff_0000_0000 + n) as u128 }) == Some(Ipv4Addr { bits: n }),
        mapped(Ipv6Addr { bits }) matches Some(a) ==> bits == 0xffff_0000_0000 + a.bits,
        bits < 0xffff_0000_0000 || bits > 0xffff_ffff_ffff ==> mapped(Ipv6Addr { bits }) is None,
        own(IpAddr::V6(Ipv6Addr { bits })) <==> bits == 1,
        unspecified(IpAddr::V6(Ipv6Addr { bits })) <==> bits == 0,
{
}

} // verus!
