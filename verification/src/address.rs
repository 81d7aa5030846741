//! Socket addresses as plain numbers, and where the admin surface listens.
use crate::error::{Error, Fault, PortKind};
use crate::text::{parse_u16, u16_of};
use vstd::prelude::*;

verus! {

/// An IP address and a port. `ip` and `ip6` are the address read as a big-endian number.
#[derive(Clone, Copy, Debug, PartialEq, Eq, Structural)]
pub enum SocketAddr {
    V4 { ip: u32, port: u16 },
    V6 { ip6: u128, port: u16, flowinfo: u32, scope_id: u32 },
}

/// `127.0.0.1`.
pub const LOCALHOST: u32 = 0x7f00_0001;

impl SocketAddr {
    pub open spec fn port_number(self) -> u16 {
        match self {
            SocketAddr::V4 { ip, port } => port,
            SocketAddr::V6 { ip6, port, flowinfo, scope_id } => port,
        }
    }

    /// An address that only this machine can reach: `127.0.0.0/8` or `::1`.
    pub open spec fn loopback(self) -> bool {
        match self {
            SocketAddr::V4 { ip, port } => ip / 0x100_0000 == 127,
            SocketAddr::V6 { ip6, port, flowinfo, scope_id } => ip6 == 1,
        }
    }

    pub fn port(&self) -> (p: u16)
        ensures
            p == self.port_number(),
    {
        match *self {
            SocketAddr::V4 { ip: _, port } => port,
            SocketAddr::V6 { ip6: _, port, flowinfo: _, scope_id: _ } => port,
        }
    }

    pub fn is_loopback(&self) -> (r: bool)
        ensures
            r == self.loopback(),
    {
        match *self {
            SocketAddr::V4 { ip, port: _ } => ip / 0x100_0000 == 127,
            SocketAddr::V6 { ip6, port: _, flowinfo: _, scope_id: _ } => ip6 == 1,
        }
    }
}

/// A port of this machine's own loopback: where listeners are bound, and where offered
/// ports are reached.
pub fn local(port: u16) -> (a: SocketAddr)
    ensures
        a == (SocketAddr::V4 { ip: LOCALHOST, port }),
        a.loopback(),
{
    SocketAddr::V4 { ip: LOCALHOST, port }
}

/// The admin listener address. A bare port means loopback: exposing the panel is a
/// deliberate act that has to name an interface. `parsed` is what the system's
/// address parser reads from `spec`.
pub fn admin_addr(spec: &str, parsed: Option<SocketAddr>) -> (r: Result<SocketAddr, Error>)
    ensures
        match u16_of(spec@) {
            Some(0) => r == Err::<SocketAddr, Error>(Error::Fault(Fault::PortZero(PortKind::Admin))),
            Some(port) => r == Ok::<SocketAddr, Error>(SocketAddr::V4 { ip: LOCALHOST, port }),
            None => match parsed {
                Some(addr) => if addr.port_number() == 0 {
                    r == Err::<SocketAddr, Error>(Error::Fault(Fault::PortZero(PortKind::Admin)))
                } else {
                    r == Ok::<SocketAddr, Error>(addr)
                },
                None => r matches Err(Error::BadAdminAddr(s)) && s@ == spec@,
            },
        },
{
    if let Some(port) = parse_u16(spec) {
        if port == 0 {
            return Err(Error::Fault(Fault::PortZero(PortKind::Admin)));
        }
        return Ok(SocketAddr::V4 { ip: LOCALHOST, port });
    }
    match parsed {
        None => Err(Error::BadAdminAddr(spec.to_owned())),
        Some(addr) => {
            if addr.port() == 0 {
                return Err(Error::Fault(Fault::PortZero(PortKind::Admin)));
            }
            Ok(addr)
        },
    }
}

/// A bare port never leaves this machine.
pub proof fn bare_port_means_loopback(port: u16)
    ensures
        (SocketAddr::V4 { ip: LOCALHOST, port }).loopback(),
{
}

/// The addresses that only this machine can reach are those from `127.0.0.0` to
/// `127.255.255.255`, and `::1`.
pub proof fn which_addresses_are_loopback(a: SocketAddr)
    ensures
        a matches SocketAddr::V4 { ip, port } ==> (a.loopback() <==> 0x7f00_0000 <= ip
            <= 0x7fff_ffff) && a.port_number() == port,
        a matches SocketAddr::V6 { ip6, port, flowinfo, scope_id } ==> (a.loopback() <==> ip6 == 1)
            && a.port_number() == port,
{
}

/// The loopback address that is bound and reached is `127.0.0.1`.
pub proof fn localhost_in_four_numbers()
    ensures
        LOCALHOST == 127 * 0x100_0000 + 1,
{
}

} // verus!
