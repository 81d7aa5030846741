//! A port mapping as it is written on the command line.
use crate::error::{Error, PortKind};
use crate::text::{cut, cut_is_at_the_first, decimal, decimal_text, parse_u16, split_once, u16_of};
use vstd::prelude::*;

verus! {

/// A `local:remote` port mapping on the connecting side.
#[derive(Clone, Copy, Debug, PartialEq, Eq, Structural)]
pub struct PortMap {
    pub local: u16,
    pub remote: u16,
}

/// The port that a numeral names: any but zero.
pub open spec fn port_of(s: Seq<char>) -> Option<u16> {
    match u16_of(s) {
        Some(n) => if n == 0 {
            None
        } else {
            Some(n)
        },
        None => None,
    }
}

/// The mapping that a text spells: two ports with a colon between them.
pub open spec fn port_map_of(s: Seq<char>) -> Option<PortMap> {
    match cut(s, ':') {
        None => None,
        Some((l, r)) => match (port_of(l), port_of(r)) {
            (Some(local), Some(remote)) => Some(PortMap { local, remote }),
            _ => None,
        },
    }
}

/// How a mapping is written.
pub open spec fn port_map_text(m: PortMap) -> Seq<char> {
    decimal(m.local as nat) + ":"@ + decimal(m.remote as nat)
}

fn parse_port(s: &str) -> (r: Option<u16>)
    ensures
        r == port_of(s@),
{
    match parse_u16(s) {
        Some(n) => if n == 0 {
            None
        } else {
            Some(n)
        },
        None => None,
    }
}

impl std::str::FromStr for PortMap {
    type Err = Error;

    fn from_str(s: &str) -> (r: Result<Self, Error>)
        ensures
            match r {
                Ok(m) => port_map_of(s@) == Some(m),
                Err(Error::NotAMapping(t)) => t@ == s@ && cut(s@, ':') is None,
                Err(Error::BadMappedPort { text, which: PortKind::Local }) => text@ == s@ && (cut(
                    s@,
                    ':',
                ) matches Some((a, b)) && port_of(a) is None),
                Err(Error::BadMappedPort { text, which: PortKind::Remote }) => text@ == s@ && (cut(
                    s@,
                    ':',
                ) matches Some((a, b)) && port_of(a) is Some && port_of(b) is None),
                Err(_) => false,
            },
    {
        match split_once(s, ':') {
            None => Err(Error::NotAMapping(s.to_owned())),
            Some((l, r)) => match parse_port(l.as_str()) {
                None => Err(
                    Error::BadMappedPort { text: s.to_owned(), which: PortKind::Local },
                ),
                Some(local) => match parse_port(r.as_str()) {
                    None => Err(
                        Error::BadMappedPort { text: s.to_owned(), which: PortKind::Remote },
                    ),
                    Some(remote) => Ok(PortMap { local, remote }),
                },
            },
        }
    }
}

impl PortMap {
    /// The mapping as `local:remote`.
    pub fn to_text(&self) -> (s: String)
        ensures
            s@ == port_map_text(*self),
    {
        let mut s: String = decimal_text(self.local as u64);
        s.append(":");
        s.append(decimal_text(self.remote as u64).as_str());
        s
    }
}

/// A mapping between two ports is read back from what it is written as.
pub proof fn port_map_is_read_back(m: PortMap)
    requires
        m.local != 0,
        m.remote != 0,
    ensures
        port_map_of(port_map_text(m)) == Some(m),
{
    crate::text::decimal_is_read_back(m.local as nat);
    crate::text::decimal_is_read_back(m.remote as nat);
    reveal_strlit(":");
    let s = port_map_text(m);
    let l = decimal(m.local as nat);
    let r = decimal(m.remote as nat);
    assert(s =~= l.push(':') + r);
    assert forall|j: int| 0 <= j < l.len() implies s[j] != ':' by {
        assert(crate::text::is_digit_char(l[j]));
    }
    crate::text::lemma_cut_at(s, ':', l.len() as int);
    assert(s.take(l.len() as int) =~= l);
    assert(s.skip(l.len() as int + 1) =~= r);
}

/// What parses is two non-zero ports.
pub proof fn parsed_ports_are_never_zero(s: Seq<char>)
    ensures
        port_map_of(s) matches Some(m) ==> m.local != 0 && m.remote != 0,
{
}

/// What parses holds one colon: there is none before the one it is cut at, nor after.
pub proof fn a_mapping_has_one_colon(s: Seq<char>)
    requires
        port_map_of(s) is Some,
    ensures
        cut(s, ':') matches Some((l, r)) && !l.contains(':') && !r.contains(':'),
{
    cut_is_at_the_first(s, ':');
    let (l, r) = cut(s, ':')->Some_0;
    if r.contains(':') {
        let k = choose|k: int| 0 <= k < r.len() && r[k] == ':';
        if r[0] == '+' {
            assert(r.skip(1)[k - 1] == ':');
        }
    }
}

/// A mapping is the local port, a colon and the remote port: what stands before the first
/// colon is the local one, what follows it the remote one, and neither is zero. Nothing
/// else is a mapping.
pub proof fn a_mapping_is_local_then_remote(local: Seq<char>, remote: Seq<char>, s: Seq<char>)
    requires
        !local.contains(':'),
    ensures
        port_map_of(local.push(':') + remote) == (match (u16_of(local), u16_of(remote)) {
            (Some(l), Some(r)) => if l > 0 && r > 0 {
                Some(PortMap { local: l, remote: r })
            } else {
                None
            },
            _ => None,
        }),
        !s.contains(':') ==> port_map_of(s) is None,
{
    let t = local.push(':') + remote;
    let n = local.len() as int;
    assert(t[n] == ':');
    assert forall|j: int| 0 <= j < n implies t[j] != ':' by {
        assert(t[j] == local[j]);
    }
    crate::text::lemma_cut_at(t, ':', n);
    assert(t.take(n) =~= local);
    assert(t.skip(n + 1) =~= remote);
    cut_is_at_the_first(s, ':');
}

/// A mapping is written with its local port first.
pub proof fn a_mapping_is_written_local_first(m: PortMap)
    ensures
        port_map_text(m).len() > decimal(m.local as nat).len(),
        port_map_text(m).take(decimal(m.local as nat).len() as int) == decimal(m.local as nat),
        port_map_text(m)[decimal(m.local as nat).len() as int] == ':',
        port_map_text(m).skip(decimal(m.local as nat).len() as int + 1) == decimal(m.remote as nat),
{
    reveal_strlit(":");
    let (l, r) = (decimal(m.local as nat), decimal(m.remote as nat));
    assert(port_map_text(m).take(l.len() as int) =~= l);
    assert(port_map_text(m).skip(l.len() as int + 1) =~= r);
}

} // verus!
