//! What can be wrong, and the words for it.
use crate::config::Proto;
use crate::endpoint::{id_short, EndpointId};
use crate::text::{decimal, decimal_text, hex_char, hex_digit};
use vstd::prelude::*;

verus! {

/// Which of the ports of an entry a complaint is about.
#[derive(Clone, Copy, Debug, PartialEq, Eq, Structural)]
pub enum PortKind {
    Offered,
    Local,
    Remote,
    Admin,
}

impl PortKind {
    pub open spec fn word(self) -> Seq<char> {
        match self {
            PortKind::Offered => "offered"@,
            PortKind::Local => "local"@,
            PortKind::Remote => "remote"@,
            PortKind::Admin => "admin"@,
        }
    }

    pub fn as_str(self) -> (s: &'static str)
        ensures
            s@ == self.word(),
    {
        match self {
            PortKind::Offered => "offered",
            PortKind::Local => "local",
            PortKind::Remote => "remote",
            PortKind::Admin => "admin",
        }
    }
}

/// Why a configuration, or an edit to one, is turned away.
#[derive(Clone, Copy, Debug)]
pub enum Fault {
    /// A label has more than the permitted number of characters.
    NameTooLong,
    /// A label holds a control character.
    NameHasControl,
    /// A port is zero.
    PortZero(PortKind),
    /// The shared offers list one protocol and port twice.
    SharedOfferTwice(Proto, u16),
    /// The offers of one peer list one protocol and port twice.
    PeerOfferTwice(EndpointId, Proto, u16),
    /// The allowlist names one peer twice.
    PeerTwice(EndpointId),
    /// Two bindings claim one local port.
    LocalTwice(Proto, u16),
    /// The peer to be added is on the list.
    PeerListed(EndpointId),
    /// The peer to be edited is not on the list.
    PeerNotListed(EndpointId),
    /// The port to be offered is offered.
    PortOffered(Proto, u16),
    /// The offer to be edited is not there.
    PortNotOffered(Proto, u16),
    /// The local port to be bound is bound.
    LocalBound(Proto, u16),
    /// The binding to be edited is not there.
    LocalNotBound(Proto, u16),
}

/// `tcp/22`: a protocol and a port.
pub open spec fn endpoint_words(proto: Proto, port: u16) -> Seq<char> {
    proto.word() + "/"@ + decimal(port as nat)
}

fn push_endpoint(s: &mut String, proto: Proto, port: u16)
    ensures
        final(s)@ == old(s)@ + endpoint_words(proto, port),
{
    s.append(proto.as_str());
    s.append("/");
    s.append(decimal_text(port as u64).as_str());
    assert(s@ =~= old(s)@ + endpoint_words(proto, port));
}

impl Fault {
    /// The words for a fault.
    pub open spec fn words(self) -> Seq<char> {
        match self {
            Fault::NameTooLong => "name is longer than 64 characters"@,
            Fault::NameHasControl => "name must not contain control characters"@,
            Fault::PortZero(which) => which.word() + " port must be 1-65535"@,
            Fault::SharedOfferTwice(proto, port) => "shared offers: "@ + endpoint_words(proto, port)
                + " is listed twice"@,
            Fault::PeerOfferTwice(id, proto, port) => "peer "@ + id_short(id) + ": "@
                + endpoint_words(proto, port) + " is listed twice"@,
            Fault::PeerTwice(id) => "peer "@ + id_short(id) + " is listed twice"@,
            Fault::LocalTwice(proto, port) => "local "@ + endpoint_words(proto, port)
                + " is bound twice"@,
            Fault::PeerListed(id) => "peer "@ + id_short(id) + " is already on the list"@,
            Fault::PeerNotListed(id) => "peer "@ + id_short(id) + " is not on the list"@,
            Fault::PortOffered(proto, port) => endpoint_words(proto, port)
                + " is already offered"@,
            Fault::PortNotOffered(proto, port) => endpoint_words(proto, port)
                + " is not offered"@,
            Fault::LocalBound(proto, port) => "local "@ + endpoint_words(proto, port)
                + " is already bound"@,
            Fault::LocalNotBound(proto, port) => "local "@ + endpoint_words(proto, port)
                + " is not bound"@,
        }
    }

    /// The message for a fault, as the admin surface shows it.
    pub fn message(&self) -> (s: String)
        ensures
            s@ == self.words(),
    {
        let mut s: String = String::new();
        match *self {
            Fault::NameTooLong => s.append("name is longer than 64 characters"),
            Fault::NameHasControl => s.append("name must not contain control characters"),
            Fault::PortZero(which) => {
                s.append(which.as_str());
                s.append(" port must be 1-65535");
            },
            Fault::SharedOfferTwice(proto, port) => {
                s.append("shared offers: ");
                push_endpoint(&mut s, proto, port);
                s.append(" is listed twice");
            },
            Fault::PeerOfferTwice(id, proto, port) => {
                s.append("peer ");
                s.append(id.fmt_short().as_str());
                s.append(": ");
                push_endpoint(&mut s, proto, port);
                s.append(" is listed twice");
            },
            Fault::PeerTwice(id) => {
                s.append("peer ");
                s.append(id.fmt_short().as_str());
                s.append(" is listed twice");
            },
            Fault::LocalTwice(proto, port) => {
                s.append("local ");
                push_endpoint(&mut s, proto, port);
                s.append(" is bound twice");
            },
            Fault::PeerListed(id) => {
                s.append("peer ");
                s.append(id.fmt_short().as_str());
                s.append(" is already on the list");
            },
            Fault::PeerNotListed(id) => {
                s.append("peer ");
                s.append(id.fmt_short().as_str());
                s.append(" is not on the list");
            },
            Fault::PortOffered(proto, port) => {
                push_endpoint(&mut s, proto, port);
                s.append(" is already offered");
            },
            Fault::PortNotOffered(proto, port) => {
                push_endpoint(&mut s, proto, port);
                s.append(" is not offered");
            },
            Fault::LocalBound(proto, port) => {
                s.append("local ");
                push_endpoint(&mut s, proto, port);
                s.append(" is already bound");
            },
            Fault::LocalNotBound(proto, port) => {
                s.append("local ");
                push_endpoint(&mut s, proto, port);
                s.append(" is not bound");
            },
        }
        assert(s@ =~= self.words());
        s
    }
}

/// Everything that can go wrong outside the sockets themselves.
#[derive(Debug)]
pub enum Error {
    /// A configuration or an edit was turned away.
    Fault(Fault),
    /// A protocol name that is neither; lower-cased, as it is quoted back.
    BadProto(String),
    /// A port mapping without a colon.
    NotAMapping(String),
    /// A port mapping one of whose ports is no port.
    BadMappedPort { text: String, which: PortKind },
    /// An admin listener address that is neither a port nor an address.
    BadAdminAddr(String),
    /// A text that is no endpoint id, and why.
    BadId { text: String, why: String },
    /// An accepted edit could not be written to disk.
    Persist { path: String, cause: String },
    /// No environment variable says where state is kept.
    NoStateDir,
    /// The key file at this path does not hold 32 bytes.
    KeyLength(String),
    /// The file at this path could not be read.
    Unreadable { path: String, cause: String },
    /// The file at this path is no configuration.
    Unparsable { path: String, cause: String },
    /// The file at this path holds a configuration that is turned away.
    FileFault { path: String, fault: Fault },
    /// A configuration that is turned away was about to be written.
    SaveFault(Fault),
    /// A configuration could not be put into the words of the file.
    Unwritable(String),
    /// Listeners were asked for and none could be bound.
    NothingBound,
    /// This local port was asked for and could not be bound.
    LocalUnbound { proto: Proto, local: u16 },
    /// The peer closed the connection on purpose.
    ClosedByPeer { reason: Vec<u8>, code: u64 },
}

/// How one byte of a close reason is written: as itself where it is printable
/// ASCII other than a quote or a backslash, else as an escape.
pub open spec fn escaped_byte(b: u8) -> Seq<char> {
    if b == 9 {
        seq!['\\', 't']
    } else if b == 10 {
        seq!['\\', 'n']
    } else if b == 13 {
        seq!['\\', 'r']
    } else if b == 34 || b == 39 || b == 92 {
        seq!['\\', b as char]
    } else if 32 <= b < 127 {
        seq![b as char]
    } else {
        seq!['\\', 'x', hex_digit(b as int / 16), hex_digit(b as int % 16)]
    }
}

pub open spec fn escaped(b: Seq<u8>) -> Seq<char>
    decreases b.len(),
{
    if b.len() == 0 {
        seq![]
    } else {
        escaped(b.drop_last()) + escaped_byte(b.last())
    }
}

fn push_escaped(s: &mut String, b: &Vec<u8>)
    ensures
        final(s)@ == old(s)@ + escaped(b@),
{
    let mut i: usize = 0;
    assert(s@ =~= old(s)@ + escaped(b@.take(0)));
    while i < b.len()
        invariant
            i <= b@.len(),
            s@ == old(s)@ + escaped(b@.take(i as int)),
        decreases b@.len() - i,
    {
        let x: u8 = b[i];
        let ghost before = s@;
        if x == 9 {
            s.push('\\');
            s.push('t');
        } else if x == 10 {
            s.push('\\');
            s.push('n');
        } else if x == 13 {
            s.push('\\');
            s.push('r');
        } else if x == 34 || x == 39 || x == 92 {
            s.push('\\');
            s.push(x as char);
        } else if 32 <= x && x < 127 {
            s.push(x as char);
        } else {
            s.push('\\');
            s.push('x');
            s.push(hex_char(x / 16));
            s.push(hex_char(x % 16));
        }
        assert(s@ =~= before + escaped_byte(x));
        assert(b@.take(i + 1).drop_last() =~= b@.take(i as int));
        assert(s@ =~= old(s)@ + escaped(b@.take(i + 1)));
        i += 1;
    }
    assert(b@.take(b@.len() as int) =~= b@);
}

impl Error {
    /// The words for an error.
    pub open spec fn words(self) -> Seq<char> {
        match self {
            Error::Fault(f) => f.words(),
            Error::BadProto(s) => "`"@ + s@ + "`: expected tcp or udp"@,
            Error::NotAMapping(s) => "`"@ + s@ + "`: expected LOCAL:REMOTE, e.g. 2222:22"@,
            Error::BadMappedPort { text, which } => "`"@ + text@ + "`: "@ + which.word()
                + " port must be 1-65535"@,
            Error::BadAdminAddr(s) => "`"@ + s@ + "`: expected PORT or IP:PORT, e.g. 7000"@,
            Error::BadId { text, why } => "`"@ + text@ + "` is not a valid endpoint id: "@ + why@,
            Error::Persist { path, cause } => "persisting "@ + path@ + ": "@ + cause@,
            Error::NoStateDir => "cannot locate a state directory; set RTUN_STATE_DIR"@,
            Error::KeyLength(path) => path@ + ": not a 32-byte key; delete it to regenerate"@,
            Error::Unreadable { path, cause } => "reading "@ + path@ + ": "@ + cause@,
            Error::Unparsable { path, cause } => "parsing "@ + path@ + ": "@ + cause@,
            Error::FileFault { path, fault } => "in "@ + path@ + ": "@ + fault.words(),
            Error::SaveFault(f) => "refusing to write an invalid config: "@ + f.words(),
            Error::Unwritable(cause) => "serialising config: "@ + cause@,
            Error::NothingBound => "no local port could be bound; see the errors above"@,
            Error::LocalUnbound { proto, local } => "local "@ + endpoint_words(proto, local)
                + " could not be bound; see the errors above"@,
            Error::ClosedByPeer { reason, code } => "closed by peer: "@ + escaped(reason@)
                + " (code "@ + decimal(code as nat) + ")"@,
        }
    }

    /// The message for an error.
    pub fn message(&self) -> (s: String)
        ensures
            s@ == self.words(),
    {
        let mut s: String = String::new();
        match self {
            Error::Fault(f) => {
                return f.message();
            },
            Error::BadProto(t) => {
                s.append("`");
                s.append(t.as_str());
                s.append("`: expected tcp or udp");
            },
            Error::NotAMapping(t) => {
                s.append("`");
                s.append(t.as_str());
                s.append("`: expected LOCAL:REMOTE, e.g. 2222:22");
            },
            Error::BadMappedPort { text, which } => {
                s.append("`");
                s.append(text.as_str());
                s.append("`: ");
                s.append(which.as_str());
                s.append(" port must be 1-65535");
            },
            Error::BadAdminAddr(t) => {
                s.append("`");
                s.append(t.as_str());
                s.append("`: expected PORT or IP:PORT, e.g. 7000");
            },
            Error::BadId { text, why } => {
                s.append("`");
                s.append(text.as_str());
                s.append("` is not a valid endpoint id: ");
                s.append(why.as_str());
            },
            Error::Persist { path, cause } => {
                s.append("persisting ");
                s.append(path.as_str());
                s.append(": ");
                s.append(cause.as_str());
            },
            Error::NoStateDir => s.append("cannot locate a state directory; set RTUN_STATE_DIR"),
            Error::KeyLength(path) => {
                s.append(path.as_str());
                s.append(": not a 32-byte key; delete it to regenerate");
            },
            Error::Unreadable { path, cause } => {
                s.append("reading ");
                s.append(path.as_str());
                s.append(": ");
                s.append(cause.as_str());
            },
            Error::Unparsable { path, cause } => {
                s.append("parsing ");
                s.append(path.as_str());
                s.append(": ");
                s.append(cause.as_str());
            },
            Error::FileFault { path, fault } => {
                s.append("in ");
                s.append(path.as_str());
                s.append(": ");
                s.append(fault.message().as_str());
            },
            Error::SaveFault(f) => {
                s.append("refusing to write an invalid config: ");
                s.append(f.message().as_str());
            },
            Error::Unwritable(cause) => {
                s.append("serialising config: ");
                s.append(cause.as_str());
            },
            Error::NothingBound => s.append("no local port could be bound; see the errors above"),
            Error::LocalUnbound { proto, local } => {
                s.append("local ");
                push_endpoint(&mut s, *proto, *local);
                s.append(" could not be bound; see the errors above");
            },
            Error::ClosedByPeer { reason, code } => {
                s.append("closed by peer: ");
                push_escaped(&mut s, reason);
                s.append(" (code ");
                s.append(decimal_text(*code).as_str());
                s.append(")");
            },
        }
        assert(s@ =~= self.words());
        s
    }
}

// ---------------------------------------------------------------- laws

/// Whether a text holds another.
pub open spec fn holds(text: Seq<char>, part: Seq<char>) -> bool {
    exists|before: Seq<char>, after: Seq<char>| text == #[trigger] (before + part + after)
}

/// A protocol and a port are named by the word for the one, a slash, and the numeral of
/// the other; no two are named alike.
pub proof fn a_protocol_and_port_have_one_name(p: Proto, x: u16, q: Proto, y: u16)
    ensures
        endpoint_words(p, x) == p.word() + "/"@ + decimal(x as nat),
        endpoint_words(p, x) == endpoint_words(q, y) ==> p == q && x == y,
{
    reveal_strlit("tcp");
    reveal_strlit("udp");
    reveal_strlit("/");
    if endpoint_words(p, x) == endpoint_words(q, y) {
        assert(endpoint_words(p, x)[0] == p.word()[0]);
        assert(endpoint_words(q, y)[0] == q.word()[0]);
        assert(endpoint_words(p, x).skip(4) =~= decimal(x as nat));
        assert(endpoint_words(q, y).skip(4) =~= decimal(y as nat));
        crate::text::decimal_is_read_back(x as nat);
        crate::text::decimal_is_read_back(y as nat);
    }
}

/// The words for a fault name what it is about: the protocol and port, and the short
/// text of the peer.
pub proof fn a_fault_names_what_it_is_about(f: Fault)
    ensures
        f matches Fault::PortZero(which) ==> holds(f.words(), which.word()),
        f matches Fault::SharedOfferTwice(p, x) ==> holds(f.words(), endpoint_words(p, x)),
        f matches Fault::PeerOfferTwice(id, p, x) ==> holds(f.words(), endpoint_words(p, x))
            && holds(f.words(), id_short(id)),
        f matches Fault::PeerTwice(id) ==> holds(f.words(), id_short(id)),
        f matches Fault::LocalTwice(p, x) ==> holds(f.words(), endpoint_words(p, x)),
        f matches Fault::PeerListed(id) ==> holds(f.words(), id_short(id)),
        f matches Fault::PeerNotListed(id) ==> holds(f.words(), id_short(id)),
        f matches Fault::PortOffered(p, x) ==> holds(f.words(), endpoint_words(p, x)),
        f matches Fault::PortNotOffered(p, x) ==> holds(f.words(), endpoint_words(p, x)),
        f matches Fault::LocalBound(p, x) ==> holds(f.words(), endpoint_words(p, x)),
        f matches Fault::LocalNotBound(p, x) ==> holds(f.words(), endpoint_words(p, x)),
{
    let w = f.words();
    let none = Seq::<char>::empty();
    match f {
        Fault::NameTooLong => {},
        Fault::NameHasControl => {},
        Fault::PortZero(which) => {
            assert(w =~= none + which.word() + " port must be 1-65535"@);
        },
        Fault::SharedOfferTwice(p, x) => {
            assert(w =~= "shared offers: "@ + endpoint_words(p, x) + " is listed twice"@);
        },
        Fault::PeerOfferTwice(id, p, x) => {
            let end = endpoint_words(p, x) + " is listed twice"@;
            assert(w =~= ("peer "@ + id_short(id) + ": "@) + endpoint_words(p, x)
                + " is listed twice"@);
            assert(w =~= "peer "@ + id_short(id) + (": "@ + end));
        },
        Fault::PeerTwice(id) => {
            assert(w =~= "peer "@ + id_short(id) + " is listed twice"@);
        },
        Fault::LocalTwice(p, x) => {
            assert(w =~= "local "@ + endpoint_words(p, x) + " is bound twice"@);
        },
        Fault::PeerListed(id) => {
            assert(w =~= "peer "@ + id_short(id) + " is already on the list"@);
        },
        Fault::PeerNotListed(id) => {
            assert(w =~= "peer "@ + id_short(id) + " is not on the list"@);
        },
        Fault::PortOffered(p, x) => {
            assert(w =~= none + endpoint_words(p, x) + " is already offered"@);
        },
        Fault::PortNotOffered(p, x) => {
            assert(w =~= none + endpoint_words(p, x) + " is not offered"@);
        },
        Fault::LocalBound(p, x) => {
            assert(w =~= "local "@ + endpoint_words(p, x) + " is already bound"@);
        },
        Fault::LocalNotBound(p, x) => {
            assert(w =~= "local "@ + endpoint_words(p, x) + " is not bound"@);
        },
    }
}

/// The words for an error hold what it is about, as it is: the text that was given, the
/// path, the cause, the fault.
pub proof fn an_error_holds_what_it_is_about(e: Error)
    ensures
        e matches Error::Fault(f) ==> e.words() == f.words(),
        e matches Error::BadProto(s) ==> holds(e.words(), s@),
        e matches Error::NotAMapping(s) ==> holds(e.words(), s@),
        e matches Error::BadMappedPort { text, which } ==> holds(e.words(), text@) && holds(
            e.words(),
            which.word(),
        ),
        e matches Error::BadAdminAddr(s) ==> holds(e.words(), s@),
        e matches Error::BadId { text, why } ==> holds(e.words(), text@) && holds(e.words(), why@),
        e matches Error::Persist { path, cause } ==> holds(e.words(), path@) && holds(
            e.words(),
            cause@,
        ),
        e matches Error::KeyLength(path) ==> holds(e.words(), path@),
        e matches Error::Unreadable { path, cause } ==> holds(e.words(), path@) && holds(
            e.words(),
            cause@,
        ),
        e matches Error::Unparsable { path, cause } ==> holds(e.words(), path@) && holds(
            e.words(),
            cause@,
        ),
        e matches Error::FileFault { path, fault } ==> holds(e.words(), path@) && holds(
            e.words(),
            fault.words(),
        ),
        e matches Error::SaveFault(f) ==> holds(e.words(), f.words()),
        e matches Error::Unwritable(cause) ==> holds(e.words(), cause@),
        e matches Error::LocalUnbound { proto, local } ==> holds(
            e.words(),
            endpoint_words(proto, local),
        ),
        e matches Error::ClosedByPeer { reason, code } ==> holds(e.words(), escaped(reason@))
            && holds(e.words(), decimal(code as nat)),
{
    let w = e.words();
    let none = Seq::<char>::empty();
    match e {
        Error::Fault(_) => {},
        Error::BadProto(s) => {
            assert(w =~= "`"@ + s@ + "`: expected tcp or udp"@);
        },
        Error::NotAMapping(s) => {
            assert(w =~= "`"@ + s@ + "`: expected LOCAL:REMOTE, e.g. 2222:22"@);
        },
        Error::BadMappedPort { text, which } => {
            let end = which.word() + " port must be 1-65535"@;
            assert(w =~= "`"@ + text@ + ("`: "@ + end));
            assert(w =~= ("`"@ + text@ + "`: "@) + which.word() + " port must be 1-65535"@);
        },
        Error::BadAdminAddr(s) => {
            assert(w =~= "`"@ + s@ + "`: expected PORT or IP:PORT, e.g. 7000"@);
        },
        Error::BadId { text, why } => {
            assert(w =~= "`"@ + text@ + ("` is not a valid endpoint id: "@ + why@));
            assert(w =~= ("`"@ + text@ + "` is not a valid endpoint id: "@) + why@ + none);
        },
        Error::Persist { path, cause } => {
            assert(w =~= "persisting "@ + path@ + (": "@ + cause@));
            assert(w =~= ("persisting "@ + path@ + ": "@) + cause@ + none);
        },
        Error::NoStateDir => {},
        Error::KeyLength(path) => {
            assert(w =~= none + path@ + ": not a 32-byte key; delete it to regenerate"@);
        },
        Error::Unreadable { path, cause } => {
            assert(w =~= "reading "@ + path@ + (": "@ + cause@));
            assert(w =~= ("reading "@ + path@ + ": "@) + cause@ + none);
        },
        Error::Unparsable { path, cause } => {
            assert(w =~= "parsing "@ + path@ + (": "@ + cause@));
            assert(w =~= ("parsing "@ + path@ + ": "@) + cause@ + none);
        },
        Error::FileFault { path, fault } => {
            assert(w =~= "in "@ + path@ + (": "@ + fault.words()));
            assert(w =~= ("in "@ + path@ + ": "@) + fault.words() + none);
        },
        Error::SaveFault(f) => {
            assert(w =~= "refusing to write an invalid config: "@ + f.words() + none);
        },
        Error::Unwritable(cause) => {
            assert(w =~= "serialising config: "@ + cause@ + none);
        },
        Error::NothingBound => {},
        Error::LocalUnbound { proto, local } => {
            assert(w =~= "local "@ + endpoint_words(proto, local)
                + " could not be bound; see the errors above"@);
        },
        Error::ClosedByPeer { reason, code } => {
            let end = " (code "@ + decimal(code as nat) + ")"@;
            let start = "closed by peer: "@ + escaped(reason@) + " (code "@;
            assert(w =~= "closed by peer: "@ + escaped(reason@) + end);
            assert(w =~= start + decimal(code as nat) + ")"@);
        },
    }
}

/// The reason of a close is written byte after byte.
pub proof fn a_reason_is_written_byte_after_byte(a: Seq<u8>, b: Seq<u8>, x: u8)
    ensures
        escaped(a + b) == escaped(a) + escaped(b),
        0x20 <= x < 0x7f && x != 34 && x != 39 && x != 92 ==> escaped(seq![x]) == seq![x as char],
        escaped(seq![x]).len() > 0,
    decreases b.len(),
{
    assert(seq![x].drop_last() =~= seq![]);
    reveal_with_fuel(escaped, 2);
    assert(escaped(seq![x]) =~= escaped_byte(x));
    if b.len() == 0 {
        assert(a + b =~= a);
        assert(escaped(a) + escaped(b) =~= escaped(a));
    } else {
        let c = b.drop_last();
        a_reason_is_written_byte_after_byte(a, c, x);
        assert((a + b).drop_last() =~= a + c);
        assert((a + b).last() == b.last());
        assert(escaped(a) + escaped(b) =~= escaped(a) + escaped(c) + escaped_byte(b.last()));
    }
}

} // verus!
