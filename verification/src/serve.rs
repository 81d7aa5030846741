//! The machine offering ports: checks the peer allowlist, then the port allowlist,
//! then lets connections be made on the peer's behalf.
//!
//! Every check is against the configuration that holds at that moment, so an edit
//! takes effect on the next stream or datagram, and a peer whose grant is withdrawn
//! while it is connected is closed.
use crate::config::{Config, ConfigSpec, OfferSpec, Proto};
use crate::endpoint::EndpointId;
use crate::grants::{config_admits, find_peer, grants, may_reach};
use crate::idle::{fresh, is_fresh, UDP_IDLE_NANOS};
use crate::proto::{
    bytes_content, datagram_frame, datagram_parts, decode_datagram, decode_target_port,
    encode_datagram, port_of_be,
};
use crate::share::share;
use crate::state::{fresh_live, Shared, SharedSpec};
use crate::table::{kept, Table};
use bytes::Bytes;
use std::sync::Arc;
use vstd::prelude::*;

verus! {

/// Application close code for a peer that is not allowlisted, at connect time or
/// because the allowlist changed under it.
pub const REFUSED: u32 = 1;

/// Stream reset code for a stream naming a port that was not offered.
pub const REFUSED_PORT: u32 = 2;

// ---------------------------------------------------------------- peers

/// Why a connection is closed.
#[derive(Clone, Copy, Debug, PartialEq, Eq, Structural)]
pub enum Close {
    /// The peer was not admitted when it connected.
    NotAllowlisted,
    /// The peer is no longer admitted.
    AccessRevoked,
}

impl Close {
    pub open spec fn words(self) -> Seq<char> {
        match self {
            Close::NotAllowlisted => "not allowlisted"@,
            Close::AccessRevoked => "access revoked"@,
        }
    }

    /// The application close code that goes with it.
    pub fn code(self) -> (c: u32)
        ensures
            c == REFUSED,
    {
        REFUSED
    }

    /// The close reason that goes with it.
    pub fn reason(self) -> (s: &'static str)
        ensures
            s@ == self.words(),
    {
        match self {
            Close::NotAllowlisted => "not allowlisted",
            Close::AccessRevoked => "access revoked",
        }
    }
}

/// What is done with a connection whose handshake proved who the peer is.
#[derive(Debug)]
pub enum Admission {
    Refuse(Close),
    Admit { name: String },
}

/// Decides on a connection. The handshake proved that the peer holds its key; the
/// allowlist decides whether that key may in, and an admitted peer is noted as
/// connected.
pub fn run_admission(shared: &mut Shared, peer: EndpointId, now: u64) -> (a: Admission)
    ensures
        match a {
            Admission::Refuse(c) => !config_admits(old(shared)@.config, peer) && c
                == Close::NotAllowlisted && final(shared)@ == old(shared)@,
            Admission::Admit { name } => config_admits(old(shared)@.config, peer) && (find_peer(
                old(shared)@.config.peers,
                peer,
            ) matches Some(p) && name@ == p.name) && final(shared)@ == (SharedSpec {
                peers: if old(shared)@.peers.dom().contains(peer) {
                    old(shared)@.peers
                } else {
                    old(shared)@.peers.insert(peer, fresh_live(now))
                },
                ..old(shared)@
            }),
        },
{
    let cfg: Arc<Config> = shared.config();
    if !cfg.admits(&peer) {
        return Admission::Refuse(Close::NotAllowlisted);
    }
    let name: String = match cfg.peer(&peer) {
        Some(p) => p.name.clone(),
        None => String::new(),
    };
    shared.peer_connected(peer, now);
    Admission::Admit { name }
}

/// What a watcher of the configuration was told.
#[derive(Clone, Copy, Debug, PartialEq, Eq, Structural)]
pub enum Watch {
    /// A configuration was published.
    Changed,
    /// None will be published any more.
    Gone,
}

/// What the eviction watcher of a connection does next.
#[derive(Clone, Copy, Debug, PartialEq, Eq, Structural)]
pub enum Evict {
    /// The peer is still admitted.
    KeepWatching,
    /// There is nothing left to enforce.
    Stop,
    /// The connection is to be closed.
    Close(Close),
}

/// Closes the connection as soon as the peer stops being admitted. Without this a
/// peer that was removed would keep its open connection, and every port on it.
pub fn evict_when_revoked(cfg: &Config, peer: &EndpointId, told: Watch) -> (e: Evict)
    ensures
        e == (match told {
            Watch::Gone => Evict::Stop,
            Watch::Changed => if config_admits(cfg@, *peer) {
                Evict::KeepWatching
            } else {
                Evict::Close(Close::AccessRevoked)
            },
        }),
{
    match told {
        Watch::Gone => Evict::Stop,
        Watch::Changed => if cfg.admits(peer) {
            Evict::KeepWatching
        } else {
            Evict::Close(Close::AccessRevoked)
        },
    }
}

// ---------------------------------------------------------------- ports

/// The ports of a protocol that a peer may reach; none at all if it is not
/// admitted.
pub open spec fn lists_reach(
    ports: Seq<u16>,
    c: ConfigSpec,
    peer: EndpointId,
    proto: Proto,
) -> bool {
    forall|p: u16| #[trigger] ports.contains(p) <==> may_reach(c, peer, proto, p)
}

fn reachable(cfg: &Config, peer: &EndpointId, proto: Proto) -> (ports: Vec<u16>)
    ensures
        lists_reach(ports@, cfg@, *peer, proto),
{
    match cfg.granted(peer, proto) {
        Some(ports) => ports,
        None => Vec::new(),
    }
}

fn has_port(ports: &Vec<u16>, port: u16) -> (r: bool)
    ensures
        r == ports@.contains(port),
{
    let mut i: usize = 0;
    while i < ports.len()
        invariant
            i <= ports@.len(),
            forall|j: int| 0 <= j < i ==> ports@[j] != port,
        decreases ports@.len() - i,
    {
        if ports[i] == port {
            return true;
        }
        i += 1;
    }
    false
}

/// What is done with a stream once its target port is read.
#[derive(Clone, Copy, Debug, PartialEq, Eq, Structural)]
pub enum StreamStep {
    /// Both halves are reset with this code, so the far side fails at once.
    Reset { code: u32 },
    /// A loopback connection is made to this port and joined to the stream.
    Connect { port: u16 },
}

/// Judges a stream by the two bytes that open it. Checked per stream: a port revoked
/// a moment ago is refused even though the connection was authorised when it opened.
pub fn serve_stream(cfg: &Config, peer: &EndpointId, head: [u8; 2]) -> (s: StreamStep)
    ensures
        s == (if may_reach(cfg@, *peer, Proto::Tcp, port_of_be(head@) as u16) {
            StreamStep::Connect { port: port_of_be(head@) as u16 }
        } else {
            StreamStep::Reset { code: REFUSED_PORT }
        }),
{
    let port: u16 = decode_target_port(head);
    let granted: Vec<u16> = reachable(cfg, peer, Proto::Tcp);
    if has_port(&granted, port) {
        StreamStep::Connect { port }
    } else {
        StreamStep::Reset { code: REFUSED_PORT }
    }
}

// ---------------------------------------------------------------- UDP sessions

/// A session on the serving side: its socket to the local service, what keeps its
/// replies flowing, when it last carried anything, and the port it is for.
pub struct Session<S, R> {
    pub sock: Arc<S>,
    pub reply: R,
    pub last: u64,
    pub port: u16,
}

/// The serving side keys sessions by the id the connecting side minted, and gives
/// each one its own socket so the local service sees a distinct source per session.
pub struct Sessions<S, R> {
    by_id: Table<u32, Session<S, R>>,
}

/// A session table in which a session, if it is there, was just used.
pub open spec fn touched<S, R>(m: Map<u32, Session<S, R>>, id: u32, now: u64) -> Map<
    u32,
    Session<S, R>,
> {
    if m.dom().contains(id) {
        m.insert(
            id,
            Session { sock: m[id].sock, reply: m[id].reply, last: now, port: m[id].port },
        )
    } else {
        m
    }
}

impl<S, R> View for Sessions<S, R> {
    type V = Map<u32, Session<S, R>>;

    closed spec fn view(&self) -> Map<u32, Session<S, R>> {
        self.by_id@
    }
}

impl<S, R> Sessions<S, R> {
    pub fn new() -> (s: Self)
        ensures
            s@ == Map::<u32, Session<S, R>>::empty(),
    {
        Sessions { by_id: Table::new() }
    }

    /// Notes that a session carried something, and hands out its socket.
    pub fn touch(&mut self, id: u32, now: u64) -> (r: Option<Arc<S>>)
        ensures
            final(self)@ == touched(old(self)@, id, now),
            final(self)@.dom() == old(self)@.dom(),
            forall|k: u32| #[trigger]
                old(self)@.dom().contains(k) ==> final(self)@[k].port == old(self)@[k].port
                    && final(self)@[k].sock == old(self)@[k].sock && final(self)@[k].reply == old(
                    self,
                )@[k].reply,
            match r {
                Some(sock) => old(self)@.dom().contains(id) && sock == old(self)@[id].sock,
                None => !old(self)@.dom().contains(id),
            },
    {
        match self.by_id.remove(&id) {
            None => {
                assert(self@ =~= old(self)@);
                None
            },
            Some(s) => {
                let sock: Arc<S> = share(&s.sock);
                self.by_id.set(
                    id,
                    Session { sock: s.sock, reply: s.reply, last: now, port: s.port },
                );
                assert(self@ =~= touched(old(self)@, id, now));
                Some(sock)
            },
        }
    }

    /// Notes a session that was opened. One with the same id gives way.
    pub fn open(&mut self, id: u32, port: u16, sock: Arc<S>, reply: R, now: u64)
        ensures
            final(self)@ == old(self)@.insert(id, Session { sock, reply, last: now, port }),
    {
        self.by_id.set(id, Session { sock, reply, last: now, port });
    }

    /// Releases the sessions that have been idle for too long.
    pub fn reap(&mut self, now: u64)
        ensures
            final(self)@ == kept(old(self)@, |s: Session<S, R>| is_fresh(s.last, now)),
    {
        let ghost keep = |s: Session<S, R>| is_fresh(s.last, now);
        let used = |s: &Session<S, R>| -> (r: bool)
            ensures
                r == is_fresh(s.last, now),
        {
            fresh(s.last, now)
        };
        self.by_id.retain(used, Ghost(keep));
    }

    /// Drops sessions whose port is no longer granted. A session holds an open
    /// socket to the local service, so revoking a port has to close it rather than
    /// wait out the idle timer.
    pub fn drop_ungranted(&mut self, granted: &Vec<u16>)
        ensures
            final(self)@ == kept(old(self)@, |s: Session<S, R>| granted@.contains(s.port)),
    {
        let ghost keep = |s: Session<S, R>| granted@.contains(s.port);
        let open = |s: &Session<S, R>| -> (r: bool)
            ensures
                r == granted@.contains(s.port),
        {
            has_port(granted, s.port)
        };
        self.by_id.retain(open, Ghost(keep));
    }

    /// Releases every session.
    pub fn clear(&mut self)
        ensures
            final(self)@ == Map::<u32, Session<S, R>>::empty(),
    {
        self.by_id = Table::new();
    }
}

// ---------------------------------------------------------------- UDP pump

/// What the datagram pump of a connection was told.
pub enum PumpEvent {
    /// A datagram arrived.
    Datagram(Bytes),
    /// No datagram will arrive any more.
    ReaderStopped,
    /// The configuration was watched.
    Config(Watch),
}

/// What the datagram pump of a connection does next.
pub enum PumpStep<S> {
    /// It ends.
    Stop,
    /// Sessions for ports that lost their grant were closed; reading goes on.
    Swept,
    /// The datagram is dropped: it is shorter than the header.
    TooShort,
    /// The datagram is dropped: its port is not offered to this peer.
    Refuse { id: u32, port: u16 },
    /// The payload goes out on the socket of a known session.
    Send { sock: Arc<S>, id: u32, port: u16, payload: Bytes },
    /// A session is opened first, and the payload goes out on its socket.
    Open { id: u32, port: u16, payload: Bytes },
}

/// One turn of the datagram pump, judged by the configuration that holds now.
pub fn pump_udp<S, R>(
    sessions: &mut Sessions<S, R>,
    cfg: &Config,
    peer: &EndpointId,
    event: PumpEvent,
    now: u64,
) -> (step: PumpStep<S>)
    ensures
        match event {
            PumpEvent::ReaderStopped => step is Stop && final(sessions)@ == old(sessions)@,
            PumpEvent::Config(Watch::Gone) => step is Stop && final(sessions)@ == old(sessions)@,
            PumpEvent::Config(Watch::Changed) => step is Swept && final(sessions)@ == kept(
                old(sessions)@,
                |s: Session<S, R>| may_reach(cfg@, *peer, Proto::Udp, s.port),
            ),
            PumpEvent::Datagram(dg) => match datagram_parts(bytes_content(dg)) {
                None => step is TooShort && final(sessions)@ == old(sessions)@,
                Some((id, port, payload)) => if !may_reach(cfg@, *peer, Proto::Udp, port) {
                    step == PumpStep::<S>::Refuse { id, port } && final(sessions)@ == old(
                        sessions,
                    )@
                } else if old(sessions)@.dom().contains(id) {
                    final(sessions)@ == touched(old(sessions)@, id, now) && (step matches PumpStep::Send {
                        sock,
                        id: i,
                        port: p,
                        payload: b,
                    } && sock == old(sessions)@[id].sock && i == id && p == port && bytes_content(b)
                        == payload)
                } else {
                    final(sessions)@ == old(sessions)@ && (step matches PumpStep::Open {
                        id: i,
                        port: p,
                        payload: b,
                    } && i == id && p == port && bytes_content(b) == payload)
                },
            },
        },
{
    match event {
        PumpEvent::ReaderStopped => PumpStep::Stop,
        PumpEvent::Config(Watch::Gone) => PumpStep::Stop,
        PumpEvent::Config(Watch::Changed) => {
            let granted: Vec<u16> = reachable(cfg, peer, Proto::Udp);
            sessions.drop_ungranted(&granted);
            assert(sessions@ =~= kept(
                old(sessions)@,
                |s: Session<S, R>| may_reach(cfg@, *peer, Proto::Udp, s.port),
            ));
            PumpStep::Swept
        },
        PumpEvent::Datagram(dg) => match decode_datagram(&dg) {
            None => PumpStep::TooShort,
            Some((id, port, payload)) => {
                let granted: Vec<u16> = reachable(cfg, peer, Proto::Udp);
                if !has_port(&granted, port) {
                    return PumpStep::Refuse { id, port };
                }
                match sessions.touch(id, now) {
                    Some(sock) => PumpStep::Send { sock, id, port, payload },
                    None => PumpStep::Open { id, port, payload },
                }
            },
        },
    }
}

/// A reply from the local service: its session was just used, and the reply goes
/// back framed with the session's id and port.
pub fn pump_reply<S, R>(
    sessions: &mut Sessions<S, R>,
    id: u32,
    port: u16,
    payload: &[u8],
    now: u64,
) -> (dg: Bytes)
    ensures
        final(sessions)@ == touched(old(sessions)@, id, now),
        bytes_content(dg) == datagram_frame(id, port, payload@),
{
    sessions.touch(id, now);
    encode_datagram(id, port, payload)
}

// ---------------------------------------------------------------- connections

/// What runs beside the stream acceptor of a connection for as long as it is held.
#[derive(Clone, Copy, Debug, PartialEq, Eq, Structural)]
pub enum ConnTask {
    PumpUdp,
    EvictWhenRevoked,
    ReapSessions,
}

/// The tasks that a served connection starts with, each once.
pub fn serve_conn_tasks() -> (tasks: Vec<ConnTask>)
    ensures
        tasks@ == seq![ConnTask::PumpUdp, ConnTask::EvictWhenRevoked, ConnTask::ReapSessions],
{
    let mut tasks: Vec<ConnTask> = Vec::new();
    tasks.push(ConnTask::PumpUdp);
    tasks.push(ConnTask::EvictWhenRevoked);
    tasks.push(ConnTask::ReapSessions);
    assert(tasks@ =~= seq![ConnTask::PumpUdp, ConnTask::EvictWhenRevoked, ConnTask::ReapSessions]);
    tasks
}

/// What the stream acceptor of a connection saw.
#[derive(Clone, Copy, Debug, PartialEq, Eq, Structural)]
pub enum Accepted {
    /// The peer opened a stream.
    Stream,
    /// The connection is over.
    Ended,
}

/// What the stream acceptor of a connection does next.
#[derive(Clone, Copy, Debug, PartialEq, Eq, Structural)]
pub enum ConnStep {
    /// The stream is served on its own, and accepting goes on.
    Serve,
    /// The tasks of the connection are stopped, and it is over.
    TearDown,
}

/// One turn of the stream acceptor. Everything that a connection started is torn
/// down with it, its sessions first of all.
pub fn serve_conn<S, R>(sessions: &mut Sessions<S, R>, saw: Accepted) -> (step: ConnStep)
    ensures
        match saw {
            Accepted::Stream => step == ConnStep::Serve && final(sessions)@ == old(sessions)@,
            Accepted::Ended => step == ConnStep::TearDown && final(sessions)@ == Map::<
                u32,
                Session<S, R>,
            >::empty(),
        },
{
    match saw {
        Accepted::Stream => ConnStep::Serve,
        Accepted::Ended => {
            sessions.clear();
            ConnStep::TearDown
        },
    }
}

// ---------------------------------------------------------------- laws

/// Removing or parking a peer takes everything from it at once: it is not admitted,
/// its connection is closed on the next look, its streams are reset and none of its
/// datagrams passes.
pub proof fn a_revoked_peer_has_nothing(c: ConfigSpec, peer: EndpointId)
    requires
        find_peer(c.peers, peer) matches Some(p) ==> !p.enabled,
    ensures
        !config_admits(c, peer),
        forall|proto: Proto, port: u16| !may_reach(c, peer, proto, port),
{
}

/// A sweep leaves a session exactly where its port may still be reached, so once a
/// peer is revoked it leaves none.
pub proof fn a_sweep_leaves_only_granted_sessions<S, R>(
    m: Map<u32, Session<S, R>>,
    c: ConfigSpec,
    peer: EndpointId,
    id: u32,
)
    ensures
        kept(m, |s: Session<S, R>| may_reach(c, peer, Proto::Udp, s.port)).dom().contains(id)
            <==> m.dom().contains(id) && may_reach(c, peer, Proto::Udp, m[id].port),
        !config_admits(c, peer) ==> kept(
            m,
            |s: Session<S, R>| may_reach(c, peer, Proto::Udp, s.port),
        ) =~= Map::<u32, Session<S, R>>::empty(),
{
}

/// A session that carried something is not reaped until it has been silent for the
/// whole idle time; one that has been is.
pub proof fn a_session_lives_while_it_is_used<S, R>(
    m: Map<u32, Session<S, R>>,
    id: u32,
    used: u64,
    now: u64,
)
    requires
        m.dom().contains(id),
        used <= now,
    ensures
        kept(touched(m, id, used), |s: Session<S, R>| is_fresh(s.last, now)).dom().contains(id)
            <==> now - used < UDP_IDLE_NANOS,
{
}

/// Offering a port in the shared list of a running server opens it to a peer that is
/// connected and admitted, for the next stream.
pub proof fn offering_a_port_opens_it(
    c: ConfigSpec,
    peer: EndpointId,
    o: OfferSpec,
)
    requires
        config_admits(c, peer),
        o.enabled,
    ensures
        may_reach(ConfigSpec { shared: c.shared.push(o), ..c }, peer, o.proto, o.port),
{
    let d = ConfigSpec { shared: c.shared.push(o), ..c };
    assert(d.shared[c.shared.len() as int] == o);
    assert(grants(d.shared, o.proto, o.port));
    crate::grants::shared_ports_reach_every_admitted_peer(d, peer, o.proto, o.port);
}

/// Withdrawing a port from the shared list closes it to every peer that has no offer
/// of its own for it.
pub proof fn withdrawing_a_port_closes_it(
    c: ConfigSpec,
    peer: EndpointId,
    proto: Proto,
    port: u16,
)
    requires
        find_peer(c.peers, peer) matches Some(p) ==> !grants(p.offers, proto, port),
    ensures
        !may_reach(
            ConfigSpec {
                shared: c.shared.filter(
                    |o: OfferSpec| !(o.proto == proto && o.port == port),
                ),
                ..c
            },
            peer,
            proto,
            port,
        ),
{
    let keep = |o: OfferSpec| !(o.proto == proto && o.port == port);
    let d = ConfigSpec { shared: c.shared.filter(keep), ..c };
    if may_reach(d, peer, proto, port) {
        crate::grants::only_offered_ports_are_reachable(d, peer, proto, port);
        let k = choose|k: int|
            0 <= k < d.shared.len() && (#[trigger] d.shared[k]).enabled && d.shared[k].proto
                == proto && d.shared[k].port == port;
        c.shared.lemma_filter_pred(keep, k);
    }
}

/// Carrying something changes nothing of a session but when it was last used, and
/// nothing at all of the other sessions: each keeps its socket, what keeps its replies
/// flowing, and the port it was opened for.
pub proof fn carrying_changes_only_when_a_session_was_used<S, R>(
    m: Map<u32, Session<S, R>>,
    id: u32,
    now: u64,
    k: u32,
)
    ensures
        touched(m, id, now).dom() == m.dom(),
        m.dom().contains(k) ==> {
            let (was, left) = (m[k], touched(m, id, now)[k]);
            &&& left.sock == was.sock
            &&& left.reply == was.reply
            &&& left.port == was.port
            &&& left.last == if k == id {
                now
            } else {
                was.last
            }
        },
{
    assert(touched(m, id, now).dom() =~= m.dom());
}

/// A session table in which a session was used at some moments, one after the other.
pub open spec fn touched_at<S, R>(m: Map<u32, Session<S, R>>, id: u32, times: Seq<u64>) -> Map<
    u32,
    Session<S, R>,
>
    decreases times.len(),
{
    if times.len() == 0 {
        m
    } else {
        touched(touched_at(m, id, times.drop_last()), id, times.last())
    }
}

/// A session that was opened for a port, and then used any number of times, is in the
/// table with its socket and that port.
pub proof fn a_session_keeps_the_port_it_was_opened_for<S, R>(
    m: Map<u32, Session<S, R>>,
    id: u32,
    opened: Session<S, R>,
    times: Seq<u64>,
)
    ensures
        ({
            let now = touched_at(m.insert(id, opened), id, times);
            &&& now.dom().contains(id)
            &&& now[id].port == opened.port
            &&& now[id].sock == opened.sock
            &&& now[id].reply == opened.reply
        }),
    decreases times.len(),
{
    if times.len() > 0 {
        let front = times.drop_last();
        a_session_keeps_the_port_it_was_opened_for(m, id, opened, front);
        carrying_changes_only_when_a_session_was_used(
            touched_at(m.insert(id, opened), id, front),
            id,
            times.last(),
            id,
        );
    }
}

/// A session that was opened for a port, and then used any number of times, survives a
/// sweep exactly when the peer may still reach that port, and then on the same socket.
pub proof fn a_session_in_use_survives_while_its_port_is_granted<S, R>(
    m: Map<u32, Session<S, R>>,
    id: u32,
    opened: Session<S, R>,
    times: Seq<u64>,
    c: ConfigSpec,
    peer: EndpointId,
)
    ensures
        ({
            let left = kept(
                touched_at(m.insert(id, opened), id, times),
                |s: Session<S, R>| may_reach(c, peer, Proto::Udp, s.port),
            );
            &&& left.dom().contains(id) <==> may_reach(c, peer, Proto::Udp, opened.port)
            &&& left.dom().contains(id) ==> left[id].sock == opened.sock && left[id].reply
                == opened.reply && left[id].port == opened.port
        }),
{
    a_session_keeps_the_port_it_was_opened_for(m, id, opened, times);
}

/// A session is silent for too long once a whole minute has passed since it was used.
pub proof fn a_session_is_reaped_after_a_minute<S, R>(
    m: Map<u32, Session<S, R>>,
    id: u32,
    now: u64,
)
    requires
        m.dom().contains(id),
    ensures
        ({
            let left = kept(m, |s: Session<S, R>| is_fresh(s.last, now));
            &&& left.dom().contains(id) <==> now - m[id].last < 60_000_000_000
            &&& left.dom().contains(id) ==> left[id] == m[id]
        }),
{
}

/// A refused peer and a refused port are told apart by their codes.
pub proof fn the_codes_tell_the_refusals_apart()
    ensures
        REFUSED == 1,
        REFUSED_PORT == 2,
{
}

/// A list of the ports that a peer may reach holds exactly those that its entries open.
pub proof fn a_list_of_ports_follows_the_entries(
    ports: Seq<u16>,
    c: ConfigSpec,
    i: int,
    proto: Proto,
    port: u16,
)
    requires
        forall|a: int, b: int|
            0 <= a < b < c.peers.len() ==> (#[trigger] c.peers[a]).id != (#[trigger] c.peers[b]).id,
        0 <= i < c.peers.len(),
        lists_reach(ports, c, c.peers[i].id, proto),
    ensures
        ports.contains(port) <==> c.peers[i].enabled && ((exists|k: int|
            0 <= k < c.shared.len() && (#[trigger] c.shared[k]).enabled && c.shared[k].proto
                == proto && c.shared[k].port == port) || (exists|k: int|
            0 <= k < c.peers[i].offers.len() && (#[trigger] c.peers[i].offers[k]).enabled
                && c.peers[i].offers[k].proto == proto && c.peers[i].offers[k].port == port)),
{
    crate::grants::reach_follows_the_entries(c, i, proto, port);
}

/// A stream is joined to the port that its first two bytes name, high byte first, exactly
/// when the peer may reach that port over TCP; otherwise it is reset.
pub proof fn a_stream_is_joined_to_the_port_it_names(
    cfg: &Config,
    peer: &EndpointId,
    head: [u8; 2],
    step: StreamStep,
)
    requires
        call_ensures(serve_stream, (cfg, peer, head), step),
    ensures
        may_reach(cfg@, *peer, Proto::Tcp, (head[0] * 256 + head[1]) as u16) ==> step
            == (StreamStep::Connect { port: (head[0] * 256 + head[1]) as u16 }),
        !may_reach(cfg@, *peer, Proto::Tcp, (head[0] * 256 + head[1]) as u16) ==> step
            == (StreamStep::Reset { code: 2 }),
{
}

/// A peer is refused exactly when it is not admitted, and nothing then changes; an
/// admitted one is named as it is listed and is connected, nobody else is touched, and
/// the configuration stays.
pub proof fn a_connection_is_judged_by_the_allowlist(peer: EndpointId, now: u64, other: EndpointId)
    ensures
        forall|s: &mut Shared, a: Admission| #[trigger]
            call_ensures(run_admission, (s, peer, now), a) ==> {
                let (was, left) = ((*s)@, (*final(s))@);
                &&& a is Admit <==> config_admits(was.config, peer)
                &&& a is Refuse ==> a->Refuse_0 == Close::NotAllowlisted && left == was
                &&& a is Admit ==> left.peers.dom().contains(peer) && (find_peer(
                    was.config.peers,
                    peer,
                ) matches Some(p) && a->name@ == p.name)
                &&& a is Admit && !was.peers.dom().contains(peer) ==> left.peers[peer].since == now
                &&& was.peers.dom().contains(other) ==> left.peers.dom().contains(other)
                    && left.peers[other] == was.peers[other]
                &&& left.peers.dom().contains(other) && other != peer
                    ==> was.peers.dom().contains(other)
                &&& left.config == was.config && left.version == was.version && left.binds == was.binds
            },
{
}

/// A held connection is closed exactly when a configuration was published that does not
/// admit the peer.
pub proof fn a_connection_is_closed_once_revoked(
    cfg: &Config,
    peer: &EndpointId,
    told: Watch,
    e: Evict,
)
    requires
        call_ensures(evict_when_revoked, (cfg, peer, told), e),
    ensures
        e is Close <==> told == Watch::Changed && !config_admits(cfg@, *peer),
        e is Close ==> e == Evict::Close(Close::AccessRevoked),
        e is Stop <==> told == Watch::Gone,
{
}

/// Using a session, by a datagram or by a reply, changes when it was last used and
/// nothing else; the socket that is handed out is its own. Opening one puts it in the
/// table with its port, its socket and what keeps its replies flowing.
pub proof fn a_session_is_its_socket_and_its_port<S, R>(id: u32, now: u64, k: u32, port: u16)
    ensures
        forall|s: &mut Sessions<S, R>, r: Option<Arc<S>>| #[trigger]
            call_ensures(Sessions::<S, R>::touch, (s, id, now), r) ==> {
                let (was, left) = ((*s)@, (*final(s))@);
                &&& left.dom() == was.dom()
                &&& r is Some <==> was.dom().contains(id)
                &&& r is Some ==> r->Some_0 == was[id].sock && left[id].last == now
                &&& was.dom().contains(k) ==> left[k].sock == was[k].sock && left[k].reply
                    == was[k].reply && left[k].port == was[k].port
                &&& was.dom().contains(k) && k != id ==> left[k].last == was[k].last
            },
        forall|s: &mut Sessions<S, R>, sock: Arc<S>, reply: R, r: ()| #[trigger]
            call_ensures(Sessions::<S, R>::open, (s, id, port, sock, reply, now), r) ==> {
                let (was, left) = ((*s)@, (*final(s))@);
                &&& left.dom() == was.dom().insert(id)
                &&& left[id].port == port && left[id].sock == sock && left[id].reply == reply
                    && left[id].last == now
                &&& was.dom().contains(k) && k != id ==> left[k] == was[k]
            },
        forall|s: &mut Sessions<S, R>, payload: &[u8], dg: Bytes| #[trigger]
            call_ensures(pump_reply::<S, R>, (s, id, port, payload, now), dg) ==> {
                let (was, left) = ((*s)@, (*final(s))@);
                &&& left.dom() == was.dom()
                &&& was.dom().contains(k) ==> left[k].sock == was[k].sock && left[k].reply
                    == was[k].reply && left[k].port == was[k].port
                &&& was.dom().contains(id) ==> left[id].last == now
                &&& datagram_parts(bytes_content(dg)) == Some((id, port, payload@))
            },
{
    assert forall|s: &mut Sessions<S, R>, r: Option<Arc<S>>| #[trigger]
        call_ensures(Sessions::<S, R>::touch, (s, id, now), r) implies ({
        let (was, left) = ((*s)@, (*final(s))@);
        &&& left.dom() == was.dom()
        &&& r is Some <==> was.dom().contains(id)
        &&& r is Some ==> r->Some_0 == was[id].sock && left[id].last == now
        &&& was.dom().contains(k) ==> left[k].sock == was[k].sock && left[k].reply == was[k].reply
            && left[k].port == was[k].port
        &&& was.dom().contains(k) && k != id ==> left[k].last == was[k].last
    }) by {
        carrying_changes_only_when_a_session_was_used((*s)@, id, now, k);
        carrying_changes_only_when_a_session_was_used((*s)@, id, now, id);
    }
    assert forall|s: &mut Sessions<S, R>, sock: Arc<S>, reply: R, r: ()| #[trigger]
        call_ensures(Sessions::<S, R>::open, (s, id, port, sock, reply, now), r) implies ({
        let (was, left) = ((*s)@, (*final(s))@);
        &&& left.dom() == was.dom().insert(id)
        &&& left[id].port == port && left[id].sock == sock && left[id].reply == reply && left[id].last
            == now
        &&& was.dom().contains(k) && k != id ==> left[k] == was[k]
    }) by {
        assert((*final(s))@.dom() =~= (*s)@.dom().insert(id));
    }
    assert forall|s: &mut Sessions<S, R>, payload: &[u8], dg: Bytes| #[trigger]
        call_ensures(pump_reply::<S, R>, (s, id, port, payload, now), dg) implies ({
        let (was, left) = ((*s)@, (*final(s))@);
        &&& left.dom() == was.dom()
        &&& was.dom().contains(k) ==> left[k].sock == was[k].sock && left[k].reply == was[k].reply
            && left[k].port == was[k].port
        &&& was.dom().contains(id) ==> left[id].last == now
        &&& datagram_parts(bytes_content(dg)) == Some((id, port, payload@))
    }) by {
        carrying_changes_only_when_a_session_was_used((*s)@, id, now, k);
        carrying_changes_only_when_a_session_was_used((*s)@, id, now, id);
        crate::proto::datagram_round_trips(id, port, payload@);
    }
}

/// Whatever the pump is told, no session of another port, socket or id comes of it: a
/// session that is in the table after a turn was there before, with the same socket and
/// for the same port. A turn takes a session away only when the configuration changed and
/// its port may no longer be reached; one for a port that may be reached stays.
pub proof fn the_pump_keeps_every_granted_session<S, R>(
    cfg: &Config,
    peer: &EndpointId,
    event: PumpEvent,
    now: u64,
    id: u32,
)
    ensures
        forall|s: &mut Sessions<S, R>, step: PumpStep<S>| #[trigger]
            call_ensures(pump_udp::<S, R>, (s, cfg, peer, event, now), step) ==> {
                let (was, left) = ((*s)@, (*final(s))@);
                &&& left.dom().contains(id) ==> was.dom().contains(id) && left[id].sock == was[id].sock
                    && left[id].reply == was[id].reply && left[id].port == was[id].port
                &&& was.dom().contains(id) ==> (left.dom().contains(id) <==> event
                    != PumpEvent::Config(Watch::Changed) || may_reach(
                    cfg@,
                    *peer,
                    Proto::Udp,
                    was[id].port,
                ))
                &&& left.dom().contains(id) && left[id].last != was[id].last ==> left[id].last == now
                    && step is Send && step->Send_id == id
            },
{
    assert forall|s: &mut Sessions<S, R>, step: PumpStep<S>| #[trigger]
        call_ensures(pump_udp::<S, R>, (s, cfg, peer, event, now), step) implies ({
        let (was, left) = ((*s)@, (*final(s))@);
        &&& left.dom().contains(id) ==> was.dom().contains(id) && left[id].sock == was[id].sock
            && left[id].reply == was[id].reply && left[id].port == was[id].port
        &&& was.dom().contains(id) ==> (left.dom().contains(id) <==> event != PumpEvent::Config(
            Watch::Changed,
        ) || may_reach(cfg@, *peer, Proto::Udp, was[id].port))
        &&& left.dom().contains(id) && left[id].last != was[id].last ==> left[id].last == now && step
            is Send && step->Send_id == id
    }) by {
        if let PumpEvent::Datagram(dg) = event {
            if let Some((other, port, payload)) = datagram_parts(bytes_content(dg)) {
                carrying_changes_only_when_a_session_was_used((*s)@, other, now, id);
            }
        }
    }
}

/// A datagram for a port that may be reached goes out on the socket of its session, or
/// opens one for its own id and port if there is none; for any other port it is refused.
/// What goes out is the payload that was sent.
pub proof fn a_datagram_goes_to_its_session<S, R>(
    cfg: &Config,
    peer: &EndpointId,
    dg: Bytes,
    id: u32,
    port: u16,
    payload: Seq<u8>,
    now: u64,
)
    requires
        bytes_content(dg) == datagram_frame(id, port, payload),
    ensures
        forall|s: &mut Sessions<S, R>, step: PumpStep<S>| #[trigger]
            call_ensures(pump_udp::<S, R>, (s, cfg, peer, PumpEvent::Datagram(dg), now), step) ==> {
                let was = (*s)@;
                let open = may_reach(cfg@, *peer, Proto::Udp, port);
                &&& !open <==> step is Refuse
                &&& open && was.dom().contains(id) ==> (step matches PumpStep::Send {
                    sock,
                    id: i,
                    port: p,
                    payload: b,
                } && sock == was[id].sock && i == id && p == port && bytes_content(b) == payload)
                &&& open && !was.dom().contains(id) ==> (step matches PumpStep::Open {
                    id: i,
                    port: p,
                    payload: b,
                } && i == id && p == port && bytes_content(b) == payload)
            },
{
    crate::proto::datagram_round_trips(id, port, payload);
}

} // verus!
