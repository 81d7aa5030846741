//! The machine reaching the offered ports: the UDP session table, keyed by local
//! source address, and what is done with each datagram.
use crate::address::SocketAddr;
use crate::idle::{fresh, is_fresh, UDP_IDLE_NANOS};
use crate::portmap::PortMap;
use crate::proto::{
    bytes_content, datagram_frame, datagram_parts, datagram_round_trips, decode_datagram,
    encode_datagram, DATAGRAM_HEADER,
};
use crate::share::share;
use crate::table::{kept, Key, Table};
use bytes::Bytes;
use std::sync::Arc;
use vstd::prelude::*;

verus! {

/// UDP has no connections, so they are synthesised: a local source address and a
/// target port make one session.
#[derive(Clone, Copy, Debug, PartialEq, Eq, Structural)]
pub struct Flow {
    pub src: SocketAddr,
    pub port: u16,
}

impl Key for Flow {
    fn same(&self, other: &Self) -> (r: bool) {
        *self == *other
    }
}

/// A session on the connecting side: the local process behind it, the socket it
/// talks to, and when it last carried anything.
pub struct Session<S> {
    pub src: SocketAddr,
    pub sock: Arc<S>,
    pub last: u64,
}

/// The sessions of one connection. The id of a session is what lets a reply find its
/// way back to the right local process.
pub struct Sessions<S> {
    by_key: Table<Flow, u32>,
    by_id: Table<u32, Session<S>>,
    next_id: u32,
}

/// What a session table says. `next_id` is the last id that was given out.
#[verifier::ext_equal]
pub struct SessionsSpec<S> {
    pub by_key: Map<Flow, u32>,
    pub by_id: Map<u32, Session<S>>,
    pub next_id: u32,
}

/// Every flow has a session of its own, from the same source, under an id that was
/// given out; every session belongs to a flow.
pub open spec fn sessions_wf<S>(s: SessionsSpec<S>) -> bool {
    &&& forall|f: Flow| #[trigger]
        s.by_key.dom().contains(f) ==> s.by_id.dom().contains(s.by_key[f]) && s.by_id[s.by_key[f]].src
            == f.src
    &&& forall|f: Flow, g: Flow|
        #![trigger s.by_key[f], s.by_key[g]]
        s.by_key.dom().contains(f) && s.by_key.dom().contains(g) && s.by_key[f] == s.by_key[g]
            ==> f == g
    &&& forall|id: u32| #[trigger]
        s.by_id.dom().contains(id) ==> 0 < id <= s.next_id && exists|f: Flow| #[trigger]
            s.by_key.dom().contains(f) && s.by_key[f] == id
}

/// A session that was just used.
pub open spec fn used<S>(s: Session<S>, now: u64) -> Session<S> {
    Session { src: s.src, sock: s.sock, last: now }
}

/// The id under which a flow is carried: its own, or the next one.
pub open spec fn flow_id<S>(s: SessionsSpec<S>, f: Flow) -> u32 {
    if s.by_key.dom().contains(f) {
        s.by_key[f]
    } else {
        (s.next_id + 1) as u32
    }
}

/// The table once a flow has sent something.
pub open spec fn with_flow<S>(s: SessionsSpec<S>, f: Flow, sock: Arc<S>, now: u64) -> SessionsSpec<
    S,
> {
    let id = flow_id(s, f);
    if s.by_key.dom().contains(f) {
        SessionsSpec { by_id: s.by_id.insert(id, used(s.by_id[id], now)), ..s }
    } else {
        SessionsSpec {
            by_key: s.by_key.insert(f, id),
            by_id: s.by_id.insert(id, Session { src: f.src, sock, last: now }),
            next_id: id,
        }
    }
}

/// The table once a reply for a session came in.
pub open spec fn with_reply<S>(s: SessionsSpec<S>, id: u32, now: u64) -> SessionsSpec<S> {
    if s.by_id.dom().contains(id) {
        SessionsSpec { by_id: s.by_id.insert(id, used(s.by_id[id], now)), ..s }
    } else {
        s
    }
}

/// The table without the sessions that have been idle for too long, and without
/// their flows.
pub open spec fn reaped<S>(s: SessionsSpec<S>, now: u64) -> SessionsSpec<S> {
    let by_id = kept(s.by_id, |v: Session<S>| is_fresh(v.last, now));
    SessionsSpec { by_id, by_key: kept(s.by_key, |id: u32| by_id.dom().contains(id)), ..s }
}

/// Whether the table has an id for a flow: there are as many as a `u32` can count.
pub open spec fn has_room_for<S>(s: SessionsSpec<S>, f: Flow) -> bool {
    s.by_key.dom().contains(f) || s.next_id < u32::MAX
}

proof fn lemma_with_flow_wf<S>(s: SessionsSpec<S>, f: Flow, sock: Arc<S>, now: u64)
    requires
        sessions_wf(s),
        has_room_for(s, f),
    ensures
        sessions_wf(with_flow(s, f, sock, now)),
{
    let t = with_flow(s, f, sock, now);
    if s.by_key.dom().contains(f) {
        assert forall|id: u32| #[trigger] t.by_id.dom().contains(id) implies 0 < id <= t.next_id
            && exists|g: Flow| #[trigger] t.by_key.dom().contains(g) && t.by_key[g] == id by {
            assert(s.by_id.dom().contains(id));
        }
    } else {
        assert forall|g: Flow| #[trigger] t.by_key.dom().contains(g) implies t.by_id.dom().contains(
            t.by_key[g],
        ) && t.by_id[t.by_key[g]].src == g.src by {
            if g != f {
                assert(s.by_key.dom().contains(g));
            }
        }
        assert forall|g: Flow, h: Flow|
            #![trigger t.by_key[g], t.by_key[h]]
            t.by_key.dom().contains(g) && t.by_key.dom().contains(h) && t.by_key[g]
                == t.by_key[h] implies g == h by {
            if g != f {
                assert(s.by_key.dom().contains(g));
            }
            if h != f {
                assert(s.by_key.dom().contains(h));
            }
        }
        assert forall|id: u32| #[trigger] t.by_id.dom().contains(id) implies 0 < id <= t.next_id
            && exists|g: Flow| #[trigger] t.by_key.dom().contains(g) && t.by_key[g] == id by {
            if id == t.next_id {
                assert(t.by_key.dom().contains(f) && t.by_key[f] == id);
            } else {
                assert(s.by_id.dom().contains(id));
                let g = choose|g: Flow| #[trigger] s.by_key.dom().contains(g) && s.by_key[g] == id;
                assert(t.by_key.dom().contains(g) && t.by_key[g] == id);
            }
        }
    }
}

proof fn lemma_with_reply_wf<S>(s: SessionsSpec<S>, id: u32, now: u64)
    requires
        sessions_wf(s),
    ensures
        sessions_wf(with_reply(s, id, now)),
{
    let t = with_reply(s, id, now);
    assert forall|i: u32| #[trigger] t.by_id.dom().contains(i) implies 0 < i <= t.next_id
        && exists|g: Flow| #[trigger] t.by_key.dom().contains(g) && t.by_key[g] == i by {
        assert(s.by_id.dom().contains(i));
        let g = choose|g: Flow| #[trigger] s.by_key.dom().contains(g) && s.by_key[g] == i;
        assert(t.by_key.dom().contains(g) && t.by_key[g] == i);
    }
}

proof fn lemma_reaped_wf<S>(s: SessionsSpec<S>, now: u64)
    requires
        sessions_wf(s),
    ensures
        sessions_wf(reaped(s, now)),
{
    let t = reaped(s, now);
    assert forall|f: Flow| #[trigger] t.by_key.dom().contains(f) implies t.by_id.dom().contains(
        t.by_key[f],
    ) && t.by_id[t.by_key[f]].src == f.src by {
        assert(s.by_key.dom().contains(f));
    }
    assert forall|g: Flow, h: Flow|
        #![trigger t.by_key[g], t.by_key[h]]
        t.by_key.dom().contains(g) && t.by_key.dom().contains(h) && t.by_key[g]
            == t.by_key[h] implies g == h by {
        assert(s.by_key.dom().contains(g) && s.by_key.dom().contains(h));
        assert(s.by_key[g] == s.by_key[h]);
    }
    assert forall|id: u32| #[trigger] t.by_id.dom().contains(id) implies 0 < id <= t.next_id
        && exists|g: Flow| #[trigger] t.by_key.dom().contains(g) && t.by_key[g] == id by {
        assert(s.by_id.dom().contains(id));
        let g = choose|g: Flow| #[trigger] s.by_key.dom().contains(g) && s.by_key[g] == id;
        assert(t.by_key.dom().contains(g) && t.by_key[g] == id);
    }
}

impl<S> View for Sessions<S> {
    type V = SessionsSpec<S>;

    closed spec fn view(&self) -> SessionsSpec<S> {
        SessionsSpec { by_key: self.by_key@, by_id: self.by_id@, next_id: self.next_id }
    }
}

impl<S> Sessions<S> {
    pub open spec fn wf(&self) -> bool {
        sessions_wf(self@)
    }

    pub fn new() -> (s: Self)
        ensures
            s.wf(),
            s@ == (SessionsSpec::<S> { by_key: Map::empty(), by_id: Map::empty(), next_id: 0 }),
    {
        Sessions { by_key: Table::new(), by_id: Table::new(), next_id: 0 }
    }

    /// Whether a flow is known, or an id is left for it.
    pub fn has_room(&self, src: SocketAddr, port: u16) -> (r: bool)
        ensures
            r == has_room_for(self@, Flow { src, port }),
    {
        self.by_key.contains(&Flow { src, port }) || self.next_id < u32::MAX
    }

    /// The id for what a local process sends to a port, opening a session for it if
    /// there is none.
    pub fn id_for(&mut self, src: SocketAddr, port: u16, sock: &Arc<S>, now: u64) -> (id: u32)
        requires
            old(self).wf(),
            has_room_for(old(self)@, Flow { src, port }),
        ensures
            final(self).wf(),
            id == flow_id(old(self)@, Flow { src, port }),
            final(self)@ == with_flow(old(self)@, Flow { src, port }, *sock, now),
    {
        let flow: Flow = Flow { src, port };
        proof {
            lemma_with_flow_wf(self@, flow, *sock, now);
        }
        let known: Option<u32> = match self.by_key.get(&flow) {
            Some(id) => Some(*id),
            None => None,
        };
        if let Some(id) = known {
            if let Some(s) = self.by_id.remove(&id) {
                self.by_id.set(id, Session { src: s.src, sock: s.sock, last: now });
            }
            assert(self@ =~= with_flow(old(self)@, flow, *sock, now));
            return id;
        }
        self.next_id = self.next_id + 1;
        let id: u32 = self.next_id;
        self.by_key.set(flow, id);
        self.by_id.set(id, Session { src, sock: share(sock), last: now });
        id
    }

    /// The reply route, refreshing the idle timer: a service that keeps talking keeps
    /// its session, even if the local process has gone quiet.
    pub fn reply_route(&mut self, id: u32, now: u64) -> (r: Option<(Arc<S>, SocketAddr)>)
        requires
            old(self).wf(),
        ensures
            final(self).wf(),
            final(self)@ == with_reply(old(self)@, id, now),
            match r {
                Some((sock, src)) => old(self)@.by_id.dom().contains(id) && sock == old(
                    self,
                )@.by_id[id].sock && src == old(self)@.by_id[id].src,
                None => !old(self)@.by_id.dom().contains(id),
            },
    {
        proof {
            lemma_with_reply_wf(self@, id, now);
        }
        match self.by_id.remove(&id) {
            None => {
                assert(self@ =~= old(self)@);
                None
            },
            Some(s) => {
                let route: (Arc<S>, SocketAddr) = (share(&s.sock), s.src);
                self.by_id.set(id, Session { src: s.src, sock: s.sock, last: now });
                assert(self@ =~= with_reply(old(self)@, id, now));
                Some(route)
            },
        }
    }

    /// Releases the sessions that have been idle for too long.
    pub fn reap(&mut self, now: u64)
        requires
            old(self).wf(),
        ensures
            final(self).wf(),
            final(self)@ == reaped(old(self)@, now),
    {
        proof {
            lemma_reaped_wf(self@, now);
        }
        let ghost keep = |v: Session<S>| is_fresh(v.last, now);
        let used = |v: &Session<S>| -> (r: bool)
            ensures
                r == is_fresh(v.last, now),
        {
            fresh(v.last, now)
        };
        self.by_id.retain(used, Ghost(keep));
        let by_id: &Table<u32, Session<S>> = &self.by_id;
        let ghost left = by_id@;
        let ghost held = |id: u32| left.dom().contains(id);
        let routed = |id: &u32| -> (r: bool)
            ensures
                r == by_id@.dom().contains(*id),
        {
            by_id.contains(id)
        };
        self.by_key.retain(routed, Ghost(held));
        assert(self@ =~= reaped(old(self)@, now));
    }
}

// ---------------------------------------------------------------- datagrams

/// What a local process sent to a bound port, framed for the far side: the session
/// it belongs to is opened if need be, and was just used.
pub fn pump_udp_out<S>(
    sessions: &mut Sessions<S>,
    src: SocketAddr,
    m: PortMap,
    sock: &Arc<S>,
    payload: &[u8],
    now: u64,
) -> (dg: Bytes)
    requires
        old(sessions).wf(),
        has_room_for(old(sessions)@, Flow { src, port: m.remote }),
    ensures
        final(sessions).wf(),
        final(sessions)@ == with_flow(
            old(sessions)@,
            Flow { src, port: m.remote },
            *sock,
            now,
        ),
        bytes_content(dg) == datagram_frame(
            flow_id(old(sessions)@, Flow { src, port: m.remote }),
            m.remote,
            payload@,
        ),
{
    let id: u32 = sessions.id_for(src, m.remote, sock, now);
    encode_datagram(id, m.remote, payload)
}

/// The largest payload that a datagram can carry, given how large a datagram the
/// link carries: a larger one is dropped, and the log names this cap.
pub fn payload_cap(max_datagram: Option<usize>) -> (cap: Option<usize>)
    ensures
        cap == (match max_datagram {
            Some(max) => Some(
                if max >= DATAGRAM_HEADER {
                    (max - DATAGRAM_HEADER) as usize
                } else {
                    0
                },
            ),
            None => None,
        }),
{
    match max_datagram {
        Some(max) => Some(max.saturating_sub(DATAGRAM_HEADER)),
        None => None,
    }
}

/// What is done with a datagram from the far side.
pub enum ReplyStep<S> {
    /// It is dropped: it is shorter than the header.
    TooShort,
    /// It is dropped: its session was reaped, or never was.
    Unknown { id: u32 },
    /// Its payload goes to the local process behind the session.
    Deliver { id: u32, sock: Arc<S>, src: SocketAddr, payload: Bytes },
}

/// Routes a datagram from the far side to the local process that is waiting for it.
pub fn pump_udp_in<S>(sessions: &mut Sessions<S>, dg: &Bytes, now: u64) -> (step: ReplyStep<S>)
    requires
        old(sessions).wf(),
    ensures
        final(sessions).wf(),
        match datagram_parts(bytes_content(*dg)) {
            None => step is TooShort && final(sessions)@ == old(sessions)@,
            Some((id, port, payload)) => final(sessions)@ == with_reply(old(sessions)@, id, now)
                && if old(sessions)@.by_id.dom().contains(id) {
                step matches ReplyStep::Deliver { id: i, sock, src, payload: b } && i == id && sock
                    == old(sessions)@.by_id[id].sock && src == old(sessions)@.by_id[id].src
                    && bytes_content(b) == payload
            } else {
                step == ReplyStep::<S>::Unknown { id }
            },
        },
{
    match decode_datagram(dg) {
        None => ReplyStep::TooShort,
        Some((id, _port, payload)) => match sessions.reply_route(id, now) {
            Some((sock, src)) => ReplyStep::Deliver { id, sock, src, payload },
            None => ReplyStep::Unknown { id },
        },
    }
}

// ---------------------------------------------------------------- laws

/// A reply reaches the local source that sent, and no other: what comes back under
/// the id of a flow is routed to the source of that flow, and two flows never share
/// an id.
pub proof fn replies_reach_their_source<S>(
    s: SessionsSpec<S>,
    f: Flow,
    g: Flow,
    sock: Arc<S>,
    now: u64,
)
    requires
        sessions_wf(s),
        has_room_for(s, f),
    ensures
        with_flow(s, f, sock, now).by_id.dom().contains(flow_id(s, f)),
        with_flow(s, f, sock, now).by_id[flow_id(s, f)].src == f.src,
        s.by_key.dom().contains(g) && f != g ==> flow_id(s, f) != flow_id(s, g),
{
}

/// A flow keeps its id for as long as its session is held, whatever else is sent.
pub proof fn a_flow_keeps_its_id<S>(
    s: SessionsSpec<S>,
    f: Flow,
    g: Flow,
    sock: Arc<S>,
    id: u32,
    now: u64,
)
    requires
        sessions_wf(s),
        s.by_key.dom().contains(f),
        has_room_for(s, g),
    ensures
        flow_id(with_flow(s, f, sock, now), f) == flow_id(s, f),
        flow_id(with_flow(s, g, sock, now), f) == flow_id(s, f),
        flow_id(with_reply(s, id, now), f) == flow_id(s, f),
        is_fresh(s.by_id[flow_id(s, f)].last, now) ==> flow_id(reaped(s, now), f) == flow_id(s, f),
{
}

/// An id is never given out twice: a new session gets one that no session had
/// before, even if the table has shrunk since.
pub proof fn ids_are_not_given_out_twice<S>(
    s: SessionsSpec<S>,
    f: Flow,
    sock: Arc<S>,
    id: u32,
    now: u64,
)
    requires
        sessions_wf(s),
        has_room_for(s, f),
        !s.by_key.dom().contains(f),
    ensures
        !s.by_id.dom().contains(flow_id(s, f)),
        flow_id(s, f) > s.next_id,
        with_flow(s, f, sock, now).next_id == flow_id(s, f),
        with_reply(s, id, now).next_id == s.next_id,
        reaped(s, now).next_id == s.next_id,
{
}

/// A session is released when it has been silent in both directions for the whole
/// idle time, and not before.
pub proof fn a_session_lives_while_it_is_used<S>(
    s: SessionsSpec<S>,
    f: Flow,
    sock: Arc<S>,
    id: u32,
    last: u64,
    now: u64,
)
    requires
        sessions_wf(s),
        has_room_for(s, f),
        s.by_id.dom().contains(id),
        last <= now,
    ensures
        reaped(with_flow(s, f, sock, last), now).by_key.dom().contains(f) <==> now - last
            < UDP_IDLE_NANOS,
        reaped(with_reply(s, id, last), now).by_id.dom().contains(id) <==> now - last
            < UDP_IDLE_NANOS,
{
}

/// What one side sends under a session comes back under it: the far side answers a
/// datagram with the id it came with, and that id leads to the local source.
pub proof fn an_answer_finds_its_sender<S>(
    s: SessionsSpec<S>,
    f: Flow,
    sock: Arc<S>,
    sent: Seq<u8>,
    answer: Seq<u8>,
    now: u64,
)
    requires
        sessions_wf(s),
        has_room_for(s, f),
    ensures
        datagram_parts(datagram_frame(flow_id(s, f), f.port, sent)) == Some(
            (flow_id(s, f), f.port, sent),
        ),
        datagram_parts(datagram_frame(flow_id(s, f), f.port, answer)) == Some(
            (flow_id(s, f), f.port, answer),
        ),
        with_flow(s, f, sock, now).by_id[flow_id(s, f)].src == f.src,
{
    datagram_round_trips(flow_id(s, f), f.port, sent);
    datagram_round_trips(flow_id(s, f), f.port, answer);
}

/// What a flow sends is carried under an id of its own: the one it has, or the one after
/// the last that was given out. A flow that is known keeps its socket and its source, one
/// that is new gets its own; either was just used. Every other flow and session is as it
/// was.
pub proof fn sending_touches_only_its_flow<S>(
    s: SessionsSpec<S>,
    f: Flow,
    sock: Arc<S>,
    now: u64,
    g: Flow,
    id: u32,
)
    requires
        sessions_wf(s),
        has_room_for(s, f),
    ensures
        ({
            let t = with_flow(s, f, sock, now);
            let own = t.by_key[f];
            &&& t.by_key.dom().contains(f) && t.by_id.dom().contains(own)
            &&& s.by_key.dom().contains(f) ==> own == s.by_key[f] && t.by_id[own].sock
                == s.by_id[own].sock && t.next_id == s.next_id
            &&& !s.by_key.dom().contains(f) ==> own == s.next_id + 1 && t.by_id[own].sock == sock
                && t.next_id == own
            &&& t.by_id[own].src == f.src
            &&& t.by_id[own].last == now
            &&& g != f ==> (t.by_key.dom().contains(g) <==> s.by_key.dom().contains(g))
            &&& g != f && s.by_key.dom().contains(g) ==> t.by_key[g] == s.by_key[g]
            &&& id != own ==> (t.by_id.dom().contains(id) <==> s.by_id.dom().contains(id))
            &&& id != own && s.by_id.dom().contains(id) ==> t.by_id[id] == s.by_id[id]
            &&& flow_id(s, f) == own
        }),
{
}

/// A reply changes nothing but when its session was last used: socket and source stay,
/// and so do all flows and all other sessions.
pub proof fn a_reply_touches_only_its_session<S>(s: SessionsSpec<S>, id: u32, now: u64, k: u32)
    ensures
        ({
            let t = with_reply(s, id, now);
            &&& t.by_key == s.by_key && t.next_id == s.next_id
            &&& t.by_id.dom() == s.by_id.dom()
            &&& s.by_id.dom().contains(k) ==> t.by_id[k].sock == s.by_id[k].sock && t.by_id[k].src
                == s.by_id[k].src && t.by_id[k].last == (if k == id {
                now
            } else {
                s.by_id[k].last
            })
        }),
{
    assert(with_reply(s, id, now).by_id.dom() =~= s.by_id.dom());
}

/// Reaping releases exactly the sessions that have been silent for a minute, each with
/// its flow, and leaves the others as they are.
pub proof fn reaping_releases_what_was_silent_for_a_minute<S>(
    s: SessionsSpec<S>,
    now: u64,
    f: Flow,
    id: u32,
)
    requires
        sessions_wf(s),
    ensures
        ({
            let t = reaped(s, now);
            &&& t.next_id == s.next_id
            &&& t.by_id.dom().contains(id) <==> s.by_id.dom().contains(id) && now
                - s.by_id[id].last < 60 * 1_000_000_000
            &&& t.by_id.dom().contains(id) ==> t.by_id[id] == s.by_id[id]
            &&& t.by_key.dom().contains(f) <==> s.by_key.dom().contains(f)
                && t.by_id.dom().contains(s.by_key[f])
            &&& t.by_key.dom().contains(f) ==> t.by_key[f] == s.by_key[f]
        }),
{
}

/// A flow that is known can always send, and a new one as long as a `u32` has ids left.
pub proof fn ids_run_out_only_at_the_end<S>(s: SessionsSpec<S>, f: Flow)
    ensures
        s.by_key.dom().contains(f) ==> has_room_for(s, f),
        !s.by_key.dom().contains(f) ==> (has_room_for(s, f) <==> s.next_id < 0xffff_ffff),
{
}

} // verus!
