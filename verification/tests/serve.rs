use std::sync::Arc;

use bytes::Bytes;
use rtun::config::{Config, Offer, Peer, Proto};
use rtun::endpoint::EndpointId;
use rtun::idle::UDP_IDLE_NANOS;
use rtun::proto::{encode_datagram, encode_target_port};
use rtun::serve::{
    evict_when_revoked, pump_reply, pump_udp, run_admission, serve_conn, serve_conn_tasks,
    serve_stream, Accepted, Admission, Close, ConnStep, ConnTask, Evict, PumpEvent, PumpStep,
    Sessions, StreamStep, Watch, REFUSED, REFUSED_PORT,
};
use rtun::state::{Role, Shared};

/// Which ports are offered to everyone.
struct Offered {
    tcp: Vec<u16>,
    udp: Vec<u16>,
}

fn id(seed: u8) -> EndpointId {
    EndpointId { bytes: *iroh::SecretKey::from_bytes(&[seed; 32]).public().as_bytes() }
}

fn offer(proto: Proto, port: u16) -> Offer {
    Offer { proto, port, name: String::new(), enabled: true }
}

fn config(allow: &[u8], offered: &Offered) -> Config {
    let mut cfg = Config::default();
    cfg.serve.shared = offered
        .tcp
        .iter()
        .map(|p| offer(Proto::Tcp, *p))
        .chain(offered.udp.iter().map(|p| offer(Proto::Udp, *p)))
        .collect();
    cfg.serve.peers = allow
        .iter()
        .map(|s| Peer { id: id(*s), name: format!("peer {s}"), enabled: true, offers: vec![] })
        .collect();
    cfg
}

fn stream(cfg: &Config, peer: u8, port: u16) -> StreamStep {
    serve_stream(cfg, &id(peer), encode_target_port(port))
}

#[test]
fn only_listed_peers_are_let_in() {
    let cfg = config(&[1], &Offered { tcp: vec![], udp: vec![] });
    let mut sh = Shared::new(cfg, "/c".into(), Role::Serve, 0);
    match run_admission(&mut sh, id(2), 0) {
        Admission::Refuse(c) => {
            assert_eq!(c.code(), REFUSED);
            assert_eq!(c.code(), 1);
            assert_eq!(c.reason(), "not allowlisted");
        }
        other => panic!("{other:?}"),
    }
    assert!(sh.live_peers(0).is_empty());
    assert!(matches!(run_admission(&mut sh, id(1), 0), Admission::Admit { name } if name == "peer 1"));
    assert_eq!(sh.live_peers(0).len(), 1);
    sh.peer_disconnected(&id(1));
    assert!(sh.live_peers(0).is_empty());
}

#[test]
fn a_port_is_open_while_it_is_offered() {
    let mut cfg = config(&[1], &Offered { tcp: vec![22], udp: vec![53] });
    assert_eq!(stream(&cfg, 1, 22), StreamStep::Connect { port: 22 });
    assert_eq!(stream(&cfg, 1, 80), StreamStep::Reset { code: REFUSED_PORT });
    assert_eq!(REFUSED_PORT, 2);
    // the other protocol is a different grant
    assert_eq!(stream(&cfg, 1, 53), StreamStep::Reset { code: 2 });
    // a stranger reaches nothing
    assert_eq!(stream(&cfg, 2, 22), StreamStep::Reset { code: 2 });

    // offered at run time, and withdrawn again
    cfg.serve.shared.push(offer(Proto::Tcp, 80));
    assert_eq!(stream(&cfg, 1, 80), StreamStep::Connect { port: 80 });
    cfg.serve.shared.retain(|o| o.port != 80);
    assert_eq!(stream(&cfg, 1, 80), StreamStep::Reset { code: 2 });
}

#[test]
fn a_revoked_or_parked_peer_is_closed() {
    let mut cfg = config(&[1], &Offered { tcp: vec![], udp: vec![] });
    assert_eq!(evict_when_revoked(&cfg, &id(1), Watch::Changed), Evict::KeepWatching);
    cfg.serve.peers[0].enabled = false;
    assert_eq!(
        evict_when_revoked(&cfg, &id(1), Watch::Changed),
        Evict::Close(Close::AccessRevoked)
    );
    cfg.serve.peers.clear();
    assert_eq!(
        evict_when_revoked(&cfg, &id(1), Watch::Changed),
        Evict::Close(Close::AccessRevoked)
    );
    assert_eq!(Close::AccessRevoked.code(), 1);
    assert_eq!(Close::AccessRevoked.reason(), "access revoked");
    assert_eq!(evict_when_revoked(&cfg, &id(1), Watch::Gone), Evict::Stop);
}

#[test]
fn datagrams_are_judged_and_routed() {
    let cfg = config(&[1], &Offered { tcp: vec![], udp: vec![53] });
    let mut t: Sessions<&str, ()> = Sessions::new();
    let step = |t: &mut Sessions<&'static str, ()>, dg: Bytes, now: u64| {
        pump_udp(t, &cfg, &id(1), PumpEvent::Datagram(dg), now)
    };

    assert!(matches!(step(&mut t, Bytes::from_static(&[0; 5]), 0), PumpStep::TooShort));
    assert!(matches!(
        step(&mut t, encode_datagram(4, 54, b"x"), 0),
        PumpStep::Refuse { id: 4, port: 54 }
    ));
    match step(&mut t, encode_datagram(4, 53, b"hello"), 0) {
        PumpStep::Open { id: 4, port: 53, payload } => assert_eq!(&payload[..], b"hello"),
        _ => panic!("a new session is opened first"),
    }
    t.open(4, 53, Arc::new("sock"), (), 0);
    match step(&mut t, encode_datagram(4, 53, b"again"), 1) {
        PumpStep::Send { sock, id: 4, port: 53, payload } => {
            assert_eq!(*sock, "sock");
            assert_eq!(&payload[..], b"again");
        }
        _ => panic!("a known session has a socket"),
    }
    assert!(matches!(
        pump_udp(&mut t, &cfg, &id(1), PumpEvent::ReaderStopped, 1),
        PumpStep::Stop
    ));
    assert!(matches!(
        pump_udp(&mut t, &cfg, &id(1), PumpEvent::Config(Watch::Gone), 1),
        PumpStep::Stop
    ));
    assert!(t.touch(4, 1).is_some());
    // a stranger's datagrams go nowhere
    assert!(matches!(
        pump_udp(&mut t, &cfg, &id(2), PumpEvent::Datagram(encode_datagram(4, 53, b"")), 1),
        PumpStep::Refuse { id: 4, port: 53 }
    ));
}

#[test]
fn a_withdrawn_port_closes_its_sessions() {
    let mut cfg = config(&[1], &Offered { tcp: vec![], udp: vec![53, 54] });
    let mut t: Sessions<u8, ()> = Sessions::new();
    t.open(1, 53, Arc::new(1), (), 0);
    t.open(2, 54, Arc::new(2), (), 0);
    t.open(3, 53, Arc::new(3), (), 0);
    cfg.serve.shared.retain(|o| o.port != 53);
    assert!(matches!(
        pump_udp(&mut t, &cfg, &id(1), PumpEvent::Config(Watch::Changed), 0),
        PumpStep::Swept
    ));
    assert!(t.touch(1, 0).is_none() && t.touch(3, 0).is_none());
    assert_eq!(t.touch(2, 0).map(|s| *s), Some(2));
    // a parked peer keeps none
    cfg.serve.peers[0].enabled = false;
    pump_udp(&mut t, &cfg, &id(1), PumpEvent::Config(Watch::Changed), 0);
    assert!(t.touch(2, 0).is_none());
}

#[test]
fn idle_sessions_are_reaped_and_used_ones_are_not() {
    let mut t: Sessions<u8, ()> = Sessions::new();
    t.open(1, 53, Arc::new(1), (), 0);
    t.open(2, 53, Arc::new(2), (), 0);
    assert_eq!(UDP_IDLE_NANOS, 60 * 1_000_000_000);
    t.touch(2, 10);
    t.reap(UDP_IDLE_NANOS - 1);
    assert!(t.touch(1, 0).is_some());
    t.reap(UDP_IDLE_NANOS);
    assert!(t.touch(1, UDP_IDLE_NANOS).is_none());
    assert!(t.touch(2, UDP_IDLE_NANOS).is_some());
    // a reply counts as use
    let dg = pump_reply(&mut t, 2, 53, b"pong", 2 * UDP_IDLE_NANOS);
    assert_eq!(dg, encode_datagram(2, 53, b"pong"));
    t.reap(3 * UDP_IDLE_NANOS - 1);
    assert!(t.touch(2, 0).is_some());
    // a reply for a session that is gone is framed all the same
    assert_eq!(pump_reply(&mut t, 9, 53, b"", 0), encode_datagram(9, 53, b""));
    assert!(t.touch(9, 0).is_none());
}

#[test]
fn a_connection_is_torn_down_with_its_sessions() {
    assert_eq!(
        serve_conn_tasks(),
        vec![ConnTask::PumpUdp, ConnTask::EvictWhenRevoked, ConnTask::ReapSessions]
    );
    let reply = Arc::new(());
    let mut t: Sessions<u8, Arc<()>> = Sessions::new();
    t.open(1, 53, Arc::new(1), reply.clone(), 0);
    assert_eq!(serve_conn(&mut t, Accepted::Stream), ConnStep::Serve);
    assert!(t.touch(1, 0).is_some());
    assert_eq!(Arc::strong_count(&reply), 2);
    assert_eq!(serve_conn(&mut t, Accepted::Ended), ConnStep::TearDown);
    assert!(t.touch(1, 0).is_none());
    assert_eq!(Arc::strong_count(&reply), 1);
}
