use std::sync::Arc;

use bytes::Bytes;
use rtun::address::{local, SocketAddr};
use rtun::config::{Config, Offer, Peer, Proto};
use rtun::connect::{payload_cap, pump_udp_in, pump_udp_out, ReplyStep, Sessions};
use rtun::endpoint::EndpointId;
use rtun::idle::UDP_IDLE_NANOS;
use rtun::proto::{decode_datagram, encode_datagram};
use rtun::serve::{self, pump_reply, pump_udp, PumpEvent, PumpStep};
use rtun::PortMap;

const M: PortMap = PortMap { local: 5353, remote: 53 };

#[test]
fn replies_go_back_to_the_source_that_sent() {
    let mut t: Sessions<&str> = Sessions::new();
    let sock = Arc::new("listener");
    let (one, two) = (local(40001), local(40002));
    let a = pump_udp_out(&mut t, one, M, &sock, b"one", 0);
    let b = pump_udp_out(&mut t, two, M, &sock, b"two", 0);
    let (ia, pa, da) = decode_datagram(&a).unwrap();
    let (ib, _, _) = decode_datagram(&b).unwrap();
    assert_eq!((ia, ib), (1, 2));
    assert_eq!((pa, &da[..]), (53, &b"one"[..]));

    match pump_udp_in(&mut t, &encode_datagram(ib, 53, b"TWO"), 1) {
        ReplyStep::Deliver { id: 2, sock, src, payload } => {
            assert_eq!((*sock, src, &payload[..]), ("listener", two, &b"TWO"[..]));
        }
        _ => panic!("the reply has a route"),
    }
    match pump_udp_in(&mut t, &encode_datagram(ia, 53, b"ONE"), 1) {
        ReplyStep::Deliver { id: 1, src, .. } => assert_eq!(src, one),
        _ => panic!("the reply has a route"),
    }
    assert!(matches!(
        pump_udp_in(&mut t, &encode_datagram(9, 53, b""), 1),
        ReplyStep::Unknown { id: 9 }
    ));
    assert!(matches!(
        pump_udp_in(&mut t, &Bytes::from_static(&[1, 2, 3]), 1),
        ReplyStep::TooShort
    ));
}

#[test]
fn a_flow_keeps_its_session_until_it_falls_silent() {
    let mut t: Sessions<u8> = Sessions::new();
    let sock = Arc::new(0);
    let src = local(40001);
    assert_eq!(t.id_for(src, 53, &sock, 0), 1);
    assert_eq!(t.id_for(src, 53, &sock, 5), 1);
    // another port, or another source, is another flow
    assert_eq!(t.id_for(src, 54, &sock, 0), 2);
    assert_eq!(t.id_for(SocketAddr::V4 { ip: 0x7f00_0002, port: 40001 }, 53, &sock, 0), 3);

    // a service that keeps talking keeps its session
    assert!(t.reply_route(2, UDP_IDLE_NANOS - 1).is_some());
    t.reap(UDP_IDLE_NANOS);
    assert!(t.reply_route(3, UDP_IDLE_NANOS).is_none());
    assert_eq!(t.id_for(src, 53, &sock, UDP_IDLE_NANOS), 1);
    assert_eq!(t.id_for(src, 54, &sock, UDP_IDLE_NANOS), 2);

    // once it is reaped, the flow gets an id that nobody had
    t.reap(2 * UDP_IDLE_NANOS);
    assert!(t.reply_route(1, 0).is_none());
    assert_eq!(t.id_for(src, 53, &sock, 0), 4);
    assert!(t.has_room(src, 53) && t.has_room(src, 99));
}

#[test]
fn the_cap_leaves_room_for_the_header() {
    assert_eq!(payload_cap(Some(1200)), Some(1194));
    assert_eq!(payload_cap(Some(6)), Some(0));
    assert_eq!(payload_cap(Some(5)), Some(0));
    assert_eq!(payload_cap(None), None);
}

/// Both roles in memory: what two local processes send to one port comes back to
/// each of them.
#[test]
fn an_echo_crosses_the_tunnel_and_back() {
    let peer = EndpointId { bytes: *iroh::SecretKey::from_bytes(&[1; 32]).public().as_bytes() };
    let mut cfg = Config::default();
    cfg.serve.shared =
        vec![Offer { proto: Proto::Udp, port: 53, name: String::new(), enabled: true }];
    cfg.serve.peers = vec![Peer { id: peer, name: String::new(), enabled: true, offers: vec![] }];

    let mut near: Sessions<()> = Sessions::new();
    let mut far: serve::Sessions<(), ()> = serve::Sessions::new();
    let sock = Arc::new(());
    for (port, text) in [(40001, b"one"), (40002, b"two"), (40001, b"six")] {
        let dg = pump_udp_out(&mut near, local(port), M, &sock, text, 0);
        let (id, got) = match pump_udp(&mut far, &cfg, &peer, PumpEvent::Datagram(dg), 0) {
            PumpStep::Open { id, port, payload } => {
                far.open(id, port, Arc::new(()), (), 0);
                (id, payload)
            }
            PumpStep::Send { id, payload, .. } => (id, payload),
            _ => panic!("the port is offered"),
        };
        let back = pump_reply(&mut far, id, 53, &got, 0);
        match pump_udp_in(&mut near, &back, 0) {
            ReplyStep::Deliver { src, payload, .. } => {
                assert_eq!(src, local(port), "reply went to the wrong local source");
                assert_eq!(&payload[..], text);
            }
            _ => panic!("the reply has a route"),
        }
    }
}
