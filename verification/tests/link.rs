use std::sync::Arc;

use rtun::config::{Binding, Config, Proto};
use rtun::endpoint::EndpointId;
use rtun::error::Error;
use rtun::link::{start, Ended, Link, LinkEvent, LinkStep, Phase};
use rtun::listeners::{Forwarder, Listeners, Sock};
use rtun::state::{BindState, LocalPort, Role, Shared};
use rtun::PortMap;

fn id(seed: u8) -> EndpointId {
    EndpointId { bytes: *iroh::SecretKey::from_bytes(&[seed; 32]).public().as_bytes() }
}

fn binding(proto: Proto, local: u16, remote: u16) -> Binding {
    Binding { proto, local, remote, name: String::new(), enabled: true }
}

/// A TCP "socket" is its number, a UDP one its number as text.
type Bound = Listeners<u16, String>;

fn bind(b: &Binding) -> Result<Sock<u16, String>, String> {
    match (b.proto, b.local) {
        (_, 7) => Err("address already in use".to_string()),
        (Proto::Tcp, n) => Ok(Sock::Tcp(Arc::new(n))),
        (Proto::Udp, n) => Ok(Sock::Udp(Arc::new(n.to_string()))),
    }
}

fn never(b: &Binding) -> Result<Sock<u16, String>, String> {
    panic!("{b:?} was bound again")
}

fn shared(bindings: Vec<Binding>) -> Shared {
    let mut cfg = Config::default();
    cfg.connect.bindings = bindings;
    Shared::new(cfg, "/c".into(), Role::Connect, 0)
}

fn edit(sh: &mut Shared, f: impl FnOnce(&mut Vec<Binding>)) {
    sh.mutate(
        |c: &mut Config| {
            f(&mut c.connect.bindings);
            Ok(())
        },
        |_: &Config| Ok(()),
    )
    .unwrap()
}

#[test]
fn listeners_follow_the_list() {
    let mut sh = shared(vec![]);
    let mut l: Bound = Listeners::new();
    let want = vec![binding(Proto::Tcp, 1, 10), binding(Proto::Udp, 1, 11), binding(Proto::Tcp, 7, 12)];
    assert!(l.reconcile(&want, &mut sh, &bind));
    assert_eq!(sh.bind_state(&want[0]), Some(BindState::Listening));
    assert_eq!(sh.bind_state(&want[1]), Some(BindState::Listening));
    // a port in use is reported, and takes nothing down
    assert_eq!(
        sh.bind_state(&want[2]),
        Some(BindState::Failed { error: "address already in use".into() })
    );
    assert_eq!(l.tcp(), vec![(Arc::new(1), PortMap { local: 1, remote: 10 })]);
    assert_eq!(l.udp(), vec![(Arc::new("1".to_string()), PortMap { local: 1, remote: 11 })]);

    // held to what is bound already, nothing changes and nothing is bound
    let settled = vec![want[0].clone(), want[1].clone()];
    assert!(!l.reconcile(&settled, &mut sh, &never));

    // a changed remote port keeps the socket
    let moved = vec![binding(Proto::Tcp, 1, 99), want[1].clone()];
    assert!(l.reconcile(&moved, &mut sh, &never));
    assert_eq!(l.tcp()[0].1, PortMap { local: 1, remote: 99 });

    // what is gone is dropped, and its report with it
    assert!(l.reconcile(&vec![want[1].clone()], &mut sh, &never));
    assert!(l.tcp().is_empty() && l.udp().len() == 1);
    assert_eq!(sh.bind_state(&want[0]), None);
    assert_eq!(sh.bind_state(&want[1]), Some(BindState::Listening));
    assert!(l.reconcile(&vec![], &mut sh, &never));
    assert!(l.is_empty());
}

#[test]
fn a_dropped_listener_is_released() {
    let sock = Arc::new(5u16);
    let mut sh = shared(vec![]);
    let mut l: Bound = Listeners::new();
    let b = vec![binding(Proto::Tcp, 5, 6)];
    l.reconcile(&b, &mut sh, &|_: &Binding| Ok(Sock::Tcp(sock.clone())));
    assert_eq!(Arc::strong_count(&sock), 2);
    l.reconcile(&vec![], &mut sh, &never);
    assert_eq!(Arc::strong_count(&sock), 1);
}

#[test]
fn forwarders_are_one_per_listener_and_two_for_udp() {
    let mut sh = shared(vec![]);
    let mut l: Bound = Listeners::new();
    assert!(l.forwarders().is_empty());
    l.reconcile(&vec![binding(Proto::Tcp, 1, 2)], &mut sh, &bind);
    let f = l.forwarders();
    assert_eq!(f.len(), 1);
    assert!(matches!(
        &f[0],
        Forwarder::AcceptTcp { listener, map: PortMap { local: 1, remote: 2 } } if **listener == 1
    ));
    l.reconcile(
        &vec![binding(Proto::Udp, 3, 4), binding(Proto::Tcp, 1, 2)],
        &mut sh,
        &bind,
    );
    let f = l.forwarders();
    assert_eq!(f.len(), 4);
    assert!(matches!(&f[0], Forwarder::AcceptTcp { .. }));
    assert!(matches!(
        &f[1],
        Forwarder::PumpUdpOut { sock, map: PortMap { local: 3, remote: 4 } } if **sock == "3"
    ));
    assert!(matches!(&f[2], Forwarder::PumpUdpIn));
    assert!(matches!(&f[3], Forwarder::ReapSessions));
}

fn started(bindings: Vec<Binding>) -> (Link, Bound, Shared) {
    let mut sh = shared(bindings);
    let mut l: Bound = Listeners::new();
    let link = start(&mut l, &mut sh, id(1), &bind).unwrap();
    (link, l, sh)
}

#[test]
fn listeners_are_bound_before_the_dial_or_the_command_fails() {
    let fails = |bindings: Vec<Binding>| {
        let mut l: Bound = Listeners::new();
        start(&mut l, &mut shared(bindings), id(1), &bind).err().unwrap()
    };
    let e = fails(vec![binding(Proto::Tcp, 7, 8)]);
    assert!(matches!(e, Error::NothingBound));
    assert_eq!(e.message(), "no local port could be bound; see the errors above");

    // one port in use is enough, wherever it stands
    for bindings in [
        vec![binding(Proto::Udp, 7, 8), binding(Proto::Tcp, 1, 2)],
        vec![binding(Proto::Tcp, 1, 2), binding(Proto::Udp, 7, 8)],
    ] {
        let e = fails(bindings);
        assert!(matches!(e, Error::LocalUnbound { proto: Proto::Udp, local: 7 }));
        assert_eq!(e.message(), "local udp/7 could not be bound; see the errors above");
    }

    // one that asked for none is fine, and so is one that got all
    assert!(matches!(started(vec![]).0.phase, Phase::Dialing));
    let (_, l, _) = started(vec![binding(Proto::Udp, 3, 4), binding(Proto::Tcp, 1, 2)]);
    assert_eq!((l.tcp().len(), l.udp().len()), (1, 1));
    assert!(l.is_bound(&LocalPort { proto: Proto::Tcp, port: 1 }));
    assert!(!l.is_bound(&LocalPort { proto: Proto::Udp, port: 1 }));
    // a parked binding is not asked for
    let parked = Binding { enabled: false, ..binding(Proto::Tcp, 7, 8) };
    assert!(matches!(started(vec![parked]).0.phase, Phase::Dialing));
}

#[test]
fn the_delay_doubles_to_half_a_minute_and_starts_afresh() {
    let (mut link, mut l, mut sh) = started(vec![]);
    let mut step = |link: &mut Link, e: LinkEvent| link.step(&mut l, &mut sh, e, 0, &never);
    for secs in [1, 2, 4, 8, 16, 30, 30] {
        match step(&mut link, LinkEvent::DialFailed) {
            LinkStep::Wait { secs: s } => assert_eq!(s, secs),
            _ => panic!("a failed dial is retried"),
        }
        assert!(matches!(step(&mut link, LinkEvent::RetryDue), LinkStep::Dial));
    }
    assert!(matches!(
        step(&mut link, LinkEvent::Dialed { remote: id(1) }),
        LinkStep::Carry(f) if f.is_empty()
    ));
    assert!(matches!(
        step(&mut link, LinkEvent::Closed(Ended::Lost)),
        LinkStep::Wait { secs: 1 }
    ));
}

#[test]
fn a_refusal_ends_it_for_good() {
    let (mut link, mut l, mut sh) = started(vec![]);
    link.step(&mut l, &mut sh, LinkEvent::Dialed { remote: id(1) }, 0, &never);
    assert_eq!(sh.live_peers(0).len(), 1);
    let closed = LinkEvent::Closed(Ended::ByPeer { reason: b"not allowlisted\n".to_vec(), code: 1 });
    match link.step(&mut l, &mut sh, closed, 0, &never) {
        LinkStep::GiveUp(e) => {
            assert_eq!(e.message(), "closed by peer: not allowlisted\\n (code 1)");
        }
        _ => panic!("a refused link must not retry"),
    }
    assert!(sh.live_peers(0).is_empty());
    for e in [LinkEvent::RetryDue, LinkEvent::DialFailed, LinkEvent::ConfigChanged] {
        assert!(matches!(link.step(&mut l, &mut sh, e, 0, &never), LinkStep::Hold));
    }
    assert_eq!(link.phase, Phase::Over);
}

#[test]
fn a_binding_is_added_parked_and_restored_while_the_link_is_up() {
    let (mut link, mut l, mut sh) = started(vec![binding(Proto::Tcp, 1, 2)]);
    assert!(matches!(
        link.step(&mut l, &mut sh, LinkEvent::Dialed { remote: id(1) }, 0, &never),
        LinkStep::Carry(f) if f.len() == 1
    ));
    edit(&mut sh, |b| b.push(binding(Proto::Tcp, 3, 4)));
    assert!(sh.has_changed(&link.watch));
    assert!(matches!(
        link.step(&mut l, &mut sh, LinkEvent::ConfigChanged, 0, &bind),
        LinkStep::Restart(f) if f.len() == 2
    ));
    assert!(!sh.has_changed(&link.watch));

    edit(&mut sh, |b| b[0].enabled = false);
    assert!(matches!(
        link.step(&mut l, &mut sh, LinkEvent::ConfigChanged, 0, &never),
        LinkStep::Restart(f) if f.len() == 1
    ));
    // the row survives being parked
    assert_eq!(sh.config().connect.bindings.len(), 2);
    edit(&mut sh, |b| b[0].enabled = true);
    assert!(matches!(
        link.step(&mut l, &mut sh, LinkEvent::ConfigChanged, 0, &bind),
        LinkStep::Restart(f) if f.len() == 2
    ));
    // an edit that concerns no listener leaves the forwarders alone
    edit(&mut sh, |b| b[0].name = "ssh".into());
    assert!(matches!(
        link.step(&mut l, &mut sh, LinkEvent::ConfigChanged, 0, &never),
        LinkStep::Hold
    ));
}

#[test]
fn the_configuration_is_followed_while_waiting_but_not_while_dialing() {
    let (mut link, mut l, mut sh) = started(vec![]);
    edit(&mut sh, |b| b.push(binding(Proto::Tcp, 1, 2)));
    assert!(matches!(
        link.step(&mut l, &mut sh, LinkEvent::ConfigChanged, 0, &never),
        LinkStep::Hold
    ));
    assert!(sh.has_changed(&link.watch) && l.is_empty());
    link.step(&mut l, &mut sh, LinkEvent::DialFailed, 0, &never);
    assert!(matches!(
        link.step(&mut l, &mut sh, LinkEvent::ConfigChanged, 0, &bind),
        LinkStep::Hold
    ));
    assert!(!sh.has_changed(&link.watch) && l.tcp().len() == 1);
    assert!(matches!(
        link.step(&mut l, &mut sh, LinkEvent::ConfigGone, 0, &never),
        LinkStep::Dial
    ));
    assert_eq!(link.delay, 2);

    // with nothing left to watch, a held connection is only waited out
    link.step(&mut l, &mut sh, LinkEvent::Dialed { remote: id(1) }, 0, &never);
    assert!(matches!(
        link.step(&mut l, &mut sh, LinkEvent::ConfigGone, 0, &never),
        LinkStep::Hold
    ));
    assert_eq!(link.phase, Phase::Draining);
    assert!(matches!(
        link.step(&mut l, &mut sh, LinkEvent::Closed(Ended::Lost), 0, &never),
        LinkStep::Wait { secs: 1 }
    ));
}
