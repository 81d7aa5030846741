use std::sync::Arc;

use rtun::config::{Binding, Config, Offer, Peer, Proto};
use rtun::config_file::{load, save, to_doc, ConfigDoc, ConfigFile};
use rtun::endpoint::EndpointId;
use rtun::error::{Error, Fault};
use rtun::state::{BindState, Role, Shared, NANOS_PER_SEC};

fn id(seed: u8) -> EndpointId {
    EndpointId { bytes: *iroh::SecretKey::from_bytes(&[seed; 32]).public().as_bytes() }
}

const PATH: &str = "/state/config.toml";

/// Stands in for the file: the text that was saved last, and what it is about.
struct Disk {
    last: Option<(String, Config)>,
}

impl Disk {
    fn new() -> Self {
        Disk { last: None }
    }

    fn write(&mut self, c: &Config) -> Result<(), String> {
        let text = save(c, |doc: &ConfigDoc| Ok(format!("{} peers", doc.peers.len())))
            .map_err(|e| e.message())?;
        self.last = Some((text, c.clone()));
        Ok(())
    }

    fn reload(&self) -> Config {
        match &self.last {
            Some((text, c)) => load(PATH, ConfigFile::Text(text.clone()), |words: &str| {
                assert!(words.ends_with(&format!("\n\n{} peers", c.serve.peers.len())));
                Ok(to_doc(c))
            })
            .unwrap(),
            None => load(PATH, ConfigFile::Missing, |_: &str| panic!("nothing to read")).unwrap(),
        }
    }
}

fn shared() -> (Shared, Disk) {
    (Shared::new(Config::default(), PATH.into(), Role::Serve, 0), Disk::new())
}

fn ssh() -> Offer {
    Offer { proto: Proto::Tcp, port: 22, name: String::new(), enabled: true }
}

#[test]
fn mutation_persists_publishes_and_is_observable() {
    let (mut sh, mut disk) = shared();
    let mut rx = sh.subscribe();
    assert!(sh.config().serve.peers.is_empty());

    sh.mutate(
        |c: &mut Config| {
            c.serve.peers.push(Peer {
                id: id(1),
                name: "laptop".into(),
                enabled: true,
                offers: vec![],
            });
            Ok(())
        },
        |c: &Config| disk.write(c),
    )
    .unwrap();

    // visible in memory
    assert!(sh.config().admits(&id(1)));
    // the watcher saw a change
    assert!(sh.has_changed(&rx));
    assert!(sh.borrow_and_update(&mut rx).admits(&id(1)));
    assert!(!sh.has_changed(&rx));
    // and it is on disk, so a restart keeps it
    let reloaded = disk.reload();
    assert!(reloaded.admits(&id(1)));
    assert_eq!(reloaded.serve.peers[0].name, "laptop");
}

/// An edit made before the data plane subscribes must not depend on there being a
/// subscriber.
#[test]
fn mutation_applies_with_no_subscriber() {
    let (mut sh, mut disk) = shared();
    sh.mutate(
        |c: &mut Config| {
            c.serve.shared.push(ssh());
            Ok(())
        },
        |c: &Config| disk.write(c),
    )
    .unwrap();
    assert_eq!(sh.config().serve.shared.len(), 1, "edit lost with no subscriber");
    // a later subscriber sees the already-committed edit
    let mut late = sh.subscribe();
    assert_eq!(sh.borrow_and_update(&mut late).serve.shared.len(), 1);
}

#[test]
fn rejected_mutation_leaves_running_config_untouched() {
    let (mut sh, mut disk) = shared();
    sh.mutate(
        |c: &mut Config| {
            c.serve.shared.push(ssh());
            Ok(())
        },
        |c: &Config| disk.write(c),
    )
    .unwrap();
    let before = sh.config();

    // a duplicate port fails validation
    let err = sh.mutate(
        |c: &mut Config| {
            c.serve.shared.push(ssh());
            Ok(())
        },
        |c: &Config| disk.write(c),
    );
    assert!(err.is_err());
    assert_eq!(sh.config().serve.shared.len(), 1);
    assert!(Arc::ptr_eq(&before, &sh.config()), "snapshot must not be replaced");

    // an error raised by the closure itself also commits nothing
    let nope = sh.mutate(
        |_: &mut Config| -> Result<(), Error> { Err(Error::BadProto("nope".into())) },
        |c: &Config| disk.write(c),
    );
    assert!(nope.is_err());
    assert_eq!(sh.config().serve.shared.len(), 1);
    // and disk still matches memory
    assert_eq!(disk.reload(), *sh.config());
}

#[test]
fn an_edit_that_cannot_be_saved_is_not_published() {
    let (mut sh, _) = shared();
    let rx = sh.subscribe();
    let before = sh.config();
    let r = sh.mutate(
        |c: &mut Config| {
            c.serve.shared.push(ssh());
            Ok(7)
        },
        |_: &Config| Err("disk full".to_string()),
    );
    let e = r.unwrap_err();
    assert_eq!(e.message(), "persisting /state/config.toml: disk full");
    assert!(Arc::ptr_eq(&before, &sh.config()));
    assert!(!sh.has_changed(&rx));
}

#[test]
fn a_mutation_hands_back_what_the_edit_said() {
    let (mut sh, mut disk) = shared();
    let r = sh.mutate(|c: &mut Config| Ok(c.serve.shared.len() + 41), |c: &Config| disk.write(c));
    assert_eq!(r.unwrap(), 41);
    let r: Result<(), Error> = sh.mutate(
        |c: &mut Config| {
            c.serve.shared.push(Offer { port: 0, ..ssh() });
            Ok(())
        },
        |_: &Config| panic!("an invalid config reached the disk"),
    );
    assert!(matches!(r, Err(Error::Fault(Fault::PortZero(_)))));
}

#[test]
fn runtime_tracks_peers_and_binds() {
    let (mut sh, _d) = shared();
    assert!(sh.live_peers(0).is_empty());

    sh.peer_connected(id(1), 0);
    let live = sh.live_peers(0);
    assert_eq!(live.len(), 1);
    assert_eq!(live[0].path, "pending", "path is unknown until one is selected");

    sh.peer_path(id(1), "direct", Some("ip:1.2.3.4:5".into()), Some(12));
    let live = sh.live_peers(0);
    assert_eq!(live[0].path, "direct");
    assert_eq!(live[0].rtt_ms, Some(12));
    assert_eq!(live[0].id.len(), 64, "the UI shows the full pasteable id");

    // a path report for an unknown peer must not resurrect it
    sh.peer_disconnected(&id(1));
    sh.peer_path(id(1), "direct", None, None);
    assert!(sh.live_peers(0).is_empty());

    let b = Binding {
        proto: Proto::Tcp,
        local: 2222,
        remote: 22,
        name: String::new(),
        enabled: true,
    };
    assert_eq!(sh.bind_state(&b), None);
    sh.set_bind(Proto::Tcp, 2222, BindState::Listening);
    assert_eq!(sh.bind_state(&b), Some(BindState::Listening));
    sh.set_bind(Proto::Tcp, 2222, BindState::Failed { error: "in use".into() });
    assert!(matches!(sh.bind_state(&b), Some(BindState::Failed { .. })));
    sh.clear_bind(Proto::Tcp, 2222);
    assert_eq!(sh.bind_state(&b), None);
}

#[test]
fn live_peers_come_in_the_order_of_their_ids() {
    let (mut sh, _) = shared();
    let mut ids: Vec<EndpointId> = (1..6).map(id).collect();
    for (i, p) in ids.iter().enumerate() {
        sh.peer_connected(*p, i as u64 * NANOS_PER_SEC);
    }
    // connecting again does not start the clock anew
    sh.peer_connected(ids[0], 9 * NANOS_PER_SEC);
    let live = sh.live_peers(10 * NANOS_PER_SEC + 5);
    ids.sort_by_key(|i| i.bytes);
    let texts: Vec<String> = ids.iter().map(|i| i.to_text()).collect();
    assert_eq!(live.iter().map(|p| p.id.clone()).collect::<Vec<_>>(), texts);
    for p in &live {
        assert!(p.id.starts_with(&p.short) && p.short.len() == 10);
    }
    let first = live.iter().find(|p| p.id == id(1).to_text()).unwrap();
    assert_eq!(first.since_secs, 10);
    let third = live.iter().find(|p| p.id == id(3).to_text()).unwrap();
    assert_eq!(third.since_secs, 8);
}

#[test]
fn the_process_knows_its_role_and_age() {
    let sh = Shared::new(Config::default(), PATH.into(), Role::Connect, 5 * NANOS_PER_SEC);
    assert_eq!(sh.role(), Role::Connect);
    assert_eq!(sh.role().as_str(), "connect");
    assert!(!sh.role().is_serve() && Role::Serve.is_serve());
    assert_eq!(Role::Serve.as_str(), "serve");
    assert_eq!(sh.config_path(), PATH);
    assert_eq!(sh.uptime_secs(5 * NANOS_PER_SEC), 0);
    assert_eq!(sh.uptime_secs(8 * NANOS_PER_SEC - 1), 2);
    // a clock that goes back counts for nothing
    assert_eq!(sh.uptime_secs(0), 0);
}
