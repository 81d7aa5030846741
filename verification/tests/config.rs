use std::str::FromStr;

use rtun::address::{admin_addr, local, SocketAddr, LOCALHOST};
use rtun::config::{Binding, Config, Offer, Peer, Proto, NAME_MAX};
use rtun::config_file::{accept, load, of_doc, save, to_doc, ConfigDoc, ConfigFile, PeerDoc};
use rtun::endpoint::{parse_id, EndpointId};
use rtun::error::{Error, Fault, PortKind};
use rtun::PortMap;

fn id(seed: u8) -> EndpointId {
    EndpointId { bytes: *iroh::SecretKey::from_bytes(&[seed; 32]).public().as_bytes() }
}

fn offer(proto: Proto, port: u16) -> Offer {
    Offer { proto, port, name: String::new(), enabled: true }
}

fn binding(proto: Proto, local: u16, remote: u16) -> Binding {
    Binding { proto, local, remote, name: String::new(), enabled: true }
}

fn peer(seed: u8, name: &str) -> Peer {
    Peer { id: id(seed), name: name.into(), enabled: true, offers: vec![] }
}

#[test]
fn granted_merges_shared_and_per_peer_and_honours_enabled() {
    let mut cfg = Config::default();
    cfg.serve.shared.push(offer(Proto::Tcp, 22));
    cfg.serve.shared.push(Offer { enabled: false, ..offer(Proto::Tcp, 80) });
    cfg.serve.peers.push(Peer {
        id: id(1),
        name: "laptop".into(),
        enabled: true,
        offers: vec![offer(Proto::Tcp, 8080), offer(Proto::Udp, 53)],
    });
    cfg.serve.peers.push(Peer {
        id: id(2),
        name: "parked".into(),
        enabled: false,
        offers: vec![offer(Proto::Tcp, 9999)],
    });

    assert_eq!(cfg.granted(&id(1), Proto::Tcp).unwrap(), vec![22, 8080]);
    assert_eq!(cfg.granted(&id(1), Proto::Udp).unwrap(), vec![53]);
    // a parked peer is refused outright, not granted an empty list
    assert!(cfg.granted(&id(2), Proto::Tcp).is_none());
    assert!(cfg.granted(&id(3), Proto::Tcp).is_none());
    assert!(cfg.admits(&id(1)) && !cfg.admits(&id(2)) && !cfg.admits(&id(3)));
}

#[test]
fn validate_rejects_duplicates_and_bad_values() {
    let mut dup_peer = Config::default();
    dup_peer.serve.peers = vec![
        Peer { id: id(1), name: "a".into(), enabled: true, offers: vec![] },
        Peer { id: id(1), name: "b".into(), enabled: true, offers: vec![] },
    ];
    assert!(dup_peer.validate().is_err());

    let mut dup_offer = Config::default();
    dup_offer.serve.shared = vec![offer(Proto::Tcp, 22), offer(Proto::Tcp, 22)];
    assert!(dup_offer.validate().is_err());
    // the same port on the other protocol is a different grant
    let mut both = Config::default();
    both.serve.shared = vec![offer(Proto::Tcp, 22), offer(Proto::Udp, 22)];
    assert!(both.validate().is_ok());

    let mut zero = Config::default();
    zero.serve.shared = vec![offer(Proto::Tcp, 0)];
    assert!(zero.validate().is_err());

    let mut dup_local = Config::default();
    dup_local.connect.bindings = vec![
        Binding { proto: Proto::Tcp, local: 2222, remote: 22, name: String::new(), enabled: true },
        Binding { proto: Proto::Tcp, local: 2222, remote: 80, name: String::new(), enabled: true },
    ];
    assert!(dup_local.validate().is_err());

    let mut long = Config::default();
    long.serve.peers = vec![Peer {
        id: id(1),
        name: "x".repeat(NAME_MAX + 1),
        enabled: true,
        offers: vec![],
    }];
    assert!(long.validate().is_err());

    let mut ctrl = Config::default();
    ctrl.serve.peers = vec![Peer {
        id: id(1),
        name: "bad\nname".into(),
        enabled: true,
        offers: vec![],
    }];
    assert!(ctrl.validate().is_err());
}

#[test]
fn each_fault_has_its_words() {
    let short = id(1).fmt_short();
    let words = |c: &Config| c.validate().unwrap_err().message();

    let mut c = Config::default();
    c.serve.shared = vec![offer(Proto::Udp, 0)];
    assert_eq!(words(&c), "offered port must be 1-65535");
    c.serve.shared = vec![offer(Proto::Tcp, 22), offer(Proto::Tcp, 22)];
    assert_eq!(words(&c), "shared offers: tcp/22 is listed twice");

    let mut c = Config::default();
    c.serve.peers = vec![peer(1, "a"), peer(1, "b")];
    assert_eq!(words(&c), format!("peer {short} is listed twice"));
    c.serve.peers = vec![Peer {
        offers: vec![offer(Proto::Udp, 53), offer(Proto::Udp, 53)],
        ..peer(1, "a")
    }];
    assert_eq!(words(&c), format!("peer {short}: udp/53 is listed twice"));
    c.serve.peers = vec![peer(1, &"x".repeat(65))];
    assert_eq!(words(&c), "name is longer than 64 characters");
    c.serve.peers = vec![peer(1, "bad\nname")];
    assert_eq!(words(&c), "name must not contain control characters");

    let mut c = Config::default();
    c.connect.bindings = vec![binding(Proto::Tcp, 0, 22)];
    assert_eq!(words(&c), "local port must be 1-65535");
    c.connect.bindings = vec![binding(Proto::Tcp, 22, 0)];
    assert_eq!(words(&c), "remote port must be 1-65535");
    c.connect.bindings = vec![binding(Proto::Tcp, 22, 1), binding(Proto::Tcp, 22, 2)];
    assert_eq!(words(&c), "local tcp/22 is bound twice");
    // two protocols can share a local port
    c.connect.bindings = vec![binding(Proto::Tcp, 22, 1), binding(Proto::Udp, 22, 2)];
    assert!(c.validate().is_ok());
}

#[test]
fn names_are_counted_in_characters() {
    let mut c = Config::default();
    c.serve.peers = vec![peer(1, &"\u{e9}".repeat(NAME_MAX))];
    assert!(c.validate().is_ok());
    c.serve.peers = vec![peer(1, &"\u{e9}".repeat(NAME_MAX + 1))];
    assert!(matches!(c.validate(), Err(Fault::NameTooLong)));
    c.serve.peers = vec![peer(1, "c1\u{85}control")];
    assert!(matches!(c.validate(), Err(Fault::NameHasControl)));
}

#[test]
fn seeding_is_idempotent_and_never_clobbers() {
    let mut cfg = Config::default();
    assert!(cfg.seed_from_flags(&[id(1)], &[22], &[53]));
    // a second identical seed changes nothing, so a restart with the same
    // flags does not grow the file
    assert!(!cfg.seed_from_flags(&[id(1)], &[22], &[53]));
    assert_eq!(cfg.serve.peers.len(), 1);
    assert_eq!(cfg.serve.shared.len(), 2);

    // a hand-parked entry survives a restart with the same flags
    cfg.serve.peers[0].enabled = false;
    cfg.serve.peers[0].name = "kept".into();
    assert!(!cfg.seed_from_flags(&[id(1)], &[22], &[53]));
    assert!(!cfg.serve.peers[0].enabled);
    assert_eq!(cfg.serve.peers[0].name, "kept");

    assert!(cfg.seed_bindings(&[PortMap { local: 2222, remote: 22 }], &[]));
    assert!(!cfg.seed_bindings(&[PortMap { local: 2222, remote: 22 }], &[]));
    assert_eq!(cfg.connect.bindings.len(), 1);
}

#[test]
fn seeding_lists_each_flag_once_and_stays_valid() {
    let mut cfg = Config::default();
    assert!(cfg.seed_from_flags(&[id(1), id(2), id(1)], &[22, 22, 80], &[22]));
    assert_eq!(cfg.serve.peers, vec![peer(1, ""), peer(2, "")]);
    assert_eq!(
        cfg.serve.shared,
        vec![offer(Proto::Tcp, 22), offer(Proto::Tcp, 80), offer(Proto::Udp, 22)]
    );
    assert!(cfg.seed_bindings(
        &[PortMap { local: 1, remote: 2 }, PortMap { local: 1, remote: 3 }],
        &[PortMap { local: 1, remote: 4 }],
    ));
    assert_eq!(
        cfg.connect.bindings,
        vec![binding(Proto::Tcp, 1, 2), binding(Proto::Udp, 1, 4)]
    );
    assert!(cfg.validate().is_ok());
}

#[test]
fn active_bindings_leave_out_the_parked_ones() {
    let mut cfg = Config::default();
    cfg.connect.bindings = vec![
        binding(Proto::Tcp, 1, 2),
        Binding { enabled: false, ..binding(Proto::Tcp, 3, 4) },
        binding(Proto::Udp, 5, 6),
    ];
    assert_eq!(
        cfg.active_bindings(),
        vec![binding(Proto::Tcp, 1, 2), binding(Proto::Udp, 5, 6)]
    );
    assert_eq!(cfg.connect.bindings[1].map(), PortMap { local: 3, remote: 4 });
}

#[test]
fn a_grant_to_one_peer_is_for_that_peer() {
    let mut cfg = Config::default();
    cfg.serve.peers = vec![
        Peer { offers: vec![offer(Proto::Tcp, 8080)], ..peer(1, "granted") },
        peer(2, "other"),
    ];
    assert_eq!(cfg.granted(&id(1), Proto::Tcp), Some(vec![8080]));
    assert_eq!(cfg.granted(&id(2), Proto::Tcp), Some(vec![]));
    // one port, offered twice over, is granted once, and the ports come in order
    cfg.serve.shared = vec![offer(Proto::Tcp, 9000), offer(Proto::Tcp, 8080), offer(Proto::Tcp, 1)];
    assert_eq!(cfg.granted(&id(1), Proto::Tcp), Some(vec![1, 8080, 9000]));
    assert_eq!(
        cfg.serve.peers[0].granted(&cfg.serve.shared, Proto::Udp),
        Vec::<u16>::new()
    );
}

#[test]
fn admin_addr_defaults_to_loopback() {
    // what the system's parser reads from each of these
    let any = SocketAddr::V4 { ip: 0, port: 7000 };
    assert_eq!(
        admin_addr("7000", None).unwrap(),
        SocketAddr::V4 { ip: LOCALHOST, port: 7000 }
    );
    assert_eq!(admin_addr("0.0.0.0:7000", Some(any)).unwrap(), any);
    let zero = SocketAddr::V4 { ip: LOCALHOST, port: 0 };
    for (bad, parsed) in [
        ("0", None),
        ("notaport", None),
        ("127.0.0.1", None),
        ("127.0.0.1:0", Some(zero)),
        ("99999", None),
    ] {
        assert!(admin_addr(bad, parsed).is_err(), "{bad} should not parse");
    }
}

#[test]
fn admin_addr_says_what_is_wrong() {
    assert_eq!(admin_addr("0", None).unwrap_err().message(), "admin port must be 1-65535");
    assert!(matches!(
        admin_addr("127.0.0.1:0", Some(local(0))),
        Err(Error::Fault(Fault::PortZero(PortKind::Admin)))
    ));
    assert!(matches!(admin_addr("here", None), Err(Error::BadAdminAddr(s)) if s == "here"));
}

#[test]
fn loopback_is_told_from_the_rest() {
    assert!(local(22).is_loopback());
    assert_eq!(local(22), SocketAddr::V4 { ip: 0x7f00_0001, port: 22 });
    assert!(SocketAddr::V4 { ip: 0x7fff_ffff, port: 1 }.is_loopback());
    assert!(!SocketAddr::V4 { ip: 0x8000_0000, port: 1 }.is_loopback());
    assert!(SocketAddr::V6 { ip6: 1, port: 1, flowinfo: 0, scope_id: 0 }.is_loopback());
    assert!(!SocketAddr::V6 { ip6: 2, port: 1, flowinfo: 0, scope_id: 0 }.is_loopback());
    assert_eq!(SocketAddr::V6 { ip6: 2, port: 9, flowinfo: 0, scope_id: 0 }.port(), 9);
}

#[test]
fn proto_parses_case_insensitively() {
    assert_eq!(Proto::from_str("tcp").unwrap(), Proto::Tcp);
    assert_eq!(Proto::from_str("UDP").unwrap(), Proto::Udp);
    assert!(Proto::from_str("sctp").is_err());
}

#[test]
fn proto_names_are_read_back() {
    assert_eq!(Proto::from_str(Proto::Tcp.as_str()).unwrap(), Proto::Tcp);
    assert_eq!(Proto::from_str(Proto::Udp.as_str()).unwrap(), Proto::Udp);
    assert!(matches!(Proto::from_str("SCTP"), Err(Error::BadProto(s)) if s == "sctp"));
}

#[test]
fn port_map_parses_and_rejects_junk() {
    assert_eq!("2222:22".parse::<PortMap>().unwrap(), PortMap { local: 2222, remote: 22 });
    for bad in ["2222", "2222:", ":22", "0:22", "2222:0", "a:22", "70000:22", "2222:22:22"] {
        assert!(bad.parse::<PortMap>().is_err(), "{bad} should not parse");
    }
}

#[test]
fn port_map_is_written_as_it_is_read() {
    let m = PortMap { local: 65535, remote: 1 };
    assert_eq!(m.to_text(), "65535:1");
    assert_eq!(m.to_text().parse::<PortMap>().unwrap(), m);
    assert!(matches!("2222".parse::<PortMap>(), Err(Error::NotAMapping(s)) if s == "2222"));
    assert!(matches!(
        "0:22".parse::<PortMap>(),
        Err(Error::BadMappedPort { text, which: PortKind::Local }) if text == "0:22"
    ));
    assert!(matches!(
        "22:x".parse::<PortMap>(),
        Err(Error::BadMappedPort { text, which: PortKind::Remote }) if text == "22:x"
    ));
    // a sign is read as the standard parser reads it
    assert_eq!("+1:2".parse::<PortMap>().unwrap(), PortMap { local: 1, remote: 2 });
}

fn text(s: &str) -> toml::Value {
    toml::Value::String(s.to_string())
}

fn offers_toml(list: &[Offer]) -> toml::Value {
    toml::Value::Array(
        list.iter()
            .map(|o| {
                let mut t = toml::Table::new();
                t.insert("proto".into(), text(o.proto.as_str()));
                t.insert("port".into(), toml::Value::Integer(o.port.into()));
                t.insert("name".into(), text(&o.name));
                t.insert("enabled".into(), toml::Value::Boolean(o.enabled));
                toml::Value::Table(t)
            })
            .collect(),
    )
}

fn offers_read(v: &toml::Value) -> Vec<Offer> {
    v.as_array()
        .unwrap()
        .iter()
        .map(|o| Offer {
            proto: o["proto"].as_str().unwrap().parse().unwrap(),
            port: o["port"].as_integer().unwrap().try_into().unwrap(),
            name: o["name"].as_str().unwrap().into(),
            enabled: o["enabled"].as_bool().unwrap(),
        })
        .collect()
}

/// Writes what the file holds as TOML.
fn render(doc: &ConfigDoc) -> Result<String, String> {
    let peers = doc
        .peers
        .iter()
        .map(|p| {
            let mut t = toml::Table::new();
            t.insert("id".into(), text(&p.id));
            t.insert("name".into(), text(&p.name));
            t.insert("enabled".into(), toml::Value::Boolean(p.enabled));
            t.insert("offers".into(), offers_toml(&p.offers));
            toml::Value::Table(t)
        })
        .collect();
    let bindings = doc
        .bindings
        .iter()
        .map(|b| {
            let mut t = toml::Table::new();
            t.insert("proto".into(), text(b.proto.as_str()));
            t.insert("local".into(), toml::Value::Integer(b.local.into()));
            t.insert("remote".into(), toml::Value::Integer(b.remote.into()));
            t.insert("name".into(), text(&b.name));
            t.insert("enabled".into(), toml::Value::Boolean(b.enabled));
            toml::Value::Table(t)
        })
        .collect();
    let mut serve = toml::Table::new();
    serve.insert("shared".into(), offers_toml(&doc.shared));
    serve.insert("peers".into(), toml::Value::Array(peers));
    let mut connect = toml::Table::new();
    connect.insert("bindings".into(), toml::Value::Array(bindings));
    let mut all = toml::Table::new();
    all.insert("serve".into(), toml::Value::Table(serve));
    all.insert("connect".into(), toml::Value::Table(connect));
    toml::to_string_pretty(&all).map_err(|e| e.to_string())
}

/// Reads TOML as what the file holds.
fn parse(words: &str) -> Result<ConfigDoc, String> {
    let t = toml::from_str::<toml::Table>(words).map_err(|e| e.to_string())?;
    Ok(ConfigDoc {
        shared: offers_read(&t["serve"]["shared"]),
        peers: t["serve"]["peers"]
            .as_array()
            .unwrap()
            .iter()
            .map(|p| PeerDoc {
                id: p["id"].as_str().unwrap().into(),
                name: p["name"].as_str().unwrap().into(),
                enabled: p["enabled"].as_bool().unwrap(),
                offers: offers_read(&p["offers"]),
            })
            .collect(),
        bindings: t["connect"]["bindings"]
            .as_array()
            .unwrap()
            .iter()
            .map(|b| Binding {
                proto: b["proto"].as_str().unwrap().parse().unwrap(),
                local: b["local"].as_integer().unwrap().try_into().unwrap(),
                remote: b["remote"].as_integer().unwrap().try_into().unwrap(),
                name: b["name"].as_str().unwrap().into(),
                enabled: b["enabled"].as_bool().unwrap(),
            })
            .collect(),
    })
}

#[test]
fn round_trips_through_toml() {
    let mut cfg = Config::default();
    cfg.serve.shared.push(Offer {
        proto: Proto::Tcp,
        port: 22,
        name: "ssh".into(),
        enabled: true,
    });
    cfg.serve.peers.push(Peer {
        id: id(1),
        name: "laptop".into(),
        enabled: true,
        offers: vec![offer(Proto::Udp, 51820)],
    });
    cfg.connect.bindings.push(Binding {
        proto: Proto::Tcp,
        local: 2222,
        remote: 22,
        name: "ssh".into(),
        enabled: true,
    });
    let text = save(&cfg, render).unwrap();
    assert_eq!(load("/c", ConfigFile::Text(text.clone()), parse).unwrap(), cfg);
    // ids must survive as the documented 64-char hex, not as a byte array
    assert!(text.contains(&id(1).to_text()));
}

#[test]
fn parked_and_labelled_entries_survive_the_file() {
    let mut cfg = Config::default();
    cfg.serve.shared = vec![
        Offer { enabled: false, name: "a \"b\" \\ c # \u{e9}".into(), ..offer(Proto::Tcp, 2) },
        offer(Proto::Tcp, 1),
    ];
    cfg.serve.peers = vec![
        Peer { enabled: false, ..peer(2, "parked") },
        Peer { offers: vec![offer(Proto::Tcp, 9), offer(Proto::Udp, 9)], ..peer(1, "") },
    ];
    cfg.connect.bindings = vec![Binding { enabled: false, ..binding(Proto::Udp, 5, 6) }];
    let doc = to_doc(&cfg);
    assert_eq!(doc.peers[0].id, id(2).to_text());
    assert_eq!(of_doc(doc).unwrap(), cfg);
    let text = save(&cfg, render).unwrap();
    assert_eq!(load("/c", ConfigFile::Text(text), parse).unwrap(), cfg);
}

#[test]
fn a_file_is_loaded_or_explained() {
    let path = "/state/config.toml";
    let never = |_: &str| -> Result<ConfigDoc, String> { panic!("nothing to read") };
    let holding = |c: &Config| {
        let doc = to_doc(c);
        move |_: &str| Ok(doc)
    };
    let words = || ConfigFile::Text("words".into());
    assert_eq!(load(path, ConfigFile::Missing, never).unwrap(), Config::default());

    let mut good = Config::default();
    good.serve.peers = vec![peer(1, "laptop")];
    assert_eq!(load(path, words(), holding(&good)).unwrap(), good);
    assert_eq!(accept(path, good.clone()).unwrap(), good);

    let mut bad = Config::default();
    bad.serve.shared = vec![offer(Proto::Tcp, 0)];
    assert!(matches!(
        load(path, words(), holding(&bad)),
        Err(Error::FileFault { path: p, fault: Fault::PortZero(PortKind::Offered) }) if p == path
    ));
    assert!(matches!(
        load(path, words(), |s: &str| Err(format!("line 3: {s}"))),
        Err(Error::Unparsable { path: p, cause }) if p == path && cause == "line 3: words"
    ));
    assert!(matches!(
        load(path, ConfigFile::Unreadable("denied".into()), never),
        Err(Error::Unreadable { path: p, cause }) if p == path && cause == "denied"
    ));

    // an id that is none; the file is not trimmed
    for text in ["nope".to_string(), format!(" {}", id(1).to_text())] {
        let mut doc = to_doc(&good);
        doc.peers[0].id = text.clone();
        let why = text.parse::<iroh::EndpointId>().unwrap_err().to_string();
        assert!(matches!(
            load(path, words(), |_: &str| Ok(doc)),
            Err(Error::Unparsable { path: p, cause }) if p == path && cause == why
        ));
    }
}

#[test]
fn only_a_valid_config_is_written() {
    let body = save(&Config::default(), |_: &ConfigDoc| Ok("[serve]\n".to_string())).unwrap();
    assert!(body.starts_with("# rtun configuration."));
    assert!(body.ends_with("\n\n[serve]\n"));

    let mut bad = Config::default();
    bad.connect.bindings = vec![binding(Proto::Tcp, 0, 1)];
    assert!(matches!(
        save(&bad, |_: &ConfigDoc| panic!("an invalid config was put into words")),
        Err(Error::SaveFault(Fault::PortZero(PortKind::Local)))
    ));
    let e = save(&Config::default(), |_: &ConfigDoc| Err("no room".to_string())).unwrap_err();
    assert_eq!(e.message(), "serialising config: no room");
}

#[test]
fn ids_are_pasted_and_read_back() {
    let text = id(1).to_text();
    assert_eq!(text, iroh::SecretKey::from_bytes(&[1; 32]).public().to_string());
    assert_eq!(text.len(), 64);
    assert_eq!(parse_id(&text).unwrap(), id(1));
    assert_eq!(parse_id(&format!("  {text}\n")).unwrap(), id(1));
    assert_eq!(
        id(1).fmt_short(),
        iroh::SecretKey::from_bytes(&[1; 32]).public().fmt_short().to_string()
    );
    match parse_id(" not an id ") {
        Err(Error::BadId { text, why }) => {
            assert_eq!(text, "not an id");
            assert_eq!(why, "not an id".parse::<iroh::EndpointId>().unwrap_err().to_string());
        }
        other => panic!("{other:?}"),
    }
    let e = parse_id("nope").unwrap_err().message();
    assert!(e.starts_with("`nope` is not a valid endpoint id: "), "{e}");
}

#[test]
fn flags_on_a_fresh_machine_grant_what_they_name() {
    let mut cfg = Config::default();
    assert!(!cfg.admits(&id(1)), "nobody is allowed by default");
    cfg.seed_from_flags(&[id(1)], &[22], &[53]);
    assert!(cfg.admits(&id(1)) && !cfg.admits(&id(2)));
    assert_eq!(cfg.granted(&id(1), Proto::Tcp), Some(vec![22]));
    assert_eq!(cfg.granted(&id(1), Proto::Udp), Some(vec![53]));
    assert_eq!(cfg.granted(&id(2), Proto::Tcp), None);
}
