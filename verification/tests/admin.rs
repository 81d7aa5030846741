use rtun::address::{local, SocketAddr};
use rtun::admin::{
    add_binding, add_offer, add_peer, banner, body_fits, del_binding, del_offer, del_peer,
    edit_reply, header_text, is_exposed, json_headers, not_found, page_headers, patch_binding,
    patch_offer, patch_peer, presented_token, route, Admin, BindingAdd, BindingPatch, BindingRef,
    BodyFault, Denial, IdRef, Method, OfferAdd, OfferPatch, OfferRef, PeerAdd, PeerPatch, Reply,
    Route, Subject,
};
use rtun::config::{Binding, Config, Offer, Peer, Proto};
use rtun::endpoint::{parse_id, EndpointId};
use rtun::error::{Error, Fault};
use rtun::report::get_state;
use rtun::state::{BindState, Role, Shared, NANOS_PER_SEC};
use rtun::token::mint_token;

fn id(seed: u8) -> EndpointId {
    EndpointId { bytes: *iroh::SecretKey::from_bytes(&[seed; 32]).public().as_bytes() }
}

fn admin(token: &str) -> Admin {
    Admin { token: token.into(), id: id(9).to_text() }
}

fn ask(method: Method, path: &str, auth: Option<&str>, query: Option<&str>) -> Route {
    route(&admin("secret"), method, path, auth.map(|s| s.as_bytes()), query)
}

#[test]
fn the_token_is_found_in_the_header_or_the_query() {
    let t = |auth: Option<&[u8]>, q: Option<&str>| presented_token(auth, q);
    assert_eq!(t(Some(b"Bearer abc"), None).as_deref(), Some("abc"));
    assert_eq!(t(Some(b"Bearer  abc\t"), None).as_deref(), Some("abc"));
    assert_eq!(t(Some(b"Bearer abc"), Some("t=xyz")).as_deref(), Some("abc"));
    assert_eq!(t(None, Some("t=xyz")).as_deref(), Some("xyz"));
    assert_eq!(t(None, Some("a=1&t=x=y&t=z")).as_deref(), Some("x=y"));
    assert_eq!(t(None, Some("t&tt=1&T=2")), None);
    assert_eq!(t(None, Some("")), None);
    assert_eq!(t(None, None), None);
    // a header that is no bearer token leaves the query to speak
    assert_eq!(t(Some(b"Basic abc"), Some("t=xyz")).as_deref(), Some("xyz"));
    assert_eq!(t(Some(b"bearer abc"), None), None);
    assert_eq!(t(Some(b"Bearer a\xff"), Some("t=xyz")).as_deref(), Some("xyz"));
}

#[test]
fn header_text_is_what_the_http_library_says() {
    for b in 0..=255u8 {
        let bytes = [b'a', b, b'z'];
        if let Ok(v) = hyper::header::HeaderValue::from_bytes(&bytes) {
            assert_eq!(header_text(&bytes), v.to_str().ok().map(|s| s.to_string()), "byte {b}");
        }
    }
    assert_eq!(header_text(b"a\n"), None);
    assert_eq!(header_text(b"").as_deref(), Some(""));
}

#[test]
fn the_page_needs_no_token_and_the_rest_does() {
    assert_eq!(ask(Method::Get, "/", None, None), Route::Page);
    assert_eq!(ask(Method::Get, "/index.html", Some("Bearer wrong"), None), Route::Page);
    assert_eq!(ask(Method::Get, "/api/state", None, None), Route::Denied(Denial::MissingToken));
    assert_eq!(ask(Method::Post, "/", None, None), Route::Denied(Denial::MissingToken));
    assert_eq!(
        ask(Method::Get, "/api/state", Some("Bearer wrong"), Some("t=secret")),
        Route::Denied(Denial::BadToken)
    );
    assert_eq!(ask(Method::Get, "/api/state", None, Some("t=secret")), Route::State);
    assert_eq!(ask(Method::Get, "/api/state", Some("Bearer secret"), None), Route::State);
    assert_eq!(ask(Method::Get, "/api/peers", None, Some("t=secret")), Route::NotFound);
}

#[test]
fn edits_need_the_header() {
    for method in [Method::Post, Method::Patch, Method::Delete, Method::Other] {
        assert_eq!(
            ask(method, "/api/peers", None, Some("t=secret")),
            Route::Denied(Denial::HeaderRequired)
        );
    }
    // some other header does not make the token in the query enough
    for auth in ["Basic eHg=", "secret", "bearer secret", "Bearer", "Bearer\u{e9} secret"] {
        for method in [Method::Post, Method::Patch, Method::Delete, Method::Other] {
            for path in ["/api/peers", "/api/offers", "/api/bindings", "/nowhere"] {
                assert_eq!(
                    ask(method, path, Some(auth), Some("t=secret")),
                    Route::Denied(Denial::HeaderRequired),
                    "{auth}"
                );
            }
        }
        // reading is content with it
        assert_eq!(ask(Method::Get, "/api/state", Some(auth), Some("t=secret")), Route::State);
    }
    let auth = Some("Bearer secret");
    for (path, subject) in [
        ("/api/peers", Subject::Peers),
        ("/api/offers", Subject::Offers),
        ("/api/bindings", Subject::Bindings),
    ] {
        assert_eq!(ask(Method::Post, path, auth, None), Route::Create(subject));
        assert_eq!(ask(Method::Patch, path, auth, None), Route::Change(subject));
        assert_eq!(ask(Method::Delete, path, auth, None), Route::Remove(subject));
        assert_eq!(ask(Method::Other, path, auth, None), Route::NotFound);
    }
    assert_eq!(ask(Method::Post, "/api/peers/", auth, None), Route::NotFound);
}

#[test]
fn a_minted_token_opens_the_surface() {
    let token = mint_token();
    let a = admin(&token);
    let query = format!("t={token}");
    let header = format!("Bearer {token}");
    assert_eq!(route(&a, Method::Get, "/api/state", None, Some(&query)), Route::State);
    assert_eq!(
        route(&a, Method::Post, "/api/peers", Some(header.as_bytes()), None),
        Route::Create(Subject::Peers)
    );
    assert_eq!(
        banner("127.0.0.1:7000", &token),
        format!("admin ui http://127.0.0.1:7000/?t={token}")
    );
    assert!(!is_exposed(&local(7000)));
    assert!(is_exposed(&SocketAddr::V4 { ip: 0, port: 7000 }));
}

fn say(r: Reply) -> (u16, String) {
    (r.status, r.body())
}

#[test]
fn replies_have_their_status_and_words() {
    assert_eq!(say(Denial::MissingToken.reply()), (401, "{\"error\":\"missing token\"}".into()));
    assert_eq!(say(Denial::BadToken.reply()), (401, "{\"error\":\"bad token\"}".into()));
    assert_eq!(
        say(Denial::HeaderRequired.reply()),
        (401, "{\"error\":\"mutations require the Authorization header\"}".into())
    );
    assert_eq!(say(not_found()), (404, "{\"error\":\"no such endpoint\"}".into()));
    assert_eq!(say(BodyFault::TooLarge.reply()), (413, "{\"error\":\"body too large\"}".into()));
    assert_eq!(
        say(BodyFault::Unreadable("gone".into()).reply()),
        (400, "{\"error\":\"reading body: gone\"}".into())
    );
    assert_eq!(
        say(BodyFault::NotJson("a \"quote\"\n".into()).reply()),
        (400, "{\"error\":\"invalid json: a \\\"quote\\\"\\n\"}".into())
    );
    assert_eq!(say(edit_reply(&Ok(()))), (200, "{\"ok\":true}".into()));
    assert_eq!(
        say(edit_reply(&Err(Error::Fault(Fault::PortOffered(Proto::Tcp, 22))))),
        (422, "{\"error\":\"tcp/22 is already offered\"}".into())
    );
}

#[test]
fn replies_are_not_kept_or_passed_on() {
    assert_eq!(
        json_headers(),
        vec![
            ("content-type", "application/json"),
            ("cache-control", "no-store"),
            ("x-content-type-options", "nosniff"),
        ]
    );
    let page = page_headers();
    assert_eq!(page[0], ("content-type", "text/html; charset=utf-8"));
    assert_eq!(page[1..3], json_headers()[1..3]);
    assert_eq!(page[3..], [("referrer-policy", "no-referrer")]);
}

#[test]
fn messages_are_escaped_as_json_asks() {
    let all: String = ('\0'..='\u{ff}').chain("\u{2028}\u{1f600}".chars()).collect();
    let reply = BodyFault::NotJson(all.clone()).reply();
    let mut expected = String::from("{\"error\":\"invalid json: ");
    for c in all.chars() {
        match c {
            '"' => expected.push_str("\\\""),
            '\\' => expected.push_str("\\\\"),
            '\u{8}' => expected.push_str("\\b"),
            '\t' => expected.push_str("\\t"),
            '\n' => expected.push_str("\\n"),
            '\u{c}' => expected.push_str("\\f"),
            '\r' => expected.push_str("\\r"),
            c if (c as u32) < 32 => expected.push_str(&format!("\\u{:04x}", c as u32)),
            c => expected.push(c),
        }
    }
    expected.push_str("\"}");
    assert_eq!(reply.body(), expected);
}

#[test]
fn only_small_bodies_are_read() {
    assert!(body_fits(Some(0)) && body_fits(Some(64 * 1024)));
    assert!(!body_fits(Some(64 * 1024 + 1)));
    assert!(!body_fits(None));
}

fn shared() -> Shared {
    Shared::new(Config::default(), "/state/config.toml".into(), Role::Serve, 0)
}

fn saved(_: &Config) -> Result<(), String> {
    Ok(())
}

fn fails<T: std::fmt::Debug>(r: Result<T, Error>) -> String {
    r.unwrap_err().message()
}

#[test]
fn peers_are_added_changed_and_removed() {
    let mut sh = shared();
    let text = id(1).to_text();
    let short = id(1).fmt_short();
    let add = || PeerAdd { id: format!(" {}\n", id(1).to_text()), name: "laptop".into() };
    add_peer(&mut sh, add(), saved).unwrap();
    assert_eq!(
        sh.config().serve.peers,
        vec![Peer { id: id(1), name: "laptop".into(), enabled: true, offers: vec![] }]
    );
    assert_eq!(
        fails(add_peer(&mut sh, add(), saved)),
        format!("peer {short} is already on the list")
    );

    let patch = PeerPatch { id: text.clone(), name: None, enabled: Some(false) };
    patch_peer(&mut sh, patch, saved).unwrap();
    assert!(!sh.config().admits(&id(1)));
    assert_eq!(sh.config().serve.peers[0].name, "laptop");
    let patch = PeerPatch { id: text.clone(), name: Some("box".into()), enabled: Some(true) };
    patch_peer(&mut sh, patch, saved).unwrap();
    assert!(sh.config().admits(&id(1)));
    assert_eq!(sh.config().serve.peers[0].name, "box");

    let two = id(2).to_text();
    let patch = PeerPatch { id: two.clone(), name: None, enabled: None };
    assert_eq!(
        fails(patch_peer(&mut sh, patch, saved)),
        format!("peer {} is not on the list", id(2).fmt_short())
    );
    assert_eq!(
        fails(del_peer(&mut sh, IdRef { id: two }, saved)),
        format!("peer {} is not on the list", id(2).fmt_short())
    );
    del_peer(&mut sh, IdRef { id: text }, saved).unwrap();
    assert_eq!(*sh.config(), Config::default());
    assert!(fails(del_peer(&mut sh, IdRef { id: "x".into() }, saved))
        .starts_with("`x` is not a valid endpoint id: "));
}

#[test]
fn offers_are_edited_for_everyone_and_for_one_peer() {
    let mut sh = shared();
    let text = id(1).to_text();
    add_peer(&mut sh, PeerAdd { id: text.clone(), name: String::new() }, saved).unwrap();
    let before = sh.config();
    for peer in [None, Some(text.clone())] {
        let add = || OfferAdd {
            peer: peer.clone(),
            proto: Proto::Tcp,
            port: 22,
            name: "ssh".into(),
        };
        add_offer(&mut sh, add(), saved).unwrap();
        assert_eq!(fails(add_offer(&mut sh, add(), saved)), "tcp/22 is already offered");
        assert_eq!(sh.config().granted(&id(1), Proto::Tcp), Some(vec![22]));
        let list = |sh: &Shared| match &peer {
            None => sh.config().serve.shared.clone(),
            Some(_) => sh.config().serve.peers[0].offers.clone(),
        };
        assert_eq!(
            list(&sh),
            vec![Offer { proto: Proto::Tcp, port: 22, name: "ssh".into(), enabled: true }]
        );
        let patch = |port: u16| OfferPatch {
            peer: peer.clone(),
            proto: Proto::Tcp,
            port,
            name: Some("shell".into()),
            enabled: Some(false),
        };
        patch_offer(&mut sh, patch(22), saved).unwrap();
        assert_eq!(
            list(&sh),
            vec![Offer { proto: Proto::Tcp, port: 22, name: "shell".into(), enabled: false }]
        );
        assert_eq!(sh.config().granted(&id(1), Proto::Tcp), Some(vec![]));
        assert_eq!(fails(patch_offer(&mut sh, patch(23), saved)), "tcp/23 is not offered");
        let del = |proto: Proto| OfferRef { peer: peer.clone(), proto, port: 22 };
        assert_eq!(fails(del_offer(&mut sh, del(Proto::Udp), saved)), "udp/22 is not offered");
        del_offer(&mut sh, del(Proto::Tcp), saved).unwrap();
        assert_eq!(sh.config(), before);
    }
    let missing = format!("peer {} is not on the list", id(2).fmt_short());
    let del = OfferRef { peer: Some(id(2).to_text()), proto: Proto::Tcp, port: 22 };
    assert_eq!(fails(del_offer(&mut sh, del, saved)), missing);
    let add = OfferAdd { peer: Some("x".into()), proto: Proto::Tcp, port: 22, name: "".into() };
    assert!(matches!(add_offer(&mut sh, add, saved), Err(Error::BadId { text, .. }) if text == "x"));
    // what validation turns away is not kept
    let add = OfferAdd { peer: None, proto: Proto::Tcp, port: 0, name: "".into() };
    assert_eq!(fails(add_offer(&mut sh, add, saved)), "offered port must be 1-65535");
    assert_eq!(sh.config(), before);
}

#[test]
fn bindings_are_added_changed_and_removed() {
    let mut sh = shared();
    let add = |local: u16| BindingAdd {
        proto: Proto::Tcp,
        local,
        remote: 22,
        name: "ssh".into(),
    };
    add_binding(&mut sh, add(2222), saved).unwrap();
    assert_eq!(fails(add_binding(&mut sh, add(2222), saved)), "local tcp/2222 is already bound");
    assert_eq!(fails(add_binding(&mut sh, add(0), saved)), "local port must be 1-65535");
    let patch = BindingPatch {
        proto: Proto::Tcp,
        local: 2222,
        remote: Some(80),
        name: None,
        enabled: Some(false),
    };
    patch_binding(&mut sh, patch, saved).unwrap();
    assert_eq!(
        sh.config().connect.bindings,
        vec![Binding {
            proto: Proto::Tcp,
            local: 2222,
            remote: 80,
            name: "ssh".into(),
            enabled: false,
        }]
    );
    assert!(sh.config().active_bindings().is_empty());
    let patch =
        BindingPatch { proto: Proto::Udp, local: 2222, remote: None, name: None, enabled: None };
    assert_eq!(fails(patch_binding(&mut sh, patch, saved)), "local udp/2222 is not bound");
    let del = |local: u16| BindingRef { proto: Proto::Tcp, local };
    assert_eq!(fails(del_binding(&mut sh, del(1), saved)), "local tcp/1 is not bound");
    del_binding(&mut sh, del(2222), saved).unwrap();
    assert_eq!(*sh.config(), Config::default());
}

#[test]
fn an_edit_that_cannot_be_saved_changes_nothing() {
    let mut sh = shared();
    let rx = sh.subscribe();
    let add = PeerAdd { id: id(1).to_text(), name: String::new() };
    let r = add_peer(&mut sh, add, |_: &Config| Err("disk full".to_string()));
    assert_eq!(fails(r), "persisting /state/config.toml: disk full");
    assert!(sh.config().serve.peers.is_empty() && !sh.has_changed(&rx));
}

fn never_saved(_: &Config) -> Result<(), String> {
    panic!("a refused edit is not saved")
}

#[test]
fn a_refused_edit_is_never_saved() {
    let mut sh = shared();
    let add = PeerAdd { id: "x".into(), name: String::new() };
    assert!(add_peer(&mut sh, add, never_saved).is_err());
    let patch = PeerPatch { id: id(1).to_text(), name: None, enabled: Some(true) };
    assert!(patch_peer(&mut sh, patch, never_saved).is_err());
    assert!(del_peer(&mut sh, IdRef { id: id(1).to_text() }, never_saved).is_err());
    let add = OfferAdd { peer: None, proto: Proto::Tcp, port: 0, name: String::new() };
    assert!(add_offer(&mut sh, add, never_saved).is_err());
    let patch =
        OfferPatch { peer: None, proto: Proto::Tcp, port: 22, name: None, enabled: Some(false) };
    assert!(patch_offer(&mut sh, patch, never_saved).is_err());
    let del = OfferRef { peer: Some(id(1).to_text()), proto: Proto::Tcp, port: 22 };
    assert!(del_offer(&mut sh, del, never_saved).is_err());
    let add = BindingAdd { proto: Proto::Tcp, local: 0, remote: 22, name: String::new() };
    assert!(add_binding(&mut sh, add, never_saved).is_err());
    let patch =
        BindingPatch { proto: Proto::Tcp, local: 1, remote: None, name: None, enabled: None };
    assert!(patch_binding(&mut sh, patch, never_saved).is_err());
    let del = BindingRef { proto: Proto::Tcp, local: 1 };
    assert!(del_binding(&mut sh, del, never_saved).is_err());
    assert_eq!(*sh.config(), Config::default());
}

#[test]
fn a_port_withdrawn_or_parked_in_either_list_is_closed_at_once() {
    let text = id(1).to_text();
    for peer in [None, Some(text.clone())] {
        for park in [false, true] {
            let mut sh = shared();
            let add = PeerAdd { id: text.clone(), name: String::new() };
            add_peer(&mut sh, add, saved).unwrap();
            let add = |peer: Option<String>| OfferAdd {
                peer,
                proto: Proto::Tcp,
                port: 22,
                name: String::new(),
            };
            add_offer(&mut sh, add(peer.clone()), saved).unwrap();
            assert_eq!(sh.config().granted(&id(1), Proto::Tcp), Some(vec![22]));
            let rx = sh.subscribe();
            let close = |sh: &mut Shared| {
                let peer = peer.clone();
                if park {
                    let patch = OfferPatch {
                        peer,
                        proto: Proto::Tcp,
                        port: 22,
                        name: None,
                        enabled: Some(false),
                    };
                    patch_offer(sh, patch, saved).unwrap();
                } else {
                    del_offer(sh, OfferRef { peer, proto: Proto::Tcp, port: 22 }, saved).unwrap();
                }
            };
            close(&mut sh);
            assert!(sh.has_changed(&rx));
            assert_eq!(sh.config().granted(&id(1), Proto::Tcp), Some(vec![]));
            // the other list still opens the port on its own
            let other = if peer.is_none() { Some(text.clone()) } else { None };
            add_offer(&mut sh, add(other), saved).unwrap();
            assert_eq!(sh.config().granted(&id(1), Proto::Tcp), Some(vec![22]));
        }
    }
}

#[test]
fn edited_lists_hold_keys_only() {
    let mut sh = shared();
    for seed in [3, 1, 2] {
        let add = PeerAdd { id: id(seed).to_text(), name: String::new() };
        add_peer(&mut sh, add, saved).unwrap();
    }
    del_peer(&mut sh, IdRef { id: id(1).to_text() }, saved).unwrap();
    let c = sh.config();
    assert_eq!(c.serve.peers.len(), 2);
    for p in &c.serve.peers {
        assert_eq!(parse_id(&p.id.to_text()).unwrap(), p.id);
    }
}

#[test]
fn the_state_shows_everything() {
    let mut sh = shared();
    add_peer(&mut sh, PeerAdd { id: id(1).to_text(), name: "laptop".into() }, saved).unwrap();
    let own = OfferAdd {
        peer: Some(id(1).to_text()),
        proto: Proto::Udp,
        port: 53,
        name: String::new(),
    };
    add_offer(&mut sh, own, saved).unwrap();
    let all = OfferAdd { peer: None, proto: Proto::Tcp, port: 22, name: "ssh".into() };
    add_offer(&mut sh, all, saved).unwrap();
    for local in [1, 2] {
        let b = BindingAdd { proto: Proto::Tcp, local, remote: 3, name: String::new() };
        add_binding(&mut sh, b, saved).unwrap();
    }
    sh.set_bind(Proto::Tcp, 2, BindState::Listening);
    sh.peer_connected(id(1), NANOS_PER_SEC);

    let v = get_state(&admin("secret"), &sh, 3 * NANOS_PER_SEC);
    assert_eq!(v.role, Role::Serve);
    assert_eq!(v.id, id(9).to_text());
    assert_eq!(v.config_path, "/state/config.toml");
    assert_eq!(v.uptime_secs, 3);
    assert_eq!(v.shared_offers, sh.config().serve.shared);
    assert_eq!(v.peers.len(), 1);
    assert_eq!(v.peers[0].id, id(1).to_text());
    assert_eq!(v.peers[0].short, id(1).fmt_short());
    assert_eq!((v.peers[0].name.as_str(), v.peers[0].enabled), ("laptop", true));
    assert_eq!(v.peers[0].offers, sh.config().serve.peers[0].offers);
    assert_eq!(v.bindings.len(), 2);
    assert_eq!((v.bindings[0].local, v.bindings[0].remote), (1, 3));
    assert_eq!(v.bindings[0].runtime, None);
    assert_eq!(v.bindings[1].runtime, Some(BindState::Listening));
    assert_eq!(v.live_peers.len(), 1);
    assert_eq!(v.live_peers[0].since_secs, 2);
}
