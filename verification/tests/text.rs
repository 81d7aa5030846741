use rtun::admin::reply_body;
use rtun::config::{check_name, check_port, dedupe_offers, Offer, Proto};
use rtun::endpoint::{parsed_id, EndpointId};
use rtun::error::{Error, Fault, PortKind};
use rtun::grants::peer_index;
use rtun::serve::Sessions;
use rtun::state::{clone_opt, elapsed_secs};
use rtun::table::Table;
use rtun::text::{
    chars_of, decimal_text, hex_char, hex_text, is_control, is_space, parse_u16, same_text,
    split_once, string_of, strip_prefix, to_lower, trim,
};

#[test]
fn characters_are_classed_as_the_standard_library_classes_them() {
    for c in '\0'..=char::MAX {
        assert_eq!(is_control(c), c.is_control(), "{c:?}");
        assert_eq!(is_space(c), c.is_whitespace(), "{c:?}");
    }
}

#[test]
fn texts_are_taken_apart_as_the_standard_library_takes_them() {
    for s in ["", " ", "a", " a b\t", "\u{a0}x\u{2003}", "\u{3000}", "Bearer  x ", "a=b=c", "=", "t"] {
        assert_eq!(trim(s), s.trim());
        assert_eq!(
            split_once(s, '='),
            s.split_once('=').map(|(a, b)| (a.to_string(), b.to_string()))
        );
        assert_eq!(strip_prefix(s, "Bearer "), s.strip_prefix("Bearer ").map(|r| r.to_string()));
        assert_eq!(to_lower(s), s.to_ascii_lowercase());
        assert_eq!(chars_of(s), s.chars().collect::<Vec<_>>());
        assert_eq!(string_of(&chars_of(s)), s);
        assert!(same_text(s, &s.to_string()));
        assert!(!same_text(s, &format!("{s}x")));
    }
    assert_eq!(to_lower("Tcp\u{c9}Z"), "tcp\u{c9}z");
    assert!(!same_text("ab", "ac"));
}

#[test]
fn numbers_are_read_and_written_as_usual() {
    for s in [
        "0", "1", "22", "65535", "65536", "00022", "+7", "+", "-1", "", " 1", "1 ", "1a", "\u{661}",
        "99999999999999999999",
    ] {
        assert_eq!(parse_u16(s), s.parse::<u16>().ok(), "{s:?}");
    }
    for n in [0u64, 7, 10, 65535, u64::MAX] {
        assert_eq!(decimal_text(n), n.to_string());
    }
    assert_eq!(hex_text(&[0, 9, 10, 255]), "00090aff");
    assert_eq!((hex_char(0), hex_char(9), hex_char(10), hex_char(15)), ('0', '9', 'a', 'f'));
}

#[test]
fn close_reasons_are_escaped() {
    let all: Vec<u8> = (0..=255).collect();
    let e = Error::ClosedByPeer { reason: all.clone(), code: 3 };
    assert_eq!(e.message(), format!("closed by peer: {} (code 3)", all.escape_ascii()));
}

#[test]
fn every_error_has_its_words() {
    let fault = Fault::PortZero(PortKind::Remote);
    for (e, words) in [
        (Error::BadProto("x".into()), "`x`: expected tcp or udp"),
        (Error::NotAMapping("x".into()), "`x`: expected LOCAL:REMOTE, e.g. 2222:22"),
        (
            Error::BadMappedPort { text: "0:1".into(), which: PortKind::Local },
            "`0:1`: local port must be 1-65535",
        ),
        (Error::BadAdminAddr("x".into()), "`x`: expected PORT or IP:PORT, e.g. 7000"),
        (Error::NoStateDir, "cannot locate a state directory; set RTUN_STATE_DIR"),
        (Error::Unreadable { path: "/c".into(), cause: "denied".into() }, "reading /c: denied"),
        (Error::Unparsable { path: "/c".into(), cause: "line 1".into() }, "parsing /c: line 1"),
        (
            Error::FileFault { path: "/c".into(), fault },
            "in /c: remote port must be 1-65535",
        ),
        (
            Error::SaveFault(fault),
            "refusing to write an invalid config: remote port must be 1-65535",
        ),
    ] {
        assert_eq!(e.message(), words);
    }
}

#[test]
fn labels_and_ports_are_checked() {
    assert!(check_name("").is_ok() && check_name(&"x".repeat(64)).is_ok());
    assert!(matches!(check_name(&"x".repeat(65)), Err(Fault::NameTooLong)));
    // length is judged before content
    assert!(matches!(check_name(&"\n".repeat(65)), Err(Fault::NameTooLong)));
    assert!(matches!(check_name("a\tb"), Err(Fault::NameHasControl)));
    assert!(check_port(1, PortKind::Admin).is_ok());
    assert!(matches!(check_port(0, PortKind::Admin), Err(Fault::PortZero(PortKind::Admin))));
    let offer = |proto, port| Offer { proto, port, name: String::new(), enabled: true };
    let list = vec![
        offer(Proto::Tcp, 1),
        offer(Proto::Udp, 2),
        offer(Proto::Udp, 2),
        offer(Proto::Tcp, 1),
    ];
    assert_eq!(dedupe_offers(&list), Some((Proto::Udp, 2)));
    assert_eq!(dedupe_offers(&list[..2].to_vec()), None);
    assert_eq!(peer_index(&vec![], &EndpointId { bytes: [0; 32] }), 0);
}

#[test]
fn a_parsed_key_is_an_id() {
    assert_eq!(
        parsed_id("x".into(), Ok([5; 32])).unwrap(),
        EndpointId { bytes: [5; 32] }
    );
    assert!(matches!(
        parsed_id("x".into(), Err("bad".into())),
        Err(Error::BadId { text, why }) if text == "x" && why == "bad"
    ));
    assert_eq!(reply_body(Some("\"no\"")), "{\"error\":\"no\"}");
    assert_eq!(clone_opt(&Some("a".to_string())), Some("a".to_string()));
    assert_eq!(clone_opt(&None), None);
    assert_eq!(elapsed_secs(1, 2_000_000_001), 2);
}

#[test]
fn a_table_remembers_its_order() {
    let mut t: Table<u32, &str> = Table::new();
    assert!(t.is_empty());
    t.set(3, "c");
    t.set(1, "a");
    t.set(2, "b");
    t.set(1, "A");
    assert_eq!(t.keys(), vec![3, 1, 2]);
    assert_eq!(t.get(&1), Some(&"A"));
    assert_eq!(t.remove(&3), Some("c"));
    assert_eq!(t.remove(&3), None);
    assert_eq!(t.keys(), vec![1, 2]);
    assert!(t.contains(&2) && !t.contains(&3) && !t.is_empty());

    let mut s: Sessions<u8, ()> = Sessions::new();
    s.open(1, 53, std::sync::Arc::new(1), (), 0);
    s.drop_ungranted(&vec![53]);
    assert!(s.touch(1, 0).is_some());
    s.drop_ungranted(&vec![54]);
    assert!(s.touch(1, 0).is_none());
}
