use rtun::path::{
    log_selected, path_kind, report_path, Occasion, PathEvent, PathInfo, PathStep,
    PATH_HEARTBEAT_SECS,
};

fn path(relayed: bool, addr: &str, selected: bool) -> PathInfo {
    PathInfo { relayed, addr: addr.into(), rtt_nanos: 7, selected }
}

#[test]
fn the_selected_path_is_reported() {
    let paths = [
        path(true, "relay:a", false),
        path(false, "ip:1.2.3.4:5", true),
        path(false, "ip:6.7.8.9:5", true),
    ];
    let r = log_selected(&paths, Occasion::Established);
    assert_eq!(r.path, "direct");
    assert_eq!(r.addr.as_deref(), Some("ip:1.2.3.4:5"));
    assert_eq!(r.rtt_nanos, Some(7));
    assert_eq!(r.rtt_ms(), Some(0));
    let slow = PathInfo { rtt_nanos: 12_999_999, ..path(false, "ip:x", true) };
    assert_eq!(log_selected(&[slow], Occasion::StillUp).rtt_ms(), Some(12));
    assert_eq!(r.occasion.as_str(), "established");
    assert_eq!(path_kind(true), "relayed");
}

#[test]
fn a_path_is_pending_until_one_is_selected() {
    let r = log_selected(&[path(true, "relay:a", false)], Occasion::Established);
    assert_eq!(r.rtt_ms(), None);
    assert_eq!((r.path, r.addr, r.rtt_nanos), ("pending", None, None));
}

#[test]
fn upgrades_are_reported_and_the_path_is_restated() {
    assert_eq!(PATH_HEARTBEAT_SECS, 60);
    let paths = [path(true, "relay:a", true)];
    match report_path(PathEvent::Selected { relayed: false, addr: "ip:x".into() }, &paths) {
        PathStep::Report(r) => {
            assert_eq!((r.path, r.addr.as_deref()), ("direct", Some("ip:x")));
            assert_eq!(r.occasion.as_str(), "path selected");
        }
        other => panic!("{other:?}"),
    }
    match report_path(PathEvent::Tick, &paths) {
        PathStep::Report(r) => {
            assert_eq!((r.path, r.addr.as_deref()), ("relayed", Some("relay:a")));
            assert_eq!(r.occasion.as_str(), "still up");
        }
        other => panic!("{other:?}"),
    }
    assert!(matches!(report_path(PathEvent::Other, &paths), PathStep::Ignore));
    assert!(matches!(report_path(PathEvent::Ended, &paths), PathStep::Stop));
}
