use bismuthfe::backend::{format_ip, Backend};
use bismuthfe::codec::{pack_backends, unpack_backends, DecodeError};
use bismuthfe::directory::Directory;
use bismuthfe::ring::Ring;
use bismuthfe::router::{compose_uri, pick_backend, target_uri, RouteError};
use bismuthfe::text::decimal;
use bismuthfe::watcher::{
    apply_step, find_segment, initial_directory, load_backends, next_step, parse_function_ids,
    step_for_id, DiscoveryError, EventKind, SessionKind, WatchEvent, WatchStep, CONHASH_REPLICAS,
    RESTART_DELAY_MS,
};

const FUNCTION: &str = "550e8400-e29b-41d4-a716-446655440000";

fn function_id() -> u128 {
    uuid::Uuid::parse_str(FUNCTION).unwrap().as_u128()
}

fn ip(a: u8, b: u8, c: u8, d: u8) -> u32 {
    u32::from_be_bytes([a, b, c, d])
}

fn event(kind: EventKind, session: SessionKind, path: &str) -> WatchEvent {
    WatchEvent { kind, session, path: path.as_bytes().to_vec() }
}

fn backends_path(f: &str) -> String {
    format!("/function/{}/backends", f)
}

/// Runs one notification through the watcher, with `payload` as what the
/// backends node holds when it is fetched.
fn handle(dir: &mut Directory, ev: &WatchEvent, payload: &[u8]) -> Result<(), DiscoveryError> {
    match next_step(ev)? {
        WatchStep::Load(f) => load_backends(dir, f, payload),
        step => {
            apply_step(dir, step);
            Ok(())
        }
    }
}

#[test]
fn test_backend_monitor() {
    let ids = parse_function_ids(&vec![]).unwrap();
    let mut dir = initial_directory(&ids, &vec![]).unwrap();
    assert_eq!(dir.len(), 0);

    let f = function_id();
    let node = event(EventKind::NodeCreated, SessionKind::Other, &format!("/function/{}", FUNCTION));
    handle(&mut dir, &node, b"").unwrap();
    let created = event(EventKind::NodeCreated, SessionKind::Other, &backends_path(FUNCTION));
    handle(&mut dir, &created, b"").unwrap();
    assert_eq!(dir.len(), 1);
    assert!(dir.contains(f));
    assert_eq!(dir.get(f).unwrap().size(), 0);

    let payload = pack_backends(&[Backend { ip: ip(127, 0, 0, 1), container_id: 77 }]);
    let changed = event(EventKind::NodeDataChanged, SessionKind::Other, &backends_path(FUNCTION));
    handle(&mut dir, &changed, &payload).unwrap();
    assert_eq!(dir.len(), 1);
    assert!(dir.contains(f));
    assert_eq!(dir.get(f).unwrap().size(), CONHASH_REPLICAS);

    let deleted = event(EventKind::NodeDeleted, SessionKind::Other, &backends_path(FUNCTION));
    handle(&mut dir, &deleted, b"").unwrap();
    let node_deleted =
        event(EventKind::NodeDeleted, SessionKind::Other, &format!("/function/{}", FUNCTION));
    handle(&mut dir, &node_deleted, b"").unwrap();
    assert_eq!(dir.len(), 0);
}

#[test]
fn ring_size_is_replicas_times_backends() {
    let bs = vec![
        Backend { ip: ip(10, 0, 0, 1), container_id: 1 },
        Backend { ip: ip(10, 0, 0, 2), container_id: 2 },
        Backend { ip: ip(10, 0, 0, 2), container_id: 3 },
    ];
    assert_eq!(Ring::build(&bs, 20).size(), 60);
    assert_eq!(Ring::build(&bs, 1).size(), 3);
    assert_eq!(Ring::build(&vec![], 20).size(), 0);
}

#[test]
fn duplicate_backend_counts_once() {
    let b = Backend { ip: ip(10, 0, 0, 1), container_id: 1 };
    assert_eq!(Ring::build(&vec![b, b], 20).size(), 20);
}

#[test]
fn pick_is_deterministic() {
    let bs = vec![
        Backend { ip: ip(10, 0, 0, 1), container_id: 1 },
        Backend { ip: ip(10, 0, 0, 2), container_id: 2 },
        Backend { ip: ip(10, 0, 0, 3), container_id: 3 },
    ];
    let ring = Ring::build(&bs, 20);
    for client in ["192.168.1.1", "10.9.8.7", "::1", ""] {
        let first = ring.pick(client.as_bytes()).unwrap();
        for _ in 0..5 {
            assert_eq!(ring.pick(client.as_bytes()).unwrap(), first);
        }
        assert!(bs.contains(&first));
        let reordered = Ring::build(&vec![bs[2], bs[0], bs[1]], 20);
        assert_eq!(reordered.pick(client.as_bytes()).unwrap(), first);
    }
}

#[test]
fn pick_spreads_over_backends() {
    let bs = vec![
        Backend { ip: ip(10, 0, 0, 1), container_id: 1 },
        Backend { ip: ip(10, 0, 0, 2), container_id: 2 },
    ];
    let ring = Ring::build(&bs, 20);
    let mut seen = Vec::new();
    for i in 0..200u32 {
        let client = format!("172.16.{}.{}", i / 256, i % 256);
        let b = ring.pick(client.as_bytes()).unwrap();
        if !seen.contains(&b) {
            seen.push(b);
        }
    }
    assert_eq!(seen.len(), 2);
}

#[test]
fn empty_ring_picks_nothing() {
    assert_eq!(Ring::build(&vec![], 20).pick(b"1.2.3.4"), None);
}

#[test]
fn single_backend_gets_every_key() {
    let b = Backend { ip: ip(127, 0, 0, 1), container_id: 9 };
    let ring = Ring::build(&vec![b], CONHASH_REPLICAS);
    assert_eq!(ring.size(), 20);
    for client in ["1.1.1.1", "2.2.2.2", "fe80::1", "x"] {
        assert_eq!(ring.pick(client.as_bytes()), Some(b));
    }
}

#[test]
fn directory_put_then_get() {
    let mut dir = Directory::new();
    let b = Backend { ip: ip(10, 1, 1, 1), container_id: 5 };
    dir.put(7, Ring::build(&vec![b], 20));
    assert_eq!(dir.get(7).unwrap().size(), 20);
    assert_eq!(dir.get(7).unwrap().pick(b"k"), Some(b));
    dir.put(8, Ring::build(&vec![], 20));
    dir.remove(9);
    assert_eq!(dir.get(7).unwrap().size(), 20);
    dir.put(7, Ring::build(&vec![], 20));
    assert_eq!(dir.get(7).unwrap().size(), 0);
    dir.remove(7);
    assert!(dir.get(7).is_none());
    assert_eq!(dir.len(), 1);
}

#[test]
fn startup_with_no_functions() {
    let ids = parse_function_ids(&vec![]).unwrap();
    assert!(ids.is_empty());
    let dir = initial_directory(&ids, &vec![]).unwrap();
    assert_eq!(dir.len(), 0);
    assert!(dir.get(function_id()).is_none());
    assert!(dir.get(0).is_none());
}

#[test]
fn startup_loads_each_function() {
    let names = vec![FUNCTION.as_bytes().to_vec(), b"00000000-0000-0000-0000-000000000002".to_vec()];
    let ids = parse_function_ids(&names).unwrap();
    assert_eq!(ids, vec![function_id(), 2]);
    let payload = pack_backends(&[Backend { ip: ip(10, 0, 0, 1), container_id: 1 }]);
    let dir = initial_directory(&ids, &vec![payload, vec![]]).unwrap();
    assert_eq!(dir.len(), 2);
    assert_eq!(dir.get(function_id()).unwrap().size(), 20);
    assert_eq!(dir.get(2).unwrap().size(), 0);
}

#[test]
fn startup_rejects_bad_names_and_payloads() {
    let names = vec![FUNCTION.as_bytes().to_vec(), b"not-a-function".to_vec()];
    assert_eq!(parse_function_ids(&names), Err(DiscoveryError::BadFunctionId));
    let r = initial_directory(&vec![1, 2], &vec![vec![], vec![1, 2, 3]]);
    assert_eq!(r.err(), Some(DiscoveryError::BadPayload));
}

#[test]
fn empty_payload_gives_known_function_without_backends() {
    let mut dir = Directory::new();
    let created = event(EventKind::NodeCreated, SessionKind::Other, &backends_path(FUNCTION));
    handle(&mut dir, &created, b"").unwrap();
    let ring = dir.get(function_id()).unwrap();
    assert_eq!(ring.size(), 0);
    assert_eq!(ring.pick(b"1.2.3.4"), None);
}

#[test]
fn one_backend_payload_routes_everything_to_it() {
    let mut dir = Directory::new();
    let b = Backend { ip: ip(192, 168, 0, 10), container_id: 0xabcdef };
    let changed = event(EventKind::NodeDataChanged, SessionKind::Other, &backends_path(FUNCTION));
    handle(&mut dir, &changed, &pack_backends(&[b])).unwrap();
    let ring = dir.get(function_id()).unwrap();
    assert_eq!(ring.size(), 20);
    for client in ["10.0.0.1", "10.0.0.2", "2001:db8::1"] {
        assert_eq!(pick_backend(&dir, function_id(), client.as_bytes()), Ok(b));
    }
}

#[test]
fn deleted_subtree_forgets_function() {
    let mut dir = Directory::new();
    dir.put(function_id(), Ring::build(&vec![], 20));
    let deleted = event(EventKind::NodeDeleted, SessionKind::Other, &backends_path(FUNCTION));
    assert_eq!(next_step(&deleted), Ok(WatchStep::Remove(function_id())));
    handle(&mut dir, &deleted, b"").unwrap();
    assert!(dir.get(function_id()).is_none());
}

#[test]
fn routing_unknown_and_empty_functions() {
    let mut dir = Directory::new();
    assert_eq!(pick_backend(&dir, 42, b"1.2.3.4"), Err(RouteError::NotFound));
    dir.put(42, Ring::build(&vec![], 20));
    assert_eq!(pick_backend(&dir, 42, b"1.2.3.4"), Err(RouteError::Unavailable));
    assert_eq!(pick_backend(&dir, 43, b"1.2.3.4"), Err(RouteError::NotFound));
}

#[test]
fn route_errors_have_status_codes() {
    assert_eq!(RouteError::NotFound.status_code(), 404);
    assert_eq!(RouteError::Unavailable.status_code(), 503);
    assert_eq!(RouteError::Upstream.status_code(), 502);
}

#[test]
fn terminal_session_ends_the_watch() {
    for s in [SessionKind::Disconnected, SessionKind::Expired, SessionKind::Closed] {
        let ev = event(EventKind::Session, s, "");
        assert_eq!(next_step(&ev), Err(DiscoveryError::SessionLost));
        let ev = event(EventKind::Session, s, &backends_path(FUNCTION));
        assert_eq!(next_step(&ev), Err(DiscoveryError::SessionLost));
    }
    let ev = event(EventKind::Session, SessionKind::Other, &backends_path(FUNCTION));
    assert_eq!(next_step(&ev), Ok(WatchStep::Ignore));
    assert_eq!(RESTART_DELAY_MS, 1000);
}

#[test]
fn unrelated_notifications_are_ignored() {
    let ev = event(EventKind::NodeCreated, SessionKind::Other, &format!("/function/{}", FUNCTION));
    assert_eq!(next_step(&ev), Ok(WatchStep::Ignore));
    let ev = event(EventKind::Other, SessionKind::Other, &backends_path(FUNCTION));
    assert_eq!(next_step(&ev), Ok(WatchStep::Ignore));
    let ev = event(EventKind::NodeDataChanged, SessionKind::Other, "/function/x/backend");
    assert_eq!(next_step(&ev), Ok(WatchStep::Ignore));
}

#[test]
fn bad_backends_paths_fail() {
    let ev = event(EventKind::NodeCreated, SessionKind::Other, "/function/not-a-uuid/backends");
    assert_eq!(next_step(&ev), Err(DiscoveryError::BadFunctionId));
    let ev = event(EventKind::NodeDataChanged, SessionKind::Other, "/backends");
    assert_eq!(next_step(&ev), Err(DiscoveryError::BadPath));
    let ev = event(EventKind::NodeCreated, SessionKind::Other, &backends_path(FUNCTION));
    assert_eq!(next_step(&ev), Ok(WatchStep::Load(function_id())));
}

#[test]
fn step_for_parsed_identifier() {
    assert_eq!(step_for_id(EventKind::NodeCreated, Some(3)), Ok(WatchStep::Load(3)));
    assert_eq!(step_for_id(EventKind::NodeDataChanged, Some(3)), Ok(WatchStep::Load(3)));
    assert_eq!(step_for_id(EventKind::NodeDeleted, Some(3)), Ok(WatchStep::Remove(3)));
    assert_eq!(step_for_id(EventKind::NodeDeleted, None), Err(DiscoveryError::BadFunctionId));
}

#[test]
fn path_segments() {
    assert_eq!(find_segment(b"/function/abc/backends", 0), Some((0, 0)));
    assert_eq!(find_segment(b"/function/abc/backends", 1), Some((1, 9)));
    assert_eq!(find_segment(b"/function/abc/backends", 2), Some((10, 13)));
    assert_eq!(find_segment(b"/function", 2), None);
}

#[test]
fn bad_payload_leaves_directory_unchanged() {
    let mut dir = Directory::new();
    let b = Backend { ip: ip(10, 0, 0, 1), container_id: 1 };
    dir.put(5, Ring::build(&vec![b], 20));
    assert_eq!(load_backends(&mut dir, 5, &[0u8; 19]), Err(DiscoveryError::BadPayload));
    assert_eq!(dir.get(5).unwrap().size(), 20);
}

#[test]
fn payload_layout() {
    let b = Backend { ip: ip(127, 0, 0, 1), container_id: 0x0102 };
    let bytes = pack_backends(&[b]);
    let mut expected = vec![127u8, 0, 0, 1];
    expected.extend_from_slice(&0x0102u128.to_be_bytes());
    assert_eq!(bytes, expected);
    assert_eq!(unpack_backends(&bytes), Ok(vec![b]));
    assert_eq!(unpack_backends(b""), Ok(vec![]));
    assert_eq!(unpack_backends(&bytes[..19]), Err(DecodeError));
    let two = pack_backends(&[b, Backend { ip: u32::MAX, container_id: u128::MAX }]);
    assert_eq!(two.len(), 40);
    assert_eq!(
        unpack_backends(&two),
        Ok(vec![b, Backend { ip: u32::MAX, container_id: u128::MAX }])
    );
}

#[test]
fn text_formats() {
    assert_eq!(decimal(0), "0");
    assert_eq!(decimal(8080), "8080");
    assert_eq!(decimal(u128::MAX), "340282366920938463463374607431768211455");
    assert_eq!(format_ip(ip(10, 20, 255, 0)), "10.20.255.0");
    let b = Backend { ip: ip(127, 0, 0, 1), container_id: 5 };
    assert_eq!(b.name(), "127.0.0.1-5");
}

#[test]
fn forward_address() {
    let b = Backend { ip: ip(10, 1, 2, 3), container_id: function_id() };
    assert_eq!(
        target_uri(&b, 8080, "a/b"),
        format!("http://10.1.2.3:8080/invoke/{}/a/b", FUNCTION)
    );
    assert_eq!(target_uri(&b, 80, ""), format!("http://10.1.2.3:80/invoke/{}/", FUNCTION));
    assert_eq!(compose_uri(ip(1, 2, 3, 4), 9, "id", "x"), "http://1.2.3.4:9/invoke/id/x");
}
