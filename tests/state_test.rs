use ludis::state::{deadline_from, State};

fn b(s: &str) -> Vec<u8> {
    s.as_bytes().to_vec()
}

#[test]
fn state_range_scan_with_prefix() {
    let mut s = State::new();
    for k in ["aa", "aqwewqe", "asdasdsadasd", "sadad", "vasdad", "vlzczxc"] {
        s.set(b(k), b("x"), None);
    }
    let mut hi = b("a");
    hi.push(0xFF);
    assert_eq!(s.keys_between(&b("a"), &hi), vec![b("aa"), b("aqwewqe"), b("asdasdsadasd")]);
    assert_eq!(
        s.all_keys(),
        vec![b("aa"), b("aqwewqe"), b("asdasdsadasd"), b("sadad"), b("vasdad"), b("vlzczxc")]
    );
}

#[test]
fn state_ttl_scenario() {
    let mut s = State::new();
    let t = 1_000u64;
    let two_secs = 2_000_000_000u64;
    s.set(b("aaa"), b("aaaaadascasc"), Some(deadline_from(t, two_secs)));
    assert_eq!(s.get(&b("aaa")), Some(b("aaaaadascasc")));
    assert_eq!(s.purge_expired_keys(t + two_secs - 1), Some(t + two_secs));
    assert_eq!(s.get(&b("aaa")), Some(b("aaaaadascasc")));
    assert_eq!(s.purge_expired_keys(t + 10_000_000_000), None);
    assert_eq!(s.get(&b("aaa")), None);
}

#[test]
fn state_deadline_saturates() {
    assert_eq!(deadline_from(5, 7), 12);
    assert_eq!(deadline_from(u64::MAX - 1, 7), u64::MAX);
}

#[test]
fn state_last_writer_by_deadline() {
    let mut s = State::new();
    assert!(s.set_newest(b("k"), b("v1"), 200));
    assert!(!s.set_newest(b("k"), b("v2"), 100));
    assert_eq!(s.get_with_deadline(&b("k")), Some((b("v1"), Some(200))));
    s.set_newest(b("k"), b("v3"), 200);
    assert_eq!(s.get(&b("k")), Some(b("v3")));
    s.set_newest(b("k"), b("v4"), 300);
    assert_eq!(s.get_with_deadline(&b("k")), Some((b("v4"), Some(300))));
}

#[test]
fn state_overwrite_without_ttl_clears_deadline() {
    let mut s = State::new();
    s.set(b("k"), b("v"), Some(50));
    assert_eq!(s.next_expiration(), Some(50));
    s.set(b("k"), b("v"), None);
    assert_eq!(s.get_with_deadline(&b("k")), Some((b("v"), None)));
    assert_eq!(s.next_expiration(), None);
    assert_eq!(s.purge_expired_keys(u64::MAX), None);
    assert_eq!(s.get(&b("k")), Some(b("v")));
}

#[test]
fn state_wake_only_when_soonest_moves_forward() {
    let mut s = State::new();
    assert!(!s.set(b("a"), b("1"), None));
    assert!(s.set(b("a"), b("1"), Some(100)));
    assert!(!s.set(b("b"), b("2"), Some(150)));
    assert!(!s.set(b("c"), b("3"), Some(100)));
    assert!(s.set(b("d"), b("4"), Some(99)));
    assert_eq!(s.next_expiration(), Some(99));
}

#[test]
fn state_sweep_removes_each_expired_key_once() {
    let mut s = State::new();
    s.set(b("a"), b("1"), Some(10));
    s.set(b("b"), b("2"), Some(10));
    s.set(b("c"), b("3"), Some(20));
    s.set(b("a"), b("1"), Some(30));
    assert_eq!(s.purge_expired_keys(15), Some(20));
    assert_eq!(s.get(&b("a")), Some(b("1")));
    assert_eq!(s.get(&b("b")), None);
    assert_eq!(s.purge_expired_keys(25), Some(30));
    assert_eq!(s.get(&b("c")), None);
    assert_eq!(s.purge_expired_keys(30), None);
    assert!(s.all_keys().is_empty());
}

#[test]
fn state_entry_lookup_and_successor() {
    let mut s = State::new();
    for k in ["b", "ba", "bb", "c"] {
        s.set(b(k), b(k), Some(7));
    }
    let (k, e) = s.entry_at(&b("ba")).unwrap();
    assert_eq!(k, b("ba"));
    assert_eq!(e.data(), &b("ba"));
    assert_eq!(e.expires_at(), Some(7));
    assert!(s.entry_at(&b("bc")).is_none());
    let (k, _) = s.entry_after(&b("b"), &Some(b("c"))).unwrap();
    assert_eq!(k, b("ba"));
    let (k, _) = s.entry_after(&b("ba"), &Some(b("c"))).unwrap();
    assert_eq!(k, b("bb"));
    assert!(s.entry_after(&b("bb"), &Some(b("c"))).is_none());
}

#[test]
fn state_publish_without_channel_is_zero() {
    let mut s = State::new();
    assert_eq!(s.publish(&b("k"), b("v")), 0);
    let mut rx = s.subscribe(b("k"));
    assert_eq!(s.publish(&b("k"), b("v")), 1);
    assert_eq!(rx.try_recv().unwrap(), b("v"));
}

#[test]
fn state_shutdown_freezes_entries() {
    let mut s = State::new();
    s.set(b("k"), b("v"), Some(1));
    s.shut_down();
    assert!(s.is_shutdown());
    assert_eq!(s.purge_expired_keys(100), None);
    assert_eq!(s.get(&b("k")), Some(b("v")));
}

#[test]
fn state_successor_without_bound() {
    let mut s = State::new();
    s.set(vec![0xFF, 0x01], b("x"), None);
    s.set(b("a"), b("y"), None);
    let (k, _) = s.entry_after(&b("a"), &None).unwrap();
    assert_eq!(k, vec![0xFF, 0x01]);
    assert!(s.entry_after(&vec![0xFF, 0x01], &None).is_none());
}
