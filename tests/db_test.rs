use bytes::Bytes;
use ludis::byte_order::compare_bytes;
use ludis::db::BucketDb;
use std::cmp::Ordering;
use std::time::Duration;

fn b(s: &str) -> Vec<u8> {
    Bytes::from(s.to_string()).to_vec()
}

fn nanos(d: Duration) -> u64 {
    d.as_nanos() as u64
}

/// Runs one reaper sweep on every shard as if the clock read `now`.
fn sweep_all(db: &mut BucketDb, now: u64) {
    for i in 0..db.capacity() {
        db.purge_expired_keys(i, now);
    }
}

fn collect(mut it: ludis::db::BucketDbRangeIterator<'_>) -> Vec<(Vec<u8>, Vec<u8>)> {
    let mut out = Vec::new();
    while let Some((k, e)) = it.next() {
        out.push((k, e.data().clone()));
    }
    out
}

#[test]
fn test_instant() {
    let mut db = BucketDb::new(1);
    let now = db.now();
    println!("now: {:?}", now);
    assert!(db.now() >= now);
}

#[test]
fn test_db() {
    println!("test_db");
    let mut db_service = BucketDb::new(10);
    println!("{:?}", db_service.get(b("aaacc")));
    assert_eq!(db_service.get(b("aaacc")), None);
    db_service.set(b("aaa"), b("aaaaadascasc"), Some(nanos(Duration::from_secs(2))));
    println!("{:?}", db_service.get(b("aaa")));
    assert_eq!(db_service.get(b("aaa")), Some(b("aaaaadascasc")));
    let now = db_service.now();
    sweep_all(&mut db_service, now + nanos(Duration::from_secs(10)));
    println!("{:?}", db_service.get(b("aaa")));
    assert_eq!(db_service.get(b("aaa")), None);
}

#[test]
fn test_new_keys() {
    let mut db_service = BucketDb::new(10);
    db_service.set_newest(b("aa"), b("xzczxczx"), nanos(Duration::from_secs(10)));
    db_service.set_newest(b("aa"), b("aaaaadascasc"), nanos(Duration::from_secs(2)));
    db_service.set_newest(b("aa"), b("aaaaadascasc"), nanos(Duration::from_secs(2)));
    db_service.set_newest(b("aa"), b("aaaaadascasc"), nanos(Duration::from_secs(2)));
    db_service.set_newest(b("aa"), b("aaaaadascascxzczxc"), nanos(Duration::from_secs(3)));
    println!("{:?}", db_service.get(b("aa")));
    assert_eq!(db_service.get(b("aa")), Some(b("xzczxczx")));
}

#[test]
fn test_cmp() {
    let a = b("aaa");
    let mut c = a.clone();
    c.push(u8::MAX);
    println!("{:?}", compare_bytes(&a, &c) == Ordering::Less);
    assert_eq!(compare_bytes(&a, &c), Ordering::Less);
}

#[test]
fn test_keys() {
    let mut db_service = BucketDb::new(10);
    let ttl = Some(nanos(Duration::from_secs(2)));
    for k in [
        "aa",
        "vasdad",
        "sadad",
        "aqwewqe",
        "vlzczxc",
        "1313213213",
        "asdasdsadasd",
        "031dasdadawd",
    ] {
        db_service.set(b(k), b("aaaaadascasc"), ttl);
    }
    let mut found = db_service.keys(Some(b("a")));
    println!("{:?}", found);
    found.sort();
    assert_eq!(found, vec![b("aa"), b("aqwewqe"), b("asdasdsadasd")]);
    let all = collect(db_service.iter());
    for i in &all {
        println!("{:?}", i);
    }
    let mut keys: Vec<Vec<u8>> = all.iter().map(|(k, _)| k.clone()).collect();
    keys.sort();
    let mut expected = vec![
        b("031dasdadawd"),
        b("1313213213"),
        b("aa"),
        b("aqwewqe"),
        b("asdasdsadasd"),
        b("sadad"),
        b("vasdad"),
        b("vlzczxc"),
    ];
    expected.sort();
    assert_eq!(keys, expected);
    assert!(all.iter().all(|(_, v)| *v == b("aaaaadascasc")));
}

#[test]
fn test_timeout() {
    let mut db = BucketDb::new(10);
    let ttl = Some(nanos(Duration::from_secs(1)));
    db.set(b("aa"), b("aaaaadascasc"), ttl);
    db.set(b("aa"), b("zxcxzc"), ttl);
    db.set(b("aa"), b("eweqw"), ttl);
    db.set(b("aa"), b("gfdgfdcz"), ttl);
    assert_eq!(db.get(b("aa")), Some(b("gfdgfdcz")));
    let now = db.now();
    sweep_all(&mut db, now + nanos(Duration::from_secs(10)));
    println!("{:?}", db.get(b("aa")));
    assert_eq!(db.get(b("aa")), None);
}

#[test]
fn routing_is_stable_and_in_range() {
    let mut db = BucketDb::new(10);
    let mut seen = std::collections::BTreeSet::new();
    for i in 0..200u32 {
        let key = format!("key-{}", i).into_bytes();
        let first = db.shard_index(&key);
        assert_eq!(db.shard_index(&key), first);
        assert!(first < 10);
        seen.insert(first);
    }
    assert!(seen.len() > 1);
}

#[test]
fn get_with_instant_reports_deadline() {
    let mut db = BucketDb::new(4);
    db.set(b("k"), b("v"), Some(nanos(Duration::from_secs(5))));
    let (v, d) = db.get_with_instant(b("k")).unwrap();
    assert_eq!(v, b("v"));
    let d = d.unwrap();
    assert!(d >= nanos(Duration::from_secs(5)));
    db.set(b("k"), b("v"), None);
    assert_eq!(db.get_with_instant(b("k")), Some((b("v"), None)));
    assert_eq!(db.get_with_instant(b("missing")), None);
}

#[test]
fn sweep_keeps_unexpired_and_reports_next_deadline() {
    let mut db = BucketDb::new(1);
    db.set(b("short"), b("1"), Some(nanos(Duration::from_secs(1))));
    db.set(b("long"), b("2"), Some(nanos(Duration::from_secs(100))));
    db.set(b("forever"), b("3"), None);
    let now = db.now();
    let next = db.purge_expired_keys(0, now + nanos(Duration::from_secs(50)));
    assert_eq!(db.get(b("short")), None);
    assert_eq!(db.get(b("long")), Some(b("2")));
    assert_eq!(db.get(b("forever")), Some(b("3")));
    let (_, long_deadline) = db.get_with_instant(b("long")).unwrap();
    assert_eq!(next, long_deadline);
}

#[test]
fn sweep_before_deadline_keeps_value() {
    let mut db = BucketDb::new(3);
    db.set(b("k"), b("v"), Some(nanos(Duration::from_secs(60))));
    let now = db.now();
    sweep_all(&mut db, now);
    assert_eq!(db.get(b("k")), Some(b("v")));
}

#[test]
fn shutdown_stops_expiry() {
    let mut db = BucketDb::new(2);
    db.set(b("k"), b("v"), Some(0));
    db.shutdown();
    for i in 0..db.capacity() {
        assert!(db.shard(i).is_shutdown());
        assert_eq!(db.purge_expired_keys(i, u64::MAX), None);
    }
    assert_eq!(db.get(b("k")), Some(b("v")));
}

#[test]
fn range_walks_prefix_half_open() {
    let mut db = BucketDb::new(5);
    for k in ["a", "ab", "abc", "b", "a\u{7f}"] {
        db.set(b(k), b(k), None);
    }
    let mut end = b("a");
    end.push(0xFF);
    db.set(end.clone(), b("end"), None);
    let mut got: Vec<Vec<u8>> = collect(db.range(Some(b("a")))).into_iter().map(|(k, _)| k).collect();
    got.sort();
    assert_eq!(got, vec![b("a"), b("ab"), b("abc"), b("a\u{7f}")]);
    let mut listed = db.keys(Some(b("a")));
    listed.sort();
    assert_eq!(listed, vec![b("a"), b("ab"), b("abc"), b("a\u{7f}"), end]);
}

#[test]
fn iter_of_empty_store_is_empty() {
    let mut db = BucketDb::new(3);
    assert!(collect(db.iter()).is_empty());
    assert!(db.keys(None).is_empty());
}

#[test]
fn publish_fans_out_to_every_subscriber() {
    let mut db = BucketDb::new(4);
    assert_eq!(db.publish(b("chan"), b("lost")), 0);
    let mut rx1 = db.subscribe(b("chan"));
    let mut rx2 = db.subscribe(b("chan"));
    assert_eq!(db.publish(b("chan"), b("hello")), 2);
    assert_eq!(rx1.try_recv().unwrap(), b("hello"));
    assert_eq!(rx2.try_recv().unwrap(), b("hello"));
    assert!(rx1.try_recv().is_err());
    assert!(rx2.try_recv().is_err());
    drop(rx1);
    drop(rx2);
    assert_eq!(db.publish(b("chan"), b("nobody")), 0);
}

#[test]
fn iter_visits_keys_from_0xff_up() {
    let mut db = BucketDb::new(3);
    let high = vec![0xFFu8];
    let higher = vec![0xFFu8, 0x01];
    db.set(high.clone(), b("h"), None);
    db.set(higher.clone(), b("hh"), None);
    db.set(b("low"), b("l"), None);
    let mut got: Vec<Vec<u8>> = collect(db.iter()).into_iter().map(|(k, _)| k).collect();
    got.sort();
    assert_eq!(got, vec![b("low"), high.clone(), higher.clone()]);
    let bounded = collect(db.range(None)).into_iter().map(|(k, _)| k).collect::<Vec<_>>();
    assert_eq!(bounded, vec![b("low")]);
}

#[test]
fn keys_are_grouped_by_shard_and_ascending() {
    let mut db = BucketDb::new(4);
    for i in 0..60u32 {
        db.set(format!("k{}", i).into_bytes(), b("v"), None);
    }
    let listed = db.keys(None);
    assert_eq!(listed.len(), 60);
    for w in listed.windows(2) {
        let (s0, s1) = (db.shard_index(&w[0]), db.shard_index(&w[1]));
        assert!(s0 < s1 || (s0 == s1 && w[0] < w[1]));
    }
    let walked: Vec<Vec<u8>> = collect(db.iter()).into_iter().map(|(k, _)| k).collect();
    assert_eq!(walked, listed);
}

#[test]
fn finished_walk_stays_finished() {
    let mut db = BucketDb::new(2);
    db.set(b("a"), b("1"), None);
    let mut it = db.iter();
    assert!(it.next().is_some());
    assert!(it.next().is_none());
    assert!(it.next().is_none());
}

#[test]
fn store_write_at_time_sets_deadline() {
    let mut db = BucketDb::new(4);
    db.set_at(b("k"), b("v"), Some(30), 100);
    assert_eq!(db.get_with_instant(b("k")), Some((b("v"), Some(130))));
    db.set_newest_at(b("k"), b("w"), 10, 100);
    assert_eq!(db.get_with_instant(b("k")), Some((b("v"), Some(130))));
    db.set_newest_at(b("k"), b("x"), 50, 100);
    assert_eq!(db.get_with_instant(b("k")), Some((b("x"), Some(150))));
    let i = db.shard_index(&b("k"));
    assert_eq!(db.purge_expired_keys(i, 149), Some(150));
    assert_eq!(db.get(b("k")), Some(b("x")));
    assert_eq!(db.purge_expired_keys(i, 150), None);
    assert_eq!(db.get(b("k")), None);
}
