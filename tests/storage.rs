use cw_state_machine::cache::{namespaced_key, u64_to_be, Cached, Substore};
use cw_state_machine::kv::{bytes_eq, KvLog};
use cw_state_machine::order::bytes_lt;

#[test]
fn log_set_get_remove() {
    let mut s = KvLog::new();
    assert_eq!(s.get(b"a"), None);
    s.set(b"a".to_vec(), b"1".to_vec());
    s.set(b"b".to_vec(), b"2".to_vec());
    s.set(b"a".to_vec(), b"3".to_vec());
    assert_eq!(s.get(b"a"), Some(b"3".to_vec()));
    assert_eq!(s.get(b"b"), Some(b"2".to_vec()));
    s.remove(b"a".to_vec());
    assert_eq!(s.get(b"a"), None);
    assert_eq!(s.get(b"b"), Some(b"2".to_vec()));
}

#[test]
fn overlay_flush_and_discard() {
    let mut base = KvLog::new();
    base.set(b"x".to_vec(), b"old".to_vec());
    base.set(b"y".to_vec(), b"keep".to_vec());

    let mut cache = Cached::new();
    cache.set(b"x".to_vec(), b"new".to_vec());
    cache.remove(b"y".to_vec());
    cache.set(b"z".to_vec(), b"added".to_vec());
    assert_eq!(cache.get(&base, b"x"), Some(b"new".to_vec()));
    assert_eq!(cache.get(&base, b"y"), None);
    assert_eq!(base.get(b"x"), Some(b"old".to_vec()));

    cache.discard();
    assert_eq!(cache.get(&base, b"x"), Some(b"old".to_vec()));
    assert_eq!(cache.get(&base, b"y"), Some(b"keep".to_vec()));

    cache.set(b"x".to_vec(), b"new".to_vec());
    cache.remove(b"y".to_vec());
    cache.flush(&mut base);
    assert_eq!(base.get(b"x"), Some(b"new".to_vec()));
    assert_eq!(base.get(b"y"), None);
    assert_eq!(base.get(b"z"), None);
}

#[test]
fn namespaced_keys() {
    assert_eq!(
        namespaced_key(b"ab", b"k"),
        vec![0, 0, 0, 0, 0, 0, 0, 2, b'a', b'b', b'k']
    );
    assert_ne!(namespaced_key(b"a", b"bk"), namespaced_key(b"ab", b"k"));
    assert_eq!(u64_to_be(0x0102030405060708), vec![1, 2, 3, 4, 5, 6, 7, 8]);
}

#[test]
fn substore_isolation() {
    let mut base = KvLog::new();
    let mut a = Substore::new(b"a");
    a.write(b"k", b"from-a".to_vec());
    a.flush(&mut base);
    let mut b = Substore::new(b"b");
    assert_eq!(b.read(&base, b"k"), None);
    b.write(b"k", b"from-b".to_vec());
    b.flush(&mut base);
    assert_eq!(Substore::new(b"a").read(&base, b"k"), Some(b"from-a".to_vec()));
    assert_eq!(Substore::new(b"b").read(&base, b"k"), Some(b"from-b".to_vec()));
    let mut c = Substore::new(b"a");
    c.remove(b"k");
    assert_eq!(c.read(&base, b"k"), None);
    assert_eq!(base.get(&namespaced_key(b"a", b"k")), Some(b"from-a".to_vec()));
}

#[test]
fn byte_equality() {
    assert!(bytes_eq(b"abc", b"abc"));
    assert!(!bytes_eq(b"abc", b"abd"));
    assert!(!bytes_eq(b"ab", b"abc"));
    assert!(bytes_eq(b"", b""));
}

#[test]
fn overlay_range_merges_in_order() {
    let mut base = KvLog::new();
    base.set(b"b".to_vec(), b"base-b".to_vec());
    base.set(b"d".to_vec(), b"base-d".to_vec());
    base.set(b"a".to_vec(), b"base-a".to_vec());
    base.set(b"f".to_vec(), b"base-f".to_vec());
    let mut cache = Cached::new();
    cache.set(b"c".to_vec(), b"new-c".to_vec());
    cache.set(b"b".to_vec(), b"new-b".to_vec());
    cache.remove(b"d".to_vec());
    cache.set(b"ab".to_vec(), b"new-ab".to_vec());

    let all = cache.range(&base, b"", None);
    assert_eq!(
        all,
        vec![
            (b"a".to_vec(), b"base-a".to_vec()),
            (b"ab".to_vec(), b"new-ab".to_vec()),
            (b"b".to_vec(), b"new-b".to_vec()),
            (b"c".to_vec(), b"new-c".to_vec()),
            (b"f".to_vec(), b"base-f".to_vec()),
        ]
    );
    let some = cache.range(&base, b"ab", Some(b"f"));
    assert_eq!(
        some,
        vec![
            (b"ab".to_vec(), b"new-ab".to_vec()),
            (b"b".to_vec(), b"new-b".to_vec()),
            (b"c".to_vec(), b"new-c".to_vec()),
        ]
    );
    assert_eq!(cache.range(&base, b"g", None), vec![]);
    assert_eq!(cache.range(&base, b"b", Some(b"b")), vec![]);
}

#[test]
fn lexicographic_order() {
    assert!(bytes_lt(b"a", b"b"));
    assert!(bytes_lt(b"a", b"ab"));
    assert!(bytes_lt(b"", b"a"));
    assert!(!bytes_lt(b"ab", b"a"));
    assert!(!bytes_lt(b"a", b"a"));
    assert!(bytes_lt(&[0x01, 0xff], &[0x02]));
}

#[test]
fn substore_scan_stays_in_namespace() {
    let mut base = KvLog::new();
    let mut other = Substore::new(b"ab");
    other.write(b"k1", b"other".to_vec());
    other.flush(&mut base);
    let mut mine = Substore::new(b"a");
    mine.write(b"k2", b"two".to_vec());
    mine.flush(&mut base);

    let mut sub = Substore::new(b"a");
    sub.write(b"k1", b"one".to_vec());
    sub.write(b"k3", b"three".to_vec());
    sub.remove(b"k3");
    sub.write(b"bk", b"b".to_vec());
    assert_eq!(
        sub.scan(&base, b"", None),
        vec![
            (b"bk".to_vec(), b"b".to_vec()),
            (b"k1".to_vec(), b"one".to_vec()),
            (b"k2".to_vec(), b"two".to_vec()),
        ]
    );
    assert_eq!(sub.scan(&base, b"k", Some(b"k2")), vec![(b"k1".to_vec(), b"one".to_vec())]);
    assert_eq!(Substore::new(b"ab").scan(&base, b"", None), vec![(b"k1".to_vec(), b"other".to_vec())]);
    assert_eq!(Substore::new(b"z").scan(&base, b"", None), vec![]);
}
