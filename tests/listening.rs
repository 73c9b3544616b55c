use scanner_ingest::listener::{Listener, ListenerSet, ReadOutcome};

#[test]
fn timeout_is_idle() {
    let mut l = Listener::new();
    assert!(l.handle(ReadOutcome::Data(b"AB".to_vec())).is_empty());
    assert!(l.handle(ReadOutcome::Timeout).is_empty());
    assert!(l.is_active());
    assert_eq!(l.handle(ReadOutcome::Data(b"C\n".to_vec())), vec!["ABC".to_string()]);
}

#[test]
fn fatal_stops_the_unit() {
    let mut l = Listener::new();
    assert!(l.handle(ReadOutcome::Fatal("unplugged".to_string())).is_empty());
    assert!(!l.is_active());
    assert!(l.handle(ReadOutcome::Data(b"X\n".to_vec())).is_empty());
}

#[test]
fn invalid_bytes_are_replaced() {
    let mut l = Listener::new();
    let recs = l.handle(ReadOutcome::Data(vec![0xFF, b'A', b'\n']));
    assert_eq!(recs, vec!["\u{FFFD}A".to_string()]);
}

#[test]
fn fatal_leaves_other_units_alone() {
    let mut set = ListenerSet::new();
    let a = set.start();
    let b = set.start();
    assert_eq!((a, b, set.len()), (0, 1, 2));
    assert!(set.deliver(b, ReadOutcome::Data(b"12".to_vec())).is_empty());
    assert!(set.deliver(a, ReadOutcome::Data(b"9".to_vec())).is_empty());
    assert!(set.deliver(a, ReadOutcome::Fatal("gone".to_string())).is_empty());
    assert!(set.deliver(a, ReadOutcome::Data(b"\n".to_vec())).is_empty());
    assert_eq!(set.deliver(b, ReadOutcome::Data(b"3\n".to_vec())), vec!["123".to_string()]);
}
