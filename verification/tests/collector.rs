use goldfish::recent::Collector;

#[test]
fn collector_keeps_first_encounter_order() {
    let mut c = Collector::new(10);
    c.offer(b"c".to_vec());
    c.offer(b"a".to_vec());
    c.offer(b"b".to_vec());
    assert_eq!(c.into_entries(), vec![b"c".to_vec(), b"a".to_vec(), b"b".to_vec()]);
}

#[test]
fn collector_ignores_duplicates() {
    let mut c = Collector::new(10);
    c.offer(b"a".to_vec());
    c.offer(b"b".to_vec());
    c.offer(b"a".to_vec());
    assert_eq!(c.len(), 2);
    assert_eq!(c.into_entries(), vec![b"a".to_vec(), b"b".to_vec()]);
}

#[test]
fn collector_ignores_non_text() {
    let mut c = Collector::new(10);
    c.offer(vec![0xFF, 0xFE]);
    assert_eq!(c.len(), 0);
    c.offer(b"ok".to_vec());
    assert_eq!(c.len(), 1);
    assert_eq!(c.into_entries(), vec![b"ok".to_vec()]);
}

#[test]
fn collector_accepts_empty_text_entry() {
    let mut c = Collector::new(10);
    c.offer(Vec::new());
    assert_eq!(c.len(), 1);
    assert_eq!(c.into_entries(), vec![Vec::<u8>::new()]);
}

#[test]
fn collector_full_at_limit() {
    let mut c = Collector::new(2);
    assert!(!c.full());
    c.offer(b"a".to_vec());
    assert!(!c.full());
    c.offer(b"a".to_vec());
    assert!(!c.full());
    c.offer(b"b".to_vec());
    assert!(c.full());
}

#[test]
fn collector_limit_zero_is_full_at_once() {
    let c = Collector::new(0);
    assert!(c.full());
}
