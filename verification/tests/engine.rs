use goldfish::codec::{LogError, MAX_ENTRY_LEN};
use goldfish::log::Log;

fn log_from(entries: &[&[u8]]) -> Log {
    let mut log = Log::load(Vec::new());
    for e in entries {
        log.append(e).unwrap();
    }
    log
}

#[test]
fn round_trip_single_byte() {
    let mut log = log_from(&[b"a"]);
    let mut it = log.iter();
    assert_eq!(it.prev(&mut log).unwrap(), b"a".to_vec());
    assert!(it.prev(&mut log).is_none());
}

#[test]
fn round_trip_max_entry() {
    let payload = vec![b'x'; MAX_ENTRY_LEN];
    let mut log = Log::load(Vec::new());
    log.append(&payload).unwrap();
    let mut it = log.iter();
    assert_eq!(it.prev(&mut log).unwrap(), payload);
    assert!(it.prev(&mut log).is_none());
}

#[test]
fn round_trip_empty_entry_after_another() {
    // An empty entry is legal and yields an empty view, as long as its
    // trailer does not sit at offset 0.
    let mut log = log_from(&[b"a", b""]);
    let mut it = log.iter();
    assert_eq!(it.prev(&mut log).unwrap(), Vec::<u8>::new());
    assert_eq!(it.prev(&mut log).unwrap(), b"a".to_vec());
    assert!(it.prev(&mut log).is_none());
}

#[test]
fn empty_entry_alone_reads_as_exhausted() {
    // The lone empty record's trailer sits at offset 0, which the cursor
    // reserves for "exhausted": the walk yields nothing.
    let mut log = log_from(&[b""]);
    let mut it = log.iter();
    assert!(it.prev(&mut log).is_none());
}

#[test]
fn cursor_yields_reverse_order() {
    let mut log = log_from(&[b"a", b"b", b"c"]);
    let mut it = log.iter();
    assert_eq!(it.prev(&mut log).unwrap(), b"c".to_vec());
    assert_eq!(it.prev(&mut log).unwrap(), b"b".to_vec());
    assert_eq!(it.prev(&mut log).unwrap(), b"a".to_vec());
    assert!(it.prev(&mut log).is_none());
}

#[test]
fn cursor_does_not_deduplicate() {
    let mut log = log_from(&[b"a", b"a"]);
    let mut it = log.iter();
    assert_eq!(it.prev(&mut log).unwrap(), b"a".to_vec());
    assert_eq!(it.prev(&mut log).unwrap(), b"a".to_vec());
    assert!(it.prev(&mut log).is_none());
}

#[test]
fn append_writes_record_at_end() {
    let log = log_from(&[b"a", b"bc"]);
    assert_eq!(log.into_bytes(), vec![97u8, 1, 0, 98, 99, 2, 0]);
}

#[test]
fn append_rejects_oversized_and_leaves_log_unmodified() {
    let mut log = log_from(&[b"a"]);
    let big = vec![0u8; MAX_ENTRY_LEN + 1];
    assert_eq!(log.append(&big), Err(LogError::EntryTooLarge));
    assert_eq!(log.into_bytes(), vec![97u8, 1, 0]);
}

#[test]
fn clear_then_cursor_is_exhausted() {
    let mut log = log_from(&[b"a", b"b"]);
    log.clear();
    assert_eq!(log.position(), 0);
    let mut it = log.iter();
    assert!(it.prev(&mut log).is_none());
    assert_eq!(log.position(), 0);
}

#[test]
fn empty_log_has_no_entries() {
    let mut log = Log::load(Vec::new());
    assert!(log.entries(5).is_empty());
    assert_eq!(log.position(), 0);
}

#[test]
fn entries_most_recent_distinct() {
    // Appending a, b, a, c: the three most recent distinct entries are
    // c, a, b — a's most recent occurrence determines its rank.
    let mut log = log_from(&[b"a", b"b", b"a", b"c"]);
    let got = log.entries(3);
    assert_eq!(got, vec![b"c".to_vec(), b"a".to_vec(), b"b".to_vec()]);
}

#[test]
fn entries_stop_at_count() {
    let mut log = log_from(&[b"a", b"b", b"c"]);
    assert_eq!(log.entries(2), vec![b"c".to_vec(), b"b".to_vec()]);
}

#[test]
fn entries_count_zero_is_empty() {
    let mut log = log_from(&[b"a", b"b"]);
    assert!(log.entries(0).is_empty());
}

#[test]
fn entries_skip_non_text() {
    let mut log = Log::load(Vec::new());
    log.append(b"x").unwrap();
    log.append(&[0xFF, 0xFE]).unwrap();
    let got = log.entries(10);
    assert_eq!(got, vec![b"x".to_vec()]);
}

#[test]
fn non_text_entry_is_consumed_but_not_counted() {
    let mut log = Log::load(Vec::new());
    log.append(b"old").unwrap();
    log.append(&[0xC0]).unwrap();
    log.append(b"new").unwrap();
    // One bad record must not abort the walk: both good ones are reported.
    assert_eq!(log.entries(2), vec![b"new".to_vec(), b"old".to_vec()]);
}

#[test]
fn position_after_exhausting_walk() {
    // File: [a 1 0 | b 2 bytes...]; walking everything leaves the handle at
    // the end of the oldest payload, where the final seek back underflowed.
    let mut log = log_from(&[b"ab", b"c"]);
    let _ = log.entries(10);
    assert_eq!(log.position(), 2);
}

#[test]
fn position_after_partial_walk() {
    // Records of one byte each occupy 3 bytes; stopping after the newest
    // leaves the handle at the trailer of the one before it.
    let mut log = log_from(&[b"a", b"b", b"c"]);
    let _ = log.entries(1);
    assert_eq!(log.position(), 4);
}

#[test]
fn clean_rewrites_retained_in_chronological_order() {
    let mut log = log_from(&[b"a", b"b", b"a", b"c"]);
    log.clean(3);
    assert_eq!(log.into_bytes(), vec![98u8, 1, 0, 97, 1, 0, 99, 1, 0]);
}

#[test]
fn clean_keeps_only_count_entries() {
    let mut log = log_from(&[b"a", b"b", b"c"]);
    log.clean(1);
    assert_eq!(log.into_bytes(), vec![99u8, 1, 0]);
}

#[test]
fn compaction_is_idempotent() {
    let mut log = log_from(&[b"a", b"b", b"a", b"c"]);
    log.clean(3);
    let first = log.into_bytes();
    let mut log = Log::load(first.clone());
    log.clean(3);
    assert_eq!(log.into_bytes(), first);
}

#[test]
fn compaction_not_idempotent_when_oldest_retained_is_empty() {
    // The one exception to idempotence: when the oldest retained entry is
    // the empty entry, the rewrite puts its trailer at offset 0 and the
    // next walk skips it.
    let mut log = log_from(&[b"b", b"", b"b"]);
    log.clean(2);
    let first = log.into_bytes();
    assert_eq!(first, vec![0u8, 0, 98, 1, 0]);
    let mut log = Log::load(first);
    log.clean(2);
    assert_eq!(log.into_bytes(), vec![98u8, 1, 0]);
}

#[test]
fn get_at_threshold_does_not_compact() {
    // Walking to the newest of three one-byte records leaves 4 stale bytes.
    let mut log = log_from(&[b"a", b"b", b"c"]);
    let got = log.get(1, 4);
    assert_eq!(got, vec![b"c".to_vec()]);
    assert_eq!(log.into_bytes(), vec![97u8, 1, 0, 98, 1, 0, 99, 1, 0]);
}

#[test]
fn get_above_threshold_compacts() {
    let mut log = log_from(&[b"a", b"b", b"c"]);
    let got = log.get(1, 3);
    assert_eq!(got, vec![b"c".to_vec()]);
    assert_eq!(log.into_bytes(), vec![99u8, 1, 0]);
}

#[test]
fn should_compact_is_strictly_greater() {
    assert!(!Log::should_compact(4, 4));
    assert!(Log::should_compact(5, 4));
    assert!(!Log::should_compact(0, 0));
}
