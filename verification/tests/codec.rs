use goldfish::codec::{decode_trailer, encode, LogError, MAX_ENTRY_LEN};
use goldfish::cursor::plan_step;

#[test]
fn encode_exact_bytes() {
    let r = encode(b"ab").unwrap();
    assert_eq!(r, vec![97u8, 98, 2, 0]);
}

#[test]
fn encode_empty_entry() {
    let r = encode(b"").unwrap();
    assert_eq!(r, vec![0u8, 0]);
}

#[test]
fn encode_length_is_little_endian() {
    let payload = vec![7u8; 0x1234];
    let r = encode(&payload).unwrap();
    assert_eq!(r.len(), 0x1234 + 2);
    assert_eq!(r[r.len() - 2], 0x34);
    assert_eq!(r[r.len() - 1], 0x12);
}

#[test]
fn encode_max_entry() {
    let payload = vec![9u8; MAX_ENTRY_LEN];
    let r = encode(&payload).unwrap();
    assert_eq!(r.len(), MAX_ENTRY_LEN + 2);
    assert_eq!(r[r.len() - 2], 0xFF);
    assert_eq!(r[r.len() - 1], 0xFF);
}

#[test]
fn encode_rejects_too_large() {
    let payload = vec![0u8; MAX_ENTRY_LEN + 1];
    assert_eq!(encode(&payload), Err(LogError::EntryTooLarge));
}

#[test]
fn decode_trailer_little_endian() {
    assert_eq!(decode_trailer(0x34, 0x12), 0x1234);
    assert_eq!(decode_trailer(0, 0), 0);
    assert_eq!(decode_trailer(0xFF, 0xFF), 0xFFFF);
}

#[test]
fn plan_step_mid_file() {
    let st = plan_step(10, 3, 0).unwrap();
    assert_eq!(st.len, 3);
    assert_eq!(st.payload_start, 7);
    assert!(st.next_seek_ok);
    assert_eq!(st.next_pos, 5);
}

#[test]
fn plan_step_reaches_offset_zero() {
    // A record of length 1 whose payload starts at offset 2: the seek back
    // lands exactly on offset 0.
    let st = plan_step(3, 1, 0).unwrap();
    assert_eq!(st.payload_start, 2);
    assert!(st.next_seek_ok);
    assert_eq!(st.next_pos, 0);
}

#[test]
fn plan_step_underflow_at_first_record() {
    // The record starts at offset 1: seeking back past it underflows.
    let st = plan_step(4, 3, 0).unwrap();
    assert_eq!(st.payload_start, 1);
    assert!(!st.next_seek_ok);
    assert_eq!(st.next_pos, 0);
}

#[test]
fn plan_step_rejects_malformed_length() {
    assert!(matches!(plan_step(2, 5, 0), Err(LogError::Malformed)));
    assert!(matches!(plan_step(1, 0, 1), Err(LogError::Malformed)));
}
