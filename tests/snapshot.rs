use position_server::snapshot::{decode_record, read_be_u32, PlayerState, STATE_LEN};

fn record(id: u8, millis: u32, fill: u8) -> [u8; STATE_LEN] {
    let mut b = [fill; STATE_LEN];
    b[0] = id;
    b[1..5].copy_from_slice(&millis.to_be_bytes());
    b
}

#[test]
fn from_bytes_reads_id_and_big_endian_millis() {
    let b = record(7, 0x0102_0304, 9);
    let (id, millis, state) = PlayerState::from_bytes(b);
    assert_eq!(id, 7);
    assert_eq!(millis, 0x0102_0304);
    assert_eq!(state.bytes(), b);
    assert!(!state.was_sent_to(7));
}

#[test]
fn from_bytes_largest_timestamp() {
    let (_, millis, _) = PlayerState::from_bytes(record(0, u32::MAX, 0));
    assert_eq!(millis, u32::MAX);
}

#[test]
fn read_be_u32_at_offset() {
    let mut b = [0u8; STATE_LEN];
    b[10] = 0xde;
    b[11] = 0xad;
    b[12] = 0xbe;
    b[13] = 0xef;
    assert_eq!(read_be_u32(&b, 10), 0xdead_beef);
}

#[test]
fn decode_record_requires_exact_length() {
    assert!(decode_record(&[0u8; 23]).is_none());
    assert!(decode_record(&[0u8; 25]).is_none());
    assert!(decode_record(&[]).is_none());
    let b = record(3, 500, 1);
    let (id, millis, state) = decode_record(&b).unwrap();
    assert_eq!((id, millis), (3, 500));
    assert_eq!(state.bytes(), b);
}

#[test]
fn mark_sent_to_is_per_viewer() {
    let (_, _, mut state) = PlayerState::from_bytes(record(1, 1, 0));
    state.mark_sent_to(4);
    assert!(state.was_sent_to(4));
    assert!(!state.was_sent_to(5));
}
