use pocket_lsm::format::{Decoder, Encoder};
use pocket_lsm::EngineError;

#[test]
fn record_len_wraps_payload_bytes_only() {
    let mut payload = Encoder::new();
    payload.write_u8(7);
    payload.write_u32(11);
    let payload = payload.finish();

    let mut encoder = Encoder::new();
    encoder.write_u32(payload.len() as u32);
    encoder.write_bytes(&payload);

    let bytes = encoder.finish();
    let mut decoder = Decoder::new(&bytes);
    let record = decoder.read_record().unwrap();
    let mut record_decoder = Decoder::new(record);

    assert_eq!(record.len(), 5);
    assert_eq!(record_decoder.read_u8().unwrap(), 7);
    assert_eq!(record_decoder.read_u32().unwrap(), 11);
    assert!(decoder.is_finished());
}

#[test]
fn integers_are_little_endian() {
    let mut encoder = Encoder::new();
    encoder.write_u32(0x0403_0201);
    encoder.write_u64(0x0807_0605_0403_0201);
    assert_eq!(encoder.finish(), vec![1, 2, 3, 4, 1, 2, 3, 4, 5, 6, 7, 8]);
}

#[test]
fn truncated_reads_fail_without_moving() {
    let bytes = [1u8, 2, 3];
    let mut decoder = Decoder::new(&bytes);
    assert_eq!(decoder.read_u32(), Err(EngineError::CorruptFormat("truncated bytes")));
    assert_eq!(decoder.position(), 0);
    assert_eq!(decoder.read_u8(), Ok(1));
    assert_eq!(decoder.remaining(), 2);
    let mut empty = Decoder::new(&[]);
    assert_eq!(empty.read_u8(), Err(EngineError::CorruptFormat("truncated u8")));
}

#[test]
fn record_longer_than_input_is_rejected() {
    let bytes = [9u8, 0, 0, 0, 1, 2];
    let mut decoder = Decoder::new(&bytes);
    assert_eq!(decoder.read_record(), Err(EngineError::CorruptFormat("truncated bytes")));
}

#[test]
fn failed_record_reads_leave_the_cursor_where_the_original_does() {
    let short = [1u8, 0];
    let mut decoder = Decoder::new(&short);
    assert!(decoder.read_record().is_err());
    assert_eq!(decoder.position(), 0);

    let bytes = [9u8, 0, 0, 0, 1, 2];
    let mut decoder = Decoder::new(&bytes);
    assert!(decoder.read_record().is_err());
    assert_eq!(decoder.position(), 4);
}
