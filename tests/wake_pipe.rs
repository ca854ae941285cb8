use nara::wake_pipe::{decode_ids, encode_id};

#[test]
fn encode_is_little_endian() {
    assert_eq!(encode_id(0x0102030405060708), vec![8, 7, 6, 5, 4, 3, 2, 1]);
    assert_eq!(encode_id(1), vec![1, 0, 0, 0, 0, 0, 0, 0]);
}

#[test]
fn decode_reads_back_written_ids_in_order() {
    let ids = [1u64, 42, u64::MAX, 0x1234_5678_9abc_def0];
    let mut bytes = Vec::new();
    for id in ids {
        bytes.extend_from_slice(&encode_id(id));
    }
    assert_eq!(decode_ids(&bytes), Some(ids.to_vec()));
}

#[test]
fn decode_empty_chunk() {
    assert_eq!(decode_ids(&[]), Some(vec![]));
}

#[test]
fn decode_rejects_partial_id() {
    assert_eq!(decode_ids(&[1, 2, 3]), None);
    assert_eq!(decode_ids(&[0; 9]), None);
}
