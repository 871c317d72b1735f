use alloy::batches::decode_records;
use alloy::batches::encode_records;
use alloy::batches::Record;
use alloy::frames::check_frame;
use alloy::frames::nests_within;
use alloy::frames::MAX_NESTING;
use alloy::wire::read_varint;
use kafka_protocol::records::Compression;
use kafka_protocol::records::RecordBatchEncoder;
use kafka_protocol::records::RecordEncodeOptions;
use kafka_protocol::records::TimestampType;
use kafka_protocol::records::IEEE;

fn record(offset: i64, timestamp: i64) -> Record {
    Record {
        transactional: false,
        control: false,
        partition_leader_epoch: 0,
        producer_id: -1,
        producer_epoch: -1,
        log_append_time: false,
        offset,
        sequence: offset as i32,
        timestamp,
        key: None,
        value: None,
        headers: vec![],
    }
}

/// The checksum of a batch of the format 2.
fn checksum(bytes: &[u8]) -> u32 {
    let mut sum = 0xffff_ffff;
    for byte in bytes {
        sum ^= *byte as u32;
        for _ in 0..8 {
            sum = if sum % 2 == 1 { (sum / 2) ^ 0x82f6_3b78 } else { sum / 2 };
        }
    }
    !sum
}

/// A message of the format 0 or 1.
fn message(magic: u8, attributes: u8, offset: i64, value: Option<&[u8]>) -> Vec<u8> {
    let mut body = vec![magic, attributes];
    if magic == 1 {
        body.extend_from_slice(&77i64.to_be_bytes());
    }
    body.extend_from_slice(&(-1i32).to_be_bytes());
    match value {
        Some(value) => {
            body.extend_from_slice(&(value.len() as i32).to_be_bytes());
            body.extend_from_slice(value);
        }
        None => body.extend_from_slice(&(-1i32).to_be_bytes()),
    }
    let mut bytes = offset.to_be_bytes().to_vec();
    bytes.extend_from_slice(&(body.len() as i32 + 4).to_be_bytes());
    bytes.extend_from_slice(&IEEE.checksum(&body).to_be_bytes());
    bytes.extend_from_slice(&body);
    bytes
}

/// Messages with so many sets around them.
fn nested(magic: u8, depth: u32) -> Vec<u8> {
    let mut set = message(magic, 0, 5, Some(b"deep"));
    for _ in 0..depth {
        set = message(magic, 1, 6, Some(&set));
    }
    set
}

/// A batch of the format 2 with other records in it.
fn with_records(mut batch: Vec<u8>, records: &[u8]) -> Vec<u8> {
    batch.truncate(61);
    batch.extend_from_slice(records);
    let length = batch.len() as i32 - 12;
    batch[8..12].copy_from_slice(&length.to_be_bytes());
    let sum = checksum(&batch[21..]);
    batch[17..21].copy_from_slice(&sum.to_be_bytes());
    batch
}

#[test]
fn old_messages_are_read() {
    for magic in [0, 1] {
        let mut bytes = message(magic, 0, 3, Some(b"a"));
        bytes.extend_from_slice(&message(magic, 0, 4, None));
        let mut set = message(magic, 0, 7, Some(b"b"));
        set.extend_from_slice(&message(magic, 0, 8, Some(b"c")));
        bytes.extend_from_slice(&message(magic, 1, 8, Some(&set)));
        let records = decode_records(&bytes);
        let read: Vec<(i64, Option<Vec<u8>>)> =
            records.iter().map(|r| (r.offset, r.value.clone())).collect();
        assert_eq!(
            read,
            vec![
                (3, Some(b"a".to_vec())),
                (4, None),
                (7, Some(b"b".to_vec())),
                (8, Some(b"c".to_vec())),
            ]
        );
        assert_eq!(records[0].timestamp, if magic == 1 { 77 } else { -1 });
    }
}

#[test]
fn sets_in_one_another_are_read_up_to_a_depth() {
    for magic in [0, 1] {
        assert!(nests_within(&nested(magic, 0), 0));
        assert!(!nests_within(&nested(magic, 3), 2));
        assert!(nests_within(&nested(magic, 3), 3));
        let deep = decode_records(&nested(magic, MAX_NESTING));
        assert_eq!(deep.len(), 1);
        assert_eq!(deep[0].value, Some(b"deep".to_vec()));
        assert!(decode_records(&nested(magic, MAX_NESTING + 1)).is_empty());
        assert!(decode_records(&nested(magic, 2000)).is_empty());
    }
    let mut both = nested(1, 1);
    both.extend_from_slice(&nested(1, 2));
    assert!(nests_within(&both, 2) && !nests_within(&both, 1));
    assert!(nests_within(&[], 0));
}

#[test]
fn offsets_are_read_up_to_the_end_of_the_numbers() {
    let far = encode_records(vec![record(i64::MAX - 3, i64::MAX - 8), record(i64::MAX, i64::MAX)]);
    let read = decode_records(&far.unwrap());
    assert_eq!((read[0].offset, read[0].timestamp), (i64::MAX - 3, i64::MAX - 8));
    assert_eq!((read[1].offset, read[1].timestamp), (i64::MAX, i64::MAX));

    let mut beyond = encode_records(vec![record(0, 0), record(3, 0)]).unwrap();
    beyond[0..8].copy_from_slice(&(i64::MAX - 2).to_be_bytes());
    assert!(!check_frame(&beyond));
    assert!(decode_records(&beyond).is_empty());
    beyond[0..8].copy_from_slice(&(i64::MAX - 3).to_be_bytes());
    assert!(check_frame(&beyond));
    assert_eq!(decode_records(&beyond)[1].offset, i64::MAX);
}

#[test]
fn what_announces_more_than_it_holds_is_not_read() {
    let batch = encode_records(vec![record(0, 0)]).unwrap();
    assert_eq!(decode_records(&with_records(batch.clone(), &[12, 0, 0, 0, 1, 1, 0])).len(), 1);
    let headers = [20, 0, 0, 0, 1, 1, 0xfe, 0xff, 0xff, 0xff, 0x0f];
    let announced = with_records(batch.clone(), &headers);
    assert!(!check_frame(&announced));
    assert!(decode_records(&announced).is_empty());
    let mut many = batch;
    many[57..61].copy_from_slice(&i32::MAX.to_be_bytes());
    let many = with_records(many, &[12, 0, 0, 0, 1, 1, 0]);
    assert!(!check_frame(&many));
    assert!(decode_records(&many).is_empty());
}

/// A batch whose records are compressed.
fn compressed(compression: Compression, offsets: &[i64]) -> Vec<u8> {
    let records: Vec<_> = offsets
        .iter()
        .map(|offset| kafka_protocol::records::Record {
            transactional: false,
            control: false,
            partition_leader_epoch: 0,
            producer_id: -1,
            producer_epoch: -1,
            timestamp_type: TimestampType::Creation,
            offset: *offset,
            sequence: *offset as i32,
            timestamp: i64::MAX - 1,
            key: None,
            value: Some(bytes::Bytes::from_static(b"value value value value")),
            headers: Default::default(),
        })
        .collect();
    let options = RecordEncodeOptions { version: 2, compression };
    let mut bytes = bytes::BytesMut::new();
    RecordBatchEncoder::encode(&mut bytes, records.iter(), &options).unwrap();
    bytes.to_vec()
}

#[test]
fn compressed_records_are_read() {
    for compression in
        [Compression::Gzip, Compression::Snappy, Compression::Lz4, Compression::Zstd]
    {
        let mut batch = compressed(compression, &[4, 5, 7]);
        assert_ne!(batch[22] % 8, 0);
        assert!(check_frame(&batch));
        let read = decode_records(&batch);
        assert_eq!(read.iter().map(|r| r.offset).collect::<Vec<i64>>(), vec![4, 5, 7]);
        assert_eq!(read[2].value, Some(b"value value value value".to_vec()));
        assert_eq!(read[2].timestamp, i64::MAX - 1);

        batch[0..8].copy_from_slice(&(i64::MAX - 3).to_be_bytes());
        assert_eq!(decode_records(&batch)[2].offset, i64::MAX);
        batch[0..8].copy_from_slice(&(i64::MAX - 2).to_be_bytes());
        assert!(!check_frame(&batch));
        assert!(decode_records(&batch).is_empty());

        let mut many = compressed(compression, &[1]);
        many[57..61].copy_from_slice(&i32::MAX.to_be_bytes());
        let records = many[61..].to_vec();
        let many = with_records(many, &records);
        assert!(!check_frame(&many));
        assert!(decode_records(&many).is_empty());

        let broken = with_records(batch, &[1, 2, 3, 4, 5]);
        assert!(decode_records(&broken).is_empty());
    }
    let batch = compressed(Compression::Snappy, &[1]);
    let announced = with_records(batch, &[0xff, 0xff, 0xff, 0xff, 0x0f, 0, 0]);
    assert!(!check_frame(&announced));
    assert!(decode_records(&announced).is_empty());
}

#[test]
fn numbers_of_varying_length_are_read() {
    assert_eq!(read_varint(&[0], 0), Some((0, 1)));
    assert_eq!(read_varint(&[1], 0), Some((-1, 1)));
    assert_eq!(read_varint(&[9, 2], 1), Some((1, 2)));
    assert_eq!(read_varint(&[0xac, 2, 7], 0), Some((150, 2)));
    assert_eq!(read_varint(&[0xfe, 0xff, 0xff, 0xff, 0x0f], 0), Some((i32::MAX, 5)));
    assert_eq!(read_varint(&[0xff, 0xff, 0xff, 0xff, 0x0f], 0), Some((i32::MIN, 5)));
    assert_eq!(read_varint(&[0xff, 0xff, 0xff, 0xff, 0xff, 1], 0), Some((i32::MIN, 5)));
    assert_eq!(read_varint(&[0x80, 0x80], 0), None);
    assert_eq!(read_varint(&[], 0), None);
}
