use alloy::batches::decode_records;
use alloy::batches::encode_records;
use alloy::batches::filter_vector_records;
use alloy::batches::records_at_least_size;
use alloy::batches::take_records_within_size;
use alloy::batches::Record;
use alloy::fetching::next_attempt;
use alloy::fetching::read_shared_partition;
use alloy::fetching::Attempt;
use alloy::fetching::StoreStatus;
use alloy::filter::FilterError;
use kafka_protocol::messages::fetch_response::PartitionData;
use kafka_protocol::protocol::Encodable;

fn record(offset: i64, key: Option<&str>, value: Option<&str>) -> Record {
    Record {
        transactional: false,
        control: false,
        partition_leader_epoch: 0,
        producer_id: -1,
        producer_epoch: -1,
        log_append_time: false,
        offset,
        sequence: offset as i32,
        timestamp: 1000 + offset,
        key: key.map(|k| k.as_bytes().to_vec()),
        value: value.map(|v| v.as_bytes().to_vec()),
        headers: vec![],
    }
}

fn offsets(records: &Vec<Record>) -> Vec<i64> {
    records.iter().map(|r| r.offset).collect()
}

#[test]
fn test_empty_array() {
    let bytes = encode_records(Vec::new()).unwrap();
    println!("{:?}", bytes);
    assert!(decode_records(&bytes).is_empty());
}

#[test]
fn test_deser() {
    let mut p = PartitionData::default();
    p.unknown_tagged_fields.insert(4, [0, 5, 10, 20].to_vec());
    let mut buf = bytes::BytesMut::new();
    p.encode(&mut buf, 12).unwrap();
    let data = buf.to_vec();
    println!("ser: {:?}", data);

    let mut left = vec![0, 0, 0, 7, 255, 255, 255, 255];
    left.extend_from_slice(&data);
    let popped = read_shared_partition(&left, 12).unwrap();
    println!("deser: {:?}", popped.session_id);
    assert_eq!((popped.session_id, popped.session_epoch), (7, -1));
    let partition = popped.partition.unwrap();
    assert_eq!(partition.partition_index, 0);
    assert_eq!(partition.tags.get(&4), Some(&vec![0, 5, 10, 20]));
    assert_eq!(partition.records, Some(vec![]));
}

#[test]
fn test_serde_complex_kafka_payload() {
    let little = "0, 0, 0, 3, 0, 0, 0, 0, 0, 0, 0, 0, 7, 210, 0, 0, 0, 0, 0, 0, 7, 210, 0, 0, 0, 0, 0, 0, 0, 0, 0, 255, 255, 255, 255, 69, 0, 0, 0, 0, 0, 0, 6, 36, 0, 0, 0, 56, 0, 0, 0, 0, 2, 172, 84, 134, 21, 0, 0, 0, 0, 0, 0, 0, 0, 1, 147, 198, 254, 149, 78, 0, 0, 1, 147, 198, 254, 149, 78, 0, 0, 0, 0, 0, 0, 0, 1, 0, 0, 0, 0, 3, 4, 0, 0, 0, 1, 12, 0, 0, 0, 1, 1, 0, 1";
    let vec_u8: Vec<u8> = little
        .split(',')
        .filter_map(|s| s.trim().parse::<u8>().ok())
        .collect();

    println!("{:?}", vec_u8.len());
    let mut left = vec![0; 8];
    left.extend_from_slice(&vec_u8);
    let popped = read_shared_partition(&left, 12).unwrap();
    println!("{:?}", popped.partition.is_some());
    assert!(popped.partition.is_none());

    // The tagged field that the last byte announces is missing; without it the rest is read.
    let last = left.len() - 1;
    left[last] = 0;
    let partition = read_shared_partition(&left, 12).unwrap().partition.unwrap();
    assert_eq!(partition.partition_index, 3);
    let records = decode_records(&partition.records.unwrap());
    assert_eq!(offsets(&records), vec![1572]);
    assert_eq!(records[0].timestamp, 0x193_c6fe_954e);
    assert!(records[0].key.is_none() && records[0].value.is_none());
}

#[test]
fn shared_data_that_is_too_short_is_refused() {
    assert_eq!(read_shared_partition(&vec![0; 7], 12).err(), Some(FilterError::BadSharedData));
    let popped = read_shared_partition(&vec![0; 8], 12).unwrap();
    assert!(popped.partition.is_none());
}

#[test]
fn records_are_read_back() {
    let mut first = record(7, Some("k"), Some("{\"a\":1}"));
    first.headers = vec![("h".to_string(), Some(vec![1, 2])), ("i".to_string(), Some(vec![]))];
    let bytes = encode_records(vec![first, record(8, None, None), record(9, None, Some(""))]).unwrap();
    let records = decode_records(&bytes);
    assert_eq!(offsets(&records), vec![7, 8, 9]);
    assert_eq!(records[0].key, Some(b"k".to_vec()));
    assert_eq!(records[0].value, Some(b"{\"a\":1}".to_vec()));
    assert_eq!(records[0].timestamp, 1007);
    assert_eq!(records[0].headers.len(), 2);
    assert_eq!(records[0].headers[0], ("h".to_string(), Some(vec![1, 2])));
    assert_eq!((records[1].key.clone(), records[1].value.clone()), (None, None));
    assert_eq!(records[2].value, Some(vec![]));
}

#[test]
fn batches_are_read_one_after_the_other_up_to_a_cut_one() {
    let one = encode_records(vec![record(1, None, Some("x"))]).unwrap();
    let two = encode_records(vec![record(2, None, Some("y")), record(3, None, None)]).unwrap();
    let mut both = one.clone();
    both.extend_from_slice(&two);
    assert_eq!(offsets(&decode_records(&both)), vec![1, 2, 3]);
    both.truncate(both.len() - 1);
    assert_eq!(offsets(&decode_records(&both)), vec![1]);
    assert!(decode_records(&vec![]).is_empty());
    assert!(decode_records(&vec![0; 40]).is_empty());
    let mut wrong = one.clone();
    let last = wrong.len() - 1;
    wrong[last] ^= 1;
    wrong.extend_from_slice(&one);
    assert!(decode_records(&wrong).is_empty());
}

#[test]
fn records_that_are_too_far_apart_are_not_written() {
    assert!(encode_records(vec![record(i64::MIN, None, None), record(0, None, None)]).is_none());
    let mut late = record(1, None, None);
    late.timestamp = i64::MAX;
    let mut early = record(2, None, None);
    early.timestamp = -1;
    assert!(encode_records(vec![late, early]).is_none());
}

#[test]
fn empty_records_are_removed_except_for_the_last_one() {
    let last = record(4, None, Some("last"));
    let mut list = vec![
        record(1, None, None),
        record(2, Some("k"), None),
        record(3, None, Some("v")),
        record(4, None, None),
    ];
    assert_eq!(filter_vector_records(&mut list, &last), (1, 3));
    assert_eq!(offsets(&list), vec![2, 3, 4]);
    assert_eq!(list[2].value, Some(b"last".to_vec()));

    let mut list = vec![record(3, None, None), record(4, None, Some("w"))];
    assert_eq!(filter_vector_records(&mut list, &last), (1, 1));
    assert_eq!(list[0].value, Some(b"w".to_vec()));

    let mut list = vec![record(3, None, None), record(4, None, None)];
    assert_eq!(filter_vector_records(&mut list, &last), (1, 1));
    assert_eq!(list[0].value, Some(b"last".to_vec()));
}

#[test]
fn sizes_are_those_of_keys_and_values() {
    let list = vec![record(1, Some("ab"), Some("cde")), record(2, None, None), record(3, None, Some("f"))];
    assert!(records_at_least_size(&list, 5));
    assert!(!records_at_least_size(&list, 6));
    assert!(!records_at_least_size(&vec![], 0));
}

#[test]
fn records_are_taken_as_far_as_they_fit_a_size() {
    let list = || vec![record(1, None, Some("abc")), record(2, None, Some("de")), record(3, None, Some("f"))];
    let mut left = list();
    assert_eq!(offsets(&take_records_within_size(&mut left, 5)), vec![1, 2]);
    assert_eq!(offsets(&left), vec![3]);
    let mut left = list();
    assert_eq!(offsets(&take_records_within_size(&mut left, 4)), vec![1]);
    assert_eq!(offsets(&left), vec![2, 3]);
    let mut left = list();
    assert!(take_records_within_size(&mut left, 2).is_empty());
    assert_eq!(left.len(), 3);
    assert_eq!(take_records_within_size(&mut left, 7).len(), 3);
    assert!(left.is_empty());
    let mut left = vec![record(1, None, Some("abc")), record(2, None, Some("def"))];
    assert_eq!(offsets(&take_records_within_size(&mut left, 5)), vec![1]);
    assert_eq!(offsets(&left), vec![2]);
}

#[test]
fn storing_is_tried_again_where_another_context_came_in_between() {
    assert_eq!(next_attempt(StoreStatus::Stored), Attempt::Done);
    assert_eq!(next_attempt(StoreStatus::CasMismatch), Attempt::Again);
    assert_eq!(next_attempt(StoreStatus::Failed), Attempt::GiveUp);
}
