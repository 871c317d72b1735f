use alloy::data::make_queue_key;
use alloy::data::make_records_key;
use alloy::data::FetchRequestDataPartition;
use alloy::data::FetchResponseData;

fn asked(topic: &str, partition: i32, fetch_offset: i64) -> FetchRequestDataPartition {
    FetchRequestDataPartition { topic: topic.to_string(), partition, fetch_offset }
}

fn answered(topic: &str, partition: i32, fetch_offset: i64) -> FetchResponseData {
    FetchResponseData {
        session_id: 1,
        session_epoch: 2,
        topic: topic.to_string(),
        partition,
        fetch_offset,
        records: vec![],
    }
}

#[test]
fn queues_are_named_by_topic_and_partition() {
    assert_eq!(asked("bid", 3, 7).get_shared_queue_key(), "bid-3");
    assert_eq!(answered("bid", 3, 7).get_shared_queue_key(), "bid-3");
    assert_eq!(make_queue_key(&"bid".to_string(), -1), "bid--1");
}

#[test]
fn records_are_kept_by_topic_partition_and_offset() {
    assert_eq!(answered("bid", 3, 7).get_shared_data_key(), "bid-3-7");
    assert_eq!(asked("bid", 3, 7).get_shared_data_key(), "\"bid\"-3-7");
    assert_eq!(asked("a\"b", 0, -1).get_shared_data_key(), "\"a\\\"b\"-0--1");
    assert_eq!(make_records_key(&"t".to_string(), 10, 1234567890123), "t-10-1234567890123");
}

#[test]
fn names_of_different_partitions_differ() {
    let mut names: Vec<String> = Vec::new();
    for topic in ["a", "a-1", "a-1-2"] {
        for partition in 0..12 {
            names.push(make_queue_key(&topic.to_string(), partition));
        }
    }
    let all = names.len();
    names.sort();
    names.dedup();
    assert_eq!(names.len(), all);
    assert_eq!(make_queue_key(&"a-".to_string(), 5), make_queue_key(&"a".to_string(), -5));
}
