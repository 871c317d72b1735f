use alloy::codec::FetchMessage;
use alloy::codec::FetchPartition;
use alloy::codec::FetchReading;
use alloy::codec::FetchTopic;
use alloy::codec::FetchedPartition;
use alloy::codec::FetchedTopic;
use alloy::fetching::FetchAssembly;
use alloy::fetching::Popped;

fn asked(topic: &str, partitions: &[i32]) -> FetchTopic {
    FetchTopic {
        topic: topic.to_string(),
        partitions: partitions
            .iter()
            .map(|p| FetchPartition { partition: *p, fetch_offset: 100 + *p as i64 })
            .collect(),
    }
}

fn fetched(topic: &str, partitions: &[i32]) -> FetchedTopic {
    FetchedTopic {
        topic: topic.to_string(),
        partitions: partitions.iter().map(|p| FetchedPartition::fresh(*p)).collect(),
        rest: None,
    }
}

fn message(topics: Vec<FetchedTopic>) -> FetchMessage {
    FetchMessage { error_code: 3, session_id: 1, topics, rest: None }
}

fn listed(message: &FetchMessage) -> Vec<(&str, Vec<i32>)> {
    message
        .topics
        .iter()
        .map(|t| (t.topic.as_str(), t.partitions.iter().map(|p| p.partition_index).collect()))
        .collect()
}

fn reading(topics: Vec<FetchTopic>) -> FetchReading {
    FetchReading { replica_id: -1, isolation_level: 0, session_id: 7, session_epoch: 1, topics }
}

#[test]
fn every_absent_partition_is_added_once() {
    let request = reading(vec![
        asked("bid", &[0, 1, 2, 3]),
        asked("person", &[5]),
        asked("auction", &[4, 6]),
    ]);
    let mut assembly =
        FetchAssembly::new(message(vec![fetched("auction", &[4]), fetched("bid", &[2, 0])]));
    let mut missing = vec![];
    while let Some(partition) = assembly.advance(&request) {
        missing.push((partition.topic, partition.partition, partition.fetch_offset));
        let popped = if partition.partition == 3 {
            let mut left = FetchedPartition::fresh(3);
            left.records = Some(vec![9]);
            Some(Popped { session_id: 7, session_epoch: 0, partition: Some(left) })
        } else {
            None
        };
        assembly.supply(&request, popped).unwrap();
    }
    let bid = "bid".to_string();
    assert_eq!(
        missing,
        vec![
            (bid.clone(), 1, 101),
            (bid, 3, 103),
            ("person".to_string(), 5, 105),
            ("auction".to_string(), 6, 106),
        ]
    );
    assert_eq!(
        listed(&assembly.message),
        vec![
            ("auction", vec![4]),
            ("bid", vec![2, 0]),
            ("bid", vec![1, 3]),
            ("bid", vec![]),
            ("person", vec![5]),
            ("person", vec![]),
            ("auction", vec![6]),
            ("auction", vec![]),
        ]
    );
    assert_eq!(assembly.message.topics[2].partitions[0].records, None);
    assert_eq!(assembly.message.topics[2].partitions[1].records, Some(vec![9]));
    assert_eq!((assembly.message.session_id, assembly.message.error_code), (7, 0));
}

#[test]
fn a_fetch_of_nothing_adds_nothing() {
    let mut assembly = FetchAssembly::new(message(vec![fetched("bid", &[1])]));
    assert!(assembly.advance(&reading(vec![])).is_none());
    assert_eq!(listed(&assembly.message), vec![("bid", vec![1])]);
    assert_eq!((assembly.message.session_id, assembly.message.error_code), (1, 3));
}
