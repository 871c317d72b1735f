use alloy::batches::decode_records;
use alloy::batches::encode_records;
use alloy::batches::Record;
use alloy::criteria::AlloyFilterCriteria;
use alloy::criteria::Field;
use alloy::criteria::FieldType;
use alloy::criteria::FilterEntry;
use alloy::filter::AlloyFilter;
use alloy::filter::FilterError;
use alloy::hashing::get_keygroup_slot;
use alloy::hashing::get_split_owner;
use alloy::hashing::JavaHashValue;
use alloy::maps::KeyedMap;
use alloy::root::AlloyRootFilter;
use alloy::routing::RoutingConfiguration;

type Waiting = KeyedMap<(String, i32), Vec<Record>>;

fn record(offset: i64, key: Option<&str>, value: Option<&str>) -> Record {
    Record {
        transactional: false,
        control: false,
        partition_leader_epoch: 0,
        producer_id: -1,
        producer_epoch: -1,
        log_append_time: false,
        offset,
        sequence: offset as i32,
        timestamp: 1000,
        key: key.map(|k| k.as_bytes().to_vec()),
        value: value.map(|v| v.as_bytes().to_vec()),
        headers: vec![],
    }
}

fn selection(attribute: &str, value: &str) -> FilterEntry {
    FilterEntry {
        attribute: Some(attribute.to_string()),
        value: Some(value.to_string()),
        value_regex: None,
    }
}

fn filter_for(topic: &str, criteria: AlloyFilterCriteria, settings: &[(&str, &str)]) -> AlloyFilter {
    let mut additional = KeyedMap::new();
    for (name, value) in settings {
        additional.insert(name.to_string(), value.to_string());
    }
    let mut configuration = RoutingConfiguration::new();
    configuration.workload_type = Some("kafka-alloy".to_string());
    configuration.default_cluster = Some("edge".to_string());
    configuration.additional_configuration = Some(additional);
    let mut map = KeyedMap::new();
    map.insert(topic.to_string(), criteria);
    let root = AlloyRootFilter::new(1, "root".to_string());
    match root.create_stream_context(9, configuration, Some(map)) {
        Ok(filter) => filter,
        Err(e) => panic!("{:?}", e),
    }
}

fn filtered(filter: &AlloyFilter, asked: i32, records: Vec<Record>, waiting: &mut Waiting) -> Vec<Record> {
    let bytes = encode_records(records).unwrap();
    let left = filter
        .filter_records_optimized(&"bid".to_string(), asked, Some(bytes), waiting)
        .unwrap();
    decode_records(&left.unwrap())
}

fn texts(records: &Vec<Record>) -> Vec<(i64, Option<String>)> {
    records
        .iter()
        .map(|r| (r.offset, r.value.clone().map(|v| String::from_utf8(v).unwrap())))
        .collect()
}

fn text(offset: i64, value: &str) -> (i64, Option<String>) {
    (offset, Some(value.to_string()))
}

#[test]
fn events_that_do_not_match_are_dropped_and_fields_that_are_not_listed_too() {
    let mut criteria = AlloyFilterCriteria::new();
    criteria.num_partitions = 4;
    criteria.num_sources = 4;
    criteria.projections =
        vec!["auction".to_string(), "bidder".to_string(), "dateTime".to_string()];
    criteria.selections = vec![selection("category", "10")];
    let filter = filter_for("bid", criteria, &[]);
    let mut waiting = Waiting::new();
    let left = filtered(
        &filter,
        2,
        vec![
            record(0, Some("k"), Some("{\"auction\":1,\"bidder\":2,\"category\":10,\"dateTime\":3,\"price\":4}")),
            record(1, None, Some("{\"auction\":5,\"category\":11}")),
            record(2, None, None),
            record(3, None, Some("{\"auction\":6,\"category\":\"10\",\"x\":null}")),
            record(4, None, Some("{\"category\":110}")),
        ],
        &mut waiting,
    );
    assert_eq!(
        texts(&left),
        vec![
            text(0, "{\"auction\":1,\"bidder\":2,\"dateTime\":3}"),
            text(3, "{\"auction\":6}"),
            text(4, "{}"),
        ]
    );
    assert_eq!(left[0].key, Some(b"k".to_vec()));
    assert!(waiting.is_empty());
}

#[test]
fn the_last_offset_is_told_even_if_its_event_does_not_match() {
    let mut criteria = AlloyFilterCriteria::new();
    criteria.selections = vec![selection("a", "^x$")];
    let records = || {
        vec![
            record(5, None, Some("{\"a\":\"x\"}")),
            record(6, None, Some("{\"a\":\"y\"}")),
            record(7, None, Some("{\"a\":\"z\"}")),
        ]
    };
    let mut waiting = Waiting::new();
    let filter = filter_for("bid", criteria.clone(), &[]);
    let left = filtered(&filter, 0, records(), &mut waiting);
    assert_eq!(texts(&left), vec![text(5, "{\"a\":\"x\"}"), (7, None)]);
    let unmatched = vec![record(8, Some("k"), Some("{\"a\":\"y\"}"))];
    let left = filtered(&filter, 0, unmatched, &mut waiting);
    assert_eq!(texts(&left), vec![(8, None)]);
    assert_eq!(left[0].key, None);

    let filter = filter_for("bid", criteria, &[("remove_empty_records", "false")]);
    let left = filtered(&filter, 0, records(), &mut waiting);
    assert_eq!(texts(&left), vec![text(5, "{\"a\":\"x\"}"), (6, None), (7, None)]);
}

#[test]
fn values_are_matched_by_what_they_are() {
    for (value, pattern, matches) in [
        ("{\"a\":1.5}", "^1\\.5$", true),
        ("{\"a\":true}", "^true$", true),
        ("{\"a\":false}", "^true$", false),
        ("{\"a\":null}", "^null$", true),
        ("{\"a\":[1]}", "^$", true),
        ("{\"a\":{\"b\":1}}", "b", false),
        ("{\"b\":1}", "never", true),
        ("[1]", "never", true),
        ("{\"a\":\"\\u0078\"}", "^x$", true),
    ] {
        let mut criteria = AlloyFilterCriteria::new();
        criteria.selections = vec![
            FilterEntry { attribute: None, value: Some("never".to_string()), value_regex: None },
            selection("a", pattern),
        ];
        let filter = filter_for("bid", criteria, &[("remove_empty_records", "no")]);
        let left = filtered(&filter, 0, vec![record(1, None, Some(value))], &mut Waiting::new());
        assert_eq!(left[0].value.is_some(), matches, "{} {}", value, pattern);
    }
}

#[test]
fn without_criteria_nothing_changes() {
    let filter = filter_for("bid", AlloyFilterCriteria::new(), &[]);
    let mut waiting = Waiting::new();
    let topic = "bid".to_string();
    let given = Some(vec![1, 2, 3]);
    assert_eq!(filter.filter_records_optimized(&topic, 0, given.clone(), &mut waiting), Ok(given));
    assert_eq!(filter.filter_records_optimized(&topic, 0, None, &mut waiting), Ok(None));
}

#[test]
fn what_holds_no_records_is_left_out() {
    let mut criteria = AlloyFilterCriteria::new();
    criteria.selections = vec![selection("a", "1")];
    let filter = filter_for("bid", criteria, &[]);
    let left = filter.filter_records_optimized(
        &"bid".to_string(),
        0,
        Some(vec![1, 2, 3]),
        &mut Waiting::new(),
    );
    assert_eq!(left, Ok(None));
}

fn partitioned() -> AlloyFilterCriteria {
    let mut criteria = AlloyFilterCriteria::new();
    criteria.num_sources = 3;
    criteria.num_partitions = 2;
    criteria.partition =
        vec![Field { attribute: "id".to_string(), field_type: FieldType::Integer }];
    criteria
}

fn knowing(mut filter: AlloyFilter) -> AlloyFilter {
    for vp in 0..6 {
        filter.map_split_id.insert(("bid".to_string(), vp), get_split_owner("bid", vp, 3));
    }
    filter
}

#[test]
fn every_event_goes_to_the_source_that_has_its_slot() {
    let filter = knowing(filter_for("bid", partitioned(), &[("remove_empty_records", "no")]));
    let asked = 3;
    let siblings = filter
        .bimap_virtual_origin
        .get(&"bid".to_string())
        .unwrap()
        .get_virtuals_by_original(1)
        .unwrap()
        .clone();
    assert_eq!(siblings, vec![1, 3, 5]);
    let records: Vec<Record> = (0..40)
        .map(|i| record(i, Some("k"), Some(&format!("{{\"id\":{}}}", i))))
        .collect();
    let mut waiting = Waiting::new();
    let left = filtered(&filter, asked, records, &mut waiting);
    assert_eq!(left.len(), 40);
    for i in 0..40i64 {
        let slot = get_keygroup_slot(&[JavaHashValue::Integer(i as i32)], 3, 128);
        let owner = siblings.iter().find(|vp| get_split_owner("bid", **vp, 3) == slot).unwrap();
        let there = |vp: i32| {
            if vp == asked {
                left[i as usize].value.is_some()
            } else {
                waiting
                    .get(&("bid".to_string(), vp))
                    .map_or(false, |list| list.iter().any(|r| r.offset == i && r.value.is_some()))
            }
        };
        for vp in &siblings {
            assert_eq!(there(*vp), vp == owner, "record {} at {}", i, vp);
        }
    }
    for vp in [1, 5] {
        let list = waiting.get(&("bid".to_string(), vp)).unwrap();
        assert!(list.windows(2).all(|w| w[0].offset < w[1].offset));
    }
}

#[test]
fn events_wait_behind_those_that_came_before() {
    let filter = knowing(filter_for("bid", partitioned(), &[]));
    let mut waiting = Waiting::new();
    waiting.insert(("bid".to_string(), 1), vec![record(-1, None, Some("old"))]);
    let ids: Vec<i64> = (0..40)
        .filter(|i| {
            get_keygroup_slot(&[JavaHashValue::Integer(*i as i32)], 3, 128)
                == get_split_owner("bid", 1, 3)
        })
        .collect();
    let records = ids
        .iter()
        .map(|i| record(*i, None, Some(&format!("{{\"id\":{}}}", i))))
        .collect();
    filtered(&filter, 3, records, &mut waiting);
    let mut expected = vec![-1];
    expected.extend_from_slice(&ids);
    let got: Vec<i64> =
        waiting.get(&("bid".to_string(), 1)).unwrap().iter().map(|r| r.offset).collect();
    assert_eq!(got, expected);
    let markers = waiting.get(&("bid".to_string(), 5)).unwrap();
    assert_eq!(markers.len(), 1);
    assert_eq!(Some(&markers[0].offset), ids.last());
    assert_eq!((markers[0].key.clone(), markers[0].value.clone()), (None, None));
}

#[test]
fn what_cannot_be_filtered_is_an_error() {
    let error = |filter: &AlloyFilter, topic: &str, asked: i32, value: &str| {
        let bytes = encode_records(vec![record(1, None, Some(value))]).unwrap();
        filter
            .filter_records_optimized(&topic.to_string(), asked, Some(bytes), &mut Waiting::new())
            .err()
    };
    let filter = filter_for("bid", partitioned(), &[]);
    assert_eq!(error(&filter, "other", 0, "{}"), Some(FilterError::UnknownTopic));
    assert_eq!(error(&filter, "bid", 6, "{}"), Some(FilterError::UnknownPartition));
    assert_eq!(error(&filter, "bid", 0, "{"), Some(FilterError::BadJson));
    assert_eq!(error(&filter, "bid", 0, "{}"), Some(FilterError::UnknownSplit));
    let filter = knowing(filter_for("bid", partitioned(), &[("max_parallelism", "0")]));
    assert_eq!(error(&filter, "bid", 0, "{}"), Some(FilterError::SlotOverflow));
}
