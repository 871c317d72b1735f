use alloy::criteria::AlloyFilterCriteria;
use alloy::criteria::Field;
use alloy::criteria::FieldType;
use alloy::criteria::FilterEntry;
use alloy::data::ConnectionInfo;
use alloy::data::FetchRequestData;
use alloy::data::FetchRequestDataPartition;
use alloy::data::FetchResponseData;
use alloy::kafka::KafkaRoutingProtocol;
use alloy::kafka::Protocol;
use alloy::maps::KeyedMap;
use alloy::root::get_type;
use alloy::root::make_filter;
use alloy::root::AlloyRootFilter;
use alloy::root::CheckStep;
use alloy::root::ConfigurationError;
use alloy::root::ContextKind;
use alloy::root::ResponseCheck;
use alloy::root::SharedRecords;
use alloy::routing::DefaultRoutingProtocol;
use alloy::routing::RoutingConfiguration;
use alloy::routing::RoutingEntry;
use kafka_protocol::protocol::Decodable;
use std::io::Cursor;

fn root() -> AlloyRootFilter {
    AlloyRootFilter::new(1, "root".to_string())
}

fn data(topic: &str, partition: i32, records: &[u8]) -> FetchResponseData {
    FetchResponseData {
        session_id: 1,
        session_epoch: 2,
        topic: topic.to_string(),
        partition,
        fetch_offset: 0,
        records: records.to_vec(),
    }
}

fn request(partitions: &[(&str, i32, i64)]) -> FetchRequestData {
    FetchRequestData {
        context_id: 9,
        correlation_id: 77,
        session_id: 5,
        session_epoch: 6,
        body_version: 12,
        partitions: partitions
            .iter()
            .map(|(topic, partition, fetch_offset)| FetchRequestDataPartition {
                topic: topic.to_string(),
                partition: *partition,
                fetch_offset: *fetch_offset,
            })
            .collect(),
    }
}

fn waiting(request_data: FetchRequestData) -> ConnectionInfo {
    ConnectionInfo { response_initial_time: 1_000, timeout: false, request_data, response_data: None }
}

fn configuration(settings: &[(&str, &str)]) -> RoutingConfiguration {
    let mut additional = KeyedMap::new();
    for (name, value) in settings {
        additional.insert(name.to_string(), value.to_string());
    }
    let mut configuration = RoutingConfiguration::new();
    configuration.workload_type = Some("kafka-alloy".to_string());
    configuration.default_cluster = Some("edge".to_string());
    configuration.additional_configuration = Some(additional);
    configuration
}

fn only(topic: &str, criteria: AlloyFilterCriteria) -> Option<KeyedMap<String, AlloyFilterCriteria>> {
    let mut map = KeyedMap::new();
    map.insert(topic.to_string(), criteria);
    Some(map)
}

#[test]
fn a_fetch_is_answered_once_there_are_records_for_all_of_it() {
    let mut root = root();
    let mut connection = waiting(request(&[("bid", 3, 10), ("ask", 2, 11)]));
    root.add_response(data("bid", 3, &[1, 2]));
    assert!(!root.answer(&mut connection));
    assert!(connection.response_data.is_none());
    assert_eq!(root.generate_fetch_response(&connection.request_data), Err("not found"));
    root.add_response(data("ask", 2, &[9]));
    root.add_response(data("ask", 2, &[3]));
    assert!(root.answer(&mut connection));
    let payload = connection.response_data.clone().unwrap();
    let (context_id, same) = root.generate_fetch_response(&connection.request_data).unwrap();
    assert_eq!((context_id, &same), (9, &payload));

    let mut buf = Cursor::new(&payload);
    buf.set_position(4);
    let header = kafka_protocol::messages::ResponseHeader::decode(&mut buf, 1).unwrap();
    let message = kafka_protocol::messages::FetchResponse::decode(&mut buf, 12).unwrap();
    assert_eq!((header.correlation_id, message.error_code, message.session_id), (77, 0, 5));
    assert_eq!(message.responses.len(), 2);
    let parts: Vec<(String, i32, Vec<u8>)> = message
        .responses
        .iter()
        .map(|t| {
            let p = &t.partitions[0];
            (t.topic.to_string(), p.partition_index, p.records.clone().unwrap().to_vec())
        })
        .collect();
    assert_eq!(parts, vec![("bid".to_string(), 3, vec![1, 2]), ("ask".to_string(), 2, vec![3])]);
    assert_eq!(message.responses[0].partitions[0].last_stable_offset, -1);
}

#[test]
fn records_that_are_missing_are_looked_for() {
    let mut root = root();
    let connection = waiting(request(&[("bid", 3, 10), ("ask", 2, 11), ("bid", 4, 12)]));
    root.add_response(data("bid", 3, &[1]));
    let mut check = root.start_check(&connection).unwrap();
    assert_eq!(check, ResponseCheck { position: 0, full_request: true });
    let step = root.check_response(&mut check, &connection.request_data);
    assert!(matches!(step, CheckStep::LookUp(key) if key == "\"ask\"-2-11"));
    root.note_lookup(&mut check, SharedRecords::Found(data("ask", 2, &[2])));
    let step = root.check_response(&mut check, &connection.request_data);
    assert!(matches!(step, CheckStep::LookUp(key) if key == "\"bid\"-4-12"));
    root.note_lookup(&mut check, SharedRecords::Missing);
    let step = root.check_response(&mut check, &connection.request_data);
    assert!(matches!(step, CheckStep::Done(false)));
    assert!(root.map_responses.contains_key(&"ask-2".to_string()));

    let mut check = root.start_check(&connection).unwrap();
    root.check_response(&mut check, &connection.request_data);
    root.note_lookup(&mut check, SharedRecords::Unreadable);
    let step = root.check_response(&mut check, &connection.request_data);
    assert!(matches!(step, CheckStep::Done(true)));
}

#[test]
fn a_fetch_that_has_its_response_is_left_alone() {
    let mut connection = waiting(request(&[]));
    assert!(root().start_check(&connection).is_some());
    connection.response_data = Some(vec![]);
    assert!(root().start_check(&connection).is_none());
}

#[test]
fn queues_are_registered_once_and_late_fetches_go_on() {
    let mut root = root();
    let mut connection = waiting(request(&[("bid", 3, 10), ("bid", 4, 11)]));
    let tick = root.tick(&mut connection, 0, 1_000);
    assert_eq!((tick.register, tick.resume), (Some("bid-3".to_string()), false));
    root.note_queue(5, "bid-3".to_string());
    let tick = root.tick(&mut connection, 0, 1_001_000_999);
    assert_eq!((tick.register, tick.resume), (None, false));
    assert!(!connection.timeout);
    let tick = root.tick(&mut connection, 1, 1_001_001_000);
    assert_eq!((tick.register, tick.resume), (Some("bid-4".to_string()), true));
    assert!(connection.timeout);
}

#[test]
fn the_root_takes_over_its_settings() {
    let mut root = root();
    assert_eq!(root.fetch_max_wait_ms_virtual_partition, 1000);
    assert_eq!(root.configure(&configuration(&[])), Some(100));
    let given = configuration(&[
        ("period_virtual_partition", "7"),
        ("fetch_max_wait_ms_virtual_partition", "8"),
    ]);
    assert_eq!(root.configure(&given), Some(7));
    assert_eq!(root.fetch_max_wait_ms_virtual_partition, 8);
    assert_eq!(root.configure(&configuration(&[("period_virtual_partition", "x")])), None);
    assert_eq!(root.fetch_max_wait_ms_virtual_partition, 8);
}

#[test]
fn a_new_connection_has_a_filter() {
    let mut criteria = AlloyFilterCriteria::new();
    criteria.num_sources = 4;
    criteria.num_partitions = 3;
    criteria.selections = vec![
        FilterEntry { attribute: Some("a".to_string()), value: Some("x+".to_string()), value_regex: None },
        FilterEntry { attribute: Some("b".to_string()), value: None, value_regex: None },
    ];
    let mut given = configuration(&[("debug_protocol", "2"), ("max_parallelism", "64")]);
    given.type_proxy = Some("edge".to_string());
    let filter = match root().create_stream_context(9, given, only("bid", criteria)) {
        Ok(filter) => filter,
        Err(e) => panic!("{:?}", e),
    };
    assert_eq!(filter.context_id, 9);
    assert_eq!(filter.protocol, Protocol::Kafka(KafkaRoutingProtocol::new(2)));
    assert_eq!(filter.routing_table.layer, "edge");
    assert_eq!(filter.routing_table.clusters, vec!["edge"]);
    assert_eq!((filter.max_parallelism, filter.remove_empty_records), (64, true));
    assert_eq!(filter.fetch_min_bytes_virtual_partition, 1000000);
    assert_eq!((filter.session_id, filter.session_epoch, filter.correlation_id), (-1, -1, -1));
    let selections = &filter.map_alloy_filters.get(&"bid".to_string()).unwrap().selections;
    assert!(selections[0].value_regex.as_ref().unwrap().is_match(b"axx"));
    assert!(selections[1].value_regex.is_none());
    let table = filter.bimap_virtual_origin.get(&"bid".to_string()).unwrap();
    assert_eq!(table.get_virtuals_by_original(2), Some(&vec![2]));
    assert_eq!(table.get_original_by_virtual(3), None);
}

#[test]
fn a_partitioned_topic_has_virtual_partitions_for_every_source() {
    let mut criteria = AlloyFilterCriteria::new();
    criteria.num_sources = 2;
    criteria.num_partitions = 2;
    criteria.partition =
        vec![Field { attribute: "id".to_string(), field_type: FieldType::Long }];
    let filter = match root().create_stream_context(9, configuration(&[]), only("bid", criteria)) {
        Ok(filter) => filter,
        Err(e) => panic!("{:?}", e),
    };
    let table = filter.bimap_virtual_origin.get(&"bid".to_string()).unwrap();
    assert_eq!(table.get_virtuals_by_original(0), Some(&vec![0, 3]));
}

#[test]
fn a_workload_that_is_not_known_has_the_default_protocol() {
    let mut given = configuration(&[]);
    given.workload_type = Some("redis".to_string());
    let filter = match root().create_stream_context(9, given, None) {
        Ok(filter) => filter,
        Err(e) => panic!("{:?}", e),
    };
    assert_eq!(filter.protocol, Protocol::Default(DefaultRoutingProtocol::new()));
}

#[test]
fn configurations_that_cannot_be_used_are_refused() {
    let error = |given: RoutingConfiguration, criteria: AlloyFilterCriteria| {
        root().create_stream_context(9, given, only("bid", criteria)).err()
    };
    assert_eq!(
        error(configuration(&[("max_parallelism", "x")]), AlloyFilterCriteria::new()),
        Some(ConfigurationError::BadSetting)
    );
    let mut given = configuration(&[]);
    given.workload_type = None;
    assert_eq!(error(given, AlloyFilterCriteria::new()), Some(ConfigurationError::NoWorkload));
    let mut many = AlloyFilterCriteria::new();
    many.num_sources = 0x7fff_ffff;
    many.num_partitions = 2;
    assert_eq!(error(configuration(&[]), many.clone()), None);
    many.partition = vec![Field { attribute: "id".to_string(), field_type: FieldType::Long }];
    assert_eq!(error(configuration(&[]), many), Some(ConfigurationError::TooManyPartitions));
    let mut wrong = AlloyFilterCriteria::new();
    wrong.selections =
        vec![FilterEntry { attribute: None, value: Some("(".to_string()), value_regex: None }];
    assert_eq!(
        error(configuration(&[]), wrong),
        Some(ConfigurationError::BadPattern("(".to_string()))
    );
    let mut given = configuration(&[]);
    given.add_route(RoutingEntry {
        key: Some("[".to_string()),
        key_regex: None,
        value: None,
        value_regex: None,
        cluster: "c".to_string(),
    });
    assert_eq!(
        error(given, AlloyFilterCriteria::new()),
        Some(ConfigurationError::BadPattern("[".to_string()))
    );
}

#[test]
fn the_example_of_a_configuration_is_accepted() {
    let mut criteria = AlloyFilterCriteria::new();
    criteria.num_partitions = 4;
    criteria.num_sources = 4;
    criteria.projections =
        vec!["auction".to_string(), "bidder".to_string(), "dateTime".to_string()];
    criteria.selections = vec![FilterEntry {
        attribute: Some("category".to_string()),
        value: Some("10".to_string()),
        value_regex: None,
    }];
    let given = configuration(&[("debug_protocol", "0"), ("remove_empty_records", "true")]);
    assert!(root().create_stream_context(9, given, only("bid", criteria)).is_ok());
}

fn routed(key: &str, key_regex: Option<&str>) -> RoutingConfiguration {
    let mut given = configuration(&[]);
    given.add_route(RoutingEntry {
        key: Some(key.to_string()),
        key_regex: key_regex.map(|text| regex::bytes::Regex::new(text).unwrap()),
        value: None,
        value_regex: None,
        cluster: "c".to_string(),
    });
    given
}

fn selecting(values: &[(&str, Option<&str>)]) -> KeyedMap<String, AlloyFilterCriteria> {
    let mut criteria = AlloyFilterCriteria::new();
    criteria.selections = values
        .iter()
        .map(|(value, text)| FilterEntry {
            attribute: None,
            value: Some(value.to_string()),
            value_regex: text.map(|text| regex::bytes::Regex::new(text).unwrap()),
        })
        .collect();
    only("bid", criteria).unwrap()
}

#[test]
fn a_filter_is_made_exactly_where_every_pattern_was_compiled() {
    let whole = [("a+", Some("a+")), ("b", Some("b"))];
    let filter = match make_filter(9, routed("k.", Some("k.")), selecting(&whole)) {
        Ok(filter) => filter,
        Err(e) => panic!("{:?}", e),
    };
    assert!(filter.routing_table.vec[0].key_regex.as_ref().unwrap().is_match(b"kk"));
    let selections = &filter.map_alloy_filters.get(&"bid".to_string()).unwrap().selections;
    assert!(selections[0].value_regex.as_ref().unwrap().is_match(b"aa"));

    let error = |given: RoutingConfiguration, topics| make_filter(9, given, topics).err();
    let pattern = |text: &str| Some(ConfigurationError::BadPattern(text.to_string()));
    let part = [("a+", Some("a+")), ("b", None), ("c", None)];
    assert_eq!(error(routed("k.", Some("k.")), selecting(&part)), pattern("b"));
    assert_eq!(error(routed("k.", None), selecting(&part)), pattern("k."));
    let mut unset = routed("k.", None);
    unset.workload_type = None;
    assert_eq!(error(unset, selecting(&part)), Some(ConfigurationError::NoWorkload));
}

#[test]
fn a_complete_check_can_be_answered() {
    let mut root = root();
    let mut connection = waiting(request(&[("bid", 3, 10), ("ask", 2, 11), ("bid", 3, 12)]));
    let mut check = root.start_check(&connection).unwrap();
    let mut looked = vec![];
    let full = loop {
        match root.check_response(&mut check, &connection.request_data) {
            CheckStep::LookUp(key) => {
                let found = if looked.is_empty() { data("bid", 3, &[1]) } else { data("ask", 2, &[2]) };
                looked.push(key);
                root.note_lookup(&mut check, SharedRecords::Found(found));
            }
            CheckStep::Done(full) => break full,
        }
    };
    assert_eq!(looked, vec!["\"bid\"-3-10", "\"ask\"-2-11"]);
    assert!(full && root.answer(&mut connection));
}

#[test]
fn a_control_proxy_has_http_contexts() {
    let mut given = configuration(&[]);
    assert_eq!(get_type(&given), ContextKind::Stream);
    given.type_proxy = Some("control".to_string());
    assert_eq!(get_type(&given), ContextKind::Http);
    given.type_proxy = Some("edge".to_string());
    assert_eq!(get_type(&given), ContextKind::Stream);
}
