use alloy::batches::decode_records;
use alloy::batches::encode_records;
use alloy::batches::Record;
use alloy::codec::FetchMessage;
use alloy::criteria::AlloyFilterCriteria;
use alloy::criteria::Field;
use alloy::criteria::FieldType;
use alloy::data::ConnectionInfo;
use alloy::fetching::FetchAssembly;
use alloy::fetching::Popped;
use alloy::filter::AlloyFilter;
use alloy::filter::FilterError;
use alloy::hashing::get_split_owner;
use alloy::kafka::KafkaError;
use alloy::kafka::KafkaRoutingProtocol;
use alloy::maps::KeyedMap;
use alloy::root::AlloyRootFilter;
use alloy::routing::RouteError;
use alloy::routing::RoutingConfiguration;
use alloy::upstream::UpstreamOutcome;
use kafka_protocol::messages::fetch_response::FetchableTopicResponse;
use kafka_protocol::messages::fetch_response::PartitionData;
use kafka_protocol::messages::list_offsets_request::ListOffsetsPartition;
use kafka_protocol::messages::list_offsets_request::ListOffsetsTopic;
use kafka_protocol::messages::list_offsets_response::ListOffsetsPartitionResponse;
use kafka_protocol::messages::list_offsets_response::ListOffsetsTopicResponse;
use kafka_protocol::messages::metadata_response::MetadataResponsePartition;
use kafka_protocol::messages::metadata_response::MetadataResponseTopic;
use kafka_protocol::messages::TopicName;
use kafka_protocol::protocol::Decodable;
use kafka_protocol::protocol::Encodable;
use kafka_protocol::protocol::StrBytes;
use std::collections::HashMap;
use std::io::Cursor;

type Contexts = HashMap<u32, ConnectionInfo>;

fn topic(name: &str) -> TopicName {
    let name: StrBytes = string::TryFrom::try_from(bytes::Bytes::from(name.to_string())).unwrap();
    TopicName(name)
}

fn written<T: Encodable>(message: T, version: i16) -> Vec<u8> {
    let mut bytes = bytes::BytesMut::new();
    message.encode(&mut bytes, version).unwrap();
    bytes.to_vec()
}

fn request<T: Encodable>(key: i16, version: i16, header_version: i16, message: T) -> Vec<u8> {
    let mut header = kafka_protocol::messages::RequestHeader::default();
    header.request_api_key = key;
    header.request_api_version = version;
    header.correlation_id = 77;
    KafkaRoutingProtocol::encode(written(header, header_version), written(message, version))
}

fn response<T: Encodable>(version: i16, message: T) -> Vec<u8> {
    let mut header = kafka_protocol::messages::ResponseHeader::default();
    header.correlation_id = 77;
    KafkaRoutingProtocol::encode(written(header, 1), written(message, version))
}

/// The header and the body of a message that goes to a client.
fn read_response<T: Decodable>(bytes: &Vec<u8>, version: i16) -> (i32, T) {
    let mut buf = Cursor::new(bytes);
    buf.set_position(4);
    let header = kafka_protocol::messages::ResponseHeader::decode(&mut buf, 1).unwrap();
    let body = T::decode(&mut buf, version).unwrap();
    assert_eq!(buf.position() as usize, bytes.len());
    assert_eq!(u32::from_be_bytes([bytes[0], bytes[1], bytes[2], bytes[3]]) as usize, bytes.len() - 4);
    (header.correlation_id, body)
}

/// The header and the body of a message that goes to a broker.
fn read_request<T: Decodable>(bytes: &Vec<u8>) -> (kafka_protocol::messages::RequestHeader, T) {
    let mut buf = Cursor::new(bytes);
    buf.set_position(4);
    let header = kafka_protocol::messages::RequestHeader::decode(&mut buf, 2).unwrap();
    let body = T::decode(&mut buf, header.request_api_version).unwrap();
    assert_eq!(buf.position() as usize, bytes.len());
    (header, body)
}

fn filter_with(criteria: AlloyFilterCriteria, settings: &[(&str, &str)]) -> AlloyFilter {
    let mut additional = KeyedMap::new();
    for (name, value) in settings {
        additional.insert(name.to_string(), value.to_string());
    }
    let mut configuration = RoutingConfiguration::new();
    configuration.workload_type = Some("kafka-alloy".to_string());
    configuration.default_cluster = Some("edge".to_string());
    configuration.additional_configuration = Some(additional);
    let mut map = KeyedMap::new();
    map.insert("bid".to_string(), criteria);
    let root = AlloyRootFilter::new(1, "root".to_string());
    match root.create_stream_context(9, configuration, Some(map)) {
        Ok(filter) => filter,
        Err(e) => panic!("{:?}", e),
    }
}

fn criteria() -> AlloyFilterCriteria {
    let mut criteria = AlloyFilterCriteria::new();
    criteria.num_sources = 2;
    criteria.num_partitions = 2;
    criteria.partition =
        vec![Field { attribute: "id".to_string(), field_type: FieldType::Integer }];
    criteria
}

fn filter() -> AlloyFilter {
    filter_with(criteria(), &[("fetch_min_bytes_virtual_partition", "0")])
}

fn knowing(mut filter: AlloyFilter) -> AlloyFilter {
    for vp in 0..4 {
        filter.map_split_id.insert(("bid".to_string(), vp), get_split_owner("bid", vp, 2));
    }
    filter
}

fn record(offset: i64, value: &str) -> Record {
    Record {
        transactional: false,
        control: false,
        partition_leader_epoch: 0,
        producer_id: -1,
        producer_epoch: -1,
        log_append_time: false,
        offset,
        sequence: offset as i32,
        timestamp: 1000,
        key: None,
        value: Some(value.as_bytes().to_vec()),
        headers: vec![],
    }
}

fn metadata_request() -> Vec<u8> {
    request(3, 9, 2, kafka_protocol::messages::MetadataRequest::default())
}

fn metadata_response(name: &str, partitions: &[i32]) -> Vec<u8> {
    let mut t = MetadataResponseTopic::default();
    t.partitions = partitions
        .iter()
        .map(|p| {
            let mut q = MetadataResponsePartition::default();
            q.partition_index = *p;
            q.leader_epoch = 100 + *p;
            q
        })
        .collect();
    let mut message = kafka_protocol::messages::MetadataResponse::default();
    message.topics.insert(topic(name), t);
    response(9, message)
}

fn offsets_request(name: &str, partitions: &[i32]) -> Vec<u8> {
    let mut t = ListOffsetsTopic::default();
    t.name = topic(name);
    t.partitions = partitions
        .iter()
        .map(|p| {
            let mut q = ListOffsetsPartition::default();
            q.partition_index = *p;
            q.timestamp = -2;
            q
        })
        .collect();
    let mut message = kafka_protocol::messages::ListOffsetsRequest::default();
    message.topics = vec![t];
    request(2, 7, 2, message)
}

fn offsets_response(name: &str, offsets: &[(i32, i64)]) -> Vec<u8> {
    let mut t = ListOffsetsTopicResponse::default();
    t.name = topic(name);
    t.partitions = offsets
        .iter()
        .map(|(p, offset)| {
            let mut q = ListOffsetsPartitionResponse::default();
            q.partition_index = *p;
            q.offset = *offset;
            q
        })
        .collect();
    let mut message = kafka_protocol::messages::ListOffsetsResponse::default();
    message.topics = vec![t];
    response(7, message)
}

fn fetch_request(name: &str, partitions: &[(i32, i64)]) -> Vec<u8> {
    let mut t = kafka_protocol::messages::fetch_request::FetchTopic::default();
    t.topic = topic(name);
    t.partitions = partitions
        .iter()
        .map(|(p, offset)| {
            let mut q = kafka_protocol::messages::fetch_request::FetchPartition::default();
            q.partition = *p;
            q.fetch_offset = *offset;
            q
        })
        .collect();
    let mut message = kafka_protocol::messages::FetchRequest::default();
    message.session_id = 5;
    message.session_epoch = 6;
    message.isolation_level = 1;
    message.topics = vec![t];
    request(1, 12, 2, message)
}

fn fetch_response(name: &str, session_id: i32, partitions: Vec<(i32, Vec<Record>)>) -> Vec<u8> {
    let mut t = FetchableTopicResponse::default();
    t.topic = topic(name);
    t.partitions = partitions
        .into_iter()
        .map(|(p, records)| {
            let mut q = PartitionData::default();
            q.partition_index = p;
            q.high_watermark = 1234;
            q.records = Some(bytes::Bytes::from(encode_records(records).unwrap()));
            q
        })
        .collect();
    let mut message = kafka_protocol::messages::FetchResponse::default();
    message.session_id = session_id;
    message.responses = vec![t];
    response(12, message)
}

fn down(filter: &mut AlloyFilter, bytes: Vec<u8>, contexts: &mut Contexts) -> Result<(Vec<u8>, bool, Vec<String>), FilterError> {
    let outcome = filter.on_downstream_data(Some(bytes), contexts, 1_000)?;
    Ok((outcome.replacement.unwrap(), outcome.pause, outcome.queues))
}

fn up(filter: &mut AlloyFilter, bytes: Vec<u8>, contexts: &mut Contexts) -> Result<UpstreamOutcome, FilterError> {
    let size = bytes.len();
    filter.on_upstream_data(Some(bytes), size, contexts)
}

fn replaced(outcome: UpstreamOutcome) -> (usize, Vec<u8>) {
    match outcome {
        UpstreamOutcome::Replace { size, payload } => (size, payload),
        _ => panic!("not replaced"),
    }
}

#[test]
fn clients_are_told_of_virtual_partitions() {
    let mut filter = filter();
    let mut contexts = Contexts::new();
    let asked = metadata_request();
    let (sent, pause, queues) = down(&mut filter, asked.clone(), &mut contexts).unwrap();
    assert_eq!((sent, pause, queues.len()), (asked, false, 0));
    let came = metadata_response("bid", &[0, 1]);
    let (size, payload) = replaced(up(&mut filter, came.clone(), &mut contexts).unwrap());
    assert_eq!(size, came.len());
    let (id, told): (i32, kafka_protocol::messages::MetadataResponse) = read_response(&payload, 9);
    assert_eq!(id, 77);
    let partitions: Vec<(i32, i32)> = told.topics[&topic("bid")]
        .partitions
        .iter()
        .map(|p| (p.partition_index, p.leader_epoch))
        .collect();
    assert_eq!(partitions, vec![(0, 100), (1, 101), (0, 100), (3, 100), (1, 101), (2, 101)]);
}

#[test]
fn metadata_of_unknown_partitions_is_an_error() {
    for (name, partition, error) in [
        ("other", 0, FilterError::UnknownTopic),
        ("bid", 2, FilterError::UnknownPartition),
    ] {
        let mut filter = filter();
        let mut contexts = Contexts::new();
        down(&mut filter, metadata_request(), &mut contexts).unwrap();
        let came = metadata_response(name, &[partition]);
        assert_eq!(up(&mut filter, came, &mut contexts).err(), Some(error));
    }
}

#[test]
fn offsets_of_virtual_partitions_are_those_of_their_original_ones() {
    let mut filter = filter();
    let mut contexts = Contexts::new();
    let (sent, pause, _) =
        down(&mut filter, offsets_request("bid", &[3, 2, 0]), &mut contexts).unwrap();
    assert!(!pause);
    let (header, asked): (_, kafka_protocol::messages::ListOffsetsRequest) = read_request(&sent);
    assert_eq!((header.request_api_key, header.correlation_id), (2, 77));
    let partitions: Vec<(i32, i64)> =
        asked.topics[0].partitions.iter().map(|p| (p.partition_index, p.timestamp)).collect();
    assert_eq!(partitions, vec![(0, -2), (1, -2), (0, -2)]);

    let came = offsets_response("bid", &[(0, 55), (1, 66)]);
    let (size, payload) = replaced(up(&mut filter, came, &mut contexts).unwrap());
    assert_eq!(size, payload.len());
    let (_, told): (_, kafka_protocol::messages::ListOffsetsResponse) = read_response(&payload, 7);
    let partitions: Vec<(i32, i64)> =
        told.topics[0].partitions.iter().map(|p| (p.partition_index, p.offset)).collect();
    assert_eq!(partitions, vec![(3, 55), (2, 66), (0, 55)]);
    for vp in 0..4 {
        let owner = get_split_owner("bid", vp, 2);
        assert_eq!(filter.map_split_id.get(&("bid".to_string(), vp)), Some(&owner));
        assert_eq!(filter.map_index_query_partition.get(&("bid".to_string(), vp)), Some(&0));
    }
}

#[test]
fn offsets_of_topics_without_criteria_are_asked_as_they_are() {
    let mut filter = filter();
    let mut contexts = Contexts::new();
    let asked = offsets_request("other", &[3]);
    let (sent, _, _) = down(&mut filter, asked.clone(), &mut contexts).unwrap();
    assert_eq!(sent, asked);
    let came = offsets_response("other", &[(3, 1)]);
    assert_eq!(up(&mut filter, came, &mut contexts).err(), Some(FilterError::UnknownTopic));
}

#[test]
fn offsets_that_cannot_be_told_are_errors() {
    let mut contexts = Contexts::new();
    let mut asking = filter();
    assert_eq!(
        down(&mut asking, offsets_request("bid", &[4]), &mut contexts).err(),
        Some(FilterError::UnknownPartition)
    );
    let mut asking = filter();
    down(&mut asking, offsets_request("bid", &[3]), &mut contexts).unwrap();
    let came = offsets_response("bid", &[(1, 1)]);
    assert_eq!(up(&mut asking, came, &mut contexts).err(), Some(FilterError::UnknownPartition));
    let mut many = criteria();
    many.num_sources = 0x7fff_ffff;
    many.num_partitions = 2;
    many.partition = vec![];
    let mut asking = filter_with(many, &[]);
    down(&mut asking, offsets_request("bid", &[0]), &mut contexts).unwrap();
    let came = offsets_response("bid", &[(0, 1)]);
    assert_eq!(up(&mut asking, came, &mut contexts).err(), Some(FilterError::TooManyPartitions));
}

#[test]
fn original_partitions_are_fetched() {
    let mut filter = knowing(filter());
    let mut contexts = Contexts::new();
    let asked = fetch_request("bid", &[(0, 10)]);
    let (sent, pause, queues) = down(&mut filter, asked.clone(), &mut contexts).unwrap();
    assert_eq!((sent, pause), (asked, false));
    assert_eq!(queues, vec!["bid-0", "bid-3"]);
    assert!(contexts.is_empty());
}

fn complete(filter: &mut AlloyFilter, mut assembly: FetchAssembly, mut popped: Vec<Option<Popped>>) -> (Vec<u8>, Vec<(i32, i64)>) {
    let request = filter.origin_fetch_request.take().unwrap();
    let mut missing = vec![];
    while let Some(partition) = assembly.advance(&request) {
        missing.push((partition.partition, partition.fetch_offset));
        assembly.supply(&request, popped.remove(0)).unwrap();
    }
    filter.origin_fetch_request = Some(request);
    let message: FetchMessage = assembly.message;
    (filter.finish_fetch(message).unwrap(), missing)
}

#[test]
fn fetched_records_are_dealt_out() {
    let mut filter = knowing(filter());
    filter.map_queue_vp.insert("bid-3".to_string(), 17);
    let mut contexts = Contexts::new();
    down(&mut filter, fetch_request("bid", &[(0, 10)]), &mut contexts).unwrap();
    let records: Vec<Record> = (0..20).map(|i| record(i, &format!("{{\"id\":{}}}", i))).collect();
    let came = fetch_response("bid", 8, vec![(0, records)]);
    let (assembly, deliveries) = match up(&mut filter, came, &mut contexts).unwrap() {
        UpstreamOutcome::Fetched { assembly, deliveries } => (assembly, deliveries),
        _ => panic!("not fetched"),
    };
    assert_eq!(filter.session_id, 8);
    assert_eq!(deliveries.len(), 1);
    assert_eq!(deliveries[0].queue_id, Some(17));
    assert_eq!(deliveries[0].key, "bid-3-10");
    assert_eq!((deliveries[0].data.partition, deliveries[0].data.fetch_offset), (3, 10));
    assert_eq!(deliveries[0].data.session_id, 8);
    let moved = decode_records(&deliveries[0].data.records);
    let (payload, missing) = complete(&mut filter, assembly, vec![]);
    assert!(missing.is_empty());
    let (_, told): (_, kafka_protocol::messages::FetchResponse) = read_response(&payload, 12);
    assert_eq!(told.session_id, 5);
    assert_eq!(told.responses[0].partitions[0].partition_index, 0);
    assert_eq!(told.responses[0].partitions[0].high_watermark, 1234);
    let kept = decode_records(&told.responses[0].partitions[0].records.clone().unwrap().to_vec());
    let mut all: Vec<i64> = kept.iter().chain(moved.iter()).map(|r| r.offset).collect();
    all.sort();
    all.dedup();
    assert_eq!(all, (0..20).collect::<Vec<i64>>());
    assert!(!kept.is_empty() && !moved.is_empty());
}

#[test]
fn few_records_wait() {
    let mut filter = knowing(filter_with(criteria(), &[]));
    let mut contexts = Contexts::new();
    down(&mut filter, fetch_request("bid", &[(0, 10)]), &mut contexts).unwrap();
    let records: Vec<Record> = (0..20).map(|i| record(i, &format!("{{\"id\":{}}}", i))).collect();
    let came = fetch_response("bid", 8, vec![(0, records)]);
    match up(&mut filter, came, &mut contexts).unwrap() {
        UpstreamOutcome::Fetched { deliveries, .. } => assert!(deliveries.is_empty()),
        _ => panic!("not fetched"),
    }
    assert!(!filter.map_vp_records.get(&("bid".to_string(), 3)).unwrap().is_empty());
}

#[test]
fn a_fetch_of_virtual_partitions_waits() {
    let mut filter = knowing(filter());
    let mut contexts = Contexts::new();
    let (sent, pause, queues) =
        down(&mut filter, fetch_request("bid", &[(3, 10), (1, 11), (2, 12)]), &mut contexts).unwrap();
    assert!(pause);
    assert_eq!(queues, vec!["bid-1", "bid-2"]);
    let (header, asked): (_, kafka_protocol::messages::ListOffsetsRequest) = read_request(&sent);
    assert_eq!((header.request_api_key, header.request_api_version), (2, 7));
    assert_eq!(header.correlation_id, 77);
    assert_eq!(asked.isolation_level, 1);
    assert_eq!(asked.topics[0].name, topic("bid"));
    assert_eq!(asked.topics[0].partitions[0].partition_index, 0);
    let waiting = &contexts[&9];
    assert_eq!((waiting.response_initial_time, waiting.timeout), (1_000, false));
    assert_eq!(waiting.request_data.correlation_id, 77);
    assert_eq!((waiting.request_data.session_id, waiting.request_data.session_epoch), (5, 6));
    assert_eq!(waiting.request_data.body_version, 12);
    let partitions: Vec<(i32, i64)> = waiting
        .request_data
        .partitions
        .iter()
        .map(|p| (p.partition, p.fetch_offset))
        .collect();
    assert_eq!(partitions, vec![(3, 10), (2, 12)]);

    let came = offsets_response("bid", &[(0, 1)]);
    let (size, payload) = replaced(up(&mut filter, came.clone(), &mut contexts).unwrap());
    assert_eq!(size, came.len());
    let (id, told): (_, kafka_protocol::messages::FetchResponse) = read_response(&payload, 12);
    assert_eq!((id, told.session_id), (77, 0));
    let empty: Vec<i32> = told.responses[0].partitions.iter().map(|p| p.partition_index).collect();
    assert_eq!(empty, vec![3, 1, 2]);
    assert!(contexts.is_empty());
}

#[test]
fn a_fetch_that_waits_gets_the_response_that_was_made_for_it() {
    let mut filter = knowing(filter());
    let mut contexts = Contexts::new();
    down(&mut filter, fetch_request("bid", &[(3, 10)]), &mut contexts).unwrap();
    contexts.get_mut(&9).unwrap().response_data = Some(vec![1, 2, 3]);
    let came = offsets_response("bid", &[(0, 1)]);
    let (_, payload) = replaced(up(&mut filter, came, &mut contexts).unwrap());
    assert_eq!(payload, vec![1, 2, 3]);
    assert!(contexts.is_empty());
}

#[test]
fn a_connection_that_is_gone_waits_no_more() {
    let mut filter = knowing(filter());
    let mut contexts = Contexts::new();
    down(&mut filter, fetch_request("bid", &[(3, 10)]), &mut contexts).unwrap();
    filter.on_downstream_close(&mut contexts);
    assert!(contexts.is_empty());
    down(&mut filter, fetch_request("bid", &[(3, 10)]), &mut contexts).unwrap();
    filter.on_upstream_close(&mut contexts);
    assert!(contexts.is_empty());
}

#[test]
fn missing_partitions_come_from_other_contexts() {
    let mut filter = knowing(filter());
    let mut contexts = Contexts::new();
    down(&mut filter, fetch_request("bid", &[(0, 10), (1, 20)]), &mut contexts).unwrap();
    let came = fetch_response("bid", 0, vec![(0, vec![record(1, "{\"id\":1}")])]);
    let assembly = match up(&mut filter, came.clone(), &mut contexts).unwrap() {
        UpstreamOutcome::Fetched { assembly, .. } => assembly,
        _ => panic!("not fetched"),
    };
    let (payload, missing) = complete(&mut filter, assembly, vec![None]);
    assert_eq!(missing, vec![(1, 20)]);
    let (_, told): (_, kafka_protocol::messages::FetchResponse) = read_response(&payload, 12);
    assert_eq!(told.responses.len(), 3);
    let absent = &told.responses[1].partitions[0];
    assert_eq!((absent.partition_index, absent.high_watermark), (1, 20));
    assert_eq!((absent.last_stable_offset, absent.log_start_offset), (20, 0));
    assert!(absent.aborted_transactions.is_none() && absent.records.is_none());
    assert!(told.responses[2].partitions.is_empty());

    let mut filter = knowing(self::filter());
    down(&mut filter, fetch_request("bid", &[(0, 10), (1, 20)]), &mut contexts).unwrap();
    let assembly = match up(&mut filter, came, &mut contexts).unwrap() {
        UpstreamOutcome::Fetched { assembly, .. } => assembly,
        _ => panic!("not fetched"),
    };
    let mut kept = PartitionData::default();
    kept.partition_index = 1;
    kept.error_code = 3;
    kept.unknown_tagged_fields.insert(4, vec![2, 1, 0, 0]);
    let mut left = vec![0, 0, 0, 9, 0, 0, 0, 1];
    left.extend_from_slice(&written(kept, 12));
    let popped = alloy::fetching::read_shared_partition(&left, 12).unwrap();
    let (payload, _) = complete(&mut filter, assembly, vec![Some(popped)]);
    let (_, told): (_, kafka_protocol::messages::FetchResponse) = read_response(&payload, 12);
    assert_eq!(told.session_id, 0x102);
    assert_eq!(told.responses[1].partitions[0].error_code, 3);
}

#[test]
fn a_session_that_is_cut_is_an_error() {
    let mut filter = knowing(filter());
    let mut contexts = Contexts::new();
    down(&mut filter, fetch_request("bid", &[(0, 10), (1, 20)]), &mut contexts).unwrap();
    let came = fetch_response("bid", 0, vec![(0, vec![record(1, "{\"id\":1}")])]);
    let mut assembly = match up(&mut filter, came, &mut contexts).unwrap() {
        UpstreamOutcome::Fetched { assembly, .. } => assembly,
        _ => panic!("not fetched"),
    };
    let request = filter.origin_fetch_request.take().unwrap();
    assert!(assembly.advance(&request).is_some());
    let mut kept = PartitionData::default();
    kept.unknown_tagged_fields.insert(4, vec![1]);
    let mut left = vec![0; 8];
    left.extend_from_slice(&written(kept, 12));
    let popped = alloy::fetching::read_shared_partition(&left, 12).unwrap();
    assert_eq!(assembly.supply(&request, Some(popped)), Err(FilterError::BadSharedData));
}

#[test]
fn other_requests_and_responses_go_through_unchanged() {
    let mut filter = filter();
    let mut contexts = Contexts::new();
    let asked = request(12, 4, 2, kafka_protocol::messages::HeartbeatRequest::default());
    let (sent, pause, _) = down(&mut filter, asked.clone(), &mut contexts).unwrap();
    assert_eq!((sent, pause), (asked, false));
    let came = response(4, kafka_protocol::messages::HeartbeatResponse::default());
    assert!(matches!(up(&mut filter, came, &mut contexts), Ok(UpstreamOutcome::Keep)));
}

#[test]
fn a_response_in_pieces_is_held_back() {
    let mut filter = filter();
    let mut contexts = Contexts::new();
    down(&mut filter, metadata_request(), &mut contexts).unwrap();
    let came = metadata_response("bid", &[0]);
    let (size, payload) = replaced(up(&mut filter, came[..10].to_vec(), &mut contexts).unwrap());
    assert_eq!((size, payload.len()), (10, 0));
    let (_, payload) = replaced(up(&mut filter, came[10..].to_vec(), &mut contexts).unwrap());
    let (_, told): (_, kafka_protocol::messages::MetadataResponse) = read_response(&payload, 9);
    assert_eq!(told.topics[&topic("bid")].partitions.len(), 3);
}

#[test]
fn nothing_is_done_without_bytes_or_with_two_requests_at_once() {
    let mut filter = filter();
    let mut contexts = Contexts::new();
    let outcome = filter.on_downstream_data(None, &mut contexts, 0).unwrap();
    assert!(outcome.replacement.is_none() && !outcome.pause);
    assert!(matches!(filter.on_upstream_data(None, 0, &mut contexts), Ok(UpstreamOutcome::Keep)));
    let mut both = metadata_request();
    both.extend_from_slice(&metadata_request());
    let outcome = filter.on_downstream_data(Some(both), &mut contexts, 0).unwrap();
    assert!(outcome.replacement.is_none() && !outcome.pause);
}

#[test]
fn what_cannot_be_routed_is_an_error() {
    let mut contexts = Contexts::new();
    let mut error = |bytes: Vec<u8>| down(&mut filter(), bytes, &mut contexts).err();
    assert_eq!(error(vec![0, 0, 0]), Some(FilterError::Unroutable));
    assert_eq!(error(vec![0, 0, 0, 4, 0, 99, 0, 0]), Some(FilterError::Unroutable));
    assert_eq!(error(vec![0, 0, 0, 9, 0]), Some(FilterError::Route(RouteError::Incomplete)));
    let mut cut = fetch_request("bid", &[(0, 0)]);
    cut.truncate(30);
    cut[3] = 26;
    assert_eq!(error(cut), Some(FilterError::Kafka(KafkaError::BadBody)));
    assert_eq!(error(fetch_request("other", &[(0, 0)])), Some(FilterError::UnknownTopic));
    assert_eq!(error(fetch_request("bid", &[(9, 0)])), Some(FilterError::UnknownPartition));
    assert_eq!(error(fetch_request("bid", &[])), Some(FilterError::EmptyFetch));
    let mut nowhere = filter();
    nowhere.routing_table.default_cluster = None;
    assert_eq!(
        down(&mut nowhere, metadata_request(), &mut contexts).err(),
        Some(FilterError::NoRoute)
    );
    assert_eq!(
        up(&mut filter(), vec![0, 0, 0, 0], &mut contexts).err(),
        Some(FilterError::Unexpected)
    );
    let mut forgetful = filter();
    down(&mut forgetful, metadata_request(), &mut contexts).unwrap();
    forgetful.routing_table.origin_request = None;
    assert_eq!(
        up(&mut forgetful, metadata_response("bid", &[0]), &mut contexts).err(),
        Some(FilterError::NoRequest)
    );
}

#[test]
fn records_that_are_too_far_apart_are_an_error() {
    let mut filter = knowing(filter());
    filter.map_vp_records.insert(
        ("bid".to_string(), 3),
        vec![record(i64::MIN, "old"), record(0, "new")],
    );
    let mut contexts = Contexts::new();
    down(&mut filter, fetch_request("bid", &[(0, 10)]), &mut contexts).unwrap();
    let came = fetch_response("bid", 8, vec![(0, vec![record(1, "{\"id\":1}")])]);
    assert_eq!(up(&mut filter, came, &mut contexts).err(), Some(FilterError::TooFarApart));
}

#[test]
fn another_protocol_goes_through_unchanged() {
    let mut configuration = RoutingConfiguration::new();
    configuration.workload_type = Some("redis".to_string());
    configuration.default_cluster = Some("edge".to_string());
    let root = AlloyRootFilter::new(1, "root".to_string());
    let mut filter = match root.create_stream_context(9, configuration, None) {
        Ok(filter) => filter,
        Err(e) => panic!("{:?}", e),
    };
    let mut contexts = Contexts::new();
    let (sent, pause, _) = down(&mut filter, b"PING".to_vec(), &mut contexts).unwrap();
    assert_eq!((sent, pause), (b"PING".to_vec(), false));
    assert!(matches!(
        up(&mut filter, b"PONG".to_vec(), &mut contexts),
        Ok(UpstreamOutcome::Keep)
    ));
}
