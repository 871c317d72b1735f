use alloy::kafka::api_key;
use alloy::kafka::ApiKey;
use alloy::kafka::KafkaError;
use alloy::kafka::KafkaRoutingProtocol;
use alloy::kafka::ReadRequest;
use alloy::kafka::ReadResponse;
use alloy::routing::RequestResponseKind;
use alloy::routing::RequestType;
use alloy::routing::RoutingProtocol;
use alloy::routing::RoutingTable;
use kafka_protocol::messages as m;
use kafka_protocol::messages::list_offsets_request::ListOffsetsPartition;
use kafka_protocol::messages::list_offsets_request::ListOffsetsTopic;
use kafka_protocol::messages::BrokerId;
use kafka_protocol::messages::RequestKind as OutsideRequest;
use kafka_protocol::messages::ResponseKind as OutsideResponse;
use kafka_protocol::messages::TopicName;
use kafka_protocol::protocol::Encodable;
use kafka_protocol::protocol::HeaderVersion;
use kafka_protocol::protocol::StrBytes;

const KEYS: [(i16, ApiKey, i16); 12] = [
    (0, ApiKey::ProduceKey, 9),
    (1, ApiKey::FetchKey, 12),
    (2, ApiKey::ListOffsetsKey, 6),
    (3, ApiKey::MetadataKey, 9),
    (8, ApiKey::OffsetCommitKey, 8),
    (9, ApiKey::OffsetFetchKey, 6),
    (10, ApiKey::FindCoordinatorKey, 3),
    (11, ApiKey::JoinGroupKey, 6),
    (12, ApiKey::HeartbeatKey, 4),
    (14, ApiKey::SyncGroupKey, 4),
    (18, ApiKey::ApiVersionsKey, 3),
    (22, ApiKey::InitProducerIdKey, 2),
];

fn topic(name: &str) -> TopicName {
    let name: StrBytes = string::TryFrom::try_from(bytes::Bytes::from(name.to_string())).unwrap();
    TopicName(name)
}

fn written<T: Encodable>(message: T, version: i16) -> Vec<u8> {
    let mut bytes = bytes::BytesMut::new();
    message.encode(&mut bytes, version).unwrap();
    bytes.to_vec()
}

fn request_header(key: i16, version: i16, header_version: i16) -> Vec<u8> {
    let mut header = kafka_protocol::messages::RequestHeader::default();
    header.request_api_key = key;
    header.request_api_version = version;
    header.correlation_id = 77;
    let id: StrBytes = string::TryFrom::try_from(bytes::Bytes::from("client")).unwrap();
    header.client_id = Some(id);
    written(header, header_version)
}

fn response_header(version: i16) -> Vec<u8> {
    let mut header = kafka_protocol::messages::ResponseHeader::default();
    header.correlation_id = 77;
    written(header, version)
}

#[test]
fn keys_are_found_by_their_numbers() {
    for (number, key, _) in KEYS {
        assert_eq!(api_key(number), Some(key));
    }
    for number in [-1, 4, 7, 13, 15, 17, 19, 21, 23, 100] {
        assert_eq!(api_key(number), None);
    }
}

#[test]
fn headers_have_tags_from_some_version_on() {
    let protocol = KafkaRoutingProtocol::default();
    for (_, key, since) in KEYS {
        assert_eq!(protocol.header_version(key, true, since - 1), 1);
        assert_eq!(protocol.header_version(key, true, since), 2);
        assert_eq!(protocol.header_version(key, false, since - 1), 0);
        let tagged = if key == ApiKey::ApiVersionsKey { 0 } else { 1 };
        assert_eq!(protocol.header_version(key, false, since), tagged);
    }
}

#[test]
fn messages_tell_their_length() {
    let protocol = KafkaRoutingProtocol::new(0);
    let message = KafkaRoutingProtocol::encode(vec![1, 2], vec![3]);
    assert_eq!(message, vec![0, 0, 0, 3, 1, 2, 3]);
    assert_eq!(protocol.payload_compare_size(true, &message), 0);
    assert_eq!(protocol.payload_compare_size(false, &message[..5].to_vec()), -2);
    let mut more = message.clone();
    more.extend_from_slice(&[9, 9]);
    assert_eq!(protocol.payload_compare_size(false, &more), 2);
}

#[test]
fn requests_are_told_apart() {
    let protocol = KafkaRoutingProtocol::new(0);
    let of = |key: i16| {
        let mut bytes = vec![0, 0, 0, 4];
        bytes.extend_from_slice(&key.to_be_bytes());
        bytes.extend_from_slice(&[0, 0]);
        protocol.request_response_type(&bytes)
    };
    for (number, key, _) in KEYS {
        let kind = match key {
            ApiKey::ApiVersionsKey | ApiKey::MetadataKey | ApiKey::HeartbeatKey => {
                RequestResponseKind::Local
            }
            ApiKey::SyncGroupKey => RequestResponseKind::System,
            _ => RequestResponseKind::Routable,
        };
        assert_eq!(of(number), (RequestType::RequestResponse, kind, kind));
    }
    assert_eq!(protocol.request_response_type(&vec![0, 0, 0, 4, 0]).0, RequestType::Incomplete);
    let table = RoutingTable::new();
    assert_eq!(
        protocol.response_type(&table, &vec![0, 0, 0, 1, 5]),
        RequestResponseKind::Routable
    );
    assert_eq!(
        protocol.response_type(&table, &vec![0, 0, 0, 2, 5]),
        RequestResponseKind::Incomplete
    );
}

#[test]
fn the_start_of_a_request_is_read() {
    let protocol = KafkaRoutingProtocol::new(0);
    let header = request_header(3, 9, 2);
    let length = header.len();
    let message = KafkaRoutingProtocol::encode(header, vec![0, 0, 0]);
    let (header, key, version, header_version, position) =
        protocol.get_request_information(&message).unwrap();
    assert_eq!((key, version, header_version), (ApiKey::MetadataKey, 9, 2));
    assert_eq!(position, 4 + length);
    assert_eq!(header.correlation_id, 77);
    assert_eq!(header.client_id, Some("client".to_string()));
    assert_eq!((header.request_api_key, header.request_api_version), (3, 9));
}

#[test]
fn what_is_no_request_is_refused() {
    let protocol = KafkaRoutingProtocol::new(0);
    let error = |bytes: Vec<u8>| protocol.decode_request(&bytes).err();
    assert_eq!(error(vec![0, 0, 0, 0, 0, 1, 0]), Some(KafkaError::TooShort));
    assert_eq!(error(vec![0, 0, 0, 4, 0, 99, 0, 0]), Some(KafkaError::UnknownApiKey));
    assert_eq!(error(vec![0, 0, 0, 4, 0, 3, 0, 9]), Some(KafkaError::BadHeader));
    let cut = KafkaRoutingProtocol::encode(request_header(1, 12, 2), vec![0, 0]);
    assert_eq!(error(cut), Some(KafkaError::BadBody));
}

#[test]
fn a_request_for_offsets_is_read() {
    let protocol = KafkaRoutingProtocol::new(0);
    let mut partition = ListOffsetsPartition::default();
    partition.partition_index = 5;
    let mut asked = ListOffsetsTopic::default();
    asked.name = topic("bid");
    asked.partitions = vec![partition];
    let mut message = kafka_protocol::messages::ListOffsetsRequest::default();
    message.replica_id = BrokerId(-1);
    message.isolation_level = 1;
    message.topics = vec![asked];
    let bytes = KafkaRoutingProtocol::encode(request_header(2, 7, 2), written(message, 7));
    let (header_version, header, request) = protocol.decode_request(&bytes).unwrap();
    assert_eq!((header_version, header.request_api_key), (2, 2));
    match request {
        Some(ReadRequest::ListOffsetsRequest(m)) => {
            assert_eq!((m.replica_id, m.isolation_level), (-1, 1));
            assert_eq!(m.topics[0].name, "bid");
            assert_eq!(m.topics[0].partitions[0].partition_index, 5);
        }
        _ => panic!("not a request for offsets"),
    }
}

#[test]
fn requests_that_are_not_read_are_named() {
    let protocol = KafkaRoutingProtocol::new(0);
    let message = kafka_protocol::messages::HeartbeatRequest::default();
    let bytes = KafkaRoutingProtocol::encode(request_header(12, 4, 2), written(message, 4));
    let (_, _, request) = protocol.decode_request(&bytes).unwrap();
    assert!(matches!(
        request,
        Some(ReadRequest::Other(OutsideRequest::HeartbeatRequest(_)))
    ));
}

#[test]
fn a_response_is_read_by_its_request() {
    let protocol = KafkaRoutingProtocol::new(0);
    let request = KafkaRoutingProtocol::encode(
        request_header(1, 12, 2),
        written(kafka_protocol::messages::FetchRequest::default(), 12),
    );
    let mut message = kafka_protocol::messages::FetchResponse::default();
    message.session_id = 8;
    let response = KafkaRoutingProtocol::encode(response_header(1), written(message, 12));
    let (header_version, request_header, header, kind, _) =
        protocol.decode_response(&request, &response).unwrap();
    assert_eq!((header_version, request_header.correlation_id, header.correlation_id), (1, 77, 77));
    match kind {
        Some(ReadResponse::FetchResponse(m)) => assert_eq!((m.error_code, m.session_id), (0, 8)),
        _ => panic!("not a response to a fetch"),
    }
    assert_eq!(
        protocol.decode_response(&request, &response[..response.len() - 1].to_vec()).err(),
        Some(KafkaError::Split)
    );
}

#[test]
fn records_are_written_without_compression() {
    let options = KafkaRoutingProtocol::get_encoding_options();
    assert_eq!(options.version, 2);
    assert!(matches!(options.compression, kafka_protocol::records::Compression::None));
}

#[test]
fn headers_have_the_versions_that_messages_ask_for() {
    let protocol = KafkaRoutingProtocol::default();
    let check = |key: ApiKey, asked: fn(i16) -> i16, answered: fn(i16) -> i16| {
        for version in -2..20 {
            assert_eq!(protocol.header_version(key, true, version), asked(version));
            assert_eq!(protocol.header_version(key, false, version), answered(version));
        }
    };
    check(ApiKey::ProduceKey, m::ProduceRequest::header_version, m::ProduceResponse::header_version);
    check(ApiKey::FetchKey, m::FetchRequest::header_version, m::FetchResponse::header_version);
    check(
        ApiKey::ListOffsetsKey,
        m::ListOffsetsRequest::header_version,
        m::ListOffsetsResponse::header_version,
    );
    check(
        ApiKey::MetadataKey,
        m::MetadataRequest::header_version,
        m::MetadataResponse::header_version,
    );
    check(
        ApiKey::OffsetCommitKey,
        m::OffsetCommitRequest::header_version,
        m::OffsetCommitResponse::header_version,
    );
    check(
        ApiKey::OffsetFetchKey,
        m::OffsetFetchRequest::header_version,
        m::OffsetFetchResponse::header_version,
    );
    check(
        ApiKey::FindCoordinatorKey,
        m::FindCoordinatorRequest::header_version,
        m::FindCoordinatorResponse::header_version,
    );
    check(
        ApiKey::JoinGroupKey,
        m::JoinGroupRequest::header_version,
        m::JoinGroupResponse::header_version,
    );
    check(
        ApiKey::HeartbeatKey,
        m::HeartbeatRequest::header_version,
        m::HeartbeatResponse::header_version,
    );
    check(
        ApiKey::SyncGroupKey,
        m::SyncGroupRequest::header_version,
        m::SyncGroupResponse::header_version,
    );
    check(
        ApiKey::ApiVersionsKey,
        m::ApiVersionsRequest::header_version,
        m::ApiVersionsResponse::header_version,
    );
    check(
        ApiKey::InitProducerIdKey,
        m::InitProducerIdRequest::header_version,
        m::InitProducerIdResponse::header_version,
    );
}

fn asked<T: Encodable>(key: i16, version: i16, message: T) -> Vec<u8> {
    KafkaRoutingProtocol::encode(request_header(key, version, 2), written(message, version))
}

fn read(bytes: Vec<u8>) -> Option<OutsideRequest> {
    match KafkaRoutingProtocol::new(0).decode_request(&bytes).unwrap().2 {
        Some(ReadRequest::Other(message)) => Some(message),
        _ => None,
    }
}

fn read_answer<T: Encodable>(request: Vec<u8>, header_version: i16, version: i16, message: T) -> Option<OutsideResponse> {
    let response =
        KafkaRoutingProtocol::encode(response_header(header_version), written(message, version));
    match KafkaRoutingProtocol::new(0).decode_response(&request, &response).unwrap().3 {
        Some(ReadResponse::Other(message)) => Some(message),
        _ => None,
    }
}

#[test]
fn messages_that_pass_are_read() {
    let mut message = m::ProduceRequest::default();
    message.timeout_ms = 5;
    let request = asked(0, 9, message.clone());
    assert_eq!(read(request.clone()), Some(OutsideRequest::ProduceRequest(message)));
    let mut message = m::ProduceResponse::default();
    message.throttle_time_ms = 6;
    assert_eq!(
        read_answer(request, 1, 9, message.clone()),
        Some(OutsideResponse::ProduceResponse(message))
    );

    let mut message = m::OffsetFetchRequest::default();
    message.require_stable = true;
    let request = asked(9, 7, message.clone());
    assert_eq!(read(request.clone()), Some(OutsideRequest::OffsetFetchRequest(message)));
    let mut message = m::OffsetFetchResponse::default();
    message.throttle_time_ms = 7;
    assert_eq!(
        read_answer(request, 1, 7, message.clone()),
        Some(OutsideResponse::OffsetFetchResponse(message))
    );

    let mut message = m::FindCoordinatorRequest::default();
    message.key_type = 1;
    let request = asked(10, 3, message.clone());
    assert_eq!(read(request.clone()), Some(OutsideRequest::FindCoordinatorRequest(message)));
    let mut message = m::FindCoordinatorResponse::default();
    message.port = 9;
    assert_eq!(
        read_answer(request, 1, 3, message.clone()),
        Some(OutsideResponse::FindCoordinatorResponse(message))
    );

    let mut message = m::JoinGroupRequest::default();
    message.session_timeout_ms = 8;
    let request = asked(11, 6, message.clone());
    assert_eq!(read(request.clone()), Some(OutsideRequest::JoinGroupRequest(message)));
    let mut message = m::JoinGroupResponse::default();
    message.generation_id = 3;
    message.protocol_name = Some(Default::default());
    assert_eq!(
        read_answer(request, 1, 6, message.clone()),
        Some(OutsideResponse::JoinGroupResponse(message))
    );

    let mut message = m::HeartbeatRequest::default();
    message.generation_id = 8;
    let request = asked(12, 4, message.clone());
    assert_eq!(read(request.clone()), Some(OutsideRequest::HeartbeatRequest(message)));
    let mut message = m::HeartbeatResponse::default();
    message.error_code = 3;
    assert_eq!(
        read_answer(request, 1, 4, message.clone()),
        Some(OutsideResponse::HeartbeatResponse(message))
    );

    let mut message = m::SyncGroupRequest::default();
    message.generation_id = 8;
    let request = asked(14, 4, message.clone());
    assert_eq!(read(request.clone()), Some(OutsideRequest::SyncGroupRequest(message)));
    let mut message = m::SyncGroupResponse::default();
    message.error_code = 3;
    assert_eq!(
        read_answer(request, 1, 4, message.clone()),
        Some(OutsideResponse::SyncGroupResponse(message))
    );

    let message = m::ApiVersionsRequest::default();
    let request = asked(18, 3, message.clone());
    assert_eq!(read(request.clone()), Some(OutsideRequest::ApiVersionsRequest(message)));
    let mut message = m::ApiVersionsResponse::default();
    message.throttle_time_ms = 4;
    assert_eq!(
        read_answer(request, 0, 3, message.clone()),
        Some(OutsideResponse::ApiVersionsResponse(message))
    );

    let mut message = m::InitProducerIdRequest::default();
    message.transaction_timeout_ms = 4;
    let request = asked(22, 2, message.clone());
    assert_eq!(read(request.clone()), Some(OutsideRequest::InitProducerIdRequest(message)));
    let message = m::InitProducerIdResponse::default();
    assert_eq!(read_answer(request, 1, 2, message), None);

    let request = asked(8, 8, m::OffsetCommitRequest::default());
    assert_eq!(read(request), None);
}

#[test]
fn messages_that_pass_must_be_whole() {
    let protocol = KafkaRoutingProtocol::new(0);
    for (number, key, since) in KEYS {
        let bytes = KafkaRoutingProtocol::encode(request_header(number, since, 2), vec![]);
        let error = match key {
            ApiKey::OffsetCommitKey => None,
            _ => Some(KafkaError::BadBody),
        };
        assert_eq!(protocol.decode_request(&bytes).err(), error, "{:?}", key);
    }
}
