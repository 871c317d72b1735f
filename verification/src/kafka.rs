//! The Kafka protocol: how messages are framed, what their headers say, and how the proxy
//! routes them.

use crate::hashing;
use crate::hashing::JavaHashValue;
use crate::maps::KeyedMap;
use crate::codec;
use crate::codec::FetchMessage;
use crate::codec::FetchMessageView;
use crate::codec::FetchReading;
use crate::codec::FetchReadingView;
use crate::codec::MetadataMessage;
use crate::codec::MetadataMessageView;
use crate::codec::OffsetsRequest;
use crate::codec::OffsetsRequestView;
use crate::codec::OffsetsResponse;
use crate::codec::OffsetsResponseView;
use crate::codec::RequestHeader;
use crate::codec::RequestHeaderView;
use crate::codec::ResponseHeader;
use crate::codec::ResponseHeaderView;
use crate::partitions;
use crate::partitions::BiDirectionalMap;
use crate::passing;
use crate::routing;
use crate::routing::DefaultRoutingProtocol;
use crate::routing::RequestResponseKind;
use crate::routing::RequestType;
use crate::routing::RouteError;
use crate::routing::Routes;
use crate::routing::RoutingProtocol;
use crate::routing::RoutingTable;
use crate::routing::TableView;
use crate::text;
use crate::wire;
use kafka_protocol::records::RecordEncodeOptions;
use std::collections::BTreeMap;
use vstd::prelude::*;

verus! {

/// The requests that the proxy knows.
#[derive(PartialEq, Eq, Structural, Debug, Clone, Copy)]
pub enum ApiKey {
    ProduceKey,
    FetchKey,
    ListOffsetsKey,
    MetadataKey,
    OffsetCommitKey,
    OffsetFetchKey,
    FindCoordinatorKey,
    JoinGroupKey,
    HeartbeatKey,
    SyncGroupKey,
    ApiVersionsKey,
    InitProducerIdKey,
}

/// Why a message cannot be read.
#[derive(PartialEq, Eq, Structural, Debug, Clone, Copy)]
pub enum KafkaError {
    /// It is too short to have a length, a key and a version.
    TooShort,
    /// The proxy does not know the request.
    UnknownApiKey,
    /// It does not start with a header.
    BadHeader,
    /// No message follows the header.
    BadBody,
    /// It is shorter than it says.
    Split,
}

impl ApiKey {
    /// The number of a request.
    pub open spec fn code(self) -> i16 {
        match self {
            ApiKey::ProduceKey => 0,
            ApiKey::FetchKey => 1,
            ApiKey::ListOffsetsKey => 2,
            ApiKey::MetadataKey => 3,
            ApiKey::OffsetCommitKey => 8,
            ApiKey::OffsetFetchKey => 9,
            ApiKey::FindCoordinatorKey => 10,
            ApiKey::JoinGroupKey => 11,
            ApiKey::HeartbeatKey => 12,
            ApiKey::SyncGroupKey => 14,
            ApiKey::ApiVersionsKey => 18,
            ApiKey::InitProducerIdKey => 22,
        }
    }

    /// The first version of a request with tagged fields in its header.
    pub open spec fn tagged_since(self) -> i16 {
        match self {
            ApiKey::ProduceKey => 9,
            ApiKey::FetchKey => 12,
            ApiKey::ListOffsetsKey => 6,
            ApiKey::MetadataKey => 9,
            ApiKey::OffsetCommitKey => 8,
            ApiKey::OffsetFetchKey => 6,
            ApiKey::FindCoordinatorKey => 3,
            ApiKey::JoinGroupKey => 6,
            ApiKey::HeartbeatKey => 4,
            ApiKey::SyncGroupKey => 4,
            ApiKey::ApiVersionsKey => 3,
            ApiKey::InitProducerIdKey => 2,
        }
    }
}

/// The request with a number.
pub open spec fn key_of(code: int) -> Option<ApiKey> {
    if exists|key: ApiKey| #[trigger] key.code() == code {
        Some(choose|key: ApiKey| #[trigger] key.code() == code)
    } else {
        None
    }
}

/// The version of the header of a request or of its response.
pub open spec fn header_version_of(key: ApiKey, is_request: bool, version: i16) -> i16 {
    if is_request {
        if version >= key.tagged_since() {
            2
        } else {
            1
        }
    } else if key != ApiKey::ApiVersionsKey && version >= key.tagged_since() {
        1
    } else {
        0
    }
}

/// Finds the request with a number.
pub fn api_key(code: i16) -> (key: Option<ApiKey>)
    ensures
        key == key_of(code as int),
{
    let key = match code {
        0 => Some(ApiKey::ProduceKey),
        1 => Some(ApiKey::FetchKey),
        2 => Some(ApiKey::ListOffsetsKey),
        3 => Some(ApiKey::MetadataKey),
        8 => Some(ApiKey::OffsetCommitKey),
        9 => Some(ApiKey::OffsetFetchKey),
        10 => Some(ApiKey::FindCoordinatorKey),
        11 => Some(ApiKey::JoinGroupKey),
        12 => Some(ApiKey::HeartbeatKey),
        14 => Some(ApiKey::SyncGroupKey),
        18 => Some(ApiKey::ApiVersionsKey),
        22 => Some(ApiKey::InitProducerIdKey),
        _ => None,
    };
    proof {
        if let Some(k) = key {
            assert(k.code() == code);
        }
    }
    key
}

/// The protocol of Kafka.
#[derive(PartialEq, Eq, Structural, Debug, Clone, Copy)]
pub struct KafkaRoutingProtocol {
    pub debug_protocol: i32,
}

impl KafkaRoutingProtocol {
    /// The protocol without debugging.
    pub fn default() -> (protocol: Self)
        ensures
            protocol == (KafkaRoutingProtocol { debug_protocol: 0 }),
    {
        KafkaRoutingProtocol { debug_protocol: 0 }
    }

    pub fn new(debug_protocol: i32) -> (protocol: Self)
        ensures
            protocol == (KafkaRoutingProtocol { debug_protocol }),
    {
        KafkaRoutingProtocol { debug_protocol }
    }

    /// The version of the header of a request, or of its response.
    pub fn header_version(&self, api_key: ApiKey, header: bool, version: i16) -> (r: i16)
        ensures
            r == header_version_of(api_key, header, version),
    {
        let since: i16 = match api_key {
            ApiKey::ProduceKey => 9,
            ApiKey::FetchKey => 12,
            ApiKey::ListOffsetsKey => 6,
            ApiKey::MetadataKey => 9,
            ApiKey::OffsetCommitKey => 8,
            ApiKey::OffsetFetchKey => 6,
            ApiKey::FindCoordinatorKey => 3,
            ApiKey::JoinGroupKey => 6,
            ApiKey::HeartbeatKey => 4,
            ApiKey::SyncGroupKey => 4,
            ApiKey::ApiVersionsKey => 3,
            ApiKey::InitProducerIdKey => 2,
        };
        if header {
            if version >= since {
                2
            } else {
                1
            }
        } else if api_key != ApiKey::ApiVersionsKey && version >= since {
            1
        } else {
            0
        }
    }
}

/// `kafka_protocol::records::RecordEncodeOptions`, which says how records are written.
#[verifier::external_type_specification]
#[verifier::external_body]
pub struct ExRecordEncodeOptions(RecordEncodeOptions);

/// The version of the record format that the options ask for.
pub uninterp spec fn options_version(options: RecordEncodeOptions) -> i8;

/// The number of the compression that the options ask for; none has the number zero.
pub uninterp spec fn options_compression(options: RecordEncodeOptions) -> i16;

/// `RecordEncodeOptions` holds a version of the record format and a compression, here none.
#[verifier::external_body]
fn uncompressed(version: i8) -> (options: RecordEncodeOptions)
    ensures
        options_version(options) == version,
        options_compression(options) == 0,
{
    RecordEncodeOptions { version, compression: kafka_protocol::records::Compression::None }
}

/// What the proxy reads of a request.
pub enum ReadRequest {
    MetadataRequest(kafka_protocol::messages::MetadataRequest),
    ListOffsetsRequest(OffsetsRequest),
    FetchRequest(FetchReading, kafka_protocol::messages::FetchRequest),
    /// The proxy changes nothing of it.
    Other(kafka_protocol::messages::RequestKind),
}

/// What a request says.
pub enum ReadRequestView {
    MetadataRequest(kafka_protocol::messages::MetadataRequest),
    ListOffsetsRequest(OffsetsRequestView),
    FetchRequest(FetchReadingView, kafka_protocol::messages::FetchRequest),
    Other(kafka_protocol::messages::RequestKind),
}

impl DeepView for ReadRequest {
    type V = ReadRequestView;

    open spec fn deep_view(&self) -> ReadRequestView {
        match self {
            ReadRequest::MetadataRequest(m) => ReadRequestView::MetadataRequest(*m),
            ReadRequest::ListOffsetsRequest(m) => ReadRequestView::ListOffsetsRequest(m@),
            ReadRequest::FetchRequest(r, m) => ReadRequestView::FetchRequest(r@, *m),
            ReadRequest::Other(m) => ReadRequestView::Other(*m),
        }
    }
}

/// What the proxy reads of a response.
pub enum ReadResponse {
    MetadataResponse(MetadataMessage),
    ListOffsetsResponse(OffsetsResponse),
    FetchResponse(FetchMessage),
    /// The proxy changes nothing of it.
    Other(kafka_protocol::messages::ResponseKind),
}

/// What a response says.
pub enum ReadResponseView {
    MetadataResponse(MetadataMessageView),
    ListOffsetsResponse(OffsetsResponseView),
    FetchResponse(FetchMessageView),
    Other(kafka_protocol::messages::ResponseKind),
}

impl DeepView for ReadResponse {
    type V = ReadResponseView;

    open spec fn deep_view(&self) -> ReadResponseView {
        match self {
            ReadResponse::MetadataResponse(m) => ReadResponseView::MetadataResponse(m@),
            ReadResponse::ListOffsetsResponse(m) => ReadResponseView::ListOffsetsResponse(m@),
            ReadResponse::FetchResponse(m) => ReadResponseView::FetchResponse(m@),
            ReadResponse::Other(m) => ReadResponseView::Other(*m),
        }
    }
}

/// What the start of a request says, and where its body starts.
#[verifier::ext_equal]
pub struct RequestInformation {
    pub header: RequestHeaderView,
    pub key: ApiKey,
    pub version: i16,
    pub header_version: i16,
    pub position: int,
}

/// What the start of a request says: a length, and a header that starts with the key and
/// the version of the request.
pub open spec fn information_of(request: Seq<u8>) -> Result<RequestInformation, KafkaError> {
    if request.len() < 8 {
        Err(KafkaError::TooShort)
    } else {
        match key_of(wire::i16_at(request, 4)) {
            None => Err(KafkaError::UnknownApiKey),
            Some(key) => {
                let version = wire::i16_at(request, 6) as i16;
                let header_version = header_version_of(key, true, version);
                match codec::request_header_decoded(request.skip(4), header_version) {
                    None => Err(KafkaError::BadHeader),
                    Some(h) => Ok(
                        RequestInformation {
                            header: h.0,
                            key,
                            version,
                            header_version,
                            position: 4 + h.1 as int,
                        },
                    ),
                }
            },
        }
    }
}

/// The request with a key that the bytes start with: nothing where the proxy passes the
/// request over, and an error where it wants to read it and cannot.
pub open spec fn request_body(key: ApiKey, bytes: Seq<u8>, version: i16) -> Result<
    Option<ReadRequestView>,
    KafkaError,
> {
    match key {
        ApiKey::MetadataKey => match codec::metadata_request_decoded(bytes, version) {
            Some(m) => Ok(Some(ReadRequestView::MetadataRequest(m))),
            None => Err(KafkaError::BadBody),
        },
        ApiKey::ListOffsetsKey => match codec::offsets_request_decoded(bytes, version) {
            Some(m) => Ok(Some(ReadRequestView::ListOffsetsRequest(m))),
            None => Err(KafkaError::BadBody),
        },
        ApiKey::FetchKey => match codec::fetch_request_decoded(bytes, version) {
            Some(m) => Ok(Some(ReadRequestView::FetchRequest(m.0, m.1))),
            None => Err(KafkaError::BadBody),
        },
        ApiKey::OffsetCommitKey => Ok(None),
        _ => match passing::passing_request(key, bytes, version) {
            Some(m) => Ok(Some(ReadRequestView::Other(m))),
            None => Err(KafkaError::BadBody),
        },
    }
}

/// What a request says: the version of its header, the header, and the request.
#[verifier::ext_equal]
pub struct RequestView {
    pub header_version: i16,
    pub header: RequestHeaderView,
    pub request: Option<ReadRequestView>,
}

/// What a request says.
pub open spec fn request_of(payload: Seq<u8>) -> Result<RequestView, KafkaError> {
    match information_of(payload) {
        Err(e) => Err(e),
        Ok(info) => match request_body(
            info.key,
            payload.skip(info.position),
            info.header.api_version,
        ) {
            Err(e) => Err(e),
            Ok(request) => Ok(
                RequestView { header_version: info.header_version, header: info.header, request },
            ),
        },
    }
}

/// The response to a request with a key that the bytes start with: nothing where the proxy
/// passes the response over, and an error where it wants to read it and cannot.
pub open spec fn response_body(key: ApiKey, bytes: Seq<u8>, version: i16) -> Result<
    Option<ReadResponseView>,
    KafkaError,
> {
    match key {
        ApiKey::MetadataKey => match codec::metadata_decoded(bytes, version) {
            Some(m) => Ok(Some(ReadResponseView::MetadataResponse(m))),
            None => Err(KafkaError::BadBody),
        },
        ApiKey::ListOffsetsKey => match codec::offsets_response_decoded(bytes, version) {
            Some(m) => Ok(Some(ReadResponseView::ListOffsetsResponse(m))),
            None => Err(KafkaError::BadBody),
        },
        ApiKey::FetchKey => match codec::fetch_decoded(bytes, version) {
            Some(m) => Ok(Some(ReadResponseView::FetchResponse(m))),
            None => Err(KafkaError::BadBody),
        },
        ApiKey::OffsetCommitKey | ApiKey::InitProducerIdKey => Ok(None),
        _ => match passing::passing_response(key, bytes, version) {
            Some(m) => Ok(Some(ReadResponseView::Other(m))),
            None => Err(KafkaError::BadBody),
        },
    }
}

/// What a response says: the version of its header, the header of the request, its own
/// header, the response, and its length.
#[verifier::ext_equal]
pub struct ResponseView {
    pub header_version: i16,
    pub request_header: RequestHeaderView,
    pub header: ResponseHeaderView,
    pub response: Option<ReadResponseView>,
    pub length: int,
}

/// The bytes after the header of a response.
pub open spec fn response_rest(response: Seq<u8>, header_size: int) -> Seq<u8> {
    if header_size + 4 <= response.len() {
        response.skip(header_size + 4)
    } else {
        Seq::empty()
    }
}

/// What the response to a request says. The header is read in the version of the request,
/// and taken to be as long as it would be in the version of the header.
pub open spec fn response_of(request: Seq<u8>, response: Seq<u8>) -> Result<
    ResponseView,
    KafkaError,
> {
    if response.len() < 4 {
        Err(KafkaError::TooShort)
    } else if response.len() - 4 < wire::u32_at(response, 0) {
        Err(KafkaError::Split)
    } else {
        match information_of(request) {
            Err(e) => Err(e),
            Ok(info) => {
                let header_version = header_version_of(info.key, false, info.version);
                match codec::response_header_decoded(response.skip(4), info.version) {
                    None => Err(KafkaError::BadHeader),
                    Some(header) => match codec::response_header_size(header, header_version) {
                        None => Err(KafkaError::BadHeader),
                        Some(size) => match response_body(
                            info.key,
                            response_rest(response, size as int),
                            info.header.api_version,
                        ) {
                            Err(e) => Err(e),
                            Ok(kind) => Ok(
                                ResponseView {
                                    header_version,
                                    request_header: info.header,
                                    header,
                                    response: kind,
                                    length: wire::u32_at(response, 0),
                                },
                            ),
                        },
                    },
                }
            },
        }
    }
}

/// A message: its length in four bytes, its header, and its body.
pub open spec fn framed(header: Seq<u8>, body: Seq<u8>) -> Seq<u8> {
    wire::u32_bytes((header.len() + body.len()) as int) + header + body
}

/// Every key is found by its number.
pub proof fn keys_are_found_by_their_numbers(key: ApiKey)
    ensures
        key_of(key.code() as int) == Some(key),
{
    let found = choose|k: ApiKey| #[trigger] k.code() == key.code();
    assert(found.code() == key.code());
}

/// The protocol tells how many bytes follow a message, or how many of its bytes are missing.
pub proof fn messages_tell_their_length(
    protocol: KafkaRoutingProtocol,
    is_request: bool,
    header: Seq<u8>,
    body: Seq<u8>,
    after: Seq<u8>,
    cut: int,
)
    requires
        header.len() + body.len() < 0x1_0000_0000,
        4 <= cut <= framed(header, body).len(),
    ensures
        protocol.surplus(is_request, framed(header, body) + after) == after.len(),
        protocol.surplus(is_request, framed(header, body).take(cut)) == cut - framed(
            header,
            body,
        ).len(),
{
    let n = (header.len() + body.len()) as int;
    wire::u32_round_trip(n);
    let length = wire::u32_bytes(n);
    let message = framed(header, body);
    assert((message + after).take(4) =~= length);
    assert(message.take(cut).take(4) =~= length);
    assert(wire::u32_at(message + after, 0) == wire::u32_at((message + after).take(4), 0));
    assert(wire::u32_at(message.take(cut), 0) == wire::u32_at(message.take(cut).take(4), 0));
}

impl KafkaRoutingProtocol {
    /// Whether the slot of a key is that of the split.
    pub fn filter_key(key: &str, split: i32, parallelism: i32, max_parallelism: i32) -> (r: bool)
        requires
            hashing::slot_fits(
                hashing::java_hash_of(hashing::HashInput::Str(key@)),
                parallelism as int,
                max_parallelism as int,
            ),
        ensures
            r <==> split == hashing::slot_of(
                hashing::java_hash_of(hashing::HashInput::Str(key@)),
                parallelism as int,
                max_parallelism as int,
            ),
    {
        Self::get_keygroup_slot(key, parallelism, max_parallelism) == split
    }

    /// The key group of a text, out of `max_parallelism` groups.
    pub fn get_keygroup(s: &str, max_parallelism: i32) -> (group: i32)
        requires
            max_parallelism != 0,
        ensures
            group == hashing::keygroup_of(
                hashing::java_hash_of(hashing::HashInput::Str(s@)),
                max_parallelism as int,
            ),
            0 <= group < hashing::abs(max_parallelism as int),
    {
        let values = vec![JavaHashValue::Str(s)];
        proof {
            hashing::lemma_single_value(values@);
        }
        hashing::get_keygroup(values.as_slice(), max_parallelism)
    }

    /// The slot of a text when `max_parallelism` key groups are spread over `parallelism`
    /// slots.
    pub fn get_keygroup_slot(s: &str, parallelism: i32, max_parallelism: i32) -> (slot: i32)
        requires
            hashing::slot_fits(
                hashing::java_hash_of(hashing::HashInput::Str(s@)),
                parallelism as int,
                max_parallelism as int,
            ),
        ensures
            slot == hashing::slot_of(
                hashing::java_hash_of(hashing::HashInput::Str(s@)),
                parallelism as int,
                max_parallelism as int,
            ),
    {
        let values = vec![JavaHashValue::Str(s)];
        proof {
            hashing::lemma_single_value(values@);
        }
        hashing::get_keygroup_slot(values.as_slice(), parallelism, max_parallelism)
    }

    /// The reader, out of `num_readers`, that owns a partition of a topic.
    pub fn get_split_owner(topic: &str, partition: i32, num_readers: i32) -> (owner: i32)
        requires
            num_readers != 0,
            hashing::start_index(topic@, num_readers as int) + partition <= i32::MAX,
            !(partition == i32::MIN && num_readers == -1),
        ensures
            owner == hashing::split_owner_of(topic@, partition as int, num_readers as int),
    {
        hashing::get_split_owner(topic, partition, num_readers)
    }

    /// The original partition of a virtual partition, or -1 if there is no such virtual
    /// partition.
    pub fn get_partition_original_id(
        num_sources: i32,
        num_partitions: i32,
        virtual_partition: i32,
    ) -> (p: i32)
        requires
            i32::MIN <= num_sources * num_partitions <= i32::MAX,
        ensures
            p == if partitions::is_virtual(
                num_sources as int,
                num_partitions as int,
                virtual_partition as int,
            ) {
                partitions::original_of(
                    num_sources as int,
                    num_partitions as int,
                    virtual_partition as int,
                )
            } else {
                -1
            },
    {
        partitions::get_partition_original_id(num_sources, num_partitions, virtual_partition)
    }

    /// The virtual partitions of a topic, related to its original ones.
    pub fn compute_virtual_partitions(num_sources: i32, num_partitions: i32) -> (map:
        BiDirectionalMap)
        requires
            i32::MIN <= num_sources * num_partitions <= i32::MAX,
        ensures
            map.deep_view().is_table(num_sources as int, num_partitions as int),
    {
        partitions::compute_virtual_partitions(num_sources, num_partitions)
    }

    /// Reads the start of a request: its header, its key, its version, the version of the
    /// header, and the position at which its body starts.
    pub fn get_request_information(&self, request: &Vec<u8>) -> (r: Result<
        (RequestHeader, ApiKey, i16, i16, usize),
        KafkaError,
    >)
        ensures
            match r {
                Ok(i) => information_of(request@) == Ok::<RequestInformation, KafkaError>(
                    RequestInformation {
                        header: i.0@,
                        key: i.1,
                        version: i.2,
                        header_version: i.3,
                        position: i.4 as int,
                    },
                ) && i.4 <= request@.len(),
                Err(e) => information_of(request@) == Err::<RequestInformation, KafkaError>(e),
            },
    {
        if request.len() < 8 {
            return Err(KafkaError::TooShort);
        }
        let version: i16 = wire::read_i16(request.as_slice(), 6);
        let key = match api_key(wire::read_i16(request.as_slice(), 4)) {
            Some(key) => key,
            None => {
                return Err(KafkaError::UnknownApiKey);
            },
        };
        let header_version: i16 = self.header_version(key, true, version);
        let start = vstd::slice::slice_subrange(request.as_slice(), 4, request.len());
        assert(start@ =~= request@.skip(4));
        match codec::decode_request_header(start, header_version) {
            Some((header, size)) => Ok((header, key, version, header_version, 4 + size)),
            None => Err(KafkaError::BadHeader),
        }
    }

    /// Puts a message together: its length, its header, and its body.
    pub fn encode(header: Vec<u8>, body: Vec<u8>) -> (message: Vec<u8>)
        ensures
            message@ == framed(header@, body@),
    {
        let ghost expected = framed(header@, body@);
        let mut rest = header;
        let mut body = body;
        rest.append(&mut body);
        let mut message: Vec<u8> = Vec::new();
        wire::append_u32(&mut message, rest.len());
        message.append(&mut rest);
        assert(message@ =~= expected);
        message
    }

    /// Reads a request: the version of its header, the header, and the request.
    pub fn decode_request(&self, payload: &Vec<u8>) -> (r: Result<
        (i16, RequestHeader, Option<ReadRequest>),
        KafkaError,
    >)
        ensures
            match r {
                Ok(q) => request_of(payload@) == Ok::<RequestView, KafkaError>(
                    RequestView {
                        header_version: q.0,
                        header: q.1@,
                        request: q.2.deep_view(),
                    },
                ),
                Err(e) => request_of(payload@) == Err::<RequestView, KafkaError>(e),
            },
    {
        let (header, key, _, header_version, position) = match self.get_request_information(
            payload,
        ) {
            Ok(information) => information,
            Err(e) => {
                return Err(e);
            },
        };
        let body = vstd::slice::slice_subrange(payload.as_slice(), position, payload.len());
        assert(body@ =~= payload@.skip(position as int));
        let version: i16 = header.request_api_version;
        let request = match key {
            ApiKey::MetadataKey => match codec::decode_metadata_request(body, version) {
                Some(m) => Some(ReadRequest::MetadataRequest(m)),
                None => {
                    return Err(KafkaError::BadBody);
                },
            },
            ApiKey::ListOffsetsKey => match codec::decode_offsets_request(body, version) {
                Some(m) => Some(ReadRequest::ListOffsetsRequest(m)),
                None => {
                    return Err(KafkaError::BadBody);
                },
            },
            ApiKey::FetchKey => match codec::decode_fetch_request(body, version) {
                Some((reading, m)) => Some(ReadRequest::FetchRequest(reading, m)),
                None => {
                    return Err(KafkaError::BadBody);
                },
            },
            ApiKey::OffsetCommitKey => None,
            _ => match passing::decode_passing_request(key, body, version) {
                Some(m) => Some(ReadRequest::Other(m)),
                None => {
                    return Err(KafkaError::BadBody);
                },
            },
        };
        Ok((header_version, header, request))
    }

    /// Reads the response to a request: the version of its header, the header of the
    /// request, its own header, the response, and its length.
    pub fn decode_response(
        &self,
        payload_request: &Vec<u8>,
        payload_response: &Vec<u8>,
    ) -> (r: Result<
        (i16, RequestHeader, ResponseHeader, Option<ReadResponse>, u32),
        KafkaError,
    >)
        ensures
            match r {
                Ok(q) => response_of(payload_request@, payload_response@) == Ok::<
                    ResponseView,
                    KafkaError,
                >(
                    ResponseView {
                        header_version: q.0,
                        request_header: q.1@,
                        header: q.2@,
                        response: q.3.deep_view(),
                        length: q.4 as int,
                    },
                ),
                Err(e) => response_of(payload_request@, payload_response@) == Err::<
                    ResponseView,
                    KafkaError,
                >(e),
            },
    {
        if payload_response.len() < 4 {
            return Err(KafkaError::TooShort);
        }
        let length: u32 = wire::read_u32(payload_response.as_slice(), 0);
        if ((payload_response.len() - 4) as u64) < length as u64 {
            return Err(KafkaError::Split);
        }
        let (header_req, key, version, _, _) = match self.get_request_information(
            payload_request,
        ) {
            Ok(information) => information,
            Err(e) => {
                return Err(e);
            },
        };
        let header_version: i16 = self.header_version(key, false, version);
        let start = vstd::slice::slice_subrange(
            payload_response.as_slice(),
            4,
            payload_response.len(),
        );
        assert(start@ =~= payload_response@.skip(4));
        let header = match codec::decode_response_header(start, version) {
            Some(header) => header,
            None => {
                return Err(KafkaError::BadHeader);
            },
        };
        let size: usize = match codec::size_of_response_header(&header, header_version) {
            Some(size) => size,
            None => {
                return Err(KafkaError::BadHeader);
            },
        };
        let from: usize = if size <= payload_response.len() - 4 {
            size + 4
        } else {
            payload_response.len()
        };
        let body = vstd::slice::slice_subrange(
            payload_response.as_slice(),
            from,
            payload_response.len(),
        );
        assert(body@ =~= response_rest(payload_response@, size as int));
        let body_version: i16 = header_req.request_api_version;
        let response = match key {
            ApiKey::MetadataKey => match codec::decode_metadata(body, body_version) {
                Some(m) => Some(ReadResponse::MetadataResponse(m)),
                None => {
                    return Err(KafkaError::BadBody);
                },
            },
            ApiKey::ListOffsetsKey => match codec::decode_offsets_response(body, body_version) {
                Some(m) => Some(ReadResponse::ListOffsetsResponse(m)),
                None => {
                    return Err(KafkaError::BadBody);
                },
            },
            ApiKey::FetchKey => match codec::decode_fetch(body, body_version) {
                Some(m) => Some(ReadResponse::FetchResponse(m)),
                None => {
                    return Err(KafkaError::BadBody);
                },
            },
            ApiKey::OffsetCommitKey | ApiKey::InitProducerIdKey => None,
            _ => match passing::decode_passing_response(key, body, body_version) {
                Some(m) => Some(ReadResponse::Other(m)),
                None => {
                    return Err(KafkaError::BadBody);
                },
            },
        };
        Ok((header_version, header_req, header, response, length))
    }

    /// The options that records are written with: the second version of the format, without
    /// compression.
    pub fn get_encoding_options() -> (options: RecordEncodeOptions)
        ensures
            options_version(options) == 2,
            options_compression(options) == 0,
    {
        uncompressed(2)
    }
}

/// The kind of a request, and of its response.
pub open spec fn kind_of(key: ApiKey) -> RequestResponseKind {
    match key {
        ApiKey::ApiVersionsKey | ApiKey::MetadataKey | ApiKey::HeartbeatKey =>
            RequestResponseKind::Local,
        ApiKey::SyncGroupKey => RequestResponseKind::System,
        _ => RequestResponseKind::Routable,
    }
}

/// The requests that went to the local cluster.
pub open spec fn local_requests(table: TableView) -> Map<u32, (Seq<char>, Seq<u8>)> {
    Map::new(
        |k: u32| table.requests.contains_key(k) && Some(table.requests[k].0) == table.local_cluster,
        |k: u32| table.requests[k],
    )
}

/// The token of the response that is taken: that of the first request to the local cluster,
/// or else the smallest one.
pub open spec fn chosen_token(table: TableView, responses: Map<u32, Seq<u8>>) -> u32 {
    let local = local_requests(table);
    if local == Map::<u32, (Seq<char>, Seq<u8>)>::empty() {
        routing::first_key(responses)
    } else {
        routing::first_key(local)
    }
}

/// Whether the length that a payload starts with says more than there is.
pub open spec fn is_cut(payload: Seq<u8>) -> bool {
    payload.len() - 4 < wire::u32_at(payload, 0)
}

impl RoutingProtocol for KafkaRoutingProtocol {
    open spec fn sizable(&self, payload: Seq<u8>) -> bool {
        4 <= payload.len() <= isize::MAX && wire::u32_at(payload, 0) <= isize::MAX
    }

    open spec fn surplus(&self, is_request: bool, payload: Seq<u8>) -> int {
        payload.len() - 4 - wire::u32_at(payload, 0)
    }

    fn payload_compare_size(&self, is_request: bool, payload: &Vec<u8>) -> (r: isize) {
        let length: u32 = wire::read_u32(payload.as_slice(), 0);
        (payload.len() - 4) as isize - length as isize
    }

    open spec fn classifiable(&self, payload: Seq<u8>) -> bool {
        4 <= payload.len() && (!is_cut(payload) ==> 8 <= payload.len() && key_of(
            wire::i16_at(payload, 4),
        ) is Some)
    }

    open spec fn classification(&self, payload: Seq<u8>) -> (
        RequestType,
        RequestResponseKind,
        RequestResponseKind,
    ) {
        if is_cut(payload) {
            (
                RequestType::Incomplete,
                RequestResponseKind::Incomplete,
                RequestResponseKind::Incomplete,
            )
        } else {
            let kind = kind_of(key_of(wire::i16_at(payload, 4))->Some_0);
            (RequestType::RequestResponse, kind, kind)
        }
    }

    fn request_response_type(&self, payload: &Vec<u8>) -> (r: (
        RequestType,
        RequestResponseKind,
        RequestResponseKind,
    )) {
        let length: u32 = wire::read_u32(payload.as_slice(), 0);
        if ((payload.len() - 4) as u64) < length as u64 {
            return (
                RequestType::Incomplete,
                RequestResponseKind::Incomplete,
                RequestResponseKind::Incomplete,
            );
        }
        let kind = match api_key(wire::read_i16(payload.as_slice(), 4)) {
            Some(ApiKey::ApiVersionsKey) => RequestResponseKind::Local,
            Some(ApiKey::MetadataKey) => RequestResponseKind::Local,
            Some(ApiKey::HeartbeatKey) => RequestResponseKind::Local,
            Some(ApiKey::SyncGroupKey) => RequestResponseKind::System,
            _ => RequestResponseKind::Routable,
        };
        (RequestType::RequestResponse, kind, kind)
    }

    open spec fn response_kind(&self, payload: Seq<u8>) -> RequestResponseKind {
        if is_cut(payload) {
            RequestResponseKind::Incomplete
        } else {
            RequestResponseKind::Routable
        }
    }

    fn response_type(&self, routing_table: &RoutingTable, payload: &Vec<u8>) -> (r:
        RequestResponseKind) {
        let length: u32 = wire::read_u32(payload.as_slice(), 0);
        if ((payload.len() - 4) as u64) < length as u64 {
            RequestResponseKind::Incomplete
        } else {
            RequestResponseKind::Routable
        }
    }

    open spec fn splittable(&self, table: TableView, request: Seq<u8>) -> bool {
        table.default_cluster is Some
    }

    /// The request goes to the default cluster.
    open spec fn split(&self, table: TableView, request: Seq<u8>) -> Result<Routes, RouteError> {
        Ok(map![table.default_cluster->Some_0 => request])
    }

    fn split_queries(&self, routing_table: &RoutingTable, request: &Vec<u8>) -> (r: Result<
        KeyedMap<String, Vec<u8>>,
        RouteError,
    >) {
        broadcast use text::bytes_deep_view;

        let mut requests: KeyedMap<String, Vec<u8>> = KeyedMap::new();
        if let Some(cluster) = &routing_table.default_cluster {
            requests.insert(cluster.clone(), text::copy_bytes(request));
            assert(requests@ =~= map![cluster@ => request@]);
        }
        Ok(requests)
    }

    open spec fn mergeable(&self, table: TableView, responses: Map<u32, Seq<u8>>) -> bool {
        let token = chosen_token(table, responses);
        &&& responses != Map::<u32, Seq<u8>>::empty()
        &&& local_requests(table) != Map::<u32, (Seq<char>, Seq<u8>)>::empty()
            ==> responses.contains_key(token)
        &&& self.debug_protocol > 0 ==> 4 <= responses[token].len()
    }

    /// The response of the local cluster is taken where there is one, and else the first
    /// one. Where the protocol is debugged, it must be as long as it says.
    open spec fn merged(&self, table: TableView, responses: Map<u32, Seq<u8>>) -> Result<
        Seq<u8>,
        RouteError,
    > {
        let response = responses[chosen_token(table, responses)];
        if self.debug_protocol > 0 && is_cut(response) {
            Err(RouteError::Split)
        } else {
            Ok(response)
        }
    }

    fn merge_responses(
        &self,
        routing_table: &RoutingTable,
        response_map: &BTreeMap<u32, Vec<u8>>,
    ) -> (r: Result<Vec<u8>, RouteError>) {
        let ghost responses = routing::responses_view(response_map@);
        let ghost local = local_requests(routing_table@);
        let mut response = routing::first_response(response_map);
        if let Some(token) = first_local_request(routing_table) {
            proof {
                assert(local.contains_key(token));
                routing::lemma_first_key(local, token);
                assert(responses.contains_key(token));
            }
            if let Some(v) = response_map.get(&token) {
                response = text::copy_bytes(v);
            }
        }
        if self.debug_protocol > 0 {
            let length: u32 = wire::read_u32(response.as_slice(), 0);
            if ((response.len() - 4) as u64) < length as u64 {
                return Err(RouteError::Split);
            }
        }
        Ok(response)
    }
}

/// The smallest token of a request that went to the local cluster.
pub(crate) fn first_local_request(table: &RoutingTable) -> (r: Option<u32>)
    ensures
        r is None <==> local_requests(table@) == Map::<u32, (Seq<char>, Seq<u8>)>::empty(),
        r matches Some(token) ==> routing::is_first_key(local_requests(table@), token),
{
    let ghost local = local_requests(table@);
    let mut first: Option<u32> = None;
    for key in it: table.current_requests.keys()
        invariant
            local == local_requests(table@),
            it.seq().unref().to_set() == table.current_requests@.dom(),
            first matches Some(k) ==> local.contains_key(k),
            forall|j: int|
                0 <= j < it.index() && local.contains_key(*#[trigger] it.seq()[j]) ==> {
                    first matches Some(k) && k <= *it.seq()[j]
                },
    {
        proof {
            routing::lemma_key_listed(it.seq(), table.current_requests@.dom(), it.index() as int);
        }
        let is_local = match (table.current_requests.get(key), &table.local_cluster) {
            (Some(request), Some(cluster)) => request.0 == *cluster,
            _ => false,
        };
        assert(is_local <==> local.contains_key(*key));
        if is_local {
            match first {
                Some(k) => {
                    if *key < k {
                        first = Some(*key);
                    }
                },
                None => {
                    first = Some(*key);
                },
            }
        }
    }
    proof {
        assert forall|j: u32| #[trigger] local.contains_key(j) implies first matches Some(k) && k
            <= j by {
            assert(table.current_requests@.dom().contains(j));
        }
        if first is None {
            assert(local =~= Map::<u32, (Seq<char>, Seq<u8>)>::empty());
        }
    }
    first
}

/// The protocol of a connection.
#[derive(PartialEq, Eq, Structural, Debug, Clone, Copy)]
pub enum Protocol {
    Kafka(KafkaRoutingProtocol),
    Default(DefaultRoutingProtocol),
}

impl KafkaRoutingProtocol {
    /// The protocol, as that of a connection.
    pub fn rc(self) -> (protocol: Protocol)
        ensures
            protocol == Protocol::Kafka(self),
    {
        Protocol::Kafka(self)
    }
}

impl RoutingProtocol for Protocol {
    open spec fn sizable(&self, payload: Seq<u8>) -> bool {
        match self {
            Protocol::Kafka(p) => p.sizable(payload),
            Protocol::Default(p) => p.sizable(payload),
        }
    }

    open spec fn surplus(&self, is_request: bool, payload: Seq<u8>) -> int {
        match self {
            Protocol::Kafka(p) => p.surplus(is_request, payload),
            Protocol::Default(p) => p.surplus(is_request, payload),
        }
    }

    fn payload_compare_size(&self, is_request: bool, payload: &Vec<u8>) -> (r: isize) {
        match self {
            Protocol::Kafka(p) => p.payload_compare_size(is_request, payload),
            Protocol::Default(p) => p.payload_compare_size(is_request, payload),
        }
    }

    open spec fn classifiable(&self, payload: Seq<u8>) -> bool {
        match self {
            Protocol::Kafka(p) => p.classifiable(payload),
            Protocol::Default(p) => p.classifiable(payload),
        }
    }

    open spec fn classification(&self, payload: Seq<u8>) -> (
        RequestType,
        RequestResponseKind,
        RequestResponseKind,
    ) {
        match self {
            Protocol::Kafka(p) => p.classification(payload),
            Protocol::Default(p) => p.classification(payload),
        }
    }

    fn request_response_type(&self, payload: &Vec<u8>) -> (r: (
        RequestType,
        RequestResponseKind,
        RequestResponseKind,
    )) {
        match self {
            Protocol::Kafka(p) => p.request_response_type(payload),
            Protocol::Default(p) => p.request_response_type(payload),
        }
    }

    open spec fn response_kind(&self, payload: Seq<u8>) -> RequestResponseKind {
        match self {
            Protocol::Kafka(p) => p.response_kind(payload),
            Protocol::Default(p) => p.response_kind(payload),
        }
    }

    fn response_type(&self, routing_table: &RoutingTable, payload: &Vec<u8>) -> (r:
        RequestResponseKind) {
        match self {
            Protocol::Kafka(p) => p.response_type(routing_table, payload),
            Protocol::Default(p) => p.response_type(routing_table, payload),
        }
    }

    open spec fn splittable(&self, table: TableView, request: Seq<u8>) -> bool {
        match self {
            Protocol::Kafka(p) => p.splittable(table, request),
            Protocol::Default(p) => p.splittable(table, request),
        }
    }

    open spec fn split(&self, table: TableView, request: Seq<u8>) -> Result<Routes, RouteError> {
        match self {
            Protocol::Kafka(p) => p.split(table, request),
            Protocol::Default(p) => p.split(table, request),
        }
    }

    fn split_queries(&self, routing_table: &RoutingTable, request: &Vec<u8>) -> (r: Result<
        KeyedMap<String, Vec<u8>>,
        RouteError,
    >) {
        match self {
            Protocol::Kafka(p) => p.split_queries(routing_table, request),
            Protocol::Default(p) => p.split_queries(routing_table, request),
        }
    }

    open spec fn mergeable(&self, table: TableView, responses: Map<u32, Seq<u8>>) -> bool {
        match self {
            Protocol::Kafka(p) => p.mergeable(table, responses),
            Protocol::Default(p) => p.mergeable(table, responses),
        }
    }

    open spec fn merged(&self, table: TableView, responses: Map<u32, Seq<u8>>) -> Result<
        Seq<u8>,
        RouteError,
    > {
        match self {
            Protocol::Kafka(p) => p.merged(table, responses),
            Protocol::Default(p) => p.merged(table, responses),
        }
    }

    fn merge_responses(
        &self,
        routing_table: &RoutingTable,
        response_map: &BTreeMap<u32, Vec<u8>>,
    ) -> (r: Result<Vec<u8>, RouteError>) {
        match self {
            Protocol::Kafka(p) => p.merge_responses(routing_table, response_map),
            Protocol::Default(p) => p.merge_responses(routing_table, response_map),
        }
    }
}

} // verus!
