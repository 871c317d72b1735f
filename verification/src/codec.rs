//! Kafka messages. The library holds what it reads or changes of a message as plain values;
//! the rest of a message is carried along as the `kafka_protocol` value that it came in.
//!
//! What is said here of `kafka_protocol` holds as long as there is memory: it sets aside room
//! for as many items as a message announces, and the process ends where there is none.

use bytes::Bytes;
use bytes::BytesMut;
use kafka_protocol::messages::fetch_response::AbortedTransaction;
use kafka_protocol::messages::fetch_response::FetchableTopicResponse;
use kafka_protocol::messages::fetch_response::PartitionData;
use kafka_protocol::messages::list_offsets_response::ListOffsetsPartitionResponse;
use kafka_protocol::messages::list_offsets_response::ListOffsetsTopicResponse;
use kafka_protocol::messages::metadata_response::MetadataResponsePartition;
use kafka_protocol::messages::metadata_response::MetadataResponseTopic;
use kafka_protocol::messages::BrokerId;
use kafka_protocol::messages::TopicName;
use kafka_protocol::protocol::Decodable;
use kafka_protocol::protocol::Encodable;
use kafka_protocol::protocol::StrBytes;
use std::collections::BTreeMap;
use std::io::Cursor;
use vstd::prelude::*;

verus! {

/// The bytes of tagged fields.
pub open spec fn tags_view(tags: Map<i32, Vec<u8>>) -> Map<i32, Seq<u8>> {
    tags.map_values(|v: Vec<u8>| v@)
}

/// The header of a request.
#[derive(Debug)]
pub struct RequestHeader {
    pub request_api_key: i16,
    pub request_api_version: i16,
    pub correlation_id: i32,
    pub client_id: Option<String>,
    pub unknown_tagged_fields: BTreeMap<i32, Vec<u8>>,
}

/// What the header of a request says.
#[verifier::ext_equal]
pub struct RequestHeaderView {
    pub api_key: i16,
    pub api_version: i16,
    pub correlation_id: i32,
    pub client_id: Option<Seq<char>>,
    pub tags: Map<i32, Seq<u8>>,
}

impl View for RequestHeader {
    type V = RequestHeaderView;

    open spec fn view(&self) -> RequestHeaderView {
        RequestHeaderView {
            api_key: self.request_api_key,
            api_version: self.request_api_version,
            correlation_id: self.correlation_id,
            client_id: self.client_id.deep_view(),
            tags: tags_view(self.unknown_tagged_fields@),
        }
    }
}

impl RequestHeader {
    pub fn copy(&self) -> (header: Self)
        ensures
            header@ == self@,
    {
        RequestHeader {
            request_api_key: self.request_api_key,
            request_api_version: self.request_api_version,
            correlation_id: self.correlation_id,
            client_id: match &self.client_id {
                Some(id) => Some(id.clone()),
                None => None,
            },
            unknown_tagged_fields: self.unknown_tagged_fields.clone(),
        }
    }
}

/// The header that the bytes of a request start with, in a version of the header, and how
/// many bytes it takes; nothing if they start with none.
pub uninterp spec fn request_header_decoded(bytes: Seq<u8>, version: i16) -> Option<
    (RequestHeaderView, nat),
>;

/// The bytes that the header of a request is written with, in a version of the header.
pub uninterp spec fn request_header_encoded(header: RequestHeaderView, version: i16) -> Seq<u8>;

/// `kafka_protocol::messages::RequestHeader::decode` reads a header from the start of the
/// bytes. It takes no more bytes than there are.
#[verifier::external_body]
pub(crate) fn decode_request_header(bytes: &[u8], version: i16) -> (r: Option<
    (RequestHeader, usize),
>)
    ensures
        match r {
            Some(h) => request_header_decoded(bytes@, version) == Some((h.0@, h.1 as nat)) && h.1
                <= bytes@.len(),
            None => request_header_decoded(bytes@, version) is None,
        },
{
    let mut buf = Cursor::new(bytes);
    let h = kafka_protocol::messages::RequestHeader::decode(&mut buf, version).ok()?;
    let header = RequestHeader {
        request_api_key: h.request_api_key,
        request_api_version: h.request_api_version,
        correlation_id: h.correlation_id,
        client_id: h.client_id.map(|id| id.to_string()),
        unknown_tagged_fields: h.unknown_tagged_fields,
    };
    Some((header, buf.position() as usize))
}

/// `kafka_protocol::messages::RequestHeader::encode` writes a header. What it wrote is
/// handed out even where it stopped at an error.
#[verifier::external_body]
pub(crate) fn encode_request_header(header: &RequestHeader, version: i16) -> (r: Vec<u8>)
    ensures
        r@ == request_header_encoded(header@, version),
{
    let mut h = kafka_protocol::messages::RequestHeader::default();
    h.request_api_key = header.request_api_key;
    h.request_api_version = header.request_api_version;
    h.correlation_id = header.correlation_id;
    h.client_id = header.client_id.clone().map(|id| {
        <StrBytes as string::TryFrom<Bytes>>::try_from(Bytes::from(id)).unwrap_or_default()
    });
    h.unknown_tagged_fields = header.unknown_tagged_fields.clone();
    let mut buf = BytesMut::new();
    let _ = h.encode(&mut buf, version);
    buf.to_vec()
}

/// The header of a response.
#[derive(Debug)]
pub struct ResponseHeader {
    pub correlation_id: i32,
    pub unknown_tagged_fields: BTreeMap<i32, Vec<u8>>,
}

/// What the header of a response says.
#[verifier::ext_equal]
pub struct ResponseHeaderView {
    pub correlation_id: i32,
    pub tags: Map<i32, Seq<u8>>,
}

impl View for ResponseHeader {
    type V = ResponseHeaderView;

    open spec fn view(&self) -> ResponseHeaderView {
        ResponseHeaderView {
            correlation_id: self.correlation_id,
            tags: tags_view(self.unknown_tagged_fields@),
        }
    }
}

impl ResponseHeader {
    /// A header without tagged fields.
    pub fn new(correlation_id: i32) -> (header: Self)
        ensures
            header@ == (ResponseHeaderView { correlation_id, tags: Map::empty() }),
    {
        let header = ResponseHeader { correlation_id, unknown_tagged_fields: BTreeMap::new() };
        assert(header@.tags =~= Map::<i32, Seq<u8>>::empty());
        header
    }
}

/// The header that the bytes of a response start with, in a version of the header.
pub uninterp spec fn response_header_decoded(bytes: Seq<u8>, version: i16) -> Option<
    ResponseHeaderView,
>;

/// The bytes that the header of a response is written with, in a version of the header.
pub uninterp spec fn response_header_encoded(header: ResponseHeaderView, version: i16) -> Seq<
    u8,
>;

/// How many bytes the header of a response is written with, in a version of the header.
pub uninterp spec fn response_header_size(header: ResponseHeaderView, version: i16) -> Option<
    usize,
>;

/// `kafka_protocol::messages::ResponseHeader::decode` reads a header from the start of the
/// bytes.
#[verifier::external_body]
pub(crate) fn decode_response_header(bytes: &[u8], version: i16) -> (r: Option<ResponseHeader>)
    ensures
        match r {
            Some(h) => response_header_decoded(bytes@, version) == Some(h@),
            None => response_header_decoded(bytes@, version) is None,
        },
{
    let h = kafka_protocol::messages::ResponseHeader::decode(&mut Cursor::new(bytes), version);
    h.ok().map(|h| ResponseHeader {
        correlation_id: h.correlation_id,
        unknown_tagged_fields: h.unknown_tagged_fields,
    })
}

/// `kafka_protocol::messages::ResponseHeader::encode` writes a header. What it wrote is
/// handed out even where it stopped at an error.
#[verifier::external_body]
pub(crate) fn encode_response_header(header: &ResponseHeader, version: i16) -> (r: Vec<u8>)
    ensures
        r@ == response_header_encoded(header@, version),
{
    let mut h = kafka_protocol::messages::ResponseHeader::default();
    h.correlation_id = header.correlation_id;
    h.unknown_tagged_fields = header.unknown_tagged_fields.clone();
    let mut buf = BytesMut::new();
    let _ = h.encode(&mut buf, version);
    buf.to_vec()
}

/// `kafka_protocol::messages::ResponseHeader::compute_size` tells how many bytes a header is
/// written with.
#[verifier::external_body]
pub(crate) fn size_of_response_header(header: &ResponseHeader, version: i16) -> (r: Option<usize>)
    ensures
        r == response_header_size(header@, version),
{
    let mut h = kafka_protocol::messages::ResponseHeader::default();
    h.correlation_id = header.correlation_id;
    h.unknown_tagged_fields = header.unknown_tagged_fields.clone();
    h.compute_size(version).ok()
}

/// `kafka_protocol::messages::MetadataRequest`, which is carried along as it is.
#[verifier::external_type_specification]
#[verifier::external_body]
pub struct ExMetadataRequest(kafka_protocol::messages::MetadataRequest);

/// The metadata request that the bytes start with, in a version of the message.
pub uninterp spec fn metadata_request_decoded(bytes: Seq<u8>, version: i16) -> Option<
    kafka_protocol::messages::MetadataRequest,
>;

/// The bytes that a metadata request is written with, in a version of the message.
pub uninterp spec fn metadata_request_encoded(
    request: kafka_protocol::messages::MetadataRequest,
    version: i16,
) -> Seq<u8>;

/// `kafka_protocol::messages::MetadataRequest::decode` reads a metadata request from the
/// start of the bytes.
#[verifier::external_body]
pub(crate) fn decode_metadata_request(bytes: &[u8], version: i16) -> (r: Option<
    kafka_protocol::messages::MetadataRequest,
>)
    ensures
        r == metadata_request_decoded(bytes@, version),
{
    kafka_protocol::messages::MetadataRequest::decode(&mut Cursor::new(bytes), version).ok()
}

/// `kafka_protocol::messages::MetadataRequest::encode` writes a metadata request. What it
/// wrote is handed out even where it stopped at an error.
#[verifier::external_body]
pub(crate) fn encode_metadata_request(
    request: &kafka_protocol::messages::MetadataRequest,
    version: i16,
) -> (r: Vec<u8>)
    ensures
        r@ == metadata_request_encoded(*request, version),
{
    let mut buf = BytesMut::new();
    let _ = request.encode(&mut buf, version);
    buf.to_vec()
}

/// `kafka_protocol::messages::FetchRequest`, which is carried along as it is.
#[verifier::external_type_specification]
#[verifier::external_body]
pub struct ExFetchRequest(kafka_protocol::messages::FetchRequest);

/// A partition that a fetch asks for, and the offset to read from.
#[derive(Debug, Clone, Copy)]
pub struct FetchPartition {
    pub partition: i32,
    pub fetch_offset: i64,
}

impl DeepView for FetchPartition {
    type V = FetchPartition;

    open spec fn deep_view(&self) -> FetchPartition {
        *self
    }
}

/// The partitions of a topic that a fetch asks for.
#[derive(Debug)]
pub struct FetchTopic {
    pub topic: String,
    pub partitions: Vec<FetchPartition>,
}

/// What a fetch asks for of a topic.
#[verifier::ext_equal]
pub struct FetchTopicView {
    pub topic: Seq<char>,
    pub partitions: Seq<FetchPartition>,
}

impl DeepView for FetchTopic {
    type V = FetchTopicView;

    open spec fn deep_view(&self) -> FetchTopicView {
        FetchTopicView { topic: self.topic@, partitions: self.partitions@ }
    }
}

/// What the proxy reads of a fetch.
#[derive(Debug)]
pub struct FetchReading {
    pub replica_id: i32,
    pub isolation_level: i8,
    pub session_id: i32,
    pub session_epoch: i32,
    pub topics: Vec<FetchTopic>,
}

/// What a fetch asks for.
#[verifier::ext_equal]
pub struct FetchReadingView {
    pub replica_id: i32,
    pub isolation_level: i8,
    pub session_id: i32,
    pub session_epoch: i32,
    pub topics: Seq<FetchTopicView>,
}

impl View for FetchReading {
    type V = FetchReadingView;

    open spec fn view(&self) -> FetchReadingView {
        FetchReadingView {
            replica_id: self.replica_id,
            isolation_level: self.isolation_level,
            session_id: self.session_id,
            session_epoch: self.session_epoch,
            topics: self.topics.deep_view(),
        }
    }
}

impl FetchReading {
    pub fn copy(&self) -> (reading: Self)
        ensures
            reading@ == self@,
    {
        let mut topics: Vec<FetchTopic> = Vec::new();
        let mut i: usize = 0;
        while i < self.topics.len()
            invariant
                i <= self.topics@.len(),
                topics@.len() == i,
                forall|j: int|
                    0 <= j < i ==> (#[trigger] topics@[j]).deep_view()
                        == self.topics@[j].deep_view(),
            decreases self.topics@.len() - i,
        {
            let topic = &self.topics[i];
            let partitions = topic.partitions.clone();
            assert(partitions@ =~= topic.partitions@);
            topics.push(FetchTopic { topic: topic.topic.clone(), partitions });
            i += 1;
        }
        assert(topics.deep_view() =~= self.topics.deep_view());
        FetchReading {
            replica_id: self.replica_id,
            isolation_level: self.isolation_level,
            session_id: self.session_id,
            session_epoch: self.session_epoch,
            topics,
        }
    }
}

/// The fetch that the bytes start with, in a version of the message: what it asks for, and
/// the message.
pub uninterp spec fn fetch_request_decoded(bytes: Seq<u8>, version: i16) -> Option<
    (FetchReadingView, kafka_protocol::messages::FetchRequest),
>;

/// The bytes that a fetch is written with, in a version of the message.
pub uninterp spec fn fetch_request_encoded(
    request: kafka_protocol::messages::FetchRequest,
    version: i16,
) -> Seq<u8>;

/// `kafka_protocol::messages::FetchRequest::decode` reads a fetch from the start of the
/// bytes.
#[verifier::external_body]
pub(crate) fn decode_fetch_request(bytes: &[u8], version: i16) -> (r: Option<
    (FetchReading, kafka_protocol::messages::FetchRequest),
>)
    ensures
        match r {
            Some(f) => fetch_request_decoded(bytes@, version) == Some((f.0@, f.1)),
            None => fetch_request_decoded(bytes@, version) is None,
        },
{
    let m = kafka_protocol::messages::FetchRequest::decode(&mut Cursor::new(bytes), version).ok()?;
    let topics = m.topics.iter().map(|t| FetchTopic {
        topic: t.topic.to_string(),
        partitions: t.partitions.iter().map(|p| FetchPartition {
            partition: p.partition, fetch_offset: p.fetch_offset }).collect(),
    }).collect();
    let reading = FetchReading {
        replica_id: m.replica_id.0, isolation_level: m.isolation_level,
        session_id: m.session_id, session_epoch: m.session_epoch, topics };
    Some((reading, m))
}

/// `kafka_protocol::messages::FetchRequest::encode` writes a fetch. What it wrote is handed
/// out even where it stopped at an error.
#[verifier::external_body]
pub(crate) fn encode_fetch_request(
    request: &kafka_protocol::messages::FetchRequest,
    version: i16,
) -> (r: Vec<u8>)
    ensures
        r@ == fetch_request_encoded(*request, version),
{
    let mut buf = BytesMut::new();
    let _ = request.encode(&mut buf, version);
    buf.to_vec()
}

/// `kafka_protocol::messages::ListOffsetsRequest`, which carries what is not read.
#[verifier::external_type_specification]
#[verifier::external_body]
pub struct ExListOffsetsRequest(kafka_protocol::messages::ListOffsetsRequest);

/// The part of a request for offsets about a topic, which carries what is not read.
#[verifier::external_type_specification]
#[verifier::external_body]
pub struct ExListOffsetsTopic(kafka_protocol::messages::list_offsets_request::ListOffsetsTopic);

/// The part of a request for offsets about a partition, which carries what is not read.
#[verifier::external_type_specification]
#[verifier::external_body]
pub struct ExListOffsetsPartition(
    kafka_protocol::messages::list_offsets_request::ListOffsetsPartition,
);

/// A partition of which a request wants to know the offsets. Without a rest, it has the
/// default values.
pub struct OffsetsPartition {
    pub partition_index: i32,
    pub rest: Option<kafka_protocol::messages::list_offsets_request::ListOffsetsPartition>,
}

impl DeepView for OffsetsPartition {
    type V = OffsetsPartition;

    open spec fn deep_view(&self) -> OffsetsPartition {
        *self
    }
}

/// A topic of which a request wants to know the offsets.
pub struct OffsetsTopic {
    pub name: String,
    pub partitions: Vec<OffsetsPartition>,
    pub rest: Option<kafka_protocol::messages::list_offsets_request::ListOffsetsTopic>,
}

/// What a request for offsets asks of a topic.
#[verifier::ext_equal]
pub struct OffsetsTopicView {
    pub name: Seq<char>,
    pub partitions: Seq<OffsetsPartition>,
    pub rest: Option<kafka_protocol::messages::list_offsets_request::ListOffsetsTopic>,
}

impl DeepView for OffsetsTopic {
    type V = OffsetsTopicView;

    open spec fn deep_view(&self) -> OffsetsTopicView {
        OffsetsTopicView { name: self.name@, partitions: self.partitions@, rest: self.rest }
    }
}

/// A request for offsets.
pub struct OffsetsRequest {
    pub replica_id: i32,
    pub isolation_level: i8,
    pub topics: Vec<OffsetsTopic>,
    pub rest: Option<kafka_protocol::messages::ListOffsetsRequest>,
}

/// What a request for offsets asks.
#[verifier::ext_equal]
pub struct OffsetsRequestView {
    pub replica_id: i32,
    pub isolation_level: i8,
    pub topics: Seq<OffsetsTopicView>,
    pub rest: Option<kafka_protocol::messages::ListOffsetsRequest>,
}

impl View for OffsetsRequest {
    type V = OffsetsRequestView;

    open spec fn view(&self) -> OffsetsRequestView {
        OffsetsRequestView {
            replica_id: self.replica_id,
            isolation_level: self.isolation_level,
            topics: self.topics.deep_view(),
            rest: self.rest,
        }
    }
}

/// The request for offsets that the bytes start with, in a version of the message.
pub uninterp spec fn offsets_request_decoded(bytes: Seq<u8>, version: i16) -> Option<
    OffsetsRequestView,
>;

/// The bytes that a request for offsets is written with, in a version of the message.
pub uninterp spec fn offsets_request_encoded(request: OffsetsRequestView, version: i16) -> Seq<u8>;

/// `kafka_protocol::messages::ListOffsetsRequest::decode` reads a request for offsets from
/// the start of the bytes.
#[verifier::external_body]
pub(crate) fn decode_offsets_request(bytes: &[u8], version: i16) -> (r: Option<OffsetsRequest>)
    ensures
        match r {
            Some(m) => offsets_request_decoded(bytes@, version) == Some(m@),
            None => offsets_request_decoded(bytes@, version) is None,
        },
{
    let mut buf = Cursor::new(bytes);
    let mut m = kafka_protocol::messages::ListOffsetsRequest::decode(&mut buf, version).ok()?;
    let topics = std::mem::take(&mut m.topics).into_iter().map(|mut t| OffsetsTopic {
        name: t.name.to_string(),
        partitions: std::mem::take(&mut t.partitions).into_iter().map(|p| OffsetsPartition {
            partition_index: p.partition_index, rest: Some(p) }).collect(),
        rest: Some(t),
    }).collect();
    Some(OffsetsRequest { replica_id: m.replica_id.0, isolation_level: m.isolation_level, topics,
        rest: Some(m) })
}

/// `kafka_protocol::messages::ListOffsetsRequest::encode` writes a request for offsets. What
/// it wrote is handed out even where it stopped at an error.
#[verifier::external_body]
pub(crate) fn encode_offsets_request(request: OffsetsRequest, version: i16) -> (r: Vec<u8>)
    ensures
        r@ == offsets_request_encoded(request@, version),
{
    let mut m = request.rest.unwrap_or_default();
    (m.replica_id, m.isolation_level) = (BrokerId(request.replica_id), request.isolation_level);
    m.topics = request.topics.into_iter().map(|t| {
        let mut u = t.rest.unwrap_or_default();
        let name = <StrBytes as string::TryFrom<Bytes>>::try_from(Bytes::from(t.name));
        u.name = TopicName(name.unwrap_or_default());
        u.partitions = t.partitions.into_iter().map(|p| {
            let mut q = p.rest.unwrap_or_default(); q.partition_index = p.partition_index; q
        }).collect();
        u
    }).collect();
    let mut buf = BytesMut::new();
    let _ = m.encode(&mut buf, version);
    buf.to_vec()
}

/// `kafka_protocol::messages::ListOffsetsResponse`, which carries what is not read.
#[verifier::external_type_specification]
#[verifier::external_body]
pub struct ExListOffsetsResponse(kafka_protocol::messages::ListOffsetsResponse);

/// The offsets of a topic, which carry what is not read.
#[verifier::external_type_specification]
#[verifier::external_body]
pub struct ExListOffsetsTopicResponse(ListOffsetsTopicResponse);

/// The offsets of a partition, which carry what is not read.
#[verifier::external_type_specification]
#[verifier::external_body]
pub struct ExListOffsetsPartitionResponse(ListOffsetsPartitionResponse);

/// `clone` of the offsets of a partition makes the same value.
pub assume_specification[ <ListOffsetsPartitionResponse as Clone>::clone ](
    partition: &ListOffsetsPartitionResponse,
) -> (r: ListOffsetsPartitionResponse)
    ensures
        r == *partition,
;

/// The offsets of a partition.
pub struct PartitionOffsets {
    pub partition_index: i32,
    pub rest: ListOffsetsPartitionResponse,
}

impl DeepView for PartitionOffsets {
    type V = PartitionOffsets;

    open spec fn deep_view(&self) -> PartitionOffsets {
        *self
    }
}

/// The offsets of the partitions of a topic.
pub struct TopicOffsets {
    pub name: String,
    pub partitions: Vec<PartitionOffsets>,
    pub rest: ListOffsetsTopicResponse,
}

/// What is known of the offsets of a topic.
#[verifier::ext_equal]
pub struct TopicOffsetsView {
    pub name: Seq<char>,
    pub partitions: Seq<PartitionOffsets>,
    pub rest: ListOffsetsTopicResponse,
}

impl DeepView for TopicOffsets {
    type V = TopicOffsetsView;

    open spec fn deep_view(&self) -> TopicOffsetsView {
        TopicOffsetsView { name: self.name@, partitions: self.partitions@, rest: self.rest }
    }
}

/// A response with offsets.
pub struct OffsetsResponse {
    pub topics: Vec<TopicOffsets>,
    pub rest: kafka_protocol::messages::ListOffsetsResponse,
}

/// What a response with offsets says.
#[verifier::ext_equal]
pub struct OffsetsResponseView {
    pub topics: Seq<TopicOffsetsView>,
    pub rest: kafka_protocol::messages::ListOffsetsResponse,
}

impl View for OffsetsResponse {
    type V = OffsetsResponseView;

    open spec fn view(&self) -> OffsetsResponseView {
        OffsetsResponseView { topics: self.topics.deep_view(), rest: self.rest }
    }
}

/// The response with offsets that the bytes start with, in a version of the message.
pub uninterp spec fn offsets_response_decoded(bytes: Seq<u8>, version: i16) -> Option<
    OffsetsResponseView,
>;

/// The bytes that a response with offsets is written with, in a version of the message.
pub uninterp spec fn offsets_response_encoded(
    response: OffsetsResponseView,
    version: i16,
) -> Seq<u8>;

/// `kafka_protocol::messages::ListOffsetsResponse::decode` reads a response with offsets
/// from the start of the bytes.
#[verifier::external_body]
pub(crate) fn decode_offsets_response(bytes: &[u8], version: i16) -> (r: Option<OffsetsResponse>)
    ensures
        match r {
            Some(m) => offsets_response_decoded(bytes@, version) == Some(m@),
            None => offsets_response_decoded(bytes@, version) is None,
        },
{
    let mut buf = Cursor::new(bytes);
    let mut m = kafka_protocol::messages::ListOffsetsResponse::decode(&mut buf, version).ok()?;
    let topics = std::mem::take(&mut m.topics).into_iter().map(|mut t| TopicOffsets {
        name: t.name.to_string(),
        partitions: std::mem::take(&mut t.partitions).into_iter().map(|p| PartitionOffsets {
            partition_index: p.partition_index, rest: p }).collect(),
        rest: t,
    }).collect();
    Some(OffsetsResponse { topics, rest: m })
}

/// `kafka_protocol::messages::ListOffsetsResponse::encode` writes a response with offsets.
/// What it wrote is handed out even where it stopped at an error.
#[verifier::external_body]
pub(crate) fn encode_offsets_response(response: OffsetsResponse, version: i16) -> (r: Vec<u8>)
    ensures
        r@ == offsets_response_encoded(response@, version),
{
    let mut m = response.rest;
    m.topics = response.topics.into_iter().map(|t| {
        let mut u = t.rest;
        let name = <StrBytes as string::TryFrom<Bytes>>::try_from(Bytes::from(t.name));
        u.name = TopicName(name.unwrap_or_default());
        u.partitions = t.partitions.into_iter().map(|p| {
            let mut q = p.rest; q.partition_index = p.partition_index; q
        }).collect();
        u
    }).collect();
    let mut buf = BytesMut::new();
    let _ = m.encode(&mut buf, version);
    buf.to_vec()
}

/// `kafka_protocol::messages::MetadataResponse`, which carries what is not read.
#[verifier::external_type_specification]
#[verifier::external_body]
pub struct ExMetadataResponse(kafka_protocol::messages::MetadataResponse);

/// The metadata of a topic, which carries what is not read.
#[verifier::external_type_specification]
#[verifier::external_body]
pub struct ExMetadataResponseTopic(MetadataResponseTopic);

/// The metadata of a partition, which carries what is not read.
#[verifier::external_type_specification]
#[verifier::external_body]
pub struct ExMetadataResponsePartition(MetadataResponsePartition);

/// `clone` of the metadata of a partition makes the same value.
pub assume_specification[ <MetadataResponsePartition as Clone>::clone ](
    partition: &MetadataResponsePartition,
) -> (r: MetadataResponsePartition)
    ensures
        r == *partition,
;

/// The metadata of a partition.
pub struct MetadataPartition {
    pub partition_index: i32,
    pub rest: MetadataResponsePartition,
}

impl DeepView for MetadataPartition {
    type V = MetadataPartition;

    open spec fn deep_view(&self) -> MetadataPartition {
        *self
    }
}

/// The metadata of a topic.
pub struct MetadataTopic {
    pub name: String,
    pub partitions: Vec<MetadataPartition>,
    pub rest: MetadataResponseTopic,
}

/// What is known of a topic.
#[verifier::ext_equal]
pub struct MetadataTopicView {
    pub name: Seq<char>,
    pub partitions: Seq<MetadataPartition>,
    pub rest: MetadataResponseTopic,
}

impl DeepView for MetadataTopic {
    type V = MetadataTopicView;

    open spec fn deep_view(&self) -> MetadataTopicView {
        MetadataTopicView { name: self.name@, partitions: self.partitions@, rest: self.rest }
    }
}

/// A response with metadata.
pub struct MetadataMessage {
    pub topics: Vec<MetadataTopic>,
    pub rest: kafka_protocol::messages::MetadataResponse,
}

/// What a response with metadata says.
#[verifier::ext_equal]
pub struct MetadataMessageView {
    pub topics: Seq<MetadataTopicView>,
    pub rest: kafka_protocol::messages::MetadataResponse,
}

impl View for MetadataMessage {
    type V = MetadataMessageView;

    open spec fn view(&self) -> MetadataMessageView {
        MetadataMessageView { topics: self.topics.deep_view(), rest: self.rest }
    }
}

/// The response with metadata that the bytes start with, in a version of the message.
pub uninterp spec fn metadata_decoded(bytes: Seq<u8>, version: i16) -> Option<MetadataMessageView>;

/// The bytes that a response with metadata is written with, in a version of the message.
pub uninterp spec fn metadata_encoded(response: MetadataMessageView, version: i16) -> Seq<u8>;

/// `kafka_protocol::messages::MetadataResponse::decode` reads a response with metadata from
/// the start of the bytes.
#[verifier::external_body]
pub(crate) fn decode_metadata(bytes: &[u8], version: i16) -> (r: Option<MetadataMessage>)
    ensures
        match r {
            Some(m) => metadata_decoded(bytes@, version) == Some(m@),
            None => metadata_decoded(bytes@, version) is None,
        },
{
    let mut buf = Cursor::new(bytes);
    let mut m = kafka_protocol::messages::MetadataResponse::decode(&mut buf, version).ok()?;
    let topics = std::mem::take(&mut m.topics).into_iter().map(|(name, mut t)| MetadataTopic {
        name: name.to_string(),
        partitions: std::mem::take(&mut t.partitions).into_iter().map(|p| MetadataPartition {
            partition_index: p.partition_index, rest: p }).collect(),
        rest: t,
    }).collect();
    Some(MetadataMessage { topics, rest: m })
}

/// `kafka_protocol::messages::MetadataResponse::encode` writes a response with metadata.
/// What it wrote is handed out even where it stopped at an error.
#[verifier::external_body]
pub(crate) fn encode_metadata(response: MetadataMessage, version: i16) -> (r: Vec<u8>)
    ensures
        r@ == metadata_encoded(response@, version),
{
    let mut m = response.rest;
    m.topics = response.topics.into_iter().map(|t| {
        let mut u = t.rest;
        let name = <StrBytes as string::TryFrom<Bytes>>::try_from(Bytes::from(t.name));
        u.partitions = t.partitions.into_iter().map(|p| {
            let mut q = p.rest; q.partition_index = p.partition_index; q
        }).collect();
        (TopicName(name.unwrap_or_default()), u)
    }).collect();
    let mut buf = BytesMut::new();
    let _ = m.encode(&mut buf, version);
    buf.to_vec()
}

/// `kafka_protocol::messages::FetchResponse`, which carries what is not read.
#[verifier::external_type_specification]
#[verifier::external_body]
pub struct ExFetchResponse(kafka_protocol::messages::FetchResponse);

/// What was fetched of a topic, which carries what is not read.
#[verifier::external_type_specification]
#[verifier::external_body]
pub struct ExFetchableTopicResponse(FetchableTopicResponse);

/// What was fetched of a partition, which carries what is not read.
#[verifier::external_type_specification]
#[verifier::external_body]
pub struct ExPartitionData(PartitionData);

/// What was fetched of a partition. Without a rest, it has the default values.
pub struct FetchedPartition {
    pub partition_index: i32,
    pub records: Option<Vec<u8>>,
    pub tags: BTreeMap<i32, Vec<u8>>,
    pub rest: Option<PartitionData>,
}

/// What is known of a fetched partition.
#[verifier::ext_equal]
pub struct FetchedPartitionView {
    pub partition_index: i32,
    pub records: Option<Seq<u8>>,
    pub tags: Map<i32, Seq<u8>>,
    pub rest: Option<PartitionData>,
}

impl DeepView for FetchedPartition {
    type V = FetchedPartitionView;

    open spec fn deep_view(&self) -> FetchedPartitionView {
        FetchedPartitionView {
            partition_index: self.partition_index,
            records: match self.records {
                Some(records) => Some(records@),
                None => None,
            },
            tags: tags_view(self.tags@),
            rest: self.rest,
        }
    }
}

impl FetchedPartitionView {
    /// A partition of which nothing was fetched.
    pub open spec fn fresh(partition_index: i32) -> FetchedPartitionView {
        FetchedPartitionView {
            partition_index,
            records: Some(Seq::empty()),
            tags: Map::empty(),
            rest: None,
        }
    }
}

impl FetchedPartition {
    /// A partition of which nothing was fetched.
    pub fn fresh(partition_index: i32) -> (partition: Self)
        ensures
            partition.deep_view() == FetchedPartitionView::fresh(partition_index),
    {
        let partition = FetchedPartition {
            partition_index,
            records: Some(Vec::new()),
            tags: BTreeMap::new(),
            rest: None,
        };
        assert(partition.deep_view() =~= FetchedPartitionView::fresh(partition_index));
        partition
    }
}

/// What was fetched of a topic.
pub struct FetchedTopic {
    pub topic: String,
    pub partitions: Vec<FetchedPartition>,
    pub rest: Option<FetchableTopicResponse>,
}

/// What is known of a fetched topic.
#[verifier::ext_equal]
pub struct FetchedTopicView {
    pub topic: Seq<char>,
    pub partitions: Seq<FetchedPartitionView>,
    pub rest: Option<FetchableTopicResponse>,
}

impl DeepView for FetchedTopic {
    type V = FetchedTopicView;

    open spec fn deep_view(&self) -> FetchedTopicView {
        FetchedTopicView {
            topic: self.topic@,
            partitions: self.partitions.deep_view(),
            rest: self.rest,
        }
    }
}

/// A response to a fetch.
pub struct FetchMessage {
    pub error_code: i16,
    pub session_id: i32,
    pub topics: Vec<FetchedTopic>,
    pub rest: Option<kafka_protocol::messages::FetchResponse>,
}

/// What a response to a fetch says.
#[verifier::ext_equal]
pub struct FetchMessageView {
    pub error_code: i16,
    pub session_id: i32,
    pub topics: Seq<FetchedTopicView>,
    pub rest: Option<kafka_protocol::messages::FetchResponse>,
}

impl View for FetchMessage {
    type V = FetchMessageView;

    open spec fn view(&self) -> FetchMessageView {
        FetchMessageView {
            error_code: self.error_code,
            session_id: self.session_id,
            topics: self.topics.deep_view(),
            rest: self.rest,
        }
    }
}

/// A partition with these offsets and these aborted transactions, each with its producer and
/// its first offset.
pub uninterp spec fn partition_with(
    high_watermark: i64,
    last_stable_offset: i64,
    log_start_offset: i64,
    aborted: Option<Seq<(i64, i64)>>,
) -> PartitionData;

/// The partition that the bytes start with, in a version of the message.
pub uninterp spec fn partition_decoded(bytes: Seq<u8>, version: i16) -> Option<
    FetchedPartitionView,
>;

/// The response to a fetch that the bytes start with, in a version of the message.
pub uninterp spec fn fetch_decoded(bytes: Seq<u8>, version: i16) -> Option<FetchMessageView>;

/// The bytes that a response to a fetch is written with, in a version of the message.
pub uninterp spec fn fetch_encoded(response: FetchMessageView, version: i16) -> Seq<u8>;

/// `kafka_protocol::messages::fetch_response::PartitionData::default` makes a partition, which
/// then gets these offsets and this list of aborted transactions.
#[verifier::external_body]
pub(crate) fn make_partition(
    high_watermark: i64,
    last_stable_offset: i64,
    log_start_offset: i64,
    aborted: Option<Vec<(i64, i64)>>,
) -> (r: PartitionData)
    ensures
        r == partition_with(
            high_watermark,
            last_stable_offset,
            log_start_offset,
            match aborted {
                Some(list) => Some(list@),
                None => None,
            },
        ),
{
    let mut p = PartitionData::default();
    p.high_watermark = high_watermark;
    p.last_stable_offset = last_stable_offset;
    p.log_start_offset = log_start_offset;
    p.aborted_transactions = aborted.map(|list| list.into_iter().map(|(producer, offset)| {
        let mut transaction = AbortedTransaction::default();
        transaction.producer_id = producer.into();
        transaction.first_offset = offset;
        transaction
    }).collect());
    p
}

/// `kafka_protocol::messages::fetch_response::PartitionData::decode` reads a partition from
/// the start of the bytes.
#[verifier::external_body]
pub(crate) fn decode_partition(bytes: &[u8], version: i16) -> (r: Option<FetchedPartition>)
    ensures
        match r {
            Some(p) => partition_decoded(bytes@, version) == Some(p.deep_view()),
            None => partition_decoded(bytes@, version) is None,
        },
{
    let mut p = PartitionData::decode(&mut Cursor::new(bytes), version).ok()?;
    Some(FetchedPartition {
        partition_index: p.partition_index,
        records: p.records.take().map(|b| b.to_vec()),
        tags: std::mem::take(&mut p.unknown_tagged_fields),
        rest: Some(p),
    })
}

/// `kafka_protocol::messages::FetchResponse::decode` reads a response to a fetch from the
/// start of the bytes.
#[verifier::external_body]
pub(crate) fn decode_fetch(bytes: &[u8], version: i16) -> (r: Option<FetchMessage>)
    ensures
        match r {
            Some(m) => fetch_decoded(bytes@, version) == Some(m@),
            None => fetch_decoded(bytes@, version) is None,
        },
{
    let mut buf = Cursor::new(bytes);
    let mut m = kafka_protocol::messages::FetchResponse::decode(&mut buf, version).ok()?;
    let topics = std::mem::take(&mut m.responses).into_iter().map(|mut t| FetchedTopic {
        topic: t.topic.to_string(),
        partitions: std::mem::take(&mut t.partitions).into_iter().map(|mut p| FetchedPartition {
            partition_index: p.partition_index,
            records: p.records.take().map(|b| b.to_vec()),
            tags: std::mem::take(&mut p.unknown_tagged_fields), rest: Some(p) }).collect(),
        rest: Some(t),
    }).collect();
    Some(FetchMessage { error_code: m.error_code, session_id: m.session_id, topics, rest: Some(m) })
}

/// `kafka_protocol::messages::FetchResponse::encode` writes a response to a fetch. What it
/// wrote is handed out even where it stopped at an error.
#[verifier::external_body]
pub(crate) fn encode_fetch(response: FetchMessage, version: i16) -> (r: Vec<u8>)
    ensures
        r@ == fetch_encoded(response@, version),
{
    let mut m = response.rest.unwrap_or_default();
    m.error_code = response.error_code;
    m.session_id = response.session_id;
    m.responses = response.topics.into_iter().map(|t| {
        let mut u = t.rest.unwrap_or_default();
        u.topic = TopicName(string::TryFrom::try_from(Bytes::from(t.topic)).unwrap_or_default());
        u.partitions = t.partitions.into_iter().map(|p| { let mut q = p.rest.unwrap_or_default();
            q.partition_index = p.partition_index; q.records = p.records.map(Bytes::from);
            q.unknown_tagged_fields = p.tags; q }).collect();
        u }).collect();
    let mut buf = BytesMut::new();
    let _ = m.encode(&mut buf, version);
    buf.to_vec()
}

} // verus!
