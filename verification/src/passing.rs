//! Messages that the proxy reads and passes on as they are. What it read is carried along as
//! the `kafka_protocol` value.
//!
//! What is said here of `kafka_protocol` holds as long as there is memory: it sets aside room
//! for as many items as a message announces, and the process ends where there is none.

use crate::kafka::ApiKey;
use kafka_protocol::messages::ApiVersionsRequest;
use kafka_protocol::messages::ApiVersionsResponse;
use kafka_protocol::messages::FindCoordinatorRequest;
use kafka_protocol::messages::FindCoordinatorResponse;
use kafka_protocol::messages::HeartbeatRequest;
use kafka_protocol::messages::HeartbeatResponse;
use kafka_protocol::messages::InitProducerIdRequest;
use kafka_protocol::messages::JoinGroupRequest;
use kafka_protocol::messages::JoinGroupResponse;
use kafka_protocol::messages::OffsetFetchRequest;
use kafka_protocol::messages::OffsetFetchResponse;
use kafka_protocol::messages::ProduceRequest;
use kafka_protocol::messages::ProduceResponse;
use kafka_protocol::messages::RequestKind;
use kafka_protocol::messages::ResponseKind;
use kafka_protocol::messages::SyncGroupRequest;
use kafka_protocol::messages::SyncGroupResponse;
use kafka_protocol::protocol::Decodable;
use std::io::Cursor;
use vstd::prelude::*;

verus! {

/// `kafka_protocol::messages::RequestKind`, a request of any kind.
#[verifier::external_type_specification]
#[verifier::external_body]
pub struct ExRequestKind(kafka_protocol::messages::RequestKind);

/// `kafka_protocol::messages::ResponseKind`, a response of any kind.
#[verifier::external_type_specification]
#[verifier::external_body]
pub struct ExResponseKind(kafka_protocol::messages::ResponseKind);

/// The request for the versions of the protocol that the bytes start with, in a version of the
/// message.
pub uninterp spec fn api_versions_request_decoded(bytes: Seq<u8>, version: i16) -> Option<
    RequestKind,
>;

/// `kafka_protocol::messages::ApiVersionsRequest::decode` reads a request for the versions of
/// the protocol.
#[verifier::external_body]
fn decode_api_versions_request(bytes: &[u8], version: i16) -> (r: Option<RequestKind>)
    ensures
        r == api_versions_request_decoded(bytes@, version),
{
    let message = ApiVersionsRequest::decode(&mut Cursor::new(bytes), version).ok()?;
    Some(RequestKind::ApiVersionsRequest(message))
}

/// The request with records to be stored that the bytes start with, in a version of the message.
pub uninterp spec fn produce_request_decoded(bytes: Seq<u8>, version: i16) -> Option<RequestKind>;

/// `kafka_protocol::messages::ProduceRequest::decode` reads a request with records to be stored.
#[verifier::external_body]
fn decode_produce_request(bytes: &[u8], version: i16) -> (r: Option<RequestKind>)
    ensures
        r == produce_request_decoded(bytes@, version),
{
    let message = ProduceRequest::decode(&mut Cursor::new(bytes), version).ok()?;
    Some(RequestKind::ProduceRequest(message))
}

/// The request for the coordinator of a group that the bytes start with, in a version of the
/// message.
pub uninterp spec fn find_coordinator_request_decoded(bytes: Seq<u8>, version: i16) -> Option<
    RequestKind,
>;

/// `kafka_protocol::messages::FindCoordinatorRequest::decode` reads a request for the
/// coordinator of a group.
#[verifier::external_body]
fn decode_find_coordinator_request(bytes: &[u8], version: i16) -> (r: Option<RequestKind>)
    ensures
        r == find_coordinator_request_decoded(bytes@, version),
{
    let message = FindCoordinatorRequest::decode(&mut Cursor::new(bytes), version).ok()?;
    Some(RequestKind::FindCoordinatorRequest(message))
}

/// The request to join a group that the bytes start with, in a version of the message.
pub uninterp spec fn join_group_request_decoded(bytes: Seq<u8>, version: i16) -> Option<
    RequestKind,
>;

/// `kafka_protocol::messages::JoinGroupRequest::decode` reads a request to join a group.
#[verifier::external_body]
fn decode_join_group_request(bytes: &[u8], version: i16) -> (r: Option<RequestKind>)
    ensures
        r == join_group_request_decoded(bytes@, version),
{
    let message = JoinGroupRequest::decode(&mut Cursor::new(bytes), version).ok()?;
    Some(RequestKind::JoinGroupRequest(message))
}

/// The request for the offsets of a group that the bytes start with, in a version of the message.
pub uninterp spec fn offset_fetch_request_decoded(bytes: Seq<u8>, version: i16) -> Option<
    RequestKind,
>;

/// `kafka_protocol::messages::OffsetFetchRequest::decode` reads a request for the offsets of a
/// group.
#[verifier::external_body]
fn decode_offset_fetch_request(bytes: &[u8], version: i16) -> (r: Option<RequestKind>)
    ensures
        r == offset_fetch_request_decoded(bytes@, version),
{
    let message = OffsetFetchRequest::decode(&mut Cursor::new(bytes), version).ok()?;
    Some(RequestKind::OffsetFetchRequest(message))
}

/// The request to share out the work of a group that the bytes start with, in a version of the
/// message.
pub uninterp spec fn sync_group_request_decoded(bytes: Seq<u8>, version: i16) -> Option<
    RequestKind,
>;

/// `kafka_protocol::messages::SyncGroupRequest::decode` reads a request to share out the work
/// of a group.
#[verifier::external_body]
fn decode_sync_group_request(bytes: &[u8], version: i16) -> (r: Option<RequestKind>)
    ensures
        r == sync_group_request_decoded(bytes@, version),
{
    let message = SyncGroupRequest::decode(&mut Cursor::new(bytes), version).ok()?;
    Some(RequestKind::SyncGroupRequest(message))
}

/// The request to stay in a group that the bytes start with, in a version of the message.
pub uninterp spec fn heartbeat_request_decoded(bytes: Seq<u8>, version: i16) -> Option<RequestKind>;

/// `kafka_protocol::messages::HeartbeatRequest::decode` reads a request to stay in a group.
#[verifier::external_body]
fn decode_heartbeat_request(bytes: &[u8], version: i16) -> (r: Option<RequestKind>)
    ensures
        r == heartbeat_request_decoded(bytes@, version),
{
    let message = HeartbeatRequest::decode(&mut Cursor::new(bytes), version).ok()?;
    Some(RequestKind::HeartbeatRequest(message))
}

/// The request for the number of a producer that the bytes start with, in a version of the message.
pub uninterp spec fn init_producer_id_request_decoded(bytes: Seq<u8>, version: i16) -> Option<
    RequestKind,
>;

/// `kafka_protocol::messages::InitProducerIdRequest::decode` reads a request for the number of
/// a producer.
#[verifier::external_body]
fn decode_init_producer_id_request(bytes: &[u8], version: i16) -> (r: Option<RequestKind>)
    ensures
        r == init_producer_id_request_decoded(bytes@, version),
{
    let message = InitProducerIdRequest::decode(&mut Cursor::new(bytes), version).ok()?;
    Some(RequestKind::InitProducerIdRequest(message))
}

/// The response to a request for the versions of the protocol that the bytes start with, in a
/// version of the
/// message.
pub uninterp spec fn api_versions_response_decoded(bytes: Seq<u8>, version: i16) -> Option<
    ResponseKind,
>;

/// `kafka_protocol::messages::ApiVersionsResponse::decode` reads the response to a request
/// for the versions of the protocol.
#[verifier::external_body]
fn decode_api_versions_response(bytes: &[u8], version: i16) -> (r: Option<ResponseKind>)
    ensures
        r == api_versions_response_decoded(bytes@, version),
{
    let message = ApiVersionsResponse::decode(&mut Cursor::new(bytes), version).ok()?;
    Some(ResponseKind::ApiVersionsResponse(message))
}

/// The response to a request with records to be stored that the bytes start with, in a version
/// of the
/// message.
pub uninterp spec fn produce_response_decoded(bytes: Seq<u8>, version: i16) -> Option<ResponseKind>;

/// `kafka_protocol::messages::ProduceResponse::decode` reads the response to a request
/// with records to be stored.
#[verifier::external_body]
fn decode_produce_response(bytes: &[u8], version: i16) -> (r: Option<ResponseKind>)
    ensures
        r == produce_response_decoded(bytes@, version),
{
    let message = ProduceResponse::decode(&mut Cursor::new(bytes), version).ok()?;
    Some(ResponseKind::ProduceResponse(message))
}

/// The response to a request for the coordinator of a group that the bytes start with, in a
/// version of the
/// message.
pub uninterp spec fn find_coordinator_response_decoded(bytes: Seq<u8>, version: i16) -> Option<
    ResponseKind,
>;

/// `kafka_protocol::messages::FindCoordinatorResponse::decode` reads the response to a request
/// for the coordinator of a group.
#[verifier::external_body]
fn decode_find_coordinator_response(bytes: &[u8], version: i16) -> (r: Option<ResponseKind>)
    ensures
        r == find_coordinator_response_decoded(bytes@, version),
{
    let message = FindCoordinatorResponse::decode(&mut Cursor::new(bytes), version).ok()?;
    Some(ResponseKind::FindCoordinatorResponse(message))
}

/// The response to a request to join a group that the bytes start with, in a version of the
/// message.
pub uninterp spec fn join_group_response_decoded(bytes: Seq<u8>, version: i16) -> Option<
    ResponseKind,
>;

/// `kafka_protocol::messages::JoinGroupResponse::decode` reads the response to a request
/// to join a group.
#[verifier::external_body]
fn decode_join_group_response(bytes: &[u8], version: i16) -> (r: Option<ResponseKind>)
    ensures
        r == join_group_response_decoded(bytes@, version),
{
    let message = JoinGroupResponse::decode(&mut Cursor::new(bytes), version).ok()?;
    Some(ResponseKind::JoinGroupResponse(message))
}

/// The response to a request for the offsets of a group that the bytes start with, in a
/// version of the
/// message.
pub uninterp spec fn offset_fetch_response_decoded(bytes: Seq<u8>, version: i16) -> Option<
    ResponseKind,
>;

/// `kafka_protocol::messages::OffsetFetchResponse::decode` reads the response to a request
/// for the offsets of a group.
#[verifier::external_body]
fn decode_offset_fetch_response(bytes: &[u8], version: i16) -> (r: Option<ResponseKind>)
    ensures
        r == offset_fetch_response_decoded(bytes@, version),
{
    let message = OffsetFetchResponse::decode(&mut Cursor::new(bytes), version).ok()?;
    Some(ResponseKind::OffsetFetchResponse(message))
}

/// The response to a request to share out the work of a group that the bytes start with, in a
/// version of the
/// message.
pub uninterp spec fn sync_group_response_decoded(bytes: Seq<u8>, version: i16) -> Option<
    ResponseKind,
>;

/// `kafka_protocol::messages::SyncGroupResponse::decode` reads the response to a request
/// to share out the work of a group.
#[verifier::external_body]
fn decode_sync_group_response(bytes: &[u8], version: i16) -> (r: Option<ResponseKind>)
    ensures
        r == sync_group_response_decoded(bytes@, version),
{
    let message = SyncGroupResponse::decode(&mut Cursor::new(bytes), version).ok()?;
    Some(ResponseKind::SyncGroupResponse(message))
}

/// The response to a request to stay in a group that the bytes start with, in a version of the
/// message.
pub uninterp spec fn heartbeat_response_decoded(bytes: Seq<u8>, version: i16) -> Option<
    ResponseKind,
>;

/// `kafka_protocol::messages::HeartbeatResponse::decode` reads the response to a request
/// to stay in a group.
#[verifier::external_body]
fn decode_heartbeat_response(bytes: &[u8], version: i16) -> (r: Option<ResponseKind>)
    ensures
        r == heartbeat_response_decoded(bytes@, version),
{
    let message = HeartbeatResponse::decode(&mut Cursor::new(bytes), version).ok()?;
    Some(ResponseKind::HeartbeatResponse(message))
}

/// The request with a key that the bytes start with; nothing for a key whose requests are not read
/// here, or where the bytes are no such request.
pub open spec fn passing_request(key: ApiKey, bytes: Seq<u8>, version: i16) -> Option<RequestKind> {
    match key {
        ApiKey::ApiVersionsKey => api_versions_request_decoded(bytes, version),
        ApiKey::ProduceKey => produce_request_decoded(bytes, version),
        ApiKey::FindCoordinatorKey => find_coordinator_request_decoded(bytes, version),
        ApiKey::JoinGroupKey => join_group_request_decoded(bytes, version),
        ApiKey::OffsetFetchKey => offset_fetch_request_decoded(bytes, version),
        ApiKey::SyncGroupKey => sync_group_request_decoded(bytes, version),
        ApiKey::HeartbeatKey => heartbeat_request_decoded(bytes, version),
        ApiKey::InitProducerIdKey => init_producer_id_request_decoded(bytes, version),
        _ => None,
    }
}

/// Reads the request with a key.
pub(crate) fn decode_passing_request(key: ApiKey, bytes: &[u8], version: i16) -> (r: Option<RequestKind>)
    ensures
        r == passing_request(key, bytes@, version),
{
    match key {
        ApiKey::ApiVersionsKey => decode_api_versions_request(bytes, version),
        ApiKey::ProduceKey => decode_produce_request(bytes, version),
        ApiKey::FindCoordinatorKey => decode_find_coordinator_request(bytes, version),
        ApiKey::JoinGroupKey => decode_join_group_request(bytes, version),
        ApiKey::OffsetFetchKey => decode_offset_fetch_request(bytes, version),
        ApiKey::SyncGroupKey => decode_sync_group_request(bytes, version),
        ApiKey::HeartbeatKey => decode_heartbeat_request(bytes, version),
        ApiKey::InitProducerIdKey => decode_init_producer_id_request(bytes, version),
        _ => None,
    }
}

/// The response with a key that the bytes start with; nothing for a key whose responses are
/// not read
/// here, or where the bytes are no such response.
pub open spec fn passing_response(key: ApiKey, bytes: Seq<u8>, version: i16) -> Option<ResponseKind> {
    match key {
        ApiKey::ApiVersionsKey => api_versions_response_decoded(bytes, version),
        ApiKey::ProduceKey => produce_response_decoded(bytes, version),
        ApiKey::FindCoordinatorKey => find_coordinator_response_decoded(bytes, version),
        ApiKey::JoinGroupKey => join_group_response_decoded(bytes, version),
        ApiKey::OffsetFetchKey => offset_fetch_response_decoded(bytes, version),
        ApiKey::SyncGroupKey => sync_group_response_decoded(bytes, version),
        ApiKey::HeartbeatKey => heartbeat_response_decoded(bytes, version),
        _ => None,
    }
}

/// Reads the response with a key.
pub(crate) fn decode_passing_response(key: ApiKey, bytes: &[u8], version: i16) -> (r: Option<ResponseKind>)
    ensures
        r == passing_response(key, bytes@, version),
{
    match key {
        ApiKey::ApiVersionsKey => decode_api_versions_response(bytes, version),
        ApiKey::ProduceKey => decode_produce_response(bytes, version),
        ApiKey::FindCoordinatorKey => decode_find_coordinator_response(bytes, version),
        ApiKey::JoinGroupKey => decode_join_group_response(bytes, version),
        ApiKey::OffsetFetchKey => decode_offset_fetch_response(bytes, version),
        ApiKey::SyncGroupKey => decode_sync_group_response(bytes, version),
        ApiKey::HeartbeatKey => decode_heartbeat_response(bytes, version),
        _ => None,
    }
}

} // verus!
