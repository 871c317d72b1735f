//! Tests of whether a connection can take a message.

use crate::kafka;
use crate::kafka::KafkaRoutingProtocol;
use crate::kafka::Protocol;
use crate::routing;
use crate::routing::RequestResponseKind;
use crate::routing::RequestType;
use crate::routing::RoutingMechanism;
use crate::routing::RoutingProtocol;
use crate::routing::RoutingTable;
use crate::routing::Routes;
use crate::routing::TableView;
use crate::text;
use crate::wire;
use vstd::prelude::*;

verus! {

/// Whether a payload has a length that the machine can count with.
fn is_sizable(payload: &Vec<u8>) -> (r: bool)
    ensures
        r <==> 4 <= payload@.len() <= isize::MAX && wire::u32_at(payload@, 0) <= isize::MAX,
{
    if payload.len() < 4 || payload.len() > isize::MAX as usize {
        return false;
    }
    let length: u32 = wire::read_u32(payload.as_slice(), 0);
    length as u64 <= isize::MAX as u64
}

/// Whether a request to one cluster can be queued.
fn can_queue_one(table: &RoutingTable, cluster: &String) -> (r: bool)
    ensures
        forall|t: TableView, routes: Routes|
            t.local_cluster == table@.local_cluster && t.initialised == table@.initialised
                && t.local_requests == table@.local_requests && routes.dom() == set![cluster@]
                ==> (r <==> #[trigger] t.can_queue(routes)),
{
    let r = match &table.local_cluster {
        None => false,
        Some(local) => {
            let ready = match table.are_initial_requests_set.get(cluster) {
                Some(b) => *b,
                None => false,
            };
            ready || *cluster == *local || table.local_requests.is_some()
        },
    };
    proof {
        assert forall|t: TableView, routes: Routes|
            t.local_cluster == table@.local_cluster && t.initialised == table@.initialised
                && t.local_requests == table@.local_requests && routes.dom() == set![cluster@]
            implies (r <==> #[trigger] t.can_queue(routes)) by {
            assert(routes.contains_key(cluster@));
            assert(forall|c: Seq<char>| #[trigger] routes.contains_key(c) ==> c == cluster@);
        }
    }
    r
}

/// Whether the request that the table holds can be routed.
pub fn can_route(table: &RoutingTable, protocol: &Protocol) -> (r: bool)
    ensures
        r <==> table@.can_route(*protocol),
{
    broadcast use text::bytes_deep_view;

    let payload = match &table.origin_request {
        Some(payload) => payload,
        None => {
            return false;
        },
    };
    assert(table@.origin_request == Some(payload@));
    let ghost t = table@.classified(*protocol);
    let deferred = table.routing_mechanism == RoutingMechanism::DeferRemoteLocalCommands;
    match protocol {
        Protocol::Kafka(p) => {
            if !is_sizable(payload) {
                return false;
            }
            let surplus: isize = p.payload_compare_size(true, payload);
            if surplus < 0 {
                return true;
            }
            let ghost request = routing::first_message(payload@, surplus as int);
            proof {
                assert(request.len() == 4 + wire::u32_at(payload@, 0));
                assert(wire::u32_at(request, 0) == wire::u32_at(payload@, 0));
            }
            let length: u32 = wire::read_u32(payload.as_slice(), 0);
            if length < 4 {
                return false;
            }
            assert(wire::i16_at(request, 4) == wire::i16_at(payload@, 4));
            let kind = match kafka::api_key(wire::read_i16(payload.as_slice(), 4)) {
                None => {
                    return false;
                },
                Some(kafka::ApiKey::ApiVersionsKey) => RequestResponseKind::Local,
                Some(kafka::ApiKey::MetadataKey) => RequestResponseKind::Local,
                Some(kafka::ApiKey::HeartbeatKey) => RequestResponseKind::Local,
                Some(kafka::ApiKey::SyncGroupKey) => RequestResponseKind::System,
                Some(_) => RequestResponseKind::Routable,
            };
            assert(t.request_kind == kind);
            if kind != RequestResponseKind::Routable {
                return !deferred || table.local_cluster.is_some();
            }
            match &table.default_cluster {
                None => false,
                Some(cluster) => {
                    let ghost routes = map![cluster@ => request];
                    assert(routes.contains_key(cluster@));
                    assert(protocol.split(t, request) == Ok::<Routes, routing::RouteError>(routes));
                    assert(t.or_default(routes) == routes);
                    assert(routes.dom() =~= set![cluster@]);
                    !deferred || can_queue_one(table, cluster)
                },
            }
        },
        Protocol::Default(_) => {
            let ghost request = payload@;
            match &table.local_cluster {
                Some(cluster) => {
                    let ghost routes = map![cluster@ => request];
                    assert(routes.contains_key(cluster@));
                    assert(protocol.split(t, request) == Ok::<Routes, routing::RouteError>(routes));
                    assert(t.or_default(routes) == routes);
                    assert(routes.dom() =~= set![cluster@]);
                    !deferred || can_queue_one(table, cluster)
                },
                None => table.default_cluster.is_some() && !deferred,
            }
        },
    }
}

/// Whether the table can take the bytes that a cluster answered to the request with the
/// token.
pub fn can_answer(table: &RoutingTable, protocol: &Protocol, token: u32, payload: &Vec<u8>) -> (r:
    bool)
    ensures
        r <==> table@.can_answer(*protocol, token, payload@),
{
    let ghost t = table@.with_response(token, payload@);
    let cluster: &String = match table.current_requests.get(&token) {
        Some(request) => &request.0,
        None => {
            return false;
        },
    };
    assert(table@.requests[token].0 == cluster@);
    let mut response: Vec<u8> = text::copy_bytes(payload);
    if let Some(previous) = table.current_responses.get(&token) {
        assert(table@.responses[token] == previous@);
        response = text::copy_bytes(previous);
        if table.current_response_kind == RequestResponseKind::Incomplete {
            response.extend_from_slice(payload.as_slice());
        }
    }
    assert(response@ =~= t.responses[token]);
    let surplus: isize = match protocol {
        Protocol::Kafka(p) => {
            if !is_sizable(&response) {
                return false;
            }
            p.payload_compare_size(false, &response)
        },
        Protocol::Default(p) => p.payload_compare_size(false, &response),
    };
    if surplus < 0 {
        return true;
    }
    if table.complete_requests == usize::MAX {
        return false;
    }
    let complete: usize = table.complete_requests + 1;
    let ghost u = t.with_first_message(token, surplus as int);
    assert(u.responses.contains_key(token));
    assert(u.requests == table@.requests);
    assert(table.current_requests@.dom() =~= u.requests.dom());
    let answerable = !table.check_last_request(cluster) || table.current_request_type
        != RequestType::RequestResponse || table.current_requests.len() == complete;
    assert(answerable == u.is_answerable(cluster@));
    if !answerable {
        return true;
    }
    match protocol {
        Protocol::Kafka(p) => can_merge(table, p, token, Ghost(u)),
        Protocol::Default(_) => true,
    }
}

/// Whether the responses can be merged, where the response with the token is complete.
fn can_merge(
    table: &RoutingTable,
    protocol: &KafkaRoutingProtocol,
    token: u32,
    after: Ghost<TableView>,
) -> (r: bool)
    requires
        after@.requests == table@.requests,
        after@.local_cluster == table@.local_cluster,
        after@.responses.contains_key(token),
        after@.responses[token].len() >= 4,
        forall|k: u32|
            k != token ==> (#[trigger] after@.responses.contains_key(k)
                <==> table@.responses.contains_key(k)),
        forall|k: u32|
            k != token && table@.responses.contains_key(k) ==> #[trigger] after@.responses[k]
                == table@.responses[k],
    ensures
        r <==> protocol.mergeable(after@, after@.responses),
{
    let ghost u = after@;
    let ghost local = kafka::local_requests(u);
    proof {
        assert(local =~= kafka::local_requests(table@));
        assert(u.responses != Map::<u32, Seq<u8>>::empty());
    }
    match kafka::first_local_request(table) {
        Some(chosen) => {
            proof {
                routing::lemma_first_key(local, chosen);
                assert(local.contains_key(chosen));
            }
            if chosen == token {
                true
            } else {
                match table.current_responses.get(&chosen) {
                    Some(response) => {
                        assert(table@.responses[chosen] == response@);
                        protocol.debug_protocol <= 0 || response.len() >= 4
                    },
                    None => {
                        assert(!table@.responses.contains_key(chosen));
                        false
                    },
                }
            }
        },
        None => {
            if protocol.debug_protocol <= 0 {
                return true;
            }
            let first: u32 = first_token(table, token);
            proof {
                assert(routing::is_first_key(u.responses, first)) by {
                    assert forall|j: u32| #[trigger] u.responses.contains_key(j) implies first
                        <= j by {
                        assert(j != token ==> table@.responses.contains_key(j));
                    }
                }
                routing::lemma_first_key(u.responses, first);
            }
            if first == token {
                true
            } else {
                match table.current_responses.get(&first) {
                    Some(response) => {
                        assert(table@.responses[first] == response@);
                        response.len() >= 4
                    },
                    None => false,
                }
            }
        },
    }
}

/// The smallest of a token and those of the responses.
fn first_token(table: &RoutingTable, token: u32) -> (first: u32)
    ensures
        first == token || table@.responses.contains_key(first),
        first <= token,
        forall|k: u32| #[trigger] table@.responses.contains_key(k) ==> first <= k,
{
    let mut first: u32 = token;
    for key in it: table.current_responses.keys()
        invariant
            it.seq().unref().to_set() == table.current_responses@.dom(),
            first <= token,
            first == token || table@.responses.contains_key(first),
            forall|j: int| 0 <= j < it.index() ==> first <= *#[trigger] it.seq()[j],
    {
        proof {
            routing::lemma_key_listed(it.seq(), table.current_responses@.dom(), it.index() as int);
        }
        if *key < first {
            first = *key;
        }
    }
    proof {
        assert forall|k: u32| #[trigger] table@.responses.contains_key(k) implies first <= k by {
            assert(table.current_responses@.dom().contains(k));
        }
    }
    first
}

} // verus!
