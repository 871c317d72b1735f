//! The way of messages through the proxy: where a request goes, what is put together of the
//! responses to it, and how both are read from bytes.

use crate::codec;
use crate::data::Connections;
use crate::downstream::DownstreamStep;
use crate::filter::FilterError;
use crate::filter::FilterView;
use crate::filter::Waiting;
use crate::kafka;
use crate::kafka::ApiKey;
use crate::kafka::KafkaError;
use crate::kafka::KafkaRoutingProtocol;
use crate::kafka::Protocol;
use crate::kafka::ReadRequestView;
use crate::kafka::ReadResponseView;
use crate::kafka::RequestView;
use crate::kafka::ResponseView;
use crate::passing;
use crate::routing;
use crate::routing::RequestResponseKind;
use crate::routing::RequestType;
use crate::routing::RouteError;
use crate::routing::Routes;
use crate::routing::RoutingProtocol;
use crate::routing::TableView;
use crate::routing_laws::pending;
use crate::upstream::UpstreamView;
use crate::wire;
use vstd::prelude::*;

verus! {

/// The table once it holds the first message of what was received, and knows what it is about.
pub open spec fn holding(
    table: TableView,
    request: Seq<u8>,
    class: (RequestType, RequestResponseKind, RequestResponseKind),
) -> TableView {
    TableView {
        origin_request: Some(request),
        request_type: class.0,
        request_kind: class.1,
        response_kind: class.2,
        ..table
    }
}

/// Whether a table holds the first message of what another one holds, with so many bytes behind
/// it.
pub open spec fn is_first_message(payload: Seq<u8>, surplus: int, request: Seq<u8>) -> bool {
    &&& 0 <= surplus <= payload.len()
    &&& request.len() == payload.len() - surplus
    &&& request.is_prefix_of(payload)
}

/// A request of which bytes are missing is not routed, and nothing but its kind is noted.
pub proof fn incomplete_requests_are_not_routed<P: RoutingProtocol>(table: TableView, protocol: P)
    requires
        table.origin_request is Some,
        protocol.surplus(true, table.origin_request->Some_0) < 0,
    ensures
        table.routed(protocol).result == Err::<Routes, RouteError>(RouteError::Incomplete),
        table.routed(protocol).remaining == 0,
        table.routed(protocol).table == holding(
            table,
            table.origin_request->Some_0,
            (
                RequestType::Incomplete,
                RequestResponseKind::Incomplete,
                RequestResponseKind::Incomplete,
            ),
        ),
{
}

/// A request that sets up a connection goes as it is to every cluster and to no other one; where
/// the remote ones are to get it later, it goes to the local one alone, and is kept behind those
/// that were kept before it as long as the local one is not set up. Requests of the system are
/// not kept.
pub proof fn setup_requests_are_spread<P: RoutingProtocol>(
    table: TableView,
    protocol: P,
    request: Seq<u8>,
)
    requires
        table.origin_request is Some,
        is_first_message(
            table.origin_request->Some_0,
            protocol.surplus(true, table.origin_request->Some_0),
            request,
        ),
        protocol.classification(request).1 is System || protocol.classification(request).1 is Local,
        table.mechanism is DeferRemoteLocalCommands ==> table.local_cluster is Some,
    ensures
        ({
            let r = table.routed(protocol);
            let class = protocol.classification(request);
            let t = TableView { complete_requests: 0, ..holding(table, request, class) };
            let local = table.local_cluster->Some_0;
            let is_kept = table.mechanism is DeferRemoteLocalCommands && class.1 is Local && !(
            table.initialised.contains_key(local) && table.initialised[local]);
            &&& r.result is Ok
            &&& r.remaining == protocol.surplus(true, table.origin_request->Some_0)
            &&& forall|c: Seq<char>| #[trigger]
                r.result->Ok_0.contains_key(c) <==> if table.mechanism is Synchronous {
                    table.clusters.contains(c)
                } else {
                    c == local
                }
            &&& forall|c: Seq<char>| #[trigger]
                r.result->Ok_0.contains_key(c) ==> r.result->Ok_0[c] == request
            &&& !is_kept ==> r.table == t
            &&& is_kept ==> r.table == (TableView {
                local_requests: Some(
                    (if table.local_requests is Some {
                        table.local_requests->Some_0
                    } else {
                        Seq::<Seq<u8>>::empty()
                    }).push(request),
                ),
                ..t
            })
        }),
{
    let payload = table.origin_request->Some_0;
    let surplus = protocol.surplus(true, payload);
    assert(routing::first_message(payload, surplus) =~= request);
}

/// Where all clusters are served at once, a request that is to be routed goes where the protocol
/// sends it, and to the default cluster as it is where the protocol sends it nowhere.
pub proof fn requests_go_where_the_protocol_sends_them<P: RoutingProtocol>(
    table: TableView,
    protocol: P,
    request: Seq<u8>,
    cluster: Seq<char>,
)
    requires
        table.origin_request is Some,
        table.mechanism is Synchronous,
        is_first_message(
            table.origin_request->Some_0,
            protocol.surplus(true, table.origin_request->Some_0),
            request,
        ),
        protocol.classification(request).1 is Routable,
    ensures
        ({
            let r = table.routed(protocol);
            let t = holding(table, request, protocol.classification(request));
            match protocol.split(t, request) {
                Err(e) => r.result == Err::<Routes, RouteError>(e) && r.remaining == 0 && r.table
                    == t,
                Ok(routes) => {
                    &&& r.result is Ok
                    &&& r.remaining == protocol.surplus(true, table.origin_request->Some_0)
                    &&& r.table == (TableView { complete_requests: 0, ..t })
                    &&& routes.contains_key(cluster) ==> r.result->Ok_0 == routes
                    &&& routes.dom() == Set::<Seq<char>>::empty() ==> {
                        &&& r.result->Ok_0.contains_key(cluster) <==> cluster
                            == table.default_cluster->Some_0
                        &&& r.result->Ok_0[table.default_cluster->Some_0] == request
                    }
                },
            }
        }),
{
    let payload = table.origin_request->Some_0;
    let surplus = protocol.surplus(true, payload);
    assert(routing::first_message(payload, surplus) =~= request);
    let t = holding(table, request, protocol.classification(request));
    assert(table.classified(protocol) == t);
    if protocol.split(t, request) is Ok {
        let routes = protocol.split(t, request)->Ok_0;
        if routes.dom() == Set::<Seq<char>>::empty() {
            assert(routes =~= Map::<Seq<char>, Seq<u8>>::empty());
        }
        if routes.contains_key(cluster) {
            assert(routes != Map::<Seq<char>, Seq<u8>>::empty());
        }
    }
}

/// What a cluster is handed of routes: nothing or one request.
pub open spec fn handed(routes: Routes, cluster: Seq<char>) -> Seq<Seq<u8>> {
    if routes.contains_key(cluster) {
        seq![routes[cluster]]
    } else {
        Seq::empty()
    }
}

/// Where the remote clusters are set up later, nothing that a cluster is to get is lost or comes
/// out of order: what it is handed now, and what it is to get after that, is what it was to get
/// before, then the requests that set up a connection where it goes to a remote cluster that has
/// not got them, and then its part of the request. It is handed something exactly if there is
/// something for it, and it counts as set up once it has a part, as the local one does.
pub proof fn every_cluster_gets_its_requests_in_order<P: RoutingProtocol>(
    table: TableView,
    protocol: P,
    request: Seq<u8>,
    routes: Routes,
    cluster: Seq<char>,
)
    requires
        table.origin_request is Some,
        table.mechanism is DeferRemoteLocalCommands,
        is_first_message(
            table.origin_request->Some_0,
            protocol.surplus(true, table.origin_request->Some_0),
            request,
        ),
        protocol.classification(request).1 is Routable,
        protocol.split(holding(table, request, protocol.classification(request)), request) == Ok::<
            Routes,
            RouteError,
        >(routes),
        routes.dom() != Set::<Seq<char>>::empty(),
        table.can_route(protocol),
    ensures
        ({
            let r = table.routed(protocol);
            let is_set_up = table.initialised.contains_key(cluster) && table.initialised[cluster];
            let setup = if routes.contains_key(cluster) && !is_set_up && Some(cluster)
                != table.local_cluster {
                table.local_requests->Some_0
            } else {
                Seq::<Seq<u8>>::empty()
            };
            let all = pending(table, cluster) + setup + handed(routes, cluster);
            &&& r.result is Ok
            &&& r.remaining == protocol.surplus(true, table.origin_request->Some_0)
            &&& handed(r.result->Ok_0, cluster) + pending(r.table, cluster) == all
            &&& r.result->Ok_0.contains_key(cluster) <==> all.len() > 0
            &&& (r.table.initialised.contains_key(cluster) && r.table.initialised[cluster])
                <==> is_set_up || routes.contains_key(cluster) || Some(cluster)
                == table.local_cluster
            &&& r.table == (TableView {
                complete_requests: 0,
                initialised: r.table.initialised,
                future_requests: r.table.future_requests,
                ..holding(table, request, protocol.classification(request))
            })
        }),
{
    let payload = table.origin_request->Some_0;
    let surplus = protocol.surplus(true, payload);
    assert(routing::first_message(payload, surplus) =~= request);
    let t = holding(table, request, protocol.classification(request));
    assert(table.classified(protocol) == t);
    assert(routes != Map::<Seq<char>, Seq<u8>>::empty()) by {
        if routes == Map::<Seq<char>, Seq<u8>>::empty() {
            assert(routes.dom() =~= Set::<Seq<char>>::empty());
        }
    }
    let queued = t.queued(routes);
    let r = table.routed(protocol);
    let is_set_up = table.initialised.contains_key(cluster) && table.initialised[cluster];
    let setup = if routes.contains_key(cluster) && !is_set_up && Some(cluster)
        != table.local_cluster {
        table.local_requests->Some_0
    } else {
        Seq::<Seq<u8>>::empty()
    };
    let all = pending(table, cluster) + setup + handed(routes, cluster);
    assert(pending(queued, cluster) =~= all);
    if all.len() > 0 {
        assert(seq![all[0]] + all.skip(1) =~= all);
        assert(pending(r.table, cluster) =~= all.skip(1));
    } else {
        assert(pending(r.table, cluster) =~= all);
        assert(handed(r.result->Ok_0, cluster) + pending(r.table, cluster) =~= all);
    }
}

/// What becomes of a response, from its bytes: they go behind those that came before them where
/// the response was incomplete, and are dropped where a whole one is waiting. As long as bytes
/// are missing, nothing else happens. A whole one is cut to its first message and counted. It
/// waits for those of the other clusters, where the request has one response and its own cluster
/// is to get nothing more; otherwise the responses that are there are merged, and leave the
/// table: this one alone where its cluster is to get more, and else those of all requests, which
/// are then no longer open where they have one response and none is left.
pub proof fn what_becomes_of_a_response<P: RoutingProtocol>(
    table: TableView,
    protocol: P,
    token: u32,
    payload: Seq<u8>,
    held: Seq<u8>,
    message: Seq<u8>,
)
    requires
        table.requests.contains_key(token),
        table.complete_requests < usize::MAX,
        !table.responses.contains_key(token) ==> held == payload,
        table.responses.contains_key(token) && table.response_kind is Incomplete ==> held
            == table.responses[token] + payload,
        table.responses.contains_key(token) && !(table.response_kind is Incomplete) ==> held
            == table.responses[token],
        protocol.surplus(false, held) >= 0 ==> is_first_message(
            held,
            protocol.surplus(false, held),
            message,
        ),
    ensures
        ({
            let r = table.responded(protocol, token, payload);
            let surplus = protocol.surplus(false, held);
            let more = pending(table, table.requests[token].0).len() > 0;
            let single = table.request_type is RequestResponse;
            let counted = TableView {
                responses: table.responses.insert(token, message),
                complete_requests: (table.complete_requests + 1) as usize,
                ..table
            };
            let merged = protocol.merged(counted, counted.responses);
            &&& surplus < 0 ==> {
                &&& r.result == Err::<Seq<u8>, RouteError>(RouteError::Incomplete)
                &&& r.remaining == 0
                &&& r.table == (TableView {
                    responses: table.responses.insert(token, held),
                    response_kind: RequestResponseKind::Incomplete,
                    ..table
                })
            }
            &&& surplus >= 0 ==> r.remaining == surplus
            &&& surplus >= 0 && single && !more && table.requests.len() != table.complete_requests
                + 1 ==> r.result == Err::<Seq<u8>, RouteError>(RouteError::Wait) && r.table
                == counted
            &&& surplus >= 0 && (!single || more || table.requests.len() == table.complete_requests
                + 1) ==> {
                &&& r.result == merged
                &&& merged is Err ==> r.table == counted
                &&& merged is Ok && more ==> r.table == (TableView {
                    responses: table.responses.remove(token),
                    ..counted
                })
                &&& merged is Ok && !more ==> {
                    &&& forall|k: u32| #[trigger]
                        r.table.responses.contains_key(k) <==> table.responses.contains_key(k)
                            && !table.requests.contains_key(k)
                    &&& forall|k: u32| #[trigger]
                        r.table.responses.contains_key(k) ==> r.table.responses[k]
                            == table.responses[k]
                    &&& r.table.requests == (if single && r.table.responses.dom() == Set::<
                        u32,
                    >::empty() {
                        Map::<u32, (Seq<char>, Seq<u8>)>::empty()
                    } else {
                        table.requests
                    })
                    &&& r.table == (TableView {
                        responses: r.table.responses,
                        requests: r.table.requests,
                        ..counted
                    })
                }
            }
        }),
{
    let r = table.responded(protocol, token, payload);
    let surplus = protocol.surplus(false, held);
    let cluster = table.requests[token].0;
    let t = table.with_response(token, payload);
    assert(t.responses =~= table.responses.insert(token, held));
    assert(t.responses[token] == held);
    let counted = TableView {
        responses: table.responses.insert(token, message),
        complete_requests: (table.complete_requests + 1) as usize,
        ..table
    };
    if surplus >= 0 {
        assert(routing::first_message(held, surplus) =~= message);
        let u = t.with_first_message(token, surplus);
        assert(u.responses =~= counted.responses);
        assert(u == counted);
        let more = pending(table, cluster).len() > 0;
        assert(u.is_last(cluster) <==> !more);
        assert(counted.responses.remove(token) =~= table.responses.remove(token));
        let left = counted.responses.remove_keys(counted.requests.dom());
        if left.dom() == Set::<u32>::empty() {
            assert(left =~= Map::<u32, Seq<u8>>::empty());
        }
    }
}

/// The numbers of the requests that the proxy knows, with the first version whose header has
/// tagged fields.
pub open spec fn known_requests() -> Seq<(ApiKey, i16, i16)> {
    seq![
        (ApiKey::ProduceKey, 0, 9),
        (ApiKey::FetchKey, 1, 12),
        (ApiKey::ListOffsetsKey, 2, 6),
        (ApiKey::MetadataKey, 3, 9),
        (ApiKey::OffsetCommitKey, 8, 8),
        (ApiKey::OffsetFetchKey, 9, 6),
        (ApiKey::FindCoordinatorKey, 10, 3),
        (ApiKey::JoinGroupKey, 11, 6),
        (ApiKey::HeartbeatKey, 12, 4),
        (ApiKey::SyncGroupKey, 14, 4),
        (ApiKey::ApiVersionsKey, 18, 3),
        (ApiKey::InitProducerIdKey, 22, 2),
    ]
}

/// Whether a number is that of a request that the proxy knows.
pub open spec fn is_known_number(number: int) -> bool {
    exists|i: int| 0 <= i < known_requests().len() && (#[trigger] known_requests()[i]).1 == number
}

/// Requests are known by their numbers, and by no others. From its first version with tagged
/// fields on, the header of a request has version two, and that of a response has version one;
/// before it they have one less. The header of a response about versions never has them.
pub proof fn requests_are_known_by_their_numbers(number: i16, version: i16, i: int)
    requires
        0 <= i < known_requests().len(),
    ensures
        kafka::key_of(number as int) is Some <==> is_known_number(number as int),
        kafka::key_of(known_requests()[i].1 as int) == Some(known_requests()[i].0),
        ({
            let (key, _, since) = known_requests()[i];
            let step: i16 = if version >= since {
                1
            } else {
                0
            };
            &&& kafka::header_version_of(key, true, version) == 1 + step
            &&& kafka::header_version_of(key, false, version) == if key is ApiVersionsKey {
                0
            } else {
                step
            }
        }),
{
    let (key, code, _) = known_requests()[i];
    kafka::keys_are_found_by_their_numbers(key);
    assert(key.code() == code);
    if kafka::key_of(number as int) is Some {
        let found = choose|k: ApiKey| #[trigger] k.code() == number;
        let list = known_requests();
        assert(list[0].1 == 0 && list[1].1 == 1 && list[2].1 == 2 && list[3].1 == 3 && list[4].1
            == 8 && list[5].1 == 9 && list[6].1 == 10 && list[7].1 == 11 && list[8].1 == 12
            && list[9].1 == 14 && list[10].1 == 18 && list[11].1 == 22);
    }
    if is_known_number(number as int) {
        let j = choose|j: int|
            0 <= j < known_requests().len() && (#[trigger] known_requests()[j]).1 == number;
        assert(known_requests()[j].0.code() == number);
    }
}

/// Requests about versions, metadata and heartbeats set up a connection, those that bring a
/// group together are requests of the system, and all others are routed; each has one response
/// of the same kind. A request shorter than it says is incomplete.
pub proof fn kinds_go_by_the_number(protocol: KafkaRoutingProtocol, payload: Seq<u8>)
    requires
        protocol.classifiable(payload),
    ensures
        ({
            let class = protocol.classification(payload);
            let number = wire::i16_at(payload, 4);
            if payload.len() < 4 + wire::u32_at(payload, 0) {
                class.0 is Incomplete && class.1 is Incomplete && class.2 is Incomplete
            } else {
                &&& class.0 is RequestResponse
                &&& class.1 == class.2
                &&& class.1 is Local <==> number == 3 || number == 12 || number == 18
                &&& class.1 is System <==> number == 14
                &&& class.1 is Routable <==> number == 0 || number == 1 || number == 2 || (8
                    <= number <= 11) || number == 22
            }
        }),
{
    if payload.len() >= 4 + wire::u32_at(payload, 0) {
        let number = wire::i16_at(payload, 4);
        let found = choose|k: ApiKey| #[trigger] k.code() == number;
        assert(found.code() == number);
    }
}

/// A Kafka request that is routed goes to the default cluster as it is.
pub proof fn routed_requests_go_to_the_default_cluster(
    protocol: KafkaRoutingProtocol,
    table: TableView,
    request: Seq<u8>,
    cluster: Seq<char>,
)
    requires
        table.default_cluster is Some,
    ensures
        protocol.split(table, request) is Ok,
        protocol.split(table, request)->Ok_0.contains_key(cluster) <==> Some(cluster)
            == table.default_cluster,
        protocol.split(table, request)->Ok_0.contains_key(cluster) ==> protocol.split(
            table,
            request,
        )->Ok_0[cluster] == request,
{
}

/// Whether a request went to the local cluster.
pub open spec fn is_local(table: TableView, k: u32) -> bool {
    table.requests.contains_key(k) && table.local_cluster == Some(table.requests[k].0)
}

/// Of several responses, the client gets that to the first request to the local cluster, and
/// where none went there, the first one. Where the protocol is debugged, one that is shorter
/// than it says is refused.
pub proof fn the_local_response_is_taken(
    protocol: KafkaRoutingProtocol,
    table: TableView,
    responses: Map<u32, Seq<u8>>,
    k: u32,
)
    requires
        (is_local(table, k) && forall|j: u32| #[trigger] is_local(table, j) ==> k <= j) || ((
        forall|j: u32| !#[trigger] is_local(table, j)) && responses.contains_key(k) && forall|
            j: u32,
        | #[trigger]
            responses.contains_key(j) ==> k <= j),
    ensures
        protocol.merged(table, responses) == (if protocol.debug_protocol > 0
            && responses[k].len() < 4 + wire::u32_at(responses[k], 0) {
            Err::<Seq<u8>, RouteError>(RouteError::Split)
        } else {
            Ok::<Seq<u8>, RouteError>(responses[k])
        }),
{
    let local = kafka::local_requests(table);
    assert forall|j: u32| #[trigger] local.contains_key(j) <==> is_local(table, j) by {
    }
    if is_local(table, k) {
        assert(local.contains_key(k));
        assert(local != Map::<u32, (Seq<char>, Seq<u8>)>::empty());
        assert(routing::is_first_key(local, k));
        routing::lemma_first_key(local, k);
    } else {
        assert(local =~= Map::<u32, (Seq<char>, Seq<u8>)>::empty());
        assert(routing::is_first_key(responses, k));
        routing::lemma_first_key(responses, k);
    }
}

/// How the body of a request is read: requests for metadata, offsets and records as what the
/// proxy changes, a commit of offsets not at all, and every other one as it is.
pub open spec fn is_read_as(
    number: int,
    body: Seq<u8>,
    version: i16,
    request: Option<ReadRequestView>,
) -> bool {
    if number == 1 {
        let m = codec::fetch_request_decoded(body, version);
        m is Some && request == Some(ReadRequestView::FetchRequest(m->Some_0.0, m->Some_0.1))
    } else if number == 2 {
        let m = codec::offsets_request_decoded(body, version);
        m is Some && request == Some(ReadRequestView::ListOffsetsRequest(m->Some_0))
    } else if number == 3 {
        let m = codec::metadata_request_decoded(body, version);
        m is Some && request == Some(ReadRequestView::MetadataRequest(m->Some_0))
    } else if number == 8 {
        request is None
    } else {
        let m = if number == 0 {
            passing::produce_request_decoded(body, version)
        } else if number == 9 {
            passing::offset_fetch_request_decoded(body, version)
        } else if number == 10 {
            passing::find_coordinator_request_decoded(body, version)
        } else if number == 11 {
            passing::join_group_request_decoded(body, version)
        } else if number == 12 {
            passing::heartbeat_request_decoded(body, version)
        } else if number == 14 {
            passing::sync_group_request_decoded(body, version)
        } else if number == 18 {
            passing::api_versions_request_decoded(body, version)
        } else {
            passing::init_producer_id_request_decoded(body, version)
        };
        m is Some && request == Some(ReadRequestView::Other(m->Some_0))
    }
}

/// A request is read exactly if it has eight bytes, its number is known, a header follows its
/// length, and behind the header stands what the number says, in the version that the header
/// names. The header is read in the version that the request has.
pub proof fn requests_are_read_from_their_bytes(payload: Seq<u8>, i: int)
    requires
        payload.len() >= 8,
        0 <= i < known_requests().len(),
        wire::i16_at(payload, 4) == known_requests()[i].1,
    ensures
        ({
            let since = known_requests()[i].2;
            let number = known_requests()[i].1 as int;
            let version: i16 = if wire::i16_at(payload, 6) >= since {
                2
            } else {
                1
            };
            let h = codec::request_header_decoded(payload.skip(4), version);
            let r = kafka::request_of(payload);
            &&& h is None ==> r == Err::<RequestView, KafkaError>(KafkaError::BadHeader)
            &&& h is Some ==> {
                let (header, size) = h->Some_0;
                let body = payload.skip(4 + size as int);
                &&& r is Ok ==> {
                    &&& r->Ok_0.header_version == version
                    &&& r->Ok_0.header == header
                    &&& is_read_as(number, body, header.api_version, r->Ok_0.request)
                }
                &&& r is Err ==> {
                    &&& r->Err_0 is BadBody
                    &&& forall|request: Option<ReadRequestView>| !#[trigger]
                        is_read_as(number, body, header.api_version, request)
                }
            }
        }),
{
    let (key, code, _) = known_requests()[i];
    kafka::keys_are_found_by_their_numbers(key);
    assert(key.code() == code);
    let version = wire::i16_at(payload, 6) as i16;
    requests_are_known_by_their_numbers(code, version, i);
}

/// Whether bytes are read as the body of a response to a request with a number: those about
/// metadata, offsets and records as what the proxy changes, those to a commit of offsets and to
/// a request for a producer's number not at all, and every other one as it is.
pub open spec fn is_answered_as(
    number: int,
    body: Seq<u8>,
    version: i16,
    response: Option<ReadResponseView>,
) -> bool {
    if number == 1 {
        let m = codec::fetch_decoded(body, version);
        m is Some && response == Some(ReadResponseView::FetchResponse(m->Some_0))
    } else if number == 2 {
        let m = codec::offsets_response_decoded(body, version);
        m is Some && response == Some(ReadResponseView::ListOffsetsResponse(m->Some_0))
    } else if number == 3 {
        let m = codec::metadata_decoded(body, version);
        m is Some && response == Some(ReadResponseView::MetadataResponse(m->Some_0))
    } else if number == 8 || number == 22 {
        response is None
    } else {
        let m = if number == 0 {
            passing::produce_response_decoded(body, version)
        } else if number == 9 {
            passing::offset_fetch_response_decoded(body, version)
        } else if number == 10 {
            passing::find_coordinator_response_decoded(body, version)
        } else if number == 11 {
            passing::join_group_response_decoded(body, version)
        } else if number == 12 {
            passing::heartbeat_response_decoded(body, version)
        } else if number == 14 {
            passing::sync_group_response_decoded(body, version)
        } else {
            passing::api_versions_response_decoded(body, version)
        };
        m is Some && response == Some(ReadResponseView::Other(m->Some_0))
    }
}

/// The response to a request that can be read is read from its bytes: a length, which tells
/// whether it is whole, a header, and what the number of the request says, in the version that
/// the header of the request names.
pub proof fn responses_are_read_from_their_bytes(request: Seq<u8>, response: Seq<u8>, i: int)
    requires
        request.len() >= 8,
        response.len() >= 4,
        0 <= i < known_requests().len(),
        wire::i16_at(request, 4) == known_requests()[i].1,
        codec::request_header_decoded(
            request.skip(4),
            if wire::i16_at(request, 6) >= known_requests()[i].2 {
                2
            } else {
                1
            },
        ) is Some,
    ensures
        ({
            let (key, number, since) = known_requests()[i];
            let asked = wire::i16_at(request, 6) as i16;
            let tagged = asked >= since;
            let header = codec::request_header_decoded(
                request.skip(4),
                if tagged {
                    2
                } else {
                    1
                },
            )->Some_0.0;
            let version: i16 = if tagged && !(key is ApiVersionsKey) {
                1
            } else {
                0
            };
            let h = codec::response_header_decoded(response.skip(4), asked);
            let size = codec::response_header_size(h->Some_0, version);
            let r = kafka::response_of(request, response);
            &&& response.len() < 4 + wire::u32_at(response, 0) ==> r == Err::<
                ResponseView,
                KafkaError,
            >(KafkaError::Split)
            &&& response.len() >= 4 + wire::u32_at(response, 0) && (h is None || size is None)
                ==> r == Err::<ResponseView, KafkaError>(KafkaError::BadHeader)
            &&& response.len() >= 4 + wire::u32_at(response, 0) && h is Some && size is Some ==> {
                let start = 4 + size->Some_0 as int;
                let body = if start <= response.len() {
                    response.skip(start)
                } else {
                    Seq::<u8>::empty()
                };
                &&& r is Ok ==> {
                    &&& r->Ok_0.header_version == version
                    &&& r->Ok_0.request_header == header
                    &&& r->Ok_0.header == h->Some_0
                    &&& r->Ok_0.length == wire::u32_at(response, 0)
                    &&& is_answered_as(
                        number as int,
                        body,
                        header.api_version,
                        r->Ok_0.response,
                    )
                }
                &&& r is Err ==> {
                    &&& r->Err_0 is BadBody
                    &&& forall|answer: Option<ReadResponseView>| !#[trigger]
                        is_answered_as(number as int, body, header.api_version, answer)
                }
            }
        }),
{
    let (key, code, _) = known_requests()[i];
    kafka::keys_are_found_by_their_numbers(key);
    assert(key.code() == code);
    let version = wire::i16_at(request, 6) as i16;
    requests_are_known_by_their_numbers(code, version, i);
}

/// A whole Kafka request of a client, with nothing behind it, is taken as it came: where there is
/// one cluster, which is the cluster of the proxy, it is all that matters what the request says.
pub proof fn whole_requests_are_taken(
    filter: FilterView,
    bytes: Seq<u8>,
    contexts: Connections,
    now: u128,
    home: Seq<char>,
    i: int,
)
    requires
        filter.protocol is Kafka,
        filter.table.mechanism is Synchronous,
        filter.table.default_cluster == Some(home),
        filter.table.local_cluster is None || filter.table.local_cluster == Some(home),
        filter.table.clusters.contains(home),
        8 <= bytes.len() <= isize::MAX,
        wire::u32_at(bytes, 0) == bytes.len() - 4,
        0 <= i < known_requests().len(),
        wire::i16_at(bytes, 4) == known_requests()[i].1,
    ensures
        ({
            let number = wire::i16_at(bytes, 4);
            let kind = if number == 3 || number == 12 || number == 18 {
                RequestResponseKind::Local
            } else if number == 14 {
                RequestResponseKind::System
            } else {
                RequestResponseKind::Routable
            };
            filter.downstream(bytes, contexts, now) == (FilterView {
                table: TableView {
                    complete_requests: 0,
                    ..holding(filter.table, bytes, (RequestType::RequestResponse, kind, kind))
                },
                ..filter
            }).kafka_downstream(bytes, contexts, now)
        }),
{
    let given = TableView { origin_request: Some(bytes), ..filter.table };
    let key = known_requests()[i].0;
    kafka::keys_are_found_by_their_numbers(key);
    assert(key.code() == known_requests()[i].1);
    assert(routing::first_message(bytes, 0) =~= bytes);
    let t = given.classified(filter.protocol);
    let routes = map![home => bytes];
    assert(routes.contains_key(home));
    assert(routes != Map::<Seq<char>, Seq<u8>>::empty());
    assert(given.can_route(filter.protocol));
    let routed = given.routed(filter.protocol);
    assert(routed.result is Ok && routed.result->Ok_0.contains_key(home)
        && routed.result->Ok_0[home] == bytes);
}

/// Where several requests came at once, they are left as they are, and nothing waits for them.
pub proof fn several_requests_are_left_alone(
    filter: FilterView,
    bytes: Seq<u8>,
    contexts: Connections,
    now: u128,
)
    requires
        filter.protocol is Kafka,
        filter.downstream(bytes, contexts, now) is Ok,
        wire::u32_at(bytes, 0) < bytes.len() - 4,
    ensures
        ({
            let step = filter.downstream(bytes, contexts, now)->Ok_0;
            &&& step.outcome.replacement is None
            &&& !step.outcome.pause
            &&& step.outcome.queues.len() == 0
            &&& step.contexts == contexts
            &&& step.filter.table.requests == filter.table.requests
        }),
{
}

/// A request of which bytes are missing is refused as incomplete.
pub proof fn cut_requests_are_refused(
    filter: FilterView,
    bytes: Seq<u8>,
    contexts: Connections,
    now: u128,
)
    requires
        filter.protocol is Kafka,
        filter.table.local_cluster is Some || filter.table.default_cluster is Some,
        4 <= bytes.len() <= isize::MAX,
        bytes.len() - 4 < wire::u32_at(bytes, 0) <= isize::MAX,
    ensures
        filter.downstream(bytes, contexts, now) == Err::<DownstreamStep, FilterError>(
            FilterError::Route(RouteError::Incomplete),
        ),
{
}

/// A request of another protocol goes to the cluster of the proxy as it is.
pub proof fn other_protocols_pass(
    filter: FilterView,
    bytes: Seq<u8>,
    contexts: Connections,
    now: u128,
)
    requires
        filter.protocol is Default,
        filter.table.mechanism is Synchronous,
        filter.table.local_cluster is Some || filter.table.default_cluster is Some,
    ensures
        filter.downstream(bytes, contexts, now) is Ok,
        ({
            let step = filter.downstream(bytes, contexts, now)->Ok_0;
            let home = if filter.table.local_cluster is Some {
                filter.table.local_cluster->Some_0
            } else {
                filter.table.default_cluster->Some_0
            };
            &&& step.outcome.replacement == Some(bytes)
            &&& !step.outcome.pause
            &&& step.outcome.queues.len() == 0
            &&& step.contexts == contexts
            &&& step.filter.table.origin_request == Some(bytes)
            &&& step.filter.table.requests == filter.table.requests.insert(0, (home, bytes))
        }),
{
    let given = TableView { origin_request: Some(bytes), ..filter.table };
    assert(routing::first_message(bytes, 0) =~= bytes);
    let home = if filter.table.local_cluster is Some {
        filter.table.local_cluster->Some_0
    } else {
        filter.table.default_cluster->Some_0
    };
    let routes = map![home => bytes];
    assert(routes.contains_key(home));
    assert(routes != Map::<Seq<char>, Seq<u8>>::empty());
}

/// The whole response of a broker to the one request that is open, with nothing behind it, is
/// taken as it came, and the request is no longer open.
pub proof fn whole_responses_are_taken(
    filter: FilterView,
    bytes: Seq<u8>,
    data_size: usize,
    waiting: Waiting,
    contexts: Connections,
    cluster: Seq<char>,
    request: Seq<u8>,
)
    requires
        filter.protocol is Kafka,
        filter.table.requests == map![0u32 => (cluster, request)],
        filter.table.responses == Map::<u32, Seq<u8>>::empty(),
        filter.table.request_type is RequestResponse,
        filter.table.complete_requests == 0,
        pending(filter.table, cluster).len() == 0,
        4 <= bytes.len() <= isize::MAX,
        wire::u32_at(bytes, 0) == bytes.len() - 4,
    ensures
        filter.upstream(bytes, data_size, waiting, contexts) == (FilterView {
            data_size,
            table: TableView {
                requests: Map::empty(),
                responses: Map::empty(),
                complete_requests: 1,
                ..filter.table
            },
            ..filter
        }).kafka_upstream(bytes, data_size as int, waiting, contexts),
{
    let table = filter.table;
    what_becomes_of_a_response(table, filter.protocol, 0, bytes, bytes, bytes);
    assert(table.requests.contains_key(0));
    assert(table.requests.dom() =~= set![0u32]);
    assert(table.requests.len() == 1);
    let counted = TableView {
        responses: table.responses.insert(0, bytes),
        complete_requests: 1,
        ..table
    };
    assert(counted.responses.contains_key(0));
    let p = match filter.protocol {
        Protocol::Kafka(p) => p,
        _ => KafkaRoutingProtocol { debug_protocol: 0 },
    };
    if is_local(counted, 0) {
        the_local_response_is_taken(p, counted, counted.responses, 0);
        assert(kafka::local_requests(counted).contains_key(0));
        assert(routing::is_first_key(kafka::local_requests(counted), 0));
        routing::lemma_first_key(kafka::local_requests(counted), 0);
    } else {
        assert forall|j: u32| !#[trigger] is_local(counted, j) by {
        }
        the_local_response_is_taken(p, counted, counted.responses, 0);
        assert(kafka::local_requests(counted) =~= Map::<u32, (Seq<char>, Seq<u8>)>::empty());
        assert(routing::is_first_key(counted.responses, 0));
        routing::lemma_first_key(counted.responses, 0);
    }
    let t = table.with_response(0, bytes);
    assert(t.responses =~= counted.responses);
    assert(routing::first_message(bytes, 0) =~= bytes);
    assert(t.with_first_message(0, 0) == counted);
    let r = table.responded(filter.protocol, 0, bytes);
    assert(r.table.responses =~= Map::<u32, Seq<u8>>::empty());
    assert(counted.responses != Map::<u32, Seq<u8>>::empty());
}

/// While bytes of the response are missing, the client gets nothing; the bytes are kept, and
/// nothing that waits is touched.
pub proof fn pieces_are_held_back(
    filter: FilterView,
    bytes: Seq<u8>,
    data_size: usize,
    waiting: Waiting,
    contexts: Connections,
)
    requires
        filter.protocol is Kafka,
        filter.table.requests.contains_key(0),
        filter.table.complete_requests < usize::MAX,
        !filter.table.responses.contains_key(0),
        4 <= bytes.len() <= isize::MAX,
        bytes.len() - 4 < wire::u32_at(bytes, 0) <= isize::MAX,
    ensures
        filter.upstream(bytes, data_size, waiting, contexts) is Ok,
        ({
            let step = filter.upstream(bytes, data_size, waiting, contexts)->Ok_0;
            &&& step.outcome == (UpstreamView::Replace {
                size: data_size as int,
                payload: Seq::<u8>::empty(),
            })
            &&& step.waiting == waiting
            &&& step.contexts == contexts
            &&& step.filter == (FilterView {
                table: TableView {
                    responses: filter.table.responses.insert(0, bytes),
                    response_kind: RequestResponseKind::Incomplete,
                    ..filter.table
                },
                ..filter
            })
        }),
{
    what_becomes_of_a_response(filter.table, filter.protocol, 0, bytes, bytes, bytes);
    assert(filter.table.with_response(0, bytes).responses[0] == bytes);
}

/// A Kafka request can be routed wherever it is whole, or says that bytes are missing, its number
/// is known, and there is a default cluster; where the remote clusters are set up later, there
/// are also a local one and requests that set up a connection.
pub proof fn known_requests_can_be_routed(
    table: TableView,
    protocol: KafkaRoutingProtocol,
    bytes: Seq<u8>,
    i: int,
)
    requires
        table.origin_request == Some(bytes),
        4 <= bytes.len() <= isize::MAX,
        wire::u32_at(bytes, 0) <= isize::MAX,
        wire::u32_at(bytes, 0) <= bytes.len() - 4 ==> {
            &&& 4 <= wire::u32_at(bytes, 0)
            &&& 0 <= i < known_requests().len()
            &&& wire::i16_at(bytes, 4) == known_requests()[i].1
        },
        table.default_cluster is Some,
        table.mechanism is DeferRemoteLocalCommands ==> table.local_cluster is Some
            && table.local_requests is Some,
    ensures
        table.can_route(protocol),
{
    let surplus = protocol.surplus(true, bytes);
    if surplus >= 0 {
        let key = known_requests()[i].0;
        kafka::keys_are_found_by_their_numbers(key);
        assert(key.code() == known_requests()[i].1);
        let request = routing::first_message(bytes, surplus);
        assert(request =~= bytes.take(bytes.len() - surplus));
        assert(wire::u32_at(request, 0) == wire::u32_at(bytes, 0));
        assert(wire::i16_at(request, 4) == wire::i16_at(bytes, 4));
        let cluster = table.default_cluster->Some_0;
        assert(map![cluster => request].contains_key(cluster));
        assert(map![cluster => request] != Map::<Seq<char>, Seq<u8>>::empty());
    }
}

/// A response is taken wherever a request waits for it, the bytes that are held for it tell its
/// length, and the response of the local cluster, if a request went there, is there when those
/// that came are merged.
pub proof fn expected_responses_are_taken(
    table: TableView,
    protocol: KafkaRoutingProtocol,
    token: u32,
    payload: Seq<u8>,
    k: u32,
)
    requires
        table.requests.contains_key(token),
        table.complete_requests < usize::MAX,
        !table.responses.contains_key(token),
        4 <= payload.len() <= isize::MAX,
        wire::u32_at(payload, 0) <= isize::MAX,
        protocol.debug_protocol <= 0,
        (is_local(table, k) && (forall|j: u32| #[trigger] is_local(table, j) ==> k <= j) && (k
            == token || table.responses.contains_key(k))) || (forall|j: u32|
            !#[trigger] is_local(table, j)),
    ensures
        table.can_answer(protocol, token, payload),
{
    let t = table.with_response(token, payload);
    assert(t.responses =~= table.responses.insert(token, payload));
    let surplus = protocol.surplus(false, payload);
    if surplus >= 0 {
        let u = t.with_first_message(token, surplus);
        assert(u.responses.contains_key(token));
        assert(u.responses != Map::<u32, Seq<u8>>::empty());
        let local = kafka::local_requests(u);
        assert forall|j: u32| #[trigger] local.contains_key(j) <==> is_local(table, j) by {
        }
        if forall|j: u32| !#[trigger] is_local(table, j) {
            assert(local =~= Map::<u32, (Seq<char>, Seq<u8>)>::empty());
        } else {
            assert(local.contains_key(k));
            assert(routing::is_first_key(local, k));
            routing::lemma_first_key(local, k);
            assert(u.responses.contains_key(k));
        }
    }
}

/// A message is its length, then its header, then its body.
pub proof fn messages_are_framed(header: Seq<u8>, body: Seq<u8>)
    requires
        header.len() + body.len() < 0x1_0000_0000,
    ensures
        ({
            let message = kafka::framed(header, body);
            &&& message.len() == 4 + header.len() + body.len()
            &&& wire::u32_at(message, 0) == header.len() + body.len()
            &&& message.skip(4).take(header.len() as int) == header
            &&& message.skip(4 + header.len() as int) == body
        }),
{
    let message = kafka::framed(header, body);
    let n = (header.len() + body.len()) as int;
    wire::u32_round_trip(n);
    assert(wire::u32_at(message, 0) == wire::u32_at(wire::u32_bytes(n), 0));
    assert(message.skip(4).take(header.len() as int) =~= header);
    assert(message.skip(4 + header.len() as int) =~= body);
}

/// Where several responses came at once, where a response waits for those of other clusters, and
/// where it cannot be merged, the bytes go on as they are, and nothing that waits is touched.
pub proof fn other_bytes_of_a_broker_are_kept(
    filter: FilterView,
    bytes: Seq<u8>,
    data_size: usize,
    waiting: Waiting,
    contexts: Connections,
)
    requires
        filter.protocol is Kafka,
        filter.table.can_answer(filter.protocol, 0, bytes),
        !filter.table.responses.contains_key(0),
        wire::u32_at(bytes, 0) < bytes.len() - 4 || (wire::u32_at(bytes, 0) == bytes.len() - 4
            && filter.table.responded(filter.protocol, 0, bytes).result is Err),
    ensures
        filter.upstream(bytes, data_size, waiting, contexts) is Ok,
        ({
            let step = filter.upstream(bytes, data_size, waiting, contexts)->Ok_0;
            &&& step.outcome is Keep
            &&& step.waiting == waiting
            &&& step.contexts == contexts
            &&& step.filter.table == filter.table.responded(filter.protocol, 0, bytes).table
            &&& step.filter.request == filter.request
        }),
{
    let t = filter.table.with_response(0, bytes);
    assert(t.responses =~= filter.table.responses.insert(0, bytes));
    let surplus = filter.protocol.surplus(false, bytes);
    let message = bytes.take(bytes.len() - surplus);
    what_becomes_of_a_response(filter.table, filter.protocol, 0, bytes, bytes, message);
    let r = filter.table.responded(filter.protocol, 0, bytes);
    assert(r.result is Err ==> !(r.result->Err_0 is Incomplete));
}

} // verus!
