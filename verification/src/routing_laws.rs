//! What the routing engine promises of all requests and responses.

use crate::routing;
use crate::routing::DefaultRoutingProtocol;
use crate::routing::RequestResponseKind;
use crate::routing::RouteError;
use crate::routing::Routes;
use crate::routing::RoutingProtocol;
use crate::routing::TableView;
use vstd::prelude::*;

verus! {

/// What a cluster is to get, in order.
pub open spec fn pending(table: TableView, cluster: Seq<char>) -> Seq<Seq<u8>> {
    if table.future_requests.contains_key(cluster) {
        table.future_requests[cluster]
    } else {
        Seq::empty()
    }
}

/// What a cluster gets when the next requests are sent, `n` times.
pub open spec fn sent(table: TableView, cluster: Seq<char>, n: nat) -> Seq<Seq<u8>>
    decreases n,
{
    if n == 0 {
        Seq::empty()
    } else {
        let first = if table.next_routes().contains_key(cluster) {
            seq![table.next_routes()[cluster]]
        } else {
            Seq::empty()
        };
        first + sent(table.advanced(), cluster, (n - 1) as nat)
    }
}

/// A cluster gets its requests in the order in which they were queued, each of them once.
pub proof fn requests_keep_their_order(table: TableView, cluster: Seq<char>, n: nat)
    ensures
        n <= pending(table, cluster).len() ==> sent(table, cluster, n) == pending(
            table,
            cluster,
        ).take(n as int),
        n > pending(table, cluster).len() ==> sent(table, cluster, n) == pending(table, cluster),
    decreases n,
{
    let queue = pending(table, cluster);
    if n > 0 {
        let rest = pending(table.advanced(), cluster);
        requests_keep_their_order(table.advanced(), cluster, (n - 1) as nat);
        if queue.len() > 0 {
            assert(rest == queue.skip(1));
            if n <= queue.len() {
                assert(seq![queue[0]] + rest.take(n - 1) =~= queue.take(n as int));
            } else {
                assert(seq![queue[0]] + rest =~= queue);
            }
        } else {
            assert(rest =~= Seq::<Seq<u8>>::empty());
            assert(sent(table, cluster, n) =~= queue);
        }
    } else {
        assert(queue.take(0) =~= Seq::<Seq<u8>>::empty());
    }
}

/// A request that is queued for a cluster is the last one that the cluster gets, and the
/// requests that set up a connection go before it only where the cluster has not got them.
pub proof fn queued_requests_go_last(table: TableView, routes: Routes, cluster: Seq<char>)
    requires
        routes.contains_key(cluster),
    ensures
        pending(table.queued(routes), cluster) == pending(table, cluster) + (if table.is_initialised(
            cluster,
        ) || Some(cluster) == table.local_cluster {
            Seq::<Seq<u8>>::empty()
        } else {
            table.local_requests->Some_0
        }) + seq![routes[cluster]],
{
    assert(table.queue_with(routes, cluster) =~= pending(table.queued(routes), cluster));
}

/// A cluster gets the requests that set up a connection once: when further routes are queued,
/// it gets nothing but its part of them.
pub proof fn setup_requests_go_once(
    table: TableView,
    routes: Routes,
    others: Routes,
    cluster: Seq<char>,
)
    requires
        routes.contains_key(cluster),
        others.contains_key(cluster),
    ensures
        pending(table.queued(routes).queued(others), cluster) == pending(
            table.queued(routes),
            cluster,
        ).push(others[cluster]),
{
    let queued = table.queued(routes);
    assert(queued.is_initialised(cluster));
    queued_requests_go_last(queued, others, cluster);
    assert(pending(queued.queued(others), cluster) =~= pending(queued, cluster).push(
        others[cluster],
    ));
}

/// Clusters that a request does not go to get nothing more because of it.
pub proof fn other_clusters_are_left_alone(table: TableView, routes: Routes, cluster: Seq<char>)
    requires
        !routes.contains_key(cluster),
    ensures
        pending(table.queued(routes), cluster) == pending(table, cluster),
{
}

/// Where setup is synchronous, a request that sets up a connection goes to every cluster as it
/// is, and to nothing else.
pub proof fn setup_requests_reach_every_cluster<P: RoutingProtocol>(table: TableView, protocol: P)
    requires
        table.can_route(protocol),
        protocol.surplus(true, table.origin_request->Some_0) >= 0,
        table.mechanism is Synchronous,
        table.classified(protocol).request_kind is System || table.classified(
            protocol,
        ).request_kind is Local,
    ensures
        table.routed(protocol).result matches Ok(routes) && (forall|cluster: Seq<char>| #[trigger]
            routes.contains_key(cluster) <==> table.clusters.contains(cluster)) && (forall|
            cluster: Seq<char>,
        | #[trigger]
            routes.contains_key(cluster) ==> routes[cluster] == table.classified(
                protocol,
            ).origin_request->Some_0),
{
}

/// Pieces of a response are put together: what comes of two of them, the first of which is
/// incomplete, is what comes of both at once for a table that knows of the incomplete one.
pub proof fn pieces_of_a_response_are_put_together<P: RoutingProtocol>(
    table: TableView,
    protocol: P,
    token: u32,
    first: Seq<u8>,
    second: Seq<u8>,
)
    requires
        !table.responses.contains_key(token),
        table.can_answer(protocol, token, first),
        protocol.surplus(false, first) < 0,
    ensures
        table.responded(protocol, token, first).result == Err::<Seq<u8>, RouteError>(
            RouteError::Incomplete,
        ),
        table.responded(protocol, token, first).table.responded(protocol, token, second)
            == (TableView { response_kind: RequestResponseKind::Incomplete, ..table }).responded(
            protocol,
            token,
            first + second,
        ),
{
    let after = table.responded(protocol, token, first).table;
    let known = TableView { response_kind: RequestResponseKind::Incomplete, ..table };
    assert(after.responses == table.responses.insert(token, first));
    assert(after.with_response(token, second).responses =~= known.with_response(
        token,
        first + second,
    ).responses);
    assert(after.with_response(token, second) =~= known.with_response(token, first + second));
}

/// A request that has one response waits for every cluster that it went to: it is answered
/// with the last of their responses.
pub proof fn a_response_waits_for_all_clusters<P: RoutingProtocol>(
    table: TableView,
    protocol: P,
    token: u32,
    payload: Seq<u8>,
)
    requires
        table.can_answer(protocol, token, payload),
        table.request_type is RequestResponse,
        table.is_last(table.requests[token].0),
        table.responded(protocol, token, payload).result is Ok,
    ensures
        table.requests.len() == table.complete_requests + 1,
{
}

/// Of several messages only the first is taken: a table to which a message came with more bytes
/// behind it is left as if it had come alone, and the answer is the same; the number of bytes
/// behind it is told.
pub proof fn only_the_first_message_is_taken<P: RoutingProtocol>(
    table: TableView,
    protocol: P,
    token: u32,
    message: Seq<u8>,
    more: Seq<u8>,
)
    requires
        !table.responses.contains_key(token),
        protocol.surplus(false, message) == 0,
        protocol.surplus(false, message + more) == more.len(),
    ensures
        table.responded(protocol, token, message + more).table == table.responded(
            protocol,
            token,
            message,
        ).table,
        table.responded(protocol, token, message + more).result == table.responded(
            protocol,
            token,
            message,
        ).result,
        table.responded(protocol, token, message + more).remaining == more.len(),
        table.responded(protocol, token, message).remaining == 0,
{
    let many = table.with_response(token, message + more);
    let one = table.with_response(token, message);
    if more.len() > 0 {
        assert(routing::first_message(message + more, more.len() as int) =~= message);
        assert(many.with_first_message(token, more.len() as int).responses
            =~= one.with_first_message(token, 0).responses);
    } else {
        assert(message + more =~= message);
    }
    assert(many.with_first_message(token, more.len() as int) =~= one.with_first_message(token, 0));
}

/// The default protocol changes nothing: the request goes to the local cluster as it is, or to
/// the default one where there is no local one, and so does the response to the client.
pub proof fn the_default_protocol_is_transparent(
    table: TableView,
    request: Seq<u8>,
    token: u32,
    response: Seq<u8>,
)
    requires
        table.origin_request == Some(request),
        table.mechanism is Synchronous,
        table.local_cluster is Some || table.default_cluster is Some,
    ensures
        ({
            let protocol = DefaultRoutingProtocol {  };
            let home = if table.local_cluster is Some {
                table.local_cluster->Some_0
            } else {
                table.default_cluster->Some_0
            };
            let routed = table.routed(protocol);
            let asked = TableView {
                requests: map![token => (home, request)],
                responses: Map::empty(),
                future_requests: Map::empty(),
                ..routed.table
            };
            let answered = asked.responded(protocol, token, response);
            &&& table.can_route(protocol)
            &&& routed.result == Ok::<Routes, RouteError>(map![home => request])
            &&& routed.remaining == 0
            &&& asked.can_answer(protocol, token, response)
            &&& answered.result == Ok::<Seq<u8>, RouteError>(response)
            &&& answered.remaining == 0
            &&& answered.table.requests == Map::<u32, (Seq<char>, Seq<u8>)>::empty()
            &&& answered.table.responses == Map::<u32, Seq<u8>>::empty()
        }),
{
    let protocol = DefaultRoutingProtocol {  };
    let home = if table.local_cluster is Some {
        table.local_cluster->Some_0
    } else {
        table.default_cluster->Some_0
    };
    let routed = table.routed(protocol);
    let t = table.classified(protocol);
    assert(map![home => request].contains_key(home));
    assert(map![home => request] != Map::<Seq<char>, Seq<u8>>::empty());
    assert(t.origin_request == Some(request));
    let asked = TableView {
        requests: map![token => (home, request)],
        responses: Map::empty(),
        future_requests: Map::empty(),
        ..routed.table
    };
    let given = asked.with_response(token, response);
    assert(given.responses =~= map![token => response]);
    assert(given.responses.contains_key(token));
    assert(routing::is_first_key(given.responses, token));
    routing::lemma_first_key(given.responses, token);
    assert(asked.requests.dom() =~= set![token]);
    assert(asked.requests.len() == 1);
    let u = given.with_first_message(token, 0);
    assert(u.responses.remove_keys(u.requests.dom()) =~= Map::<u32, Seq<u8>>::empty());
}

} // verus!
