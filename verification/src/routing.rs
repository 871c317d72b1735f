//! The routing engine: it sends every downstream request to the clusters that it concerns,
//! and makes one response of what they answer.

use crate::maps::KeyedMap;
use crate::pattern;
use crate::text;
use regex::bytes::Regex;
use std::collections::BTreeMap;
use vstd::prelude::*;
use vstd::string::*;

verus! {

/// What a message is about, and so where it goes.
#[derive(PartialEq, Eq, Structural, Debug, Clone, Copy)]
pub enum RequestResponseKind {
    System,
    Local,
    Routable,
    Incomplete,
}

/// How many responses a request has.
#[derive(PartialEq, Eq, Structural, Debug, Clone, Copy)]
pub enum RequestType {
    /// One request, no response.
    OneWay,
    /// One request, one response.
    RequestResponse,
    /// One request, any number of responses.
    Subscribe,
    Incomplete,
}

/// What happens to the requests that set up a connection.
#[derive(PartialEq, Eq, Structural, Debug, Clone, Copy)]
pub enum RoutingMechanism {
    /// They go to every cluster at once.
    Synchronous,
    /// They go to the local cluster, and to a remote one when it is first used.
    DeferRemoteLocalCommands,
}

/// Why a message has no result yet.
#[derive(PartialEq, Eq, Structural, Debug, Clone, Copy)]
pub enum RouteError {
    /// Bytes of the message are missing.
    Incomplete,
    /// Responses of other clusters are missing.
    Wait,
    /// The response is shorter than it says.
    Split,
}

impl RouteError {
    /// The error in words.
    pub fn message(&self) -> (text: &'static str)
        ensures
            *self is Incomplete ==> text@ == "incomplete"@,
            *self is Wait ==> text@ == "wait"@,
            *self is Split ==> text@ == "split"@,
    {
        match self {
            RouteError::Incomplete => "incomplete",
            RouteError::Wait => "wait",
            RouteError::Split => "split",
        }
    }
}

/// A route: requests that the patterns allow go to the cluster.
#[derive(Debug, Clone)]
pub struct RoutingEntry {
    pub key: Option<String>,
    pub key_regex: Option<Regex>,
    pub value: Option<String>,
    pub value_regex: Option<Regex>,
    pub cluster: String,
}

/// What a route says.
#[verifier::ext_equal]
pub struct RouteView {
    pub key: Option<Seq<char>>,
    pub key_pattern: Option<Seq<char>>,
    pub value: Option<Seq<char>>,
    pub value_pattern: Option<Seq<char>>,
    pub cluster: Seq<char>,
}

impl View for RoutingEntry {
    type V = RouteView;

    open spec fn view(&self) -> RouteView {
        RouteView {
            key: self.key.deep_view(),
            key_pattern: pattern::pattern_of(self.key_regex),
            value: self.value.deep_view(),
            value_pattern: pattern::pattern_of(self.value_regex),
            cluster: self.cluster@,
        }
    }
}

impl RouteView {
    /// Whether the route takes a request with this key and value.
    pub open spec fn takes(self, key: Seq<u8>, value: Seq<u8>) -> bool {
        pattern::pattern_allows(self.key_pattern, key) && pattern::pattern_allows(self.value_pattern, value)
    }

    /// The route with its patterns compiled.
    pub open spec fn compiled(self) -> RouteView {
        RouteView { key_pattern: self.key, value_pattern: self.value, ..self }
    }

    /// Whether the route has its patterns compiled.
    pub open spec fn is_ready(self) -> bool {
        (self.key is Some ==> self.key_pattern is Some) && (self.value is Some
            ==> self.value_pattern is Some)
    }

    /// The first pattern of the route that is not compiled.
    pub open spec fn missing(self) -> Option<Seq<char>> {
        if self.key is Some && self.key_pattern is None {
            self.key
        } else {
            self.value
        }
    }

    /// Whether the route is what can come of compiling the patterns of a route.
    pub open spec fn is_attempt(self, route: RouteView) -> bool {
        &&& self == (RouteView {
            key_pattern: self.key_pattern,
            value_pattern: self.value_pattern,
            ..route
        })
        &&& pattern::is_attempt(route.key, self.key_pattern)
        &&& pattern::is_attempt(route.value, self.value_pattern)
    }

    /// Whether the route's key is written somewhere in the bytes.
    pub open spec fn named_in(self, bytes: Seq<u8>) -> bool {
        self.key matches Some(k) && k.len() > 0 && occurs(bytes, text_bytes(k))
    }
}

/// What the routes of a list say.
pub open spec fn routes(list: Seq<RoutingEntry>) -> Seq<RouteView> {
    Seq::new(list.len(), |i: int| list[i]@)
}

/// The bytes of a text.
pub open spec fn text_bytes(text: Seq<char>) -> Seq<u8> {
    vstd::utf8::encode_utf8(text)
}

/// Whether the needle stands at position `i` of the haystack.
pub open spec fn stands_at(haystack: Seq<u8>, needle: Seq<u8>, i: int) -> bool {
    0 <= i && i + needle.len() <= haystack.len() && haystack.subrange(i, i + needle.len())
        == needle
}

/// Whether the needle stands somewhere in the haystack.
pub open spec fn occurs(haystack: Seq<u8>, needle: Seq<u8>) -> bool {
    exists|i: int| stands_at(haystack, needle, i)
}

/// What the proxy is told to do.
pub struct RoutingConfiguration {
    pub workload_type: Option<String>,
    pub type_proxy: Option<String>,
    pub local_cluster: Option<String>,
    pub default_cluster: Option<String>,
    pub routing_table: Option<Vec<RoutingEntry>>,
    pub routing_mechanism: Option<RoutingMechanism>,
    pub additional_configuration: Option<KeyedMap<String, String>>,
}

impl RoutingConfiguration {
    /// A configuration with an empty list of routes, and nothing else set.
    pub fn new() -> (configuration: Self)
        ensures
            configuration.workload_type is None,
            configuration.type_proxy is None,
            configuration.local_cluster is None,
            configuration.default_cluster is None,
            configuration.routing_table matches Some(list) && list@.len() == 0,
            configuration.routing_mechanism is None,
            configuration.additional_configuration is None,
    {
        RoutingConfiguration {
            workload_type: None,
            type_proxy: None,
            local_cluster: None,
            default_cluster: None,
            routing_table: Some(Vec::new()),
            routing_mechanism: None,
            additional_configuration: None,
        }
    }

    /// Appends a route.
    pub fn add_route(&mut self, entry: RoutingEntry)
        requires
            old(self).routing_table is Some,
        ensures
            final(self).routing_table matches Some(list) && list@ == old(
                self,
            ).routing_table->Some_0@.push(entry),
            final(self).workload_type == old(self).workload_type,
            final(self).type_proxy == old(self).type_proxy,
            final(self).local_cluster == old(self).local_cluster,
            final(self).default_cluster == old(self).default_cluster,
            final(self).routing_mechanism == old(self).routing_mechanism,
            final(self).additional_configuration == old(self).additional_configuration,
    {
        let mut list = Vec::new();
        if let Some(routes) = self.routing_table.take() {
            list = routes;
        }
        list.push(entry);
        self.routing_table = Some(list);
    }
}

/// A message with the time that it was seen at.
#[derive(Debug, Clone)]
pub struct TimestampedPayload {
    pub timestamp: u64,
    pub is_request: bool,
    pub request_type: RequestType,
    pub kind: RequestResponseKind,
    pub payload: Vec<u8>,
}

/// What goes through one connection: the routes, and the state of the request that is
/// being answered.
pub struct RoutingTable {
    pub vec: Vec<RoutingEntry>,
    pub clusters: Vec<String>,
    pub default_cluster: Option<String>,
    pub local_cluster: Option<String>,
    pub layer: String,
    pub routing_mechanism: RoutingMechanism,
    pub origin_request: Option<Vec<u8>>,
    pub current_requests: BTreeMap<u32, (String, Vec<u8>)>,
    pub current_responses: BTreeMap<u32, Vec<u8>>,
    pub current_request_type: RequestType,
    pub current_request_kind: RequestResponseKind,
    pub current_response_kind: RequestResponseKind,
    pub are_initial_requests_set: KeyedMap<String, bool>,
    pub local_requests: Option<Vec<Vec<u8>>>,
    pub future_requests_counter: usize,
    pub future_requests: KeyedMap<String, Vec<Vec<u8>>>,
    pub complete_requests: usize,
}

/// What a routing table holds.
#[verifier::ext_equal]
pub struct TableView {
    pub routes: Seq<RouteView>,
    pub clusters: Seq<Seq<char>>,
    pub default_cluster: Option<Seq<char>>,
    pub local_cluster: Option<Seq<char>>,
    pub layer: Seq<char>,
    pub mechanism: RoutingMechanism,
    pub origin_request: Option<Seq<u8>>,
    pub requests: Map<u32, (Seq<char>, Seq<u8>)>,
    pub responses: Map<u32, Seq<u8>>,
    pub request_type: RequestType,
    pub request_kind: RequestResponseKind,
    pub response_kind: RequestResponseKind,
    pub initialised: Map<Seq<char>, bool>,
    pub local_requests: Option<Seq<Seq<u8>>>,
    pub future_counter: usize,
    pub future_requests: Map<Seq<char>, Seq<Seq<u8>>>,
    pub complete_requests: usize,
}

/// What the requests of a map say: their clusters and their bytes.
pub open spec fn requests_view(
    requests: Map<u32, (String, Vec<u8>)>,
) -> Map<u32, (Seq<char>, Seq<u8>)> {
    requests.map_values(|r: (String, Vec<u8>)| (r.0@, r.1@))
}

/// The bytes of the responses of a map.
pub open spec fn responses_view(responses: Map<u32, Vec<u8>>) -> Map<u32, Seq<u8>> {
    responses.map_values(|r: Vec<u8>| r@)
}

impl View for RoutingTable {
    type V = TableView;

    open spec fn view(&self) -> TableView {
        TableView {
            routes: routes(self.vec@),
            clusters: text::texts(self.clusters@),
            default_cluster: self.default_cluster.deep_view(),
            local_cluster: self.local_cluster.deep_view(),
            layer: self.layer@,
            mechanism: self.routing_mechanism,
            origin_request: self.origin_request.deep_view(),
            requests: requests_view(self.current_requests@),
            responses: responses_view(self.current_responses@),
            request_type: self.current_request_type,
            request_kind: self.current_request_kind,
            response_kind: self.current_response_kind,
            initialised: self.are_initial_requests_set@,
            local_requests: self.local_requests.deep_view(),
            future_counter: self.future_requests_counter,
            future_requests: self.future_requests@,
            complete_requests: self.complete_requests,
        }
    }
}

/// The routes of a request: the bytes that go to every cluster.
pub type Routes = Map<Seq<char>, Seq<u8>>;

/// A protocol that messages are routed by.
pub trait RoutingProtocol: Sized {
    /// Whether the protocol can tell how long the message should be.
    spec fn sizable(&self, payload: Seq<u8>) -> bool;

    /// How many bytes there are after the first message; less than none where some of its
    /// bytes are missing.
    spec fn surplus(&self, is_request: bool, payload: Seq<u8>) -> int;

    fn payload_compare_size(&self, is_request: bool, payload: &Vec<u8>) -> (r: isize)
        requires
            self.sizable(payload@),
        ensures
            r == self.surplus(is_request, payload@),
            r <= payload@.len(),
    ;

    /// Whether the protocol can tell what the request is about.
    spec fn classifiable(&self, payload: Seq<u8>) -> bool;

    /// The type of the request, its kind, and the kind of its response.
    spec fn classification(&self, payload: Seq<u8>) -> (
        RequestType,
        RequestResponseKind,
        RequestResponseKind,
    );

    fn request_response_type(&self, payload: &Vec<u8>) -> (r: (
        RequestType,
        RequestResponseKind,
        RequestResponseKind,
    ))
        requires
            self.classifiable(payload@),
        ensures
            r == self.classification(payload@),
    ;

    /// The kind of a response.
    spec fn response_kind(&self, payload: Seq<u8>) -> RequestResponseKind;

    fn response_type(&self, routing_table: &RoutingTable, payload: &Vec<u8>) -> (r:
        RequestResponseKind)
        requires
            self.sizable(payload@),
        ensures
            r == self.response_kind(payload@),
    ;

    /// Whether the protocol can split the request over the clusters of the table.
    spec fn splittable(&self, table: TableView, request: Seq<u8>) -> bool;

    /// What goes to which cluster.
    spec fn split(&self, table: TableView, request: Seq<u8>) -> Result<Routes, RouteError>;

    fn split_queries(&self, routing_table: &RoutingTable, request: &Vec<u8>) -> (r: Result<
        KeyedMap<String, Vec<u8>>,
        RouteError,
    >)
        requires
            self.splittable(routing_table@, request@),
        ensures
            routes_view(r) == self.split(routing_table@, request@),
    ;

    /// Whether the protocol can merge the responses.
    spec fn mergeable(&self, table: TableView, responses: Map<u32, Seq<u8>>) -> bool;

    /// The one response that is made of the responses of the clusters.
    spec fn merged(&self, table: TableView, responses: Map<u32, Seq<u8>>) -> Result<
        Seq<u8>,
        RouteError,
    >;

    fn merge_responses(
        &self,
        routing_table: &RoutingTable,
        response_map: &BTreeMap<u32, Vec<u8>>,
    ) -> (r: Result<Vec<u8>, RouteError>)
        requires
            self.mergeable(routing_table@, responses_view(response_map@)),
        ensures
            response_view(r) == self.merged(routing_table@, responses_view(response_map@)),
    ;
}

/// What a map of routes says.
pub open spec fn routes_view(r: Result<KeyedMap<String, Vec<u8>>, RouteError>) -> Result<
    Routes,
    RouteError,
> {
    match r {
        Ok(m) => Ok(m@),
        Err(e) => Err(e),
    }
}

/// The bytes of a response.
pub open spec fn response_view(r: Result<Vec<u8>, RouteError>) -> Result<Seq<u8>, RouteError> {
    match r {
        Ok(v) => Ok(v@),
        Err(e) => Err(e),
    }
}

/// The smallest key of a map.
pub open spec fn first_key<V>(map: Map<u32, V>) -> u32 {
    choose|k: u32| is_first_key(map, k)
}

/// Whether `k` is the smallest key of a map.
pub open spec fn is_first_key<V>(map: Map<u32, V>, k: u32) -> bool {
    map.contains_key(k) && forall|j: u32| #[trigger] map.contains_key(j) ==> k <= j
}

/// The first message of a payload with so many bytes after it.
pub open spec fn first_message(payload: Seq<u8>, surplus: int) -> Seq<u8> {
    if surplus > 0 {
        payload.take(payload.len() - surplus)
    } else {
        payload
    }
}

/// What comes of routing a request.
#[verifier::ext_equal]
pub struct Routed {
    pub table: TableView,
    pub result: Result<Routes, RouteError>,
    pub remaining: int,
}

/// What comes of a response.
#[verifier::ext_equal]
pub struct Answered {
    pub table: TableView,
    pub result: Result<Seq<u8>, RouteError>,
    pub remaining: int,
}

impl TableView {
    /// The table once the request is known to be the first message of what was received,
    /// and its type and kinds are known.
    pub open spec fn classified<P: RoutingProtocol>(self, protocol: P) -> TableView {
        let payload = self.origin_request->Some_0;
        let request = first_message(payload, protocol.surplus(true, payload));
        let class = protocol.classification(request);
        TableView {
            origin_request: Some(request),
            request_type: class.0,
            request_kind: class.1,
            response_kind: class.2,
            ..self
        }
    }

    /// Whether the cluster has got the requests that set up a connection.
    pub open spec fn is_initialised(self, cluster: Seq<char>) -> bool {
        self.initialised.contains_key(cluster) && self.initialised[cluster]
    }

    /// Where a request that sets up a connection goes.
    pub open spec fn broadcast_routes(self) -> Routes {
        let request = self.origin_request->Some_0;
        match self.mechanism {
            RoutingMechanism::Synchronous => Map::new(
                |c: Seq<char>| self.clusters.contains(c),
                |c: Seq<char>| request,
            ),
            RoutingMechanism::DeferRemoteLocalCommands => map![
                self.local_cluster->Some_0 => request
            ],
        }
    }

    /// The table after a request that sets up a connection: as long as no other request
    /// came, it is kept for the remote clusters.
    pub open spec fn remembering(self) -> TableView {
        if self.mechanism == RoutingMechanism::DeferRemoteLocalCommands && self.request_kind
            == RequestResponseKind::Local && !self.is_initialised(self.local_cluster->Some_0) {
            let before = match self.local_requests {
                Some(list) => list,
                None => Seq::empty(),
            };
            TableView {
                local_requests: Some(before.push(self.origin_request->Some_0)),
                ..self
            }
        } else {
            self
        }
    }

    /// The routes, or the default cluster where there are none.
    pub open spec fn or_default(self, routes: Routes) -> Routes {
        if routes == Map::<Seq<char>, Seq<u8>>::empty() {
            map![self.default_cluster->Some_0 => self.origin_request->Some_0]
        } else {
            routes
        }
    }

    /// What a cluster is to get, in order, once the routes are queued: what it was to get
    /// before, the requests that set up a connection where it has not got them, and its
    /// part of the request.
    pub open spec fn queue_with(self, routes: Routes, cluster: Seq<char>) -> Seq<Seq<u8>> {
        let before = if self.future_requests.contains_key(cluster) {
            self.future_requests[cluster]
        } else {
            Seq::empty()
        };
        let setup = if self.is_initialised(cluster) || Some(cluster) == self.local_cluster {
            Seq::empty()
        } else {
            self.local_requests->Some_0
        };
        (before + setup).push(routes[cluster])
    }

    /// The table with the routes queued.
    pub open spec fn queued(self, routes: Routes) -> TableView {
        let local = self.local_cluster->Some_0;
        TableView {
            initialised: Map::new(
                |c: Seq<char>|
                    self.initialised.contains_key(c) || routes.contains_key(c) || c == local,
                |c: Seq<char>|
                    if routes.contains_key(c) || c == local {
                        true
                    } else {
                        self.initialised[c]
                    },
            ),
            future_requests: Map::new(
                |c: Seq<char>| self.future_requests.contains_key(c) || routes.contains_key(c),
                |c: Seq<char>|
                    if routes.contains_key(c) {
                        self.queue_with(routes, c)
                    } else {
                        self.future_requests[c]
                    },
            ),
            ..self
        }
    }

    /// The next request of every cluster that is to get one.
    pub open spec fn next_routes(self) -> Routes {
        Map::new(
            |c: Seq<char>|
                self.future_requests.contains_key(c) && self.future_requests[c].len() > 0,
            |c: Seq<char>| self.future_requests[c][0],
        )
    }

    /// The table without those requests.
    pub open spec fn advanced(self) -> TableView {
        TableView {
            future_requests: Map::new(
                |c: Seq<char>| self.future_requests.contains_key(c),
                |c: Seq<char>|
                    if self.future_requests[c].len() > 0 {
                        self.future_requests[c].skip(1)
                    } else {
                        self.future_requests[c]
                    },
            ),
            ..self
        }
    }

    /// Whether the cluster has got all of its requests.
    pub open spec fn is_last(self, cluster: Seq<char>) -> bool {
        self.future_requests.contains_key(cluster) ==> self.future_requests[cluster].len() == 0
    }

    /// Whether the routes of the request are known to go somewhere.
    pub open spec fn can_queue(self, routes: Routes) -> bool {
        &&& self.local_cluster is Some
        &&& forall|c: Seq<char>| #[trigger]
            routes.contains_key(c) && !self.is_initialised(c) && Some(c) != self.local_cluster
                ==> self.local_requests is Some
    }

    /// Whether the table holds a request that can be routed.
    pub open spec fn can_route<P: RoutingProtocol>(self, protocol: P) -> bool {
        let payload = self.origin_request->Some_0;
        let t = self.classified(protocol);
        let request = t.origin_request->Some_0;
        &&& self.origin_request is Some
        &&& protocol.sizable(payload)
        &&& protocol.surplus(true, payload) >= 0 ==> {
            &&& protocol.classifiable(request)
            &&& (t.request_kind is System || t.request_kind is Local) && self.mechanism
                is DeferRemoteLocalCommands ==> self.local_cluster is Some
            &&& t.request_kind is Routable ==> {
                &&& protocol.splittable(t, request)
                &&& protocol.split(t, request) matches Ok(routes) ==> {
                    &&& routes == Map::<Seq<char>, Seq<u8>>::empty() ==> self.default_cluster is Some
                    &&& self.mechanism is DeferRemoteLocalCommands ==> t.can_queue(
                        t.or_default(routes),
                    )
                }
            }
        }
    }

    /// What comes of routing the request that the table holds.
    pub open spec fn routed<P: RoutingProtocol>(self, protocol: P) -> Routed {
        let payload = self.origin_request->Some_0;
        let surplus = protocol.surplus(true, payload);
        if surplus < 0 {
            Routed {
                table: TableView {
                    request_type: RequestType::Incomplete,
                    request_kind: RequestResponseKind::Incomplete,
                    response_kind: RequestResponseKind::Incomplete,
                    ..self
                },
                result: Err(RouteError::Incomplete),
                remaining: 0,
            }
        } else {
            let t = self.classified(protocol);
            match t.request_kind {
                RequestResponseKind::System | RequestResponseKind::Local => Routed {
                    table: TableView { complete_requests: 0, ..t.remembering() },
                    result: Ok(t.broadcast_routes()),
                    remaining: surplus,
                },
                RequestResponseKind::Routable => match protocol.split(
                    t,
                    t.origin_request->Some_0,
                ) {
                    Err(e) => Routed { table: t, result: Err(e), remaining: 0 },
                    Ok(routes) => {
                        let routes = t.or_default(routes);
                        if t.mechanism == RoutingMechanism::Synchronous {
                            Routed {
                                table: TableView { complete_requests: 0, ..t },
                                result: Ok(routes),
                                remaining: surplus,
                            }
                        } else {
                            let queued = t.queued(routes);
                            Routed {
                                table: TableView { complete_requests: 0, ..queued.advanced() },
                                result: Ok(queued.next_routes()),
                                remaining: surplus,
                            }
                        }
                    },
                },
                RequestResponseKind::Incomplete => Routed {
                    table: t,
                    result: Err(RouteError::Incomplete),
                    remaining: 0,
                },
            }
        }
    }

    /// The table with the bytes of a response added: to those that came before them where
    /// the response was incomplete; where a whole response is waiting, they are dropped.
    pub open spec fn with_response(self, token: u32, payload: Seq<u8>) -> TableView {
        if !self.responses.contains_key(token) {
            TableView { responses: self.responses.insert(token, payload), ..self }
        } else if self.response_kind == RequestResponseKind::Incomplete {
            TableView {
                responses: self.responses.insert(token, self.responses[token] + payload),
                ..self
            }
        } else {
            self
        }
    }

    /// The table with the response cut to its first message, and counted as complete.
    pub open spec fn with_first_message(self, token: u32, surplus: int) -> TableView {
        TableView {
            responses: if surplus > 0 {
                self.responses.insert(token, first_message(self.responses[token], surplus))
            } else {
                self.responses
            },
            complete_requests: (self.complete_requests + 1) as usize,
            ..self
        }
    }

    /// Whether the responses that are there are to be merged.
    pub open spec fn is_answerable(self, cluster: Seq<char>) -> bool {
        !self.is_last(cluster) || self.request_type != RequestType::RequestResponse
            || self.requests.len() == self.complete_requests
    }

    /// Whether the table can take the response.
    pub open spec fn can_answer<P: RoutingProtocol>(
        self,
        protocol: P,
        token: u32,
        payload: Seq<u8>,
    ) -> bool {
        let t = self.with_response(token, payload);
        let surplus = protocol.surplus(false, t.responses[token]);
        let u = t.with_first_message(token, surplus);
        &&& self.requests.contains_key(token)
        &&& protocol.sizable(t.responses[token])
        &&& surplus >= 0 ==> self.complete_requests < usize::MAX
        &&& surplus >= 0 && u.is_answerable(self.requests[token].0) ==> protocol.mergeable(
            u,
            u.responses,
        )
    }

    /// The table without the responses that have been merged.
    pub open spec fn answered(self) -> TableView {
        let left = self.responses.remove_keys(self.requests.dom());
        TableView {
            responses: left,
            requests: if left == Map::<u32, Seq<u8>>::empty() && self.request_type
                == RequestType::RequestResponse {
                Map::empty()
            } else {
                self.requests
            },
            ..self
        }
    }

    /// What comes of a response.
    pub open spec fn responded<P: RoutingProtocol>(
        self,
        protocol: P,
        token: u32,
        payload: Seq<u8>,
    ) -> Answered {
        let cluster = self.requests[token].0;
        let t = self.with_response(token, payload);
        let surplus = protocol.surplus(false, t.responses[token]);
        let u = t.with_first_message(token, surplus);
        if surplus < 0 {
            Answered {
                table: TableView { response_kind: RequestResponseKind::Incomplete, ..t },
                result: Err(RouteError::Incomplete),
                remaining: 0,
            }
        } else if !u.is_answerable(cluster) {
            Answered { table: u, result: Err(RouteError::Wait), remaining: surplus }
        } else {
            let merged = protocol.merged(u, u.responses);
            Answered {
                table: if merged is Err {
                    u
                } else if !u.is_last(cluster) {
                    TableView { responses: u.responses.remove(token), ..u }
                } else {
                    u.answered()
                },
                result: merged,
                remaining: surplus,
            }
        }
    }
}

/// The bytes of the requests of a list.
pub open spec fn payloads(list: Seq<Vec<u8>>) -> Seq<Seq<u8>> {
    Seq::new(list.len(), |i: int| list[i]@)
}

/// A list of byte strings is its payloads.
pub broadcast proof fn payloads_deep_view(list: Vec<Vec<u8>>)
    ensures
        #[trigger] list.deep_view() == payloads(list@),
{
    broadcast use text::bytes_deep_view;

    assert(list.deep_view() =~= payloads(list@));
}

/// The default protocol: every message is complete, and goes to the local cluster.
#[derive(PartialEq, Eq, Structural, Debug, Clone, Copy)]
pub struct DefaultRoutingProtocol {}

impl DefaultRoutingProtocol {
    pub fn new() -> (protocol: Self)
        ensures
            protocol == (DefaultRoutingProtocol {  }),
    {
        DefaultRoutingProtocol {  }
    }
}

impl RoutingProtocol for DefaultRoutingProtocol {
    open spec fn sizable(&self, payload: Seq<u8>) -> bool {
        true
    }

    open spec fn surplus(&self, is_request: bool, payload: Seq<u8>) -> int {
        0
    }

    fn payload_compare_size(&self, is_request: bool, payload: &Vec<u8>) -> (r: isize) {
        0
    }

    open spec fn classifiable(&self, payload: Seq<u8>) -> bool {
        true
    }

    open spec fn classification(&self, payload: Seq<u8>) -> (
        RequestType,
        RequestResponseKind,
        RequestResponseKind,
    ) {
        (
            RequestType::RequestResponse,
            RequestResponseKind::Routable,
            RequestResponseKind::Routable,
        )
    }

    fn request_response_type(&self, payload: &Vec<u8>) -> (r: (
        RequestType,
        RequestResponseKind,
        RequestResponseKind,
    )) {
        (
            RequestType::RequestResponse,
            RequestResponseKind::Routable,
            RequestResponseKind::Routable,
        )
    }

    open spec fn response_kind(&self, payload: Seq<u8>) -> RequestResponseKind {
        RequestResponseKind::Routable
    }

    fn response_type(&self, routing_table: &RoutingTable, payload: &Vec<u8>) -> (r:
        RequestResponseKind) {
        RequestResponseKind::Routable
    }

    open spec fn splittable(&self, table: TableView, request: Seq<u8>) -> bool {
        true
    }

    /// The request goes to the local cluster; without one there is no route.
    open spec fn split(&self, table: TableView, request: Seq<u8>) -> Result<Routes, RouteError> {
        match table.local_cluster {
            Some(local) => Ok(map![local => request]),
            None => Ok(Map::empty()),
        }
    }

    fn split_queries(&self, routing_table: &RoutingTable, request: &Vec<u8>) -> (r: Result<
        KeyedMap<String, Vec<u8>>,
        RouteError,
    >) {
        broadcast use text::bytes_deep_view;

        let mut requests: KeyedMap<String, Vec<u8>> = KeyedMap::new();
        if let Some(local) = &routing_table.local_cluster {
            requests.insert(local.clone(), text::copy_bytes(request));
            assert(requests@ =~= map![local@ => request@]);
        }
        Ok(requests)
    }

    open spec fn mergeable(&self, table: TableView, responses: Map<u32, Seq<u8>>) -> bool {
        responses != Map::<u32, Seq<u8>>::empty()
    }

    /// The response with the smallest token.
    open spec fn merged(&self, table: TableView, responses: Map<u32, Seq<u8>>) -> Result<
        Seq<u8>,
        RouteError,
    > {
        Ok(responses[first_key(responses)])
    }

    fn merge_responses(
        &self,
        routing_table: &RoutingTable,
        response_map: &BTreeMap<u32, Vec<u8>>,
    ) -> (r: Result<Vec<u8>, RouteError>) {
        Ok(first_response(response_map))
    }
}

/// The response with the smallest token.
pub(crate) fn first_response(responses: &BTreeMap<u32, Vec<u8>>) -> (r: Vec<u8>)
    requires
        responses_view(responses@) != Map::<u32, Seq<u8>>::empty(),
    ensures
        is_first_key(responses_view(responses@), first_key(responses_view(responses@))),
        r@ == responses_view(responses@)[first_key(responses_view(responses@))],
{
    let ghost view = responses_view(responses@);
    let mut first: Option<u32> = None;
    for key in it: responses.keys()
        invariant
            it.seq().unref().to_set() == responses@.dom(),
            first is None <==> it.index() == 0,
            first matches Some(k) ==> responses@.contains_key(k),
            first matches Some(k) ==> forall|j: int|
                0 <= j < it.index() ==> k <= *#[trigger] it.seq()[j],
    {
        proof {
            lemma_key_listed(it.seq(), responses@.dom(), it.index() as int);
        }
        match first {
            Some(k) => {
                if *key < k {
                    first = Some(*key);
                }
            },
            None => {
                first = Some(*key);
            },
        }
    }
    match first {
        Some(k) => {
            proof {
                assert(view.contains_key(k));
                assert forall|j: u32| #[trigger] view.contains_key(j) implies k <= j by {
                    assert(responses@.dom().contains(j));
                }
                lemma_first_key(view, k);
            }
            match responses.get(&k) {
                Some(v) => text::copy_bytes(v),
                None => Vec::new(),
            }
        },
        None => {
            assert(view =~= Map::<u32, Seq<u8>>::empty());
            Vec::new()
        },
    }
}

/// A key that is listed is in the set of those listed.
pub(crate) proof fn lemma_key_listed(list: Seq<&u32>, set: Set<u32>, i: int)
    requires
        0 <= i < list.len(),
        list.unref().to_set() == set,
    ensures
        set.contains(*list[i]),
{
    assert(list.unref()[i] == *list[i]);
    assert(list.unref().to_set().contains(list.unref()[i]));
}

/// There is one smallest key at most.
pub(crate) proof fn lemma_first_key<V>(map: Map<u32, V>, k: u32)
    requires
        is_first_key(map, k),
    ensures
        first_key(map) == k,
{
    let j = first_key(map);
    assert(is_first_key(map, j));
    assert(map.contains_key(j) && map.contains_key(k));
}

impl TableView {
    /// A table that knows nothing yet.
    pub open spec fn unconfigured() -> TableView {
        TableView {
            routes: Seq::empty(),
            clusters: Seq::empty(),
            default_cluster: None,
            local_cluster: None,
            layer: Seq::empty(),
            mechanism: RoutingMechanism::Synchronous,
            origin_request: None,
            requests: Map::empty(),
            responses: Map::empty(),
            request_type: RequestType::RequestResponse,
            request_kind: RequestResponseKind::Routable,
            response_kind: RequestResponseKind::Routable,
            initialised: Map::empty(),
            local_requests: None,
            future_counter: 0,
            future_requests: Map::empty(),
            complete_requests: 0,
        }
    }

    /// Whether the first route whose key is written in the bytes can be found: no route
    /// before it is without a key.
    pub open spec fn can_find_by_key(self, key: Seq<u8>) -> bool {
        forall|i: int|
            0 <= i < self.routes.len() ==> (#[trigger] self.routes[i].key matches Some(k) && k.len()
                > 0) || exists|j: int| 0 <= j < i && #[trigger] self.routes[j].named_in(key)
    }
}

/// Whether `i` is the first position at which `p` holds.
pub open spec fn is_first(i: int, p: spec_fn(int) -> bool) -> bool {
    0 <= i && p(i) && forall|j: int| 0 <= j < i ==> !#[trigger] p(j)
}

impl RoutingTable {
    pub fn new() -> (table: Self)
        ensures
            table@ == TableView::unconfigured(),
    {
        let table = RoutingTable {
            vec: Vec::new(),
            clusters: Vec::new(),
            default_cluster: None,
            local_cluster: None,
            layer: String::new(),
            routing_mechanism: RoutingMechanism::Synchronous,
            origin_request: None,
            current_requests: BTreeMap::new(),
            current_responses: BTreeMap::new(),
            current_request_type: RequestType::RequestResponse,
            current_request_kind: RequestResponseKind::Routable,
            current_response_kind: RequestResponseKind::Routable,
            are_initial_requests_set: KeyedMap::new(),
            local_requests: None,
            future_requests_counter: 0,
            future_requests: KeyedMap::new(),
            complete_requests: 0,
        };
        assert(table@ =~= TableView::unconfigured());
        table
    }

    /// The first position at which the needle stands in the haystack.
    pub fn find_subsequence(&self, haystack: &[u8], needle: &[u8]) -> (r: Option<usize>)
        requires
            needle@.len() > 0,
        ensures
            r is None <==> !occurs(haystack@, needle@),
            r matches Some(i) ==> is_first(
                i as int,
                |j: int| stands_at(haystack@, needle@, j),
            ),
    {
        let n: usize = haystack.len();
        let m: usize = needle.len();
        let mut i: usize = 0;
        while i < n && m <= n - i
            invariant
                n == haystack@.len(),
                m == needle@.len(),
                m > 0,
                i <= n,
                forall|j: int| 0 <= j < i ==> !#[trigger] stands_at(haystack@, needle@, j),
            decreases n - i,
        {
            let mut k: usize = 0;
            while k < m && haystack[i + k] == needle[k]
                invariant
                    n == haystack@.len(),
                    m == needle@.len(),
                    k <= m,
                    i < n,
                    m <= n - i,
                    forall|j: int| 0 <= j < k ==> haystack@[i + j] == #[trigger] needle@[j],
                decreases m - k,
            {
                k += 1;
            }
            if k == m {
                assert(haystack@.subrange(i as int, i + m) =~= needle@);
                assert(stands_at(haystack@, needle@, i as int));
                return Some(i);
            }
            assert(!stands_at(haystack@, needle@, i as int)) by {
                assert(haystack@.subrange(i as int, i + m)[k as int] == haystack@[i + k]);
            }
            i += 1;
        }
        None
    }

    /// The first route whose key is written in the bytes.
    pub fn find_entry_by_key(&self, key: &[u8]) -> (r: Option<&RoutingEntry>)
        requires
            self@.can_find_by_key(key@),
        ensures
            r is None <==> forall|i: int|
                0 <= i < self@.routes.len() ==> !#[trigger] self@.routes[i].named_in(key@),
            r matches Some(entry) ==> exists|i: int|
                0 <= i < self.vec@.len() && *entry == #[trigger] self.vec@[i]
                    && self@.routes[i].named_in(key@) && forall|j: int|
                    0 <= j < i ==> !#[trigger] self@.routes[j].named_in(key@),
    {
        let mut i: usize = 0;
        while i < self.vec.len()
            invariant
                i <= self.vec@.len(),
                self@.can_find_by_key(key@),
                forall|j: int| 0 <= j < i ==> !#[trigger] self@.routes[j].named_in(key@),
            decreases self.vec@.len() - i,
        {
            let ghost route = self@.routes[i as int];
            assert(route.key is Some);
            if let Some(text) = &self.vec[i].key {
                proof {
                    lemma_text_bytes(text@);
                }
                let needle = text.as_str().as_bytes();
                if let Some(_) = self.find_subsequence(key, needle) {
                    assert(route.named_in(key@));
                    return Some(&self.vec[i]);
                }
            }
            assert(!route.named_in(key@));
            i += 1;
        }
        None
    }

    /// The first route that takes the key and the value.
    pub fn find_entry(&self, key: &[u8], value: &[u8]) -> (r: Option<&RoutingEntry>)
        ensures
            r is None <==> forall|i: int|
                0 <= i < self@.routes.len() ==> !#[trigger] self@.routes[i].takes(key@, value@),
            r matches Some(entry) ==> exists|i: int|
                0 <= i < self.vec@.len() && *entry == #[trigger] self.vec@[i]
                    && self@.routes[i].takes(key@, value@) && forall|j: int|
                    0 <= j < i ==> !#[trigger] self@.routes[j].takes(key@, value@),
    {
        let mut i: usize = 0;
        while i < self.vec.len()
            invariant
                i <= self.vec@.len(),
                forall|j: int| 0 <= j < i ==> !#[trigger] self@.routes[j].takes(key@, value@),
            decreases self.vec@.len() - i,
        {
            let entry = &self.vec[i];
            let is_match = pattern::allows(&entry.key_regex, key) && pattern::allows(
                &entry.value_regex,
                value,
            );
            assert(is_match == self@.routes[i as int].takes(key@, value@));
            if is_match {
                return Some(entry);
            }
            i += 1;
        }
        None
    }

    /// The requests that wait for a response.
    pub fn get_requests(&self) -> (r: &BTreeMap<u32, (String, Vec<u8>)>)
        ensures
            *r == self.current_requests,
    {
        &self.current_requests
    }

    /// The responses that wait to be merged.
    pub fn get_responses(&self) -> (r: &BTreeMap<u32, Vec<u8>>)
        ensures
            *r == self.current_responses,
    {
        &self.current_responses
    }

    /// Sets the request that is to be routed.
    pub fn register_downstream_request(&mut self, request: Option<Vec<u8>>)
        ensures
            final(self)@ == (TableView { origin_request: request.deep_view(), ..old(self)@ }),
    {
        self.origin_request = request;
    }

    /// Notes a request that was sent to a cluster.
    pub fn register_upstream_request(&mut self, token: u32, cluster: String, payload: Vec<u8>)
        ensures
            final(self)@ == (TableView {
                requests: old(self)@.requests.insert(token, (cluster@, payload@)),
                ..old(self)@
            }),
    {
        self.current_requests.insert(token, (cluster, payload));
        assert(self@.requests =~= old(self)@.requests.insert(token, (cluster@, payload@)));
    }

    /// Notes a response that came from a cluster.
    pub fn register_upstream_response<P: RoutingProtocol>(
        &mut self,
        _protocol: &P,
        token: u32,
        payload: Vec<u8>,
    )
        ensures
            final(self)@ == (TableView {
                responses: old(self)@.responses.insert(token, payload@),
                ..old(self)@
            }),
    {
        self.current_responses.insert(token, payload);
        assert(self@.responses =~= old(self)@.responses.insert(token, payload@));
    }

    /// Whether the cluster has got all of its requests.
    pub fn check_last_request(&self, cluster: &String) -> (r: bool)
        ensures
            r <==> self@.is_last(cluster@),
    {
        broadcast use payloads_deep_view;

        match self.future_requests.get(cluster) {
            Some(list) => list.len() == 0,
            None => true,
        }
    }

    /// Appends a request to those that a cluster is to get.
    pub fn add_future_request(&mut self, cluster: String, payload: Vec<u8>)
        requires
            old(self)@.future_requests.contains_key(cluster@),
        ensures
            final(self)@ == (TableView {
                future_requests: old(self)@.future_requests.insert(
                    cluster@,
                    old(self)@.future_requests[cluster@].push(payload@),
                ),
                ..old(self)@
            }),
    {
        broadcast use payloads_deep_view;

        if let Some(mut list) = self.future_requests.remove(&cluster) {
            let ghost before = list@;
            list.push(payload);
            assert(payloads(list@) =~= payloads(before).push(payload@));
            self.future_requests.insert(cluster, list);
        }
        assert(self@.future_requests =~= old(self)@.future_requests.insert(
            cluster@,
            old(self)@.future_requests[cluster@].push(payload@),
        ));
    }
}

/// The bytes of a text are those that a string of it has, and there are some if it has
/// characters.
proof fn lemma_text_bytes(text: Seq<char>)
    ensures
        text.len() > 0 ==> text_bytes(text).len() > 0,
{
    reveal_with_fuel(vstd::utf8::encode_utf8, 2);
}

/// The routes that a configuration lists.
pub open spec fn listed_routes(configuration: RoutingConfiguration) -> Seq<RouteView> {
    match configuration.routing_table {
        Some(list) => routes(list@),
        None => Seq::empty(),
    }
}

/// The routes with their patterns compiled.
pub open spec fn compiled_routes(list: Seq<RouteView>) -> Seq<RouteView> {
    Seq::new(list.len(), |i: int| list[i].compiled())
}

/// Whether one of the routes has the text as a pattern.
pub open spec fn has_pattern(list: Seq<RouteView>, text: Seq<char>) -> bool {
    exists|i: int|
        0 <= i < list.len() && (#[trigger] list[i].key == Some(text) || list[i].value == Some(
            text,
        ))
}

/// Whether all routes have their patterns compiled.
pub open spec fn routes_ready(list: Seq<RouteView>) -> bool {
    forall|i: int| 0 <= i < list.len() ==> (#[trigger] list[i]).is_ready()
}

/// Whether the text is the first pattern of the routes that is not compiled.
pub open spec fn is_first_missing(list: Seq<RouteView>, text: Seq<char>) -> bool {
    exists|i: int|
        0 <= i < list.len() && !(#[trigger] list[i]).is_ready() && list[i].missing() == Some(text)
            && routes_ready(list.take(i))
}

/// Whether routes are what can come of compiling the patterns of routes.
pub open spec fn are_attempts(after: Seq<RouteView>, before: Seq<RouteView>) -> bool {
    after.len() == before.len() && forall|i: int|
        0 <= i < after.len() ==> (#[trigger] after[i]).is_attempt(before[i])
}

/// Routes of which every pattern could be compiled are compiled; the first pattern that could
/// not be is one of theirs, and not a plain one.
pub(crate) proof fn lemma_attempts(after: Seq<RouteView>, before: Seq<RouteView>)
    requires
        are_attempts(after, before),
    ensures
        routes_ready(after) ==> after == compiled_routes(before),
        forall|text: Seq<char>| #[trigger]
            is_first_missing(after, text) ==> has_pattern(before, text) && !pattern::is_plain(
                text,
            ),
{
    if routes_ready(after) {
        assert forall|i: int| 0 <= i < after.len() implies after[i] == compiled_routes(
            before,
        )[i] by {
            assert(after[i].is_ready() && after[i].is_attempt(before[i]));
        }
        assert(after =~= compiled_routes(before));
    }
    assert forall|text: Seq<char>| #[trigger] is_first_missing(after, text) implies has_pattern(
        before,
        text,
    ) && !pattern::is_plain(text) by {
        let i = choose|i: int|
            0 <= i < after.len() && !(#[trigger] after[i]).is_ready() && after[i].missing()
                == Some(text) && routes_ready(after.take(i));
        assert(after[i].is_attempt(before[i]));
        assert(before[i].key == Some(text) || before[i].value == Some(text));
    }
}

impl TableView {
    /// Whether the table is what `before` becomes when it is configured with these routes:
    /// the clusters are the default one, the local one and those of the routes.
    pub open spec fn is_configured(
        self,
        before: TableView,
        configuration: RoutingConfiguration,
        list: Seq<RouteView>,
    ) -> bool {
        &&& self == (TableView {
            mechanism: match configuration.routing_mechanism {
                Some(mechanism) => mechanism,
                None => RoutingMechanism::Synchronous,
            },
            clusters: self.clusters,
            default_cluster: configuration.default_cluster.deep_view(),
            local_cluster: configuration.local_cluster.deep_view(),
            layer: match configuration.type_proxy {
                Some(layer) => layer@,
                None => Seq::empty(),
            },
            routes: list,
            ..before
        })
        &&& text::ascending(self.clusters)
        &&& forall|c: Seq<char>| #[trigger]
            self.clusters.contains(c) <==> Some(c) == self.default_cluster || Some(c)
                == self.local_cluster || exists|i: int|
                0 <= i < list.len() && #[trigger] list[i].cluster == c
    }
}

/// Compiles the patterns of a route, as far as they can be.
fn compile_entry(entry: RoutingEntry) -> (r: RoutingEntry)
    ensures
        r@.is_attempt(entry@),
{
    let mut entry = entry;
    entry.key_regex = pattern::attempt(&entry.key);
    entry.value_regex = pattern::attempt(&entry.value);
    entry
}

/// Compiles the patterns of the routes that a configuration lists, as far as they can be.
pub(crate) fn compile_routes(configuration: RoutingConfiguration) -> (r: RoutingConfiguration)
    ensures
        are_attempts(listed_routes(r), listed_routes(configuration)),
        r == (RoutingConfiguration { routing_table: r.routing_table, ..configuration }),
{
    let ghost given = listed_routes(configuration);
    let mut configuration = configuration;
    let entries = match configuration.routing_table.take() {
        Some(list) => list,
        None => {
            return configuration;
        },
    };
    let ghost before = entries@;
    assert(given =~= routes(before));
    let mut list: Vec<RoutingEntry> = Vec::new();
    for entry in it: entries
        invariant
            it.seq() == before,
            list@.len() == it.index(),
            forall|i: int|
                0 <= i < list@.len() ==> (#[trigger] list@[i])@.is_attempt(before[i]@),
    {
        assert(entry == before[list@.len() as int]);
        list.push(compile_entry(entry));
    }
    assert forall|i: int| 0 <= i < list@.len() implies (#[trigger] routes(list@)[i]).is_attempt(
        given[i],
    ) by {
        assert(list@[i]@.is_attempt(before[i]@));
    }
    configuration.routing_table = Some(list);
    configuration
}

/// The first pattern of the routes that is not compiled.
fn find_missing(entries: &Vec<RoutingEntry>) -> (r: Option<String>)
    ensures
        match r {
            None => routes_ready(routes(entries@)),
            Some(text) => is_first_missing(routes(entries@), text@),
        },
{
    let ghost list = routes(entries@);
    let mut i: usize = 0;
    while i < entries.len()
        invariant
            i <= entries@.len(),
            list == routes(entries@),
            forall|j: int| 0 <= j < i ==> (#[trigger] list[j]).is_ready(),
        decreases entries@.len() - i,
    {
        let entry = &entries[i];
        proof {
            assert(list[i as int] == entry@);
            assert forall|j: int| 0 <= j < i implies (#[trigger] list.take(i as int)[j]).is_ready()
            by {
                assert(list[j].is_ready());
            }
        }
        if entry.key_regex.is_none() {
            if let Some(key) = &entry.key {
                assert(list[i as int].missing() == Some(key@));
                return Some(key.clone());
            }
        }
        if entry.value_regex.is_none() {
            if let Some(value) = &entry.value {
                assert(list[i as int].missing() == Some(value@));
                return Some(value.clone());
            }
        }
        i += 1;
    }
    None
}

impl RoutingTable {
    /// Takes over a configuration. Where one of its patterns is no regular expression, the
    /// pattern is handed back and nothing changes.
    pub fn configure(&mut self, configuration: RoutingConfiguration) -> (r: Result<(), String>)
        ensures
            r is Ok ==> final(self)@.is_configured(
                old(self)@,
                configuration,
                compiled_routes(listed_routes(configuration)),
            ),
            r matches Err(p) ==> final(self)@ == old(self)@ && has_pattern(
                listed_routes(configuration),
                p@,
            ) && !pattern::is_plain(p@),
            (forall|p: Seq<char>| #[trigger]
                has_pattern(listed_routes(configuration), p) ==> pattern::is_plain(p)) ==> r is Ok,
    {
        let compiled = compile_routes(configuration);
        proof {
            lemma_attempts(listed_routes(compiled), listed_routes(configuration));
        }
        self.adopt(compiled)
    }

    /// Takes over a configuration whose patterns have been compiled as far as they can be. Where
    /// one of them is missing, the first such pattern is handed back and nothing changes.
    pub fn adopt(&mut self, configuration: RoutingConfiguration) -> (r: Result<(), String>)
        ensures
            r is Ok <==> routes_ready(listed_routes(configuration)),
            r is Ok ==> final(self)@.is_configured(
                old(self)@,
                configuration,
                listed_routes(configuration),
            ),
            r matches Err(p) ==> final(self)@ == old(self)@ && is_first_missing(
                listed_routes(configuration),
                p@,
            ),
    {
        let ghost given = configuration;
        let mut configuration = configuration;
        let entries = match configuration.routing_table.take() {
            Some(list) => list,
            None => Vec::new(),
        };
        assert(routes(entries@) =~= listed_routes(given));
        match find_missing(&entries) {
            None => {
                self.install(configuration, entries);
                Ok(())
            },
            Some(p) => {
                assert(!routes_ready(listed_routes(given)));
                Err(p)
            },
        }
    }

    /// Takes over a configuration with these routes in place of those that it lists.
    pub fn install(&mut self, configuration: RoutingConfiguration, entries: Vec<RoutingEntry>)
        ensures
            final(self)@.is_configured(old(self)@, configuration, routes(entries@)),
    {
        self.routing_mechanism =
        match configuration.routing_mechanism {
            Some(mechanism) => mechanism,
            None => RoutingMechanism::Synchronous,
        };
        let mut clusters: Vec<String> = Vec::new();
        if let Some(cluster) = &configuration.default_cluster {
            text::insert_ascending(&mut clusters, cluster);
        }
        if let Some(cluster) = &configuration.local_cluster {
            text::insert_ascending(&mut clusters, cluster);
        }
        let ghost fixed = |c: Seq<char>|
            Some(c) == configuration.default_cluster.deep_view() || Some(c)
                == configuration.local_cluster.deep_view();
        let ghost list = routes(entries@);
        let mut i: usize = 0;
        while i < entries.len()
            invariant
                i <= entries@.len(),
                list == routes(entries@),
                text::ascending(text::texts(clusters@)),
                forall|c: Seq<char>| #[trigger]
                    text::texts(clusters@).contains(c) <==> fixed(c) || exists|j: int|
                        0 <= j < i && #[trigger] list[j].cluster == c,
            decreases entries@.len() - i,
        {
            let ghost before = text::texts(clusters@);
            text::insert_ascending(&mut clusters, &entries[i].cluster);
            proof {
                assert(list[i as int].cluster == entries@[i as int].cluster@);
                assert forall|c: Seq<char>| #[trigger]
                    text::texts(clusters@).contains(c) <==> fixed(c) || exists|j: int|
                        0 <= j < i + 1 && #[trigger] list[j].cluster == c by {
                    assert(text::texts(clusters@).contains(c) <==> before.contains(c) || c
                        == list[i as int].cluster);
                }
            }
            i += 1;
        }
        self.clusters = clusters;
        self.default_cluster = configuration.default_cluster;
        self.local_cluster = configuration.local_cluster;
        self.layer =
        match configuration.type_proxy {
            Some(layer) => layer,
            None => String::new(),
        };
        self.vec = entries;
    }
}

impl RoutingTable {
    /// Takes the next request of every cluster that is to get one. There is nothing to
    /// take where no request was ever queued.
    pub fn next_requests(&mut self) -> (r: Option<KeyedMap<String, Vec<u8>>>)
        ensures
            final(self)@ == old(self)@.advanced(),
            r is None <==> old(self)@.future_requests == Map::<
                Seq<char>,
                Seq<Seq<u8>>,
            >::empty(),
            r matches Some(requests) ==> requests@ == old(self)@.next_routes(),
    {
        broadcast use {payloads_deep_view, text::bytes_deep_view};

        let ghost queues = self.future_requests@;
        if self.future_requests.is_empty() {
            assert(self@.advanced().future_requests =~= self@.future_requests);
            return None;
        }
        let mut clusters: Vec<String> = Vec::new();
        let n: usize = self.future_requests.size();
        let ghost keys = self.future_requests.keys();
        let mut i: usize = 0;
        while i < n
            invariant
                n == keys.len(),
                i <= n,
                keys == self.future_requests.keys(),
                self.future_requests@ == queues,
                keys.no_duplicates(),
                forall|c: Seq<char>| #[trigger] queues.contains_key(c) <==> keys.contains(c),
                text::texts(clusters@).no_duplicates(),
                forall|c: Seq<char>| #[trigger]
                    text::texts(clusters@).contains(c) <==> keys.take(i as int).contains(c)
                        && queues[c].len() > 0,
            decreases n - i,
        {
            let ghost before = text::texts(clusters@);
            let ghost key = keys[i as int];
            let pending = self.future_requests.value_at(i).len() > 0;
            proof {
                assert(keys.take(i + 1) =~= keys.take(i as int).push(key));
                assert forall|c: Seq<char>| #[trigger]
                    keys.take(i + 1).contains(c) <==> keys.take(i as int).contains(c) || c
                        == key by {
                    lemma_push_contains(keys.take(i as int), key, c);
                }
                assert(!keys.take(i as int).contains(key));
            }
            if pending {
                clusters.push(self.future_requests.key_at(i).clone());
                proof {
                    assert(text::texts(clusters@) =~= before.push(key));
                    assert(!before.contains(key));
                    lemma_push_distinct(before, key);
                    assert forall|c: Seq<char>| #[trigger]
                        text::texts(clusters@).contains(c) <==> before.contains(c) || c == key by {
                        lemma_push_contains(before, key, c);
                    }
                }
            }
            i += 1;
        }
        proof {
            assert(keys.take(n as int) =~= keys);
        }
        let ghost names = text::texts(clusters@);
        let mut map: KeyedMap<String, Vec<u8>> = KeyedMap::new();
        let mut k: usize = 0;
        while k < clusters.len()
            invariant
                k <= clusters@.len(),
                names == text::texts(clusters@),
                names.no_duplicates(),
                forall|c: Seq<char>| #[trigger]
                    names.contains(c) ==> queues.contains_key(c) && queues[c].len() > 0,
                forall|c: Seq<char>| #[trigger]
                    map@.contains_key(c) <==> names.take(k as int).contains(c),
                forall|c: Seq<char>| #[trigger] map@.contains_key(c) ==> map@[c] == queues[c][0],
                forall|c: Seq<char>| #[trigger]
                    self.future_requests@.contains_key(c) <==> queues.contains_key(c),
                forall|c: Seq<char>| #[trigger]
                    self.future_requests@.contains_key(c) ==> self.future_requests@[c] == (
                    if names.take(k as int).contains(c) {
                        queues[c].skip(1)
                    } else {
                        queues[c]
                    }),
                *self == (RoutingTable { future_requests: self.future_requests, ..*old(self) }),
            decreases clusters@.len() - k,
        {
            let ghost name = names[k as int];
            proof {
                assert(names.contains(name));
                assert(names.take(k + 1) =~= names.take(k as int).push(name));
                assert forall|c: Seq<char>| #[trigger]
                    names.take(k + 1).contains(c) <==> names.take(k as int).contains(c) || c
                        == name by {
                    lemma_push_contains(names.take(k as int), name, c);
                }
                assert(!names.take(k as int).contains(name));
                assert(self.future_requests@.contains_key(name));
            }
            if let Some(mut list) = self.future_requests.remove(&clusters[k]) {
                let ghost before = list@;
                assert(clusters@[k as int]@ == name);
                assert(list.deep_view() == queues[name]);
                proof {
                    payloads_deep_view(list);
                }
                let request = list.remove(0);
                assert(payloads(list@) =~= payloads(before).skip(1));
                self.future_requests.insert(clusters[k].clone(), list);
                map.insert(clusters[k].clone(), request);
            }
            k += 1;
        }
        proof {
            assert(names.take(k as int) =~= names);
            assert(map@ =~= old(self)@.next_routes());
            assert(self@.future_requests =~= old(self)@.advanced().future_requests);
        }
        Some(map)
    }
}

/// An element that is new leaves no duplicates.
proof fn lemma_push_distinct<A>(s: Seq<A>, a: A)
    requires
        s.no_duplicates(),
        !s.contains(a),
    ensures
        s.push(a).no_duplicates(),
{
    assert forall|i: int, j: int|
        0 <= i < s.push(a).len() && 0 <= j < s.push(a).len() && i != j implies s.push(a)[i]
        != s.push(a)[j] by {
        assert(i < s.len() ==> s.contains(s[i]));
        assert(j < s.len() ==> s.contains(s[j]));
    }
}

/// What is in a sequence with one more element.
proof fn lemma_push_contains<A>(s: Seq<A>, a: A, x: A)
    ensures
        s.push(a).contains(x) <==> s.contains(x) || x == a,
{
    assert(s.push(a)[s.len() as int] == a);
    if s.contains(x) {
        let i = choose|i: int| 0 <= i < s.len() && s[i] == x;
        assert(s.push(a)[i] == x);
    }
    if s.push(a).contains(x) && x != a {
        let i = choose|i: int| 0 <= i < s.push(a).len() && s.push(a)[i] == x;
        assert(s[i] == x);
    }
}

/// Appends copies of the requests of a list.
fn append_payloads(to: &mut Vec<Vec<u8>>, list: &Vec<Vec<u8>>)
    ensures
        payloads(final(to)@) == payloads(old(to)@) + payloads(list@),
{
    let ghost before = payloads(to@);
    let mut i: usize = 0;
    while i < list.len()
        invariant
            i <= list@.len(),
            payloads(to@) == before + payloads(list@).take(i as int),
        decreases list@.len() - i,
    {
        let ghost now = to@;
        to.push(text::copy_bytes(&list[i]));
        proof {
            assert(payloads(to@) =~= payloads(now).push(list@[i as int]@));
            assert(payloads(list@).take(i + 1) =~= payloads(list@).take(i as int).push(
                list@[i as int]@,
            ));
            assert(payloads(to@) =~= before + payloads(list@).take(i + 1));
        }
        i += 1;
    }
    proof {
        assert(payloads(list@).take(i as int) =~= payloads(list@));
    }
}

impl RoutingTable {
    /// Sends a request that sets up a connection to the clusters that get it, and keeps it
    /// for those that do not yet.
    fn broadcast_request(&mut self, request: &Vec<u8>) -> (r: KeyedMap<String, Vec<u8>>)
        requires
            old(self)@.origin_request == Some(request@),
            old(self)@.mechanism is DeferRemoteLocalCommands ==> old(self)@.local_cluster is Some,
        ensures
            final(self)@ == old(self)@.remembering(),
            r@ == old(self)@.broadcast_routes(),
    {
        broadcast use text::bytes_deep_view;

        let mut requests: KeyedMap<String, Vec<u8>> = KeyedMap::new();
        match self.routing_mechanism {
            RoutingMechanism::Synchronous => {
                let ghost names = text::texts(self.clusters@);
                let mut i: usize = 0;
                while i < self.clusters.len()
                    invariant
                        *self == *old(self),
                        i <= self.clusters@.len(),
                        names == text::texts(self.clusters@),
                        forall|c: Seq<char>| #[trigger]
                            requests@.contains_key(c) <==> names.take(i as int).contains(c),
                        forall|c: Seq<char>| #[trigger]
                            requests@.contains_key(c) ==> requests@[c] == request@,
                    decreases self.clusters@.len() - i,
                {
                    let payload = text::copy_bytes(request);
                    proof {
                        text::bytes_deep_view(payload);
                        assert(names.take(i + 1) =~= names.take(i as int).push(names[i as int]));
                        assert forall|c: Seq<char>| #[trigger]
                            names.take(i + 1).contains(c) <==> names.take(i as int).contains(c) || c
                                == names[i as int] by {
                            lemma_push_contains(names.take(i as int), names[i as int], c);
                        }
                    }
                    requests.insert(self.clusters[i].clone(), payload);
                    i += 1;
                }
                proof {
                    assert(names.take(i as int) =~= names);
                    assert(requests@ =~= self@.broadcast_routes());
                }
            },
            RoutingMechanism::DeferRemoteLocalCommands => {
                if let Some(local) = self.local_cluster.as_ref() {
                    requests.insert(local.clone(), text::copy_bytes(request));
                    assert(requests@ =~= map![local@ => request@]);
                    let ready = match self.are_initial_requests_set.get(local) {
                        Some(b) => *b,
                        None => false,
                    };
                    if self.current_request_kind == RequestResponseKind::Local && !ready {
                        let mut list: Vec<Vec<u8>> = match self.local_requests.take() {
                            Some(list) => list,
                            None => Vec::new(),
                        };
                        let ghost before = list@;
                        list.push(text::copy_bytes(request));
                        proof {
                            assert(payloads(list@) =~= payloads(before).push(request@));
                            payloads_deep_view(list);
                            if old(self).local_requests is Some {
                                payloads_deep_view(old(self).local_requests->Some_0);
                            } else {
                                assert(payloads(before) =~= Seq::<Seq<u8>>::empty());
                            }
                        }
                        self.local_requests = Some(list);
                    }
                }
            },
        }
        requests
    }

    /// Queues the routes of a request.
    fn queue_requests(&mut self, requests: &KeyedMap<String, Vec<u8>>)
        requires
            old(self)@.can_queue(requests@),
        ensures
            final(self)@ == old(self)@.queued(requests@),
    {
        let ghost t = self@;
        let ghost local = t.local_cluster->Some_0;
        let ghost routes = requests@;
        if let Some(name) = self.local_cluster.as_ref() {
            self.are_initial_requests_set.insert(name.clone(), true);
        }
        let n: usize = requests.size();
        let ghost keys = requests.keys();
        let mut i: usize = 0;
        while i < n
            invariant
                i <= n,
                n == keys.len(),
                keys == requests.keys(),
                routes == requests@,
                keys.no_duplicates(),
                t == old(self)@,
                t.can_queue(routes),
                t.local_cluster == Some(local),
                forall|c: Seq<char>| #[trigger] routes.contains_key(c) <==> keys.contains(c),
                *self == (RoutingTable {
                    future_requests: self.future_requests,
                    are_initial_requests_set: self.are_initial_requests_set,
                    ..*old(self)
                }),
                forall|c: Seq<char>| #[trigger]
                    self.future_requests@.contains_key(c) <==> t.future_requests.contains_key(c)
                        || keys.take(i as int).contains(c),
                forall|c: Seq<char>| #[trigger]
                    self.future_requests@.contains_key(c) ==> self.future_requests@[c] == (
                    if keys.take(i as int).contains(c) {
                        t.queue_with(routes, c)
                    } else {
                        t.future_requests[c]
                    }),
                forall|c: Seq<char>| #[trigger]
                    self.are_initial_requests_set@.contains_key(c) <==> t.initialised.contains_key(
                        c,
                    ) || keys.take(i as int).contains(c) || c == local,
                forall|c: Seq<char>| #[trigger]
                    self.are_initial_requests_set@.contains_key(c)
                        ==> self.are_initial_requests_set@[c] == (if keys.take(i as int).contains(c)
                        || c == local {
                        true
                    } else {
                        t.initialised[c]
                    }),
            decreases n - i,
        {
            let ghost key = keys[i as int];
            proof {
                assert(keys.take(i + 1) =~= keys.take(i as int).push(key));
                assert forall|c: Seq<char>| #[trigger]
                    keys.take(i + 1).contains(c) <==> keys.take(i as int).contains(c) || c
                        == key by {
                    lemma_push_contains(keys.take(i as int), key, c);
                }
                assert(!keys.take(i as int).contains(key));
                assert(keys.contains(key));
                assert(routes.contains_key(key));
                assert(self.future_requests@.contains_key(key)
                    <==> t.future_requests.contains_key(key));
                assert(self.are_initial_requests_set@.contains_key(key)
                    <==> t.initialised.contains_key(key) || key == local);
            }
            let cluster = requests.key_at(i).clone();
            let mut list: Vec<Vec<u8>> = match self.future_requests.remove(&cluster) {
                Some(list) => list,
                None => Vec::new(),
            };
            let ghost before = payloads(list@);
            proof {
                payloads_deep_view(list);
                if !t.future_requests.contains_key(key) {
                    assert(before =~= Seq::<Seq<u8>>::empty());
                }
            }
            let ready = match self.are_initial_requests_set.get(&cluster) {
                Some(b) => *b,
                None => false,
            };
            assert(ready <==> t.is_initialised(key) || key == local);
            if !ready {
                self.are_initial_requests_set.insert(cluster.clone(), true);
                if let Some(setup) = self.local_requests.as_ref() {
                    append_payloads(&mut list, setup);
                    proof {
                        payloads_deep_view(*setup);
                    }
                }
            }
            let ghost setup = if t.is_initialised(key) || Some(key) == t.local_cluster {
                Seq::<Seq<u8>>::empty()
            } else {
                t.local_requests->Some_0
            };
            assert(payloads(list@) =~= before + setup);
            let part = requests.value_at(i);
            let payload = text::copy_bytes(part);
            let ghost queue = list@;
            proof {
                text::bytes_deep_view(*part);
            }
            list.push(payload);
            proof {
                assert(payloads(list@) =~= payloads(queue).push(routes[key]));
                assert(payloads(list@) == t.queue_with(routes, key));
                payloads_deep_view(list);
            }
            self.future_requests.insert(cluster, list);
            i += 1;
        }
        proof {
            assert(keys.take(i as int) =~= keys);
            assert(self@.future_requests =~= t.queued(routes).future_requests);
            assert(self@.initialised =~= t.queued(routes).initialised);
        }
    }

    /// Routes the request that was registered. The routes say what every cluster gets; with
    /// them comes the number of bytes that follow the request.
    pub fn route_request<P: RoutingProtocol>(&mut self, protocol: &P) -> (r: (
        Result<KeyedMap<String, Vec<u8>>, RouteError>,
        usize,
    ))
        requires
            old(self)@.can_route(*protocol),
        ensures
            final(self)@ == old(self)@.routed(*protocol).table,
            routes_view(r.0) == old(self)@.routed(*protocol).result,
            r.1 == old(self)@.routed(*protocol).remaining,
    {
        broadcast use text::bytes_deep_view;

        let mut request: Vec<u8> = match self.origin_request.take() {
            Some(payload) => payload,
            None => Vec::new(),
        };
        let ghost payload = request@;
        let difference: isize = protocol.payload_compare_size(true, &request);
        if difference < 0 {
            self.origin_request = Some(request);
            self.current_request_type = RequestType::Incomplete;
            self.current_request_kind = RequestResponseKind::Incomplete;
            self.current_response_kind = RequestResponseKind::Incomplete;
            return (Err(RouteError::Incomplete), 0);
        }
        let remaining: usize = difference as usize;
        if remaining > 0 {
            let length: usize = request.len() - remaining;
            request.truncate(length);
            assert(request@ =~= first_message(payload, remaining as int));
        }
        let (request_type, request_kind, response_kind) = protocol.request_response_type(&request);
        self.current_request_type = request_type;
        self.current_request_kind = request_kind;
        self.current_response_kind = response_kind;
        self.origin_request = Some(text::copy_bytes(&request));
        let ghost t = self@;
        assert(t =~= old(self)@.classified(*protocol));
        let requests: KeyedMap<String, Vec<u8>> = match request_kind {
            RequestResponseKind::System | RequestResponseKind::Local => self.broadcast_request(
                &request,
            ),
            RequestResponseKind::Routable => {
                let mut requests = match protocol.split_queries(&*self, &request) {
                    Ok(requests) => requests,
                    Err(e) => {
                        return (Err(e), 0);
                    },
                };
                let ghost split = requests@;
                if requests.is_empty() {
                    if let Some(cluster) = self.default_cluster.as_ref() {
                        requests.insert(cluster.clone(), request);
                    }
                }
                assert(requests@ =~= t.or_default(split));
                if self.routing_mechanism == RoutingMechanism::DeferRemoteLocalCommands {
                    self.queue_requests(&requests);
                    let ghost queued = self@;
                    requests =
                    match self.next_requests() {
                        Some(next) => next,
                        None => KeyedMap::new(),
                    };
                    assert(requests@ =~= queued.next_routes());
                }
                requests
            },
            RequestResponseKind::Incomplete => {
                return (Err(RouteError::Incomplete), 0);
            },
        };
        self.complete_requests = 0;
        (Ok(requests), remaining)
    }
}

impl RoutingTable {
    /// Removes the responses to the requests that wait for one.
    fn forget_responses(&mut self)
        ensures
            final(self)@ == (TableView {
                responses: old(self)@.responses.remove_keys(old(self)@.requests.dom()),
                ..old(self)@
            }),
    {
        let ghost before = self@;
        let mut tokens: Vec<u32> = Vec::new();
        for token in it: self.current_requests.keys()
            invariant
                it.seq().unref().to_set() == self.current_requests@.dom(),
                tokens@.len() == it.index(),
                forall|j: int| 0 <= j < it.index() ==> #[trigger] tokens@[j] == *it.seq()[j],
                it.index() == it.seq().len() ==> tokens@ == it.seq().unref(),
        {
            tokens.push(*token);
        }
        assert forall|k: u32| #[trigger] before.requests.contains_key(k) <==> tokens@.contains(
            k,
        ) by {
            assert(tokens@.to_set().contains(k) <==> self.current_requests@.dom().contains(k));
        }
        let mut i: usize = 0;
        while i < tokens.len()
            invariant
                i <= tokens@.len(),
                *self == (RoutingTable {
                    current_responses: self.current_responses,
                    ..*old(self)
                }),
                before == old(self)@,
                forall|k: u32| #[trigger]
                    self@.responses.contains_key(k) <==> before.responses.contains_key(k)
                        && !tokens@.take(i as int).contains(k),
                forall|k: u32| #[trigger]
                    self@.responses.contains_key(k) ==> self@.responses[k] == before.responses[k],
            decreases tokens@.len() - i,
        {
            let ghost token = tokens@[i as int];
            let ghost now = self@.responses;
            proof {
                assert(tokens@.take(i + 1) =~= tokens@.take(i as int).push(token));
                assert forall|k: u32| #[trigger]
                    tokens@.take(i + 1).contains(k) <==> tokens@.take(i as int).contains(k) || k
                        == token by {
                    lemma_push_contains(tokens@.take(i as int), token, k);
                }
            }
            self.current_responses.remove(&tokens[i]);
            assert(self@.responses =~= now.remove(token));
            i += 1;
        }
        proof {
            assert(tokens@.take(i as int) =~= tokens@);
            assert(self@.responses =~= before.responses.remove_keys(before.requests.dom()));
        }
    }

    /// Takes the bytes that a cluster answered to the request with the token, and makes the
    /// response of those that came. With it comes the number of bytes that follow the
    /// cluster's response.
    pub fn route_response<P: RoutingProtocol>(
        &mut self,
        protocol: &P,
        token: u32,
        payload: Vec<u8>,
    ) -> (r: (Result<Vec<u8>, RouteError>, usize))
        requires
            old(self)@.can_answer(*protocol, token, payload@),
        ensures
            final(self)@ == old(self)@.responded(*protocol, token, payload@).table,
            response_view(r.0) == old(self)@.responded(*protocol, token, payload@).result,
            r.1 == old(self)@.responded(*protocol, token, payload@).remaining,
    {
        let ghost given = payload@;
        let ghost before = self@;
        assert(self.current_requests@.contains_key(token));
        let cluster: String = match self.current_requests.get(&token) {
            Some(request) => request.0.clone(),
            None => String::new(),
        };
        assert(cluster@ == before.requests[token].0);
        let response: Vec<u8> = match self.current_responses.remove(&token) {
            Some(previous) => {
                let mut previous = previous;
                let mut payload = payload;
                assert(before.responses[token] == previous@);
                if self.current_response_kind == RequestResponseKind::Incomplete {
                    previous.append(&mut payload);
                }
                previous
            },
            None => payload,
        };
        let ghost t = before.with_response(token, given);
        assert(response@ =~= t.responses[token]);
        let difference: isize = protocol.payload_compare_size(false, &response);
        let mut response = response;
        if difference < 0 {
            self.current_responses.insert(token, response);
            self.current_response_kind = RequestResponseKind::Incomplete;
            assert(self@.responses =~= t.responses);
            return (Err(RouteError::Incomplete), 0);
        }
        let remaining: usize = difference as usize;
        if remaining > 0 {
            let length: usize = response.len() - remaining;
            response.truncate(length);
            assert(response@ =~= first_message(t.responses[token], remaining as int));
        }
        self.complete_requests = self.complete_requests + 1;
        self.current_responses.insert(token, response);
        let ghost u = t.with_first_message(token, remaining as int);
        proof {
            assert(self@.responses =~= u.responses);
            assert(self@ =~= u);
            assert(self.current_requests@.dom() =~= u.requests.dom());
        }
        if !self.check_last_request(&cluster) {
            let merged = protocol.merge_responses(&*self, &self.current_responses);
            if merged.is_ok() {
                self.current_responses.remove(&token);
                assert(self@.responses =~= u.responses.remove(token));
            }
            return (merged, remaining);
        }
        let merged = match self.current_request_type {
            RequestType::RequestResponse => {
                if self.current_requests.len() == self.complete_requests {
                    protocol.merge_responses(&*self, &self.current_responses)
                } else {
                    Err(RouteError::Wait)
                }
            },
            _ => protocol.merge_responses(&*self, &self.current_responses),
        };
        if merged.is_ok() {
            self.forget_responses();
            let ghost left = self@.responses;
            proof {
                assert(self.current_responses@.dom() =~= left.dom());
                if self.current_responses@.is_empty() {
                    assert(left =~= Map::<u32, Seq<u8>>::empty());
                }
            }
            if self.current_responses.is_empty() && self.current_request_type
                == RequestType::RequestResponse {
                self.current_requests.clear();
                assert(self@.requests =~= Map::<u32, (Seq<char>, Seq<u8>)>::empty());
            }
            assert(self@ =~= u.answered());
        }
        (merged, remaining)
    }
}

} // verus!
