//! The root of the proxy: it makes the filters of connections, and answers the fetches that
//! wait once there are records for them.

use crate::batches::RecordView;
use crate::codec;
use crate::codec::FetchMessage;
use crate::codec::FetchMessageView;
use crate::codec::FetchedPartition;
use crate::codec::FetchedPartitionView;
use crate::codec::FetchedTopic;
use crate::codec::FetchedTopicView;
use crate::codec::ResponseHeader;
use crate::codec::ResponseHeaderView;
use crate::criteria::AlloyFilterCriteria;
use crate::criteria::CriteriaView;
use crate::criteria::FilterEntry;
use crate::criteria::FilterEntryView;
use crate::data;
use crate::data::ConnectionInfo;
use crate::data::ConnectionView;
use crate::data::FetchRequestData;
use crate::data::FetchResponseData;
use crate::data::RequestDataView;
use crate::data::RequestPartitionView;
use crate::data::ResponseDataView;
use crate::filter::AlloyFilter;
use crate::filter::FilterView;
use crate::kafka;
use crate::kafka::KafkaRoutingProtocol;
use crate::kafka::Protocol;
use crate::maps::KeyedMap;
use crate::partitions::BiDirectionalMap;
use crate::partitions::Relation;
use crate::pattern;
use crate::routing;
use crate::routing::DefaultRoutingProtocol;
use crate::routing::RoutingConfiguration;
use crate::routing::RoutingTable;
use crate::routing::TableView;
use crate::settings;
use crate::settings::StreamSettings;
use crate::text;
use vstd::prelude::*;
use vstd::string::*;

verus! {

/// The root of the proxy. The time that a fetch may wait is in milliseconds.
pub struct AlloyRootFilter {
    pub context_id: u32,
    pub requests_queue_id: u32,
    pub responses_queue_id: u32,
    pub map_responses: KeyedMap<String, FetchResponseData>,
    pub identifier: String,
    pub fetch_max_wait_ms_virtual_partition: u128,
    pub fetch_min_bytes_virtual_partition: usize,
    pub map_queue: KeyedMap<u32, String>,
}

/// The records that were handed to the proxy, by the names of their queues.
pub type Responses = Map<Seq<char>, ResponseDataView>;

/// What the root of the proxy knows.
#[verifier::ext_equal]
pub struct RootView {
    pub context_id: u32,
    pub requests_queue_id: u32,
    pub responses_queue_id: u32,
    pub responses: Responses,
    pub identifier: Seq<char>,
    pub max_wait: u128,
    pub min_bytes: usize,
    pub queues: Map<u32, Seq<char>>,
}

impl View for AlloyRootFilter {
    type V = RootView;

    open spec fn view(&self) -> RootView {
        RootView {
            context_id: self.context_id,
            requests_queue_id: self.requests_queue_id,
            responses_queue_id: self.responses_queue_id,
            responses: self.map_responses@,
            identifier: self.identifier@,
            max_wait: self.fetch_max_wait_ms_virtual_partition,
            min_bytes: self.fetch_min_bytes_virtual_partition,
            queues: self.map_queue@,
        }
    }
}

/// The name of the queue of a partition that is asked for.
pub open spec fn queue_of(partition: RequestPartitionView) -> Seq<char> {
    data::queue_key(partition.topic, partition.partition as int)
}

/// Whether there are records for every partition of a request.
pub open spec fn is_answerable(responses: Responses, partitions: Seq<RequestPartitionView>) -> bool {
    forall|i: int|
        0 <= i < partitions.len() ==> responses.contains_key(#[trigger] queue_of(partitions[i]))
}

/// The records of a partition, as a topic of a response.
pub open spec fn answer_topic(
    responses: Responses,
    partition: RequestPartitionView,
) -> FetchedTopicView {
    let found = responses[queue_of(partition)];
    FetchedTopicView {
        topic: found.topic,
        partitions: seq![
            FetchedPartitionView {
                records: Some(found.records),
                ..FetchedPartitionView::fresh(partition.partition)
            },
        ],
        rest: None,
    }
}

/// The response to a request: a topic for every partition.
pub open spec fn answer_message(
    responses: Responses,
    request: RequestDataView,
) -> FetchMessageView {
    FetchMessageView {
        error_code: 0,
        session_id: request.session_id,
        topics: Seq::new(
            request.partitions.len(),
            |i: int| answer_topic(responses, request.partitions[i]),
        ),
        rest: None,
    }
}

/// The response to a request, as bytes.
pub open spec fn answer_payload(responses: Responses, request: RequestDataView) -> Seq<u8> {
    kafka::framed(
        codec::response_header_encoded(
            ResponseHeaderView { correlation_id: request.correlation_id, tags: Map::empty() },
            1,
        ),
        codec::fetch_encoded(answer_message(responses, request), request.body_version),
    )
}

/// What was found of the records that another context kept.
#[derive(Debug)]
pub enum SharedRecords {
    /// Nothing was kept.
    Missing,
    /// What was kept cannot be read.
    Unreadable,
    /// These records were kept.
    Found(FetchResponseData),
}

/// How far the partitions of a request have been looked at.
#[derive(PartialEq, Eq, Structural, Debug, Clone, Copy)]
pub struct ResponseCheck {
    /// The partition to look at next.
    pub position: usize,
    /// Whether no partition has been found to be missing.
    pub full_request: bool,
}

/// What to do next to find out whether a request can be answered.
#[derive(Debug)]
pub enum CheckStep {
    /// Look for the records that are kept under this name.
    LookUp(String),
    /// All partitions were looked at; whether none of them is missing.
    Done(bool),
}

/// The first of the partitions, from a position on, that has no records.
pub open spec fn first_missing(
    responses: Responses,
    partitions: Seq<RequestPartitionView>,
    from: int,
) -> int
    decreases partitions.len() - from,
{
    if from >= partitions.len() || !responses.contains_key(queue_of(partitions[from])) {
        from
    } else {
        first_missing(responses, partitions, from + 1)
    }
}

/// The records that were handed to the proxy with those that were found of a partition.
pub open spec fn noted(responses: Responses, found: SharedRecords) -> Responses {
    match found {
        SharedRecords::Found(data) => responses.insert(
            data::queue_key(data.topic@, data.partition as int),
            data.deep_view(),
        ),
        _ => responses,
    }
}

/// What to do about a partition when the clock ticks.
#[derive(Debug)]
pub struct Tick {
    /// The queue to be registered, if it is not yet.
    pub register: Option<String>,
    /// Whether the fetch has waited too long, and goes on.
    pub resume: bool,
}

impl AlloyRootFilter {
    /// A root without records or queues, which lets a fetch wait for a second.
    pub fn new(context_id: u32, identifier: String) -> (root: Self)
        ensures
            root@ == (RootView {
                context_id,
                requests_queue_id: 0,
                responses_queue_id: 0,
                responses: Map::empty(),
                identifier: identifier@,
                max_wait: 1000,
                min_bytes: 1000000,
                queues: Map::empty(),
            }),
    {
        AlloyRootFilter {
            context_id,
            requests_queue_id: 0,
            responses_queue_id: 0,
            map_responses: KeyedMap::new(),
            identifier,
            fetch_max_wait_ms_virtual_partition: 1000,
            fetch_min_bytes_virtual_partition: 1000000,
            map_queue: KeyedMap::new(),
        }
    }

    /// Makes the response to a request from the records that were handed to the proxy, with
    /// the context that waits for it.
    pub fn generate_fetch_response(&self, request: &FetchRequestData) -> (r: Result<
        (u32, Vec<u8>),
        &'static str,
    >)
        ensures
            r is Ok <==> is_answerable(self@.responses, request.deep_view().partitions),
            r matches Ok(q) ==> q.0 == request.context_id && q.1@ == answer_payload(
                self@.responses,
                request.deep_view(),
            ),
            r matches Err(e) ==> e@ == "not found"@,
    {
        let ghost responses = self@.responses;
        let ghost partitions = request.deep_view().partitions;
        let mut topics: Vec<FetchedTopic> = Vec::new();
        let mut i: usize = 0;
        while i < request.partitions.len()
            invariant
                i <= request.partitions@.len(),
                responses == self.map_responses@,
                partitions == request.partitions.deep_view(),
                topics@.len() == i,
                forall|j: int|
                    0 <= j < i ==> responses.contains_key(#[trigger] queue_of(partitions[j])),
                forall|j: int|
                    0 <= j < i ==> (#[trigger] topics@[j]).deep_view() == answer_topic(
                        responses,
                        partitions[j],
                    ),
            decreases request.partitions@.len() - i,
        {
            let asked = &request.partitions[i];
            assert(partitions[i as int] == asked.deep_view());
            let key = asked.get_shared_queue_key();
            assert(key@ == queue_of(partitions[i as int]));
            match self.map_responses.get(&key) {
                None => {
                    return Err("not found");
                },
                Some(response) => {
                    let mut partition = FetchedPartition::fresh(asked.partition);
                    partition.records = Some(text::copy_bytes(&response.records));
                    let mut fetched: Vec<FetchedPartition> = Vec::new();
                    fetched.push(partition);
                    let topic = FetchedTopic {
                        topic: response.topic.clone(),
                        partitions: fetched,
                        rest: None,
                    };
                    proof {
                        let answer = answer_topic(responses, partitions[i as int]);
                        assert(partition.deep_view() =~= answer.partitions[0]);
                        assert(topic.deep_view().partitions =~= answer.partitions);
                        assert(topic.deep_view() =~= answer);
                    }
                    topics.push(topic);
                },
            }
            i += 1;
        }
        let message = FetchMessage {
            error_code: 0,
            session_id: request.session_id,
            topics,
            rest: None,
        };
        assert(message@.topics =~= answer_message(responses, request.deep_view()).topics);
        let header = ResponseHeader::new(request.correlation_id);
        let payload = KafkaRoutingProtocol::encode(
            codec::encode_response_header(&header, 1),
            codec::encode_fetch(message, request.body_version),
        );
        Ok((request.context_id, payload))
    }

    /// Takes records that were handed to the proxy, in place of earlier ones for the same
    /// partition.
    pub fn add_response(&mut self, data: FetchResponseData)
        ensures
            final(self)@ == (RootView {
                responses: old(self)@.responses.insert(
                    data::queue_key(data.topic@, data.partition as int),
                    data.deep_view(),
                ),
                ..old(self)@
            }),
    {
        let key = data.get_shared_queue_key();
        self.map_responses.insert(key, data);
    }

    /// Starts to look at the partitions of a fetch that waits; there is nothing to do for one
    /// that has its response.
    pub fn start_check(&self, connection: &ConnectionInfo) -> (r: Option<ResponseCheck>)
        ensures
            r == (if connection.response_data is Some {
                None::<ResponseCheck>
            } else {
                Some(ResponseCheck { position: 0, full_request: true })
            }),
    {
        if connection.response_data.is_some() {
            None
        } else {
            Some(ResponseCheck { position: 0, full_request: true })
        }
    }

    /// Looks at the partitions of a request, up to the first one without records: those are
    /// looked for under the name that they are kept under.
    pub fn check_response(&self, check: &mut ResponseCheck, request: &FetchRequestData) -> (step:
        CheckStep)
        requires
            old(check).position <= request.partitions@.len(),
        ensures
            ({
                let partitions = request.deep_view().partitions;
                let p = first_missing(self@.responses, partitions, old(check).position as int);
                if p < partitions.len() {
                    &&& step matches CheckStep::LookUp(key) && key@ == data::records_key(
                        data::quoted(partitions[p].topic),
                        partitions[p].partition as int,
                        partitions[p].fetch_offset as int,
                    )
                    &&& *final(check) == (ResponseCheck { position: (p + 1) as usize, ..*old(check)
                    })
                } else {
                    &&& step matches CheckStep::Done(full) && full == old(check).full_request
                    &&& *final(check) == (ResponseCheck {
                        position: partitions.len() as usize,
                        ..*old(check)
                    })
                }
            }),
            final(check).position <= request.partitions@.len(),
    {
        let ghost responses = self@.responses;
        let ghost partitions = request.deep_view().partitions;
        let ghost from = check.position as int;
        while check.position < request.partitions.len()
            invariant
                partitions == request.partitions.deep_view(),
                responses == self.map_responses@,
                from == old(check).position,
                from <= check.position <= request.partitions@.len(),
                first_missing(responses, partitions, from) == first_missing(
                    responses,
                    partitions,
                    check.position as int,
                ),
                check.full_request == old(check).full_request,
            decreases request.partitions@.len() - check.position,
        {
            let asked = &request.partitions[check.position];
            assert(partitions[check.position as int] == asked.deep_view());
            let key = asked.get_shared_queue_key();
            assert(key@ == queue_of(partitions[check.position as int]));
            let found = self.map_responses.contains_key(&key);
            check.position = check.position + 1;
            if !found {
                return CheckStep::LookUp(asked.get_shared_data_key());
            }
        }
        CheckStep::Done(check.full_request)
    }

    /// Takes what was found of the records that were looked for.
    pub fn note_lookup(&mut self, check: &mut ResponseCheck, found: SharedRecords)
        ensures
            final(check).position == old(check).position,
            final(check).full_request == (old(check).full_request && !(found is Missing)),
            final(self)@ == (RootView {
                responses: noted(old(self)@.responses, found),
                ..old(self)@
            }),
    {
        match found {
            SharedRecords::Missing => {
                check.full_request = false;
            },
            SharedRecords::Unreadable => {},
            SharedRecords::Found(data) => {
                self.add_response(data);
            },
        }
    }

    /// Gives a fetch that waits its response, if there are records for all of it. Tells
    /// whether it got one, so that its connection goes on.
    pub fn answer(&self, connection: &mut ConnectionInfo) -> (answered: bool)
        ensures
            answered <==> is_answerable(
                self@.responses,
                old(connection).deep_view().request_data.partitions,
            ),
            final(connection).deep_view() == (ConnectionView {
                response_data: if answered {
                    Some(answer_payload(self@.responses, old(connection).deep_view().request_data))
                } else {
                    old(connection).deep_view().response_data
                },
                ..old(connection).deep_view()
            }),
    {
        match self.generate_fetch_response(&connection.request_data) {
            Ok((_, payload)) => {
                connection.response_data = Some(payload);
                true
            },
            Err(_) => false,
        }
    }

    /// Whether a queue with this name is registered.
    fn is_registered(&self, key: &String) -> (r: bool)
        ensures
            r <==> self@.queues.contains_value(key@),
    {
        let n: usize = self.map_queue.size();
        let mut i: usize = 0;
        while i < n
            invariant
                n == self.map_queue.keys().len(),
                i <= n,
                forall|id: u32| #[trigger]
                    self.map_queue@.contains_key(id) <==> self.map_queue.keys().contains(id),
                forall|j: int|
                    0 <= j < i ==> self.map_queue@[#[trigger] self.map_queue.keys()[j]] != key@,
            decreases n - i,
        {
            let name = self.map_queue.value_at(i);
            if text::same_text(name.as_str(), key.as_str()) {
                assert(self.map_queue@.contains_key(self.map_queue.keys()[i as int]));
                return true;
            }
            i += 1;
        }
        proof {
            if self@.queues.contains_value(key@) {
                let id = choose|id: u32| #[trigger]
                    self.map_queue@.contains_key(id) && self.map_queue@[id] == key@;
                assert(self.map_queue.keys().contains(id));
            }
        }
        false
    }

    /// Looks at a partition of a fetch that waits when the clock ticks: its queue has to be
    /// registered, and a fetch that has waited for longer than it may, in whole milliseconds,
    /// goes on. The time is in nanoseconds.
    pub fn tick(&self, connection: &mut ConnectionInfo, i: usize, now: u128) -> (tick: Tick)
        requires
            i < old(connection).request_data.partitions@.len(),
            old(connection).response_initial_time <= now,
        ensures
            ({
                let before = old(connection).deep_view();
                let key = queue_of(before.request_data.partitions[i as int]);
                let late = (now - before.response_initial_time) / 1_000_000 > self@.max_wait;
                &&& tick.register.deep_view() == (if self@.queues.contains_value(key) {
                    None
                } else {
                    Some(key)
                })
                &&& tick.resume == late
                &&& final(connection).deep_view() == (ConnectionView {
                    timeout: before.timeout || late,
                    ..before
                })
            }),
    {
        let key = connection.request_data.partitions[i].get_shared_queue_key();
        assert(key@ == queue_of(connection.deep_view().request_data.partitions[i as int]));
        let register = if self.is_registered(&key) {
            None
        } else {
            Some(key)
        };
        let resume = (now - connection.response_initial_time) / 1_000_000
            > self.fetch_max_wait_ms_virtual_partition;
        if resume {
            connection.timeout = true;
        }
        Tick { register, resume }
    }

    /// Notes that a queue was registered.
    pub fn note_queue(&mut self, queue_id: u32, key: String)
        ensures
            final(self)@ == (RootView {
                queues: old(self)@.queues.insert(queue_id, key@),
                ..old(self)@
            }),
    {
        self.map_queue.insert(queue_id, key);
    }

    /// Takes over what the settings say about fetches that wait, and hands out the time
    /// between two ticks of the clock. Nothing changes if one of the settings is no number.
    pub fn configure(&mut self, configuration: &RoutingConfiguration) -> (period: Option<u64>)
        ensures
            match settings::root_settings_of(configuration.additional_configuration.deep_view()) {
                Some(s) => period == Some(s.period) && final(self)@ == (RootView {
                    max_wait: s.max_wait,
                    ..old(self)@
                }),
                None => period is None && final(self)@ == old(self)@,
            },
    {
        match settings::read_root_settings(&configuration.additional_configuration) {
            Some(s) => {
                self.fetch_max_wait_ms_virtual_partition = s.max_wait;
                Some(s.period)
            },
            None => None,
        }
    }
}

/// Why a connection gets no filter.
#[derive(PartialEq, Eq, Debug)]
pub enum ConfigurationError {
    /// A setting is no number.
    BadSetting,
    /// The configuration does not say what the workload is.
    NoWorkload,
    /// The number of virtual partitions of a topic does not fit in 32 bits.
    TooManyPartitions,
    /// The pattern is no regular expression.
    BadPattern(String),
}

/// The sources that a topic has virtual partitions for: one, where it is not partitioned by
/// any field.
pub open spec fn sources_of(criteria: CriteriaView) -> int {
    if criteria.partition.len() > 0 {
        criteria.num_sources as int
    } else {
        1
    }
}

/// Whether the virtual partitions of a topic can be numbered.
pub open spec fn partitions_fit(criteria: CriteriaView) -> bool {
    i32::MIN <= sources_of(criteria) * criteria.num_partitions <= i32::MAX
}

/// A selection with its pattern compiled, if it has one.
pub open spec fn compiled_selection(selection: FilterEntryView) -> FilterEntryView {
    if selection.value is Some {
        FilterEntryView { pattern: selection.value, ..selection }
    } else {
        selection
    }
}

/// Whether a selection has its pattern compiled.
pub open spec fn selection_ready(selection: FilterEntryView) -> bool {
    selection.value is Some ==> selection.pattern is Some
}

/// Whether a selection is what can come of compiling the pattern of a selection.
pub open spec fn is_selection_attempt(after: FilterEntryView, before: FilterEntryView) -> bool {
    &&& after == (FilterEntryView { pattern: after.pattern, ..before })
    &&& if before.value is Some {
        pattern::is_attempt(before.value, after.pattern)
    } else {
        after.pattern == before.pattern
    }
}

/// Whether criteria are what can come of compiling the patterns of the selections of criteria.
pub open spec fn is_criteria_attempt(after: CriteriaView, before: CriteriaView) -> bool {
    &&& after == (CriteriaView { selections: after.selections, ..before })
    &&& after.selections.len() == before.selections.len()
    &&& forall|i: int|
        0 <= i < after.selections.len() ==> is_selection_attempt(
            #[trigger] after.selections[i],
            before.selections[i],
        )
}

/// The criteria of a topic with the patterns of the selections compiled.
pub open spec fn compiled_criteria(criteria: CriteriaView) -> CriteriaView {
    CriteriaView {
        selections: Seq::new(
            criteria.selections.len(),
            |i: int| compiled_selection(criteria.selections[i]),
        ),
        ..criteria
    }
}

/// Whether one of the selections has the text as a pattern.
pub open spec fn selects_by(selections: Seq<FilterEntryView>, text: Seq<char>) -> bool {
    exists|i: int| 0 <= i < selections.len() && #[trigger] selections[i].value == Some(text)
}

/// The criteria of every topic.
pub type Criteria = Map<Seq<char>, CriteriaView>;

/// Whether the text is a pattern of a route, or of a selection for a topic.
pub open spec fn is_pattern(
    configuration: RoutingConfiguration,
    criteria: Criteria,
    text: Seq<char>,
) -> bool {
    routing::has_pattern(routing::listed_routes(configuration), text) || exists|topic: Seq<char>| #[trigger]
        criteria.contains_key(topic) && selects_by(criteria[topic].selections, text)
}

/// The criteria of every topic with their patterns compiled.
pub open spec fn all_compiled(criteria: Criteria) -> Criteria {
    criteria.map_values(|c: CriteriaView| compiled_criteria(c))
}

/// Whether the selections for every topic have their patterns compiled.
pub open spec fn topics_ready(criteria: Criteria) -> bool {
    forall|topic: Seq<char>, i: int|
        criteria.contains_key(topic) && 0 <= i < criteria[topic].selections.len()
            ==> selection_ready(#[trigger] criteria[topic].selections[i])
}

/// Whether the text is a pattern of a selection that is not compiled.
pub open spec fn is_missing(criteria: Criteria, text: Seq<char>) -> bool {
    exists|topic: Seq<char>, i: int|
        criteria.contains_key(topic) && 0 <= i < criteria[topic].selections.len()
            && !selection_ready(#[trigger] criteria[topic].selections[i])
            && criteria[topic].selections[i].value == Some(text)
}

/// Whether criteria are what can come of compiling the patterns of the selections for every
/// topic.
pub open spec fn are_attempts(after: Criteria, before: Criteria) -> bool {
    after.dom() == before.dom() && forall|topic: Seq<char>| #[trigger]
        before.contains_key(topic) ==> is_criteria_attempt(after[topic], before[topic])
}

/// Whether the virtual partitions of every topic can be numbered.
pub open spec fn all_fit(criteria: Criteria) -> bool {
    forall|topic: Seq<char>| #[trigger]
        criteria.contains_key(topic) ==> partitions_fit(criteria[topic])
}

/// Whether the virtual partitions of every topic are related to its original ones.
pub open spec fn are_tables(relations: Map<Seq<char>, Relation>, criteria: Criteria) -> bool {
    &&& relations.dom() == criteria.dom()
    &&& forall|topic: Seq<char>| #[trigger]
        criteria.contains_key(topic) ==> relations[topic].is_table(
            sources_of(criteria[topic]),
            criteria[topic].num_partitions as int,
        )
}

/// The protocol of a workload.
pub open spec fn protocol_of(workload: Seq<char>, debug_protocol: i32) -> Protocol {
    if workload == "kafka-alloy"@ {
        Protocol::Kafka(KafkaRoutingProtocol { debug_protocol })
    } else {
        Protocol::Default(DefaultRoutingProtocol {  })
    }
}

/// The filter of a new connection, for criteria whose patterns are compiled.
pub open spec fn new_filter(
    context_id: u32,
    workload: Seq<char>,
    settings: StreamSettings,
    criteria: Criteria,
    relations: Map<Seq<char>, Relation>,
    table: TableView,
) -> FilterView {
    FilterView {
        context_id,
        protocol: protocol_of(workload, settings.debug_protocol),
        table,
        request_header: None,
        request: None,
        fetch_request_api_version: -1i16,
        correlation_id: -1i32,
        data_size: 0,
        criteria,
        max_parallelism: settings.max_parallelism,
        splits: Map::empty(),
        query_indexes: Map::empty(),
        relations,
        remove_empty_records: settings.remove_empty_records,
        session_id: -1i32,
        session_epoch: -1i32,
        origin_fetch: None,
        queues: Map::empty(),
        fetch_min_bytes: settings.min_bytes,
    }
}

/// The criteria that a configuration lists; none if it has no such list.
pub open spec fn listed_criteria(criteria: Option<KeyedMap<String, AlloyFilterCriteria>>) -> Criteria {
    match criteria {
        Some(map) => map@,
        None => Map::empty(),
    }
}

/// Compiles the patterns of selections, as far as they can be.
fn compile_selections(selections: Vec<FilterEntry>) -> (list: Vec<FilterEntry>)
    ensures
        list.deep_view().len() == selections.deep_view().len(),
        forall|i: int|
            0 <= i < list.deep_view().len() ==> is_selection_attempt(
                #[trigger] list.deep_view()[i],
                selections.deep_view()[i],
            ),
{
    let ghost views = selections.deep_view();
    let ghost given = selections@;
    let mut list: Vec<FilterEntry> = Vec::new();
    for selection in it: selections
        invariant
            it.seq() == given,
            views.len() == given.len(),
            forall|i: int| 0 <= i < given.len() ==> (#[trigger] given[i]).deep_view() == views[i],
            list@.len() == it.index(),
            forall|i: int|
                0 <= i < list@.len() ==> is_selection_attempt(
                    (#[trigger] list@[i]).deep_view(),
                    views[i],
                ),
    {
        let ghost n = list@.len() as int;
        assert(selection == given[n]);
        let mut selection = selection;
        if selection.value.is_some() {
            selection.value_regex = pattern::attempt(&selection.value);
        }
        assert(is_selection_attempt(selection.deep_view(), views[n]));
        list.push(selection);
    }
    assert forall|i: int| 0 <= i < list.deep_view().len() implies is_selection_attempt(
        #[trigger] list.deep_view()[i],
        views[i],
    ) by {
        assert(is_selection_attempt(list@[i].deep_view(), views[i]));
    }
    list
}

/// The sources that a topic has virtual partitions for.
fn count_sources(criteria: &AlloyFilterCriteria) -> (n: i32)
    ensures
        n == sources_of(criteria.deep_view()),
{
    if criteria.partition.len() > 0 {
        criteria.num_sources
    } else {
        1
    }
}

/// Whether the virtual partitions of every topic can be numbered.
fn check_fit(criteria: &KeyedMap<String, AlloyFilterCriteria>) -> (r: bool)
    ensures
        r <==> all_fit(criteria@),
{
    let n: usize = criteria.size();
    let mut i: usize = 0;
    while i < n
        invariant
            n == criteria.keys().len(),
            i <= n,
            forall|topic: Seq<char>| #[trigger]
                criteria@.contains_key(topic) <==> criteria.keys().contains(topic),
            forall|j: int|
                0 <= j < i ==> partitions_fit(criteria@[#[trigger] criteria.keys()[j]]),
        decreases n - i,
    {
        let c = criteria.value_at(i);
        let sources: i32 = count_sources(c);
        if sources.checked_mul(c.num_partitions).is_none() {
            assert(criteria@.contains_key(criteria.keys()[i as int]));
            return false;
        }
        i += 1;
    }
    assert forall|topic: Seq<char>| #[trigger] criteria@.contains_key(topic) implies partitions_fit(
        criteria@[topic],
    ) by {
        assert(criteria.keys().contains(topic));
    }
    true
}

/// Compiles the patterns of the selections for every topic, as far as they can be.
fn compile_topics(criteria: KeyedMap<String, AlloyFilterCriteria>) -> (compiled: KeyedMap<
    String,
    AlloyFilterCriteria,
>)
    ensures
        are_attempts(compiled@, criteria@),
{
    let ghost given = criteria@;
    let mut rest = criteria;
    let mut compiled: KeyedMap<String, AlloyFilterCriteria> = KeyedMap::new();
    loop
        invariant
            given == criteria@,
            forall|topic: Seq<char>| #[trigger]
                rest@.contains_key(topic) ==> given.contains_key(topic) && rest@[topic]
                    == given[topic],
            forall|topic: Seq<char>| #[trigger]
                given.contains_key(topic) ==> rest@.contains_key(topic) || compiled@.contains_key(
                    topic,
                ),
            forall|topic: Seq<char>| #[trigger]
                compiled@.contains_key(topic) ==> given.contains_key(topic) && is_criteria_attempt(
                    compiled@[topic],
                    given[topic],
                ),
        decreases rest.keys().len(),
    {
        match rest.pop() {
            None => {
                assert(compiled@.dom() =~= given.dom());
                return compiled;
            },
            Some((topic, c)) => {
                let ghost view = c.deep_view();
                assert(view == given[topic@]);
                let mut c = c;
                c.selections = compile_selections(c.selections);
                assert(is_criteria_attempt(c.deep_view(), view));
                compiled.insert(topic, c);
            },
        }
    }
}

/// Criteria of which every pattern could be compiled are compiled; a pattern that could not be
/// is one of theirs, and not a plain one.
proof fn lemma_attempts(after: Criteria, before: Criteria)
    requires
        are_attempts(after, before),
    ensures
        all_fit(after) == all_fit(before),
        forall|relations: Map<Seq<char>, Relation>| #[trigger]
            are_tables(relations, after) ==> are_tables(relations, before),
        topics_ready(after) ==> after == all_compiled(before),
        forall|text: Seq<char>| #[trigger]
            is_missing(after, text) ==> !pattern::is_plain(text) && exists|topic: Seq<char>| #[trigger]
                before.contains_key(topic) && selects_by(before[topic].selections, text),
{
    assert forall|topic: Seq<char>| #[trigger] before.contains_key(topic) implies
        after.contains_key(topic) && partitions_fit(after[topic]) == partitions_fit(before[topic])
        && sources_of(after[topic]) == sources_of(before[topic]) && after[topic].num_partitions
        == before[topic].num_partitions by {
        assert(is_criteria_attempt(after[topic], before[topic]));
    }
    assert forall|topic: Seq<char>| #[trigger] after.contains_key(topic) implies before.contains_key(
        topic,
    ) by {}
    if topics_ready(after) {
        assert forall|topic: Seq<char>| #[trigger] before.contains_key(topic) implies after[topic]
            == compiled_criteria(before[topic]) by {
            let a = after[topic];
            let b = before[topic];
            assert forall|i: int| 0 <= i < a.selections.len() implies a.selections[i]
                == compiled_selection(b.selections[i]) by {
                assert(selection_ready(after[topic].selections[i]));
                assert(is_selection_attempt(a.selections[i], b.selections[i]));
            }
            assert(a.selections =~= compiled_criteria(b).selections);
        }
        assert(after =~= all_compiled(before));
    }
    assert forall|text: Seq<char>| #[trigger] is_missing(after, text) implies !pattern::is_plain(
        text,
    ) && exists|topic: Seq<char>| #[trigger]
        before.contains_key(topic) && selects_by(before[topic].selections, text) by {
        let (topic, i) = choose|topic: Seq<char>, i: int|
            after.contains_key(topic) && 0 <= i < after[topic].selections.len()
                && !selection_ready(#[trigger] after[topic].selections[i])
                && after[topic].selections[i].value == Some(text);
        assert(before.contains_key(topic));
        assert(is_selection_attempt(after[topic].selections[i], before[topic].selections[i]));
        assert(selects_by(before[topic].selections, text));
    }
}

/// The first pattern of selections that is not compiled.
fn find_missing_selection(selections: &Vec<FilterEntry>) -> (r: Option<String>)
    ensures
        match r {
            None => forall|i: int|
                0 <= i < selections@.len() ==> selection_ready(
                    #[trigger] selections.deep_view()[i],
                ),
            Some(text) => exists|i: int|
                0 <= i < selections@.len() && !selection_ready(
                    #[trigger] selections.deep_view()[i],
                ) && selections.deep_view()[i].value == Some(text@),
        },
{
    let ghost views = selections.deep_view();
    let mut i: usize = 0;
    while i < selections.len()
        invariant
            i <= selections@.len(),
            views == selections.deep_view(),
            forall|j: int| 0 <= j < i ==> selection_ready(#[trigger] views[j]),
        decreases selections@.len() - i,
    {
        assert(views[i as int] == selections@[i as int].deep_view());
        if selections[i].value_regex.is_none() {
            if let Some(value) = &selections[i].value {
                assert(!selection_ready(views[i as int]));
                return Some(value.clone());
            }
        }
        i += 1;
    }
    None
}

/// A pattern of a selection that is not compiled.
fn find_missing(criteria: &KeyedMap<String, AlloyFilterCriteria>) -> (r: Option<String>)
    ensures
        match r {
            None => topics_ready(criteria@),
            Some(text) => is_missing(criteria@, text@),
        },
{
    let n: usize = criteria.size();
    let mut i: usize = 0;
    while i < n
        invariant
            n == criteria.keys().len(),
            i <= n,
            forall|topic: Seq<char>| #[trigger]
                criteria@.contains_key(topic) <==> criteria.keys().contains(topic),
            forall|j: int, k: int|
                0 <= j < i && 0 <= k < criteria@[criteria.keys()[j]].selections.len()
                    ==> selection_ready(#[trigger] criteria@[criteria.keys()[j]].selections[k]),
        decreases n - i,
    {
        let c = criteria.value_at(i);
        let ghost topic = criteria.keys()[i as int];
        assert(criteria@[topic].selections == c.selections.deep_view());
        if let Some(text) = find_missing_selection(&c.selections) {
            proof {
                let k = choose|k: int|
                    0 <= k < c.selections@.len() && !selection_ready(
                        #[trigger] c.selections.deep_view()[k],
                    ) && c.selections.deep_view()[k].value == Some(text@);
                assert(!selection_ready(criteria@[topic].selections[k]));
            }
            return Some(text);
        }
        assert forall|j: int, k: int|
            0 <= j < i + 1 && 0 <= k < criteria@[criteria.keys()[j]].selections.len() implies
            selection_ready(#[trigger] criteria@[criteria.keys()[j]].selections[k]) by {
            if j == i {
                assert(selection_ready(c.selections.deep_view()[k]));
            }
        }
        i += 1;
    }
    assert forall|topic: Seq<char>, k: int|
        criteria@.contains_key(topic) && 0 <= k < criteria@[topic].selections.len() implies
        selection_ready(#[trigger] criteria@[topic].selections[k]) by {
        assert(criteria.keys().contains(topic));
        let j = choose|j: int| 0 <= j < criteria.keys().len() && criteria.keys()[j] == topic;
        assert(selection_ready(criteria@[criteria.keys()[j]].selections[k]));
    }
    None
}

/// The relations between the virtual partitions and the original ones of every topic.
fn relate_topics(criteria: &KeyedMap<String, AlloyFilterCriteria>) -> (relations: KeyedMap<
    String,
    BiDirectionalMap,
>)
    requires
        all_fit(criteria@),
    ensures
        are_tables(relations@, criteria@),
{
    let n: usize = criteria.size();
    let mut relations: KeyedMap<String, BiDirectionalMap> = KeyedMap::new();
    let mut i: usize = 0;
    while i < n
        invariant
            n == criteria.keys().len(),
            i <= n,
            all_fit(criteria@),
            forall|topic: Seq<char>| #[trigger]
                criteria@.contains_key(topic) <==> criteria.keys().contains(topic),
            forall|topic: Seq<char>| #[trigger]
                relations@.contains_key(topic) ==> criteria@.contains_key(topic)
                    && relations@[topic].is_table(
                    sources_of(criteria@[topic]),
                    criteria@[topic].num_partitions as int,
                ),
            forall|j: int| 0 <= j < i ==> relations@.contains_key(#[trigger] criteria.keys()[j]),
        decreases n - i,
    {
        let c = criteria.value_at(i);
        let sources: i32 = count_sources(c);
        let table = KafkaRoutingProtocol::compute_virtual_partitions(sources, c.num_partitions);
        relations.insert(criteria.key_at(i).clone(), table);
        i += 1;
    }
    assert(relations@.dom() =~= criteria@.dom()) by {
        assert forall|topic: Seq<char>| #[trigger] criteria@.contains_key(topic) implies
            relations@.contains_key(topic) by {
            assert(criteria.keys().contains(topic));
        }
    }
    relations
}

/// Makes the filter of a new connection from a configuration and criteria whose patterns have
/// been compiled as far as they can be.
pub fn make_filter(
    context_id: u32,
    configuration: RoutingConfiguration,
    criteria: KeyedMap<String, AlloyFilterCriteria>,
) -> (r: Result<AlloyFilter, ConfigurationError>)
    ensures
        ({
            let given = settings::stream_settings_of(
                configuration.additional_configuration.deep_view(),
            );
            let routes = routing::listed_routes(configuration);
            match r {
                Ok(filter) => {
                    &&& given is Some
                    &&& configuration.workload_type is Some
                    &&& all_fit(criteria@)
                    &&& routing::routes_ready(routes)
                    &&& topics_ready(criteria@)
                    &&& filter@ == new_filter(
                        context_id,
                        configuration.workload_type->Some_0@,
                        given->Some_0,
                        criteria@,
                        filter@.relations,
                        filter@.table,
                    )
                    &&& are_tables(filter@.relations, criteria@)
                    &&& filter@.table.is_configured(
                        TableView::unconfigured(),
                        configuration,
                        routes,
                    )
                    &&& filter.map_vp_records@ == Map::<(Seq<char>, i32), Seq<RecordView>>::empty()
                },
                Err(ConfigurationError::BadSetting) => given is None,
                Err(ConfigurationError::NoWorkload) => given is Some
                    && configuration.workload_type is None,
                Err(ConfigurationError::TooManyPartitions) => given is Some
                    && configuration.workload_type is Some && !all_fit(criteria@),
                Err(ConfigurationError::BadPattern(p)) => {
                    &&& given is Some
                    &&& configuration.workload_type is Some
                    &&& all_fit(criteria@)
                    &&& if routing::routes_ready(routes) {
                        !topics_ready(criteria@) && is_missing(criteria@, p@)
                    } else {
                        routing::is_first_missing(routes, p@)
                    }
                },
            }
        }),
{
    let settings = match settings::read_stream_settings(&configuration.additional_configuration) {
        Some(s) => s,
        None => {
            return Err(ConfigurationError::BadSetting);
        },
    };
    let protocol = match &configuration.workload_type {
        Some(workload) => {
            if text::same_text(workload.as_str(), "kafka-alloy") {
                KafkaRoutingProtocol::new(settings.debug_protocol).rc()
            } else {
                Protocol::Default(DefaultRoutingProtocol::new())
            }
        },
        None => {
            return Err(ConfigurationError::NoWorkload);
        },
    };
    if !check_fit(&criteria) {
        return Err(ConfigurationError::TooManyPartitions);
    }
    let mut routing_table = RoutingTable::new();
    match routing_table.adopt(configuration) {
        Ok(()) => {},
        Err(p) => {
            return Err(ConfigurationError::BadPattern(p));
        },
    }
    if let Some(p) = find_missing(&criteria) {
        return Err(ConfigurationError::BadPattern(p));
    }
    let relations = relate_topics(&criteria);
    let filter = AlloyFilter {
        context_id,
        protocol,
        routing_table,
        request_header: None,
        request: None,
        fetch_request_api_version: -1,
        correlation_id: -1,
        data_size: 0,
        map_alloy_filters: criteria,
        max_parallelism: settings.max_parallelism,
        map_split_id: KeyedMap::new(),
        map_index_query_partition: KeyedMap::new(),
        bimap_virtual_origin: relations,
        remove_empty_records: settings.remove_empty_records,
        session_id: -1,
        session_epoch: -1,
        origin_fetch_request: None,
        map_queue_vp: KeyedMap::new(),
        map_vp_records: KeyedMap::new(),
        fetch_min_bytes_virtual_partition: settings.min_bytes,
    };
    Ok(filter)
}

impl AlloyRootFilter {
    /// Makes the filter of a new connection.
    pub fn create_stream_context(
        &self,
        context_id: u32,
        configuration: RoutingConfiguration,
        criteria: Option<KeyedMap<String, AlloyFilterCriteria>>,
    ) -> (r: Result<AlloyFilter, ConfigurationError>)
        ensures
            ({
                let given = settings::stream_settings_of(
                    configuration.additional_configuration.deep_view(),
                );
                let topics = listed_criteria(criteria);
                match r {
                    Ok(filter) => {
                        &&& given is Some
                        &&& configuration.workload_type is Some
                        &&& all_fit(topics)
                        &&& filter@ == new_filter(
                            context_id,
                            configuration.workload_type->Some_0@,
                            given->Some_0,
                            all_compiled(topics),
                            filter@.relations,
                            filter@.table,
                        )
                        &&& are_tables(filter@.relations, topics)
                        &&& filter@.table.is_configured(
                            TableView::unconfigured(),
                            configuration,
                            routing::compiled_routes(routing::listed_routes(configuration)),
                        )
                        &&& filter.map_vp_records@ == Map::<(Seq<char>, i32), Seq<RecordView>>::empty()
                    },
                    Err(ConfigurationError::BadSetting) => given is None,
                    Err(ConfigurationError::NoWorkload) => given is Some
                        && configuration.workload_type is None,
                    Err(ConfigurationError::TooManyPartitions) => given is Some
                        && configuration.workload_type is Some && !all_fit(topics),
                    Err(ConfigurationError::BadPattern(p)) => {
                        &&& given is Some
                        &&& configuration.workload_type is Some
                        &&& all_fit(topics)
                        &&& is_pattern(configuration, topics, p@)
                        &&& !pattern::is_plain(p@)
                    },
                }
            }),
            (forall|p: Seq<char>| #[trigger]
                is_pattern(configuration, listed_criteria(criteria), p) ==> pattern::is_plain(p))
                ==> !(r matches Err(ConfigurationError::BadPattern(_))),
    {
        let topics = match criteria {
            Some(map) => map,
            None => KeyedMap::new(),
        };
        let ghost listed = topics@;
        let compiled = routing::compile_routes(configuration);
        let topics = compile_topics(topics);
        proof {
            routing::lemma_attempts(
                routing::listed_routes(compiled),
                routing::listed_routes(configuration),
            );
            lemma_attempts(topics@, listed);
        }
        let r = make_filter(context_id, compiled, topics);
        proof {
            if let Err(ConfigurationError::BadPattern(p)) = &r {
                assert(is_pattern(configuration, listed, p@));
            }
        }
        r
    }
}

/// What a context of the proxy is for.
#[derive(PartialEq, Eq, Structural, Debug, Clone, Copy)]
pub enum ContextKind {
    Http,
    Stream,
}

/// What the contexts of a proxy are for: a control proxy has HTTP contexts, any other one
/// has the contexts of connections.
pub fn get_type(configuration: &RoutingConfiguration) -> (kind: ContextKind)
    ensures
        kind == (if configuration.type_proxy.deep_view() == Some("control"@) {
            ContextKind::Http
        } else {
            ContextKind::Stream
        }),
{
    match &configuration.type_proxy {
        Some(layer) => {
            if text::same_text(layer.as_str(), "control") {
                ContextKind::Http
            } else {
                ContextKind::Stream
            }
        },
        None => ContextKind::Stream,
    }
}

} // verus!
