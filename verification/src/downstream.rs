//! Requests: what the proxy makes of the bytes that a client sends.

use crate::codec;
use crate::codec::FetchPartition;
use crate::codec::FetchReading;
use crate::codec::FetchReadingView;
use crate::codec::FetchTopicView;
use crate::codec::OffsetsPartition;
use crate::codec::OffsetsRequest;
use crate::codec::OffsetsRequestView;
use crate::codec::OffsetsTopic;
use crate::codec::OffsetsTopicView;
use crate::codec::RequestHeader;
use crate::codec::RequestHeaderView;
use crate::data;
use crate::data::ConnectionInfo;
use crate::data::ConnectionView;
use crate::data::Connections;
use crate::data::FetchRequestData;
use crate::data::FetchRequestDataPartition;
use crate::data::RequestDataView;
use crate::data::RequestPartitionView;
use crate::filter::AlloyFilter;
use crate::filter::AskedRequest;
use crate::filter::AskedTopic;
use crate::filter::AskedTopicView;
use crate::filter::AskedView;
use crate::filter::FilterError;
use crate::filter::FilterView;
use crate::guards;
use crate::kafka;
use crate::kafka::KafkaRoutingProtocol;
use crate::kafka::Protocol;
use crate::kafka::ReadRequest;
use crate::kafka::ReadRequestView;
use crate::kafka::RequestView;
use crate::partitions::Relation;
use crate::routing::RoutingTable;
use crate::routing::TableView;
use crate::text;
use std::collections::HashMap;
use vstd::prelude::*;

verus! {

/// What to do with the bytes of a client: replace them, pause the client, and look up the
/// queues with these names.
#[derive(Debug)]
pub struct DownstreamOutcome {
    pub replacement: Option<Vec<u8>>,
    pub pause: bool,
    pub queues: Vec<String>,
}

/// What is to be done with the bytes of a client.
#[verifier::ext_equal]
pub struct DownstreamView {
    pub replacement: Option<Seq<u8>>,
    pub pause: bool,
    pub queues: Seq<Seq<char>>,
}

impl View for DownstreamOutcome {
    type V = DownstreamView;

    open spec fn view(&self) -> DownstreamView {
        DownstreamView {
            replacement: match self.replacement {
                Some(bytes) => Some(bytes@),
                None => None,
            },
            pause: self.pause,
            queues: text::texts(self.queues@),
        }
    }
}

/// What comes of the bytes of a client.
#[verifier::ext_equal]
pub struct DownstreamStep {
    pub filter: FilterView,
    pub contexts: Connections,
    pub outcome: DownstreamView,
}

/// The cluster of the proxy: the local one, or the default one where there is none.
pub open spec fn home(table: TableView) -> Option<Seq<char>> {
    match table.local_cluster {
        Some(cluster) => Some(cluster),
        None => table.default_cluster,
    }
}

/// What was asked, as far as the response is changed for it.
pub open spec fn asked_of(request: Option<ReadRequestView>) -> Option<AskedView> {
    match request {
        None => None,
        Some(ReadRequestView::ListOffsetsRequest(m)) => Some(
            AskedView::ListOffsetsRequest(
                Seq::new(
                    m.topics.len(),
                    |i: int|
                        AskedTopicView {
                            name: m.topics[i].name,
                            partitions: Seq::new(
                                m.topics[i].partitions.len(),
                                |j: int| m.topics[i].partitions[j].partition_index,
                            ),
                        },
                ),
            ),
        ),
        Some(ReadRequestView::FetchRequest(r, _)) => Some(AskedView::FetchRequest(r)),
        Some(_) => Some(AskedView::Other),
    }
}

/// The original partition of a virtual one.
pub open spec fn original_in(
    relations: Map<Seq<char>, Relation>,
    topic: Seq<char>,
    partition: i32,
) -> Result<i32, FilterError> {
    if !relations.contains_key(topic) {
        Err(FilterError::UnknownTopic)
    } else if !relations[topic].originals.contains_key(partition) {
        Err(FilterError::UnknownPartition)
    } else {
        Ok(relations[topic].originals[partition])
    }
}

/// The partitions of a request for offsets, with original partitions in place of virtual
/// ones.
pub open spec fn with_originals(
    relations: Map<Seq<char>, Relation>,
    topic: Seq<char>,
    partitions: Seq<OffsetsPartition>,
) -> Result<Seq<OffsetsPartition>, FilterError>
    decreases partitions.len(),
{
    if partitions.len() == 0 {
        Ok(Seq::empty())
    } else {
        match with_originals(relations, topic, partitions.drop_last()) {
            Err(e) => Err(e),
            Ok(before) => match original_in(
                relations,
                topic,
                partitions.last().partition_index,
            ) {
                Err(e) => Err(e),
                Ok(original) => Ok(
                    before.push(
                        OffsetsPartition { partition_index: original, ..partitions.last() },
                    ),
                ),
            },
        }
    }
}

impl FilterView {
    /// The topics of a request for offsets, with original partitions in place of virtual
    /// ones. Topics without criteria stay as they are.
    pub open spec fn offsets_asked(self, topics: Seq<OffsetsTopicView>) -> Result<
        Seq<OffsetsTopicView>,
        FilterError,
    >
        decreases topics.len(),
    {
        if topics.len() == 0 {
            Ok(Seq::empty())
        } else {
            match self.offsets_asked(topics.drop_last()) {
                Err(e) => Err(e),
                Ok(before) => {
                    let topic = topics.last();
                    if !self.criteria.contains_key(topic.name) {
                        Ok(before.push(topic))
                    } else {
                        match with_originals(self.relations, topic.name, topic.partitions) {
                            Err(e) => Err(e),
                            Ok(partitions) => Ok(
                                before.push(OffsetsTopicView { partitions, ..topic }),
                            ),
                        }
                    }
                },
            }
        }
    }

    /// The filter after a request was sent to the cluster of the proxy.
    pub open spec fn sent(self, payload: Seq<u8>) -> FilterView {
        FilterView {
            table: TableView {
                requests: self.table.requests.insert(0, (home(self.table)->Some_0, payload)),
                ..self.table
            },
            ..self
        }
    }

    /// The filter after the request that it holds was replaced by another one, which was
    /// sent to the cluster of the proxy.
    pub open spec fn resent(self, payload: Seq<u8>) -> FilterView {
        let sent = self.sent(payload);
        FilterView {
            table: TableView { origin_request: Some(payload), ..sent.table },
            ..sent
        }
    }

    /// The names of the queues of virtual partitions that are not known yet.
    pub open spec fn unknown_queues(self, topic: Seq<char>, virtuals: Seq<i32>) -> Seq<Seq<char>>
        decreases virtuals.len(),
    {
        if virtuals.len() == 0 {
            Seq::empty()
        } else {
            let before = self.unknown_queues(topic, virtuals.drop_last());
            let key = data::queue_key(topic, virtuals.last() as int);
            if self.queues.contains_key(key) {
                before
            } else {
                before.push(key)
            }
        }
    }
}

/// The partitions of a fetch: the virtual ones, and the names of the queues that are not
/// known yet of the original ones.
#[verifier::ext_equal]
pub struct SplitFetch {
    pub virtuals: Seq<RequestPartitionView>,
    pub queues: Seq<Seq<char>>,
}

impl FilterView {
    /// Tells the virtual partitions of a topic from the original ones.
    pub open spec fn split_partitions(
        self,
        topic: Seq<char>,
        partitions: Seq<FetchPartition>,
        start: SplitFetch,
    ) -> Result<SplitFetch, FilterError>
        decreases partitions.len(),
    {
        if partitions.len() == 0 {
            Ok(start)
        } else {
            match self.split_partitions(topic, partitions.drop_last(), start) {
                Err(e) => Err(e),
                Ok(before) => {
                    let p = partitions.last();
                    match original_in(self.relations, topic, p.partition) {
                        Err(e) => Err(e),
                        Ok(original) => if original != p.partition {
                            Ok(
                                SplitFetch {
                                    virtuals: before.virtuals.push(
                                        RequestPartitionView {
                                            topic,
                                            partition: p.partition,
                                            fetch_offset: p.fetch_offset,
                                        },
                                    ),
                                    ..before
                                },
                            )
                        } else if !self.relations[topic].virtuals.contains_key(original) {
                            Err(FilterError::UnknownPartition)
                        } else {
                            Ok(
                                SplitFetch {
                                    queues: before.queues + self.unknown_queues(
                                        topic,
                                        self.relations[topic].virtuals[original],
                                    ),
                                    ..before
                                },
                            )
                        },
                    }
                },
            }
        }
    }

    /// Tells the virtual partitions of a fetch from the original ones.
    pub open spec fn split_fetch(self, topics: Seq<FetchTopicView>) -> Result<
        SplitFetch,
        FilterError,
    >
        decreases topics.len(),
    {
        if topics.len() == 0 {
            Ok(SplitFetch { virtuals: Seq::empty(), queues: Seq::empty() })
        } else {
            match self.split_fetch(topics.drop_last()) {
                Err(e) => Err(e),
                Ok(before) => self.split_partitions(
                    topics.last().topic,
                    topics.last().partitions,
                    before,
                ),
            }
        }
    }

    /// The filter that has seen a fetch: a fetch without topics goes on with those of the
    /// one before it.
    pub open spec fn fetching(self, reading: FetchReadingView, version: i16) -> FilterView {
        if reading.topics.len() > 0 {
            FilterView {
                fetch_request_api_version: version,
                origin_fetch: Some(reading),
                session_id: reading.session_id,
                ..self
            }
        } else {
            FilterView {
                fetch_request_api_version: version,
                session_id: reading.session_id,
                session_epoch: reading.session_epoch,
                ..self
            }
        }
    }

    /// The first partition of the fetch that goes on.
    pub open spec fn first_partition(self, reading: FetchReadingView) -> Result<
        (Seq<char>, i32),
        FilterError,
    > {
        let topics = if reading.topics.len() > 0 {
            reading.topics
        } else {
            match self.origin_fetch {
                Some(origin) => origin.topics,
                None => Seq::empty(),
            }
        };
        if topics.len() == 0 || topics[0].partitions.len() == 0 {
            Err(FilterError::EmptyFetch)
        } else {
            Ok((topics[0].topic, topics[0].partitions[0].partition))
        }
    }
}

/// A request for the offsets of one partition.
pub open spec fn offsets_request_for(
    reading: FetchReadingView,
    topic: Seq<char>,
    original: i32,
) -> OffsetsRequestView {
    OffsetsRequestView {
        replica_id: reading.replica_id,
        isolation_level: reading.isolation_level,
        topics: seq![
            OffsetsTopicView {
                name: topic,
                partitions: seq![OffsetsPartition { partition_index: original, rest: None }],
                rest: None,
            },
        ],
        rest: None,
    }
}

/// The header of the request for offsets that stands for a fetch.
pub open spec fn offsets_header(header: RequestHeaderView) -> RequestHeaderView {
    RequestHeaderView { api_key: 2, api_version: 7, ..header }
}

/// The fetch that waits: it goes on from the one that waited before, with a new start.
pub open spec fn waiting_fetch(
    contexts: Connections,
    context_id: u32,
    request: RequestDataView,
    now: u128,
) -> ConnectionView {
    if contexts.contains_key(context_id) {
        ConnectionView {
            timeout: false,
            response_initial_time: now,
            ..contexts[context_id]
        }
    } else {
        ConnectionView {
            response_initial_time: now,
            timeout: false,
            request_data: request,
            response_data: None,
        }
    }
}

impl FilterView {
    /// What comes of a fetch. Original partitions are fetched. Where virtual partitions are
    /// asked for, their records come from other contexts: the fetch waits, and a request
    /// for offsets goes out in its place.
    pub open spec fn fetch_downstream(
        self,
        request: RequestView,
        reading: FetchReadingView,
        message: kafka_protocol::messages::FetchRequest,
        contexts: Connections,
        now: u128,
    ) -> Result<DownstreamStep, FilterError> {
        let version = request.header.api_version;
        let f = self.fetching(reading, version);
        match f.first_partition(reading) {
            Err(e) => Err(e),
            Ok(first) => match f.split_fetch(reading.topics) {
                Err(e) => Err(e),
                Ok(split) => if split.virtuals.len() == 0 {
                    let payload = kafka::framed(
                        codec::request_header_encoded(request.header, request.header_version),
                        codec::fetch_request_encoded(message, version),
                    );
                    Ok(
                        DownstreamStep {
                            filter: f.resent(payload),
                            contexts,
                            outcome: DownstreamView {
                                replacement: Some(payload),
                                pause: false,
                                queues: split.queues,
                            },
                        },
                    )
                } else {
                    match original_in(f.relations, first.0, first.1) {
                        Err(e) => Err(e),
                        Ok(original) => {
                            let payload = kafka::framed(
                                codec::request_header_encoded(offsets_header(request.header), 2),
                                codec::offsets_request_encoded(
                                    offsets_request_for(reading, first.0, original),
                                    7,
                                ),
                            );
                            let waiting = RequestDataView {
                                context_id: self.context_id,
                                correlation_id: self.correlation_id,
                                session_id: reading.session_id,
                                session_epoch: reading.session_epoch,
                                body_version: version,
                                partitions: split.virtuals,
                            };
                            Ok(
                                DownstreamStep {
                                    filter: f.resent(payload),
                                    contexts: contexts.insert(
                                        self.context_id,
                                        waiting_fetch(contexts, self.context_id, waiting, now),
                                    ),
                                    outcome: DownstreamView {
                                        replacement: Some(payload),
                                        pause: true,
                                        queues: split.queues,
                                    },
                                },
                            )
                        },
                    }
                },
            },
        }
    }

    /// What comes of a Kafka request that is routed to the cluster of the proxy.
    pub open spec fn kafka_downstream(
        self,
        payload: Seq<u8>,
        contexts: Connections,
        now: u128,
    ) -> Result<DownstreamStep, FilterError> {
        match kafka::request_of(payload) {
            Err(e) => Err(FilterError::Kafka(e)),
            Ok(q) => {
                let f = FilterView {
                    correlation_id: q.header.correlation_id,
                    request: asked_of(q.request),
                    request_header: Some(q.header),
                    ..self
                };
                match q.request {
                    Some(ReadRequestView::FetchRequest(reading, message)) => f.fetch_downstream(
                        q,
                        reading,
                        message,
                        contexts,
                        now,
                    ),
                    Some(ReadRequestView::ListOffsetsRequest(m)) => match f.offsets_asked(
                        m.topics,
                    ) {
                        Err(e) => Err(e),
                        Ok(topics) => Ok(
                            f.passing(
                                contexts,
                                kafka::framed(
                                    codec::request_header_encoded(q.header, q.header_version),
                                    codec::offsets_request_encoded(
                                        OffsetsRequestView { topics, ..m },
                                        q.header.api_version,
                                    ),
                                ),
                            ),
                        ),
                    },
                    Some(ReadRequestView::MetadataRequest(m)) => Ok(
                        f.passing(
                            contexts,
                            kafka::framed(
                                codec::request_header_encoded(q.header, q.header_version),
                                codec::metadata_request_encoded(m, q.header.api_version),
                            ),
                        ),
                    ),
                    _ => Ok(f.passing(contexts, payload)),
                }
            },
        }
    }

    /// What comes of a request that goes out as it is now.
    pub open spec fn passing(self, contexts: Connections, payload: Seq<u8>) -> DownstreamStep {
        DownstreamStep {
            filter: self.sent(payload),
            contexts,
            outcome: DownstreamView {
                replacement: Some(payload),
                pause: false,
                queues: Seq::empty(),
            },
        }
    }

    /// What comes of the bytes of a client. Where more than one message came at once,
    /// nothing is done with them.
    pub open spec fn downstream(self, bytes: Seq<u8>, contexts: Connections, now: u128) -> Result<
        DownstreamStep,
        FilterError,
    > {
        let given = TableView { origin_request: Some(bytes), ..self.table };
        let routed = given.routed(self.protocol);
        let f = FilterView { table: routed.table, ..self };
        if !given.can_route(self.protocol) {
            Err(FilterError::Unroutable)
        } else if home(given) is None {
            Err(FilterError::NoRoute)
        } else {
            match routed.result {
                Err(e) => Err(FilterError::Route(e)),
                Ok(routes) => if routed.remaining != 0 {
                    Ok(
                        DownstreamStep {
                            filter: f,
                            contexts,
                            outcome: DownstreamView {
                                replacement: None,
                                pause: false,
                                queues: Seq::empty(),
                            },
                        },
                    )
                } else if !routes.contains_key(home(given)->Some_0) {
                    Err(FilterError::NoRoute)
                } else {
                    let payload = routes[home(given)->Some_0];
                    match self.protocol {
                        Protocol::Default(_) => Ok(f.passing(contexts, payload)),
                        Protocol::Kafka(_) => f.kafka_downstream(payload, contexts, now),
                    }
                },
            }
        }
    }
}

/// What is asked by a request for offsets.
fn asked_topics(topics: &Vec<OffsetsTopic>) -> (r: Vec<AskedTopic>)
    ensures
        r.deep_view() == Seq::new(
            topics.deep_view().len(),
            |i: int|
                AskedTopicView {
                    name: topics.deep_view()[i].name,
                    partitions: Seq::new(
                        topics.deep_view()[i].partitions.len(),
                        |j: int| topics.deep_view()[i].partitions[j].partition_index,
                    ),
                },
        ),
{
    let ghost views = topics.deep_view();
    let mut list: Vec<AskedTopic> = Vec::new();
    let mut i: usize = 0;
    while i < topics.len()
        invariant
            i <= topics@.len(),
            list@.len() == i,
            views == topics.deep_view(),
            forall|k: int|
                0 <= k < i ==> (#[trigger] list@[k]).deep_view() == (AskedTopicView {
                    name: views[k].name,
                    partitions: Seq::new(
                        views[k].partitions.len(),
                        |j: int| views[k].partitions[j].partition_index,
                    ),
                }),
        decreases topics@.len() - i,
    {
        let topic = &topics[i];
        let mut partitions: Vec<i32> = Vec::new();
        let mut j: usize = 0;
        while j < topic.partitions.len()
            invariant
                j <= topic.partitions@.len(),
                partitions@.len() == j,
                forall|k: int|
                    0 <= k < j ==> #[trigger] partitions@[k]
                        == topic.partitions@[k].partition_index,
            decreases topic.partitions@.len() - j,
        {
            partitions.push(topic.partitions[j].partition_index);
            j += 1;
        }
        proof {
            assert(views[i as int] == topic.deep_view());
            assert(partitions@ =~= Seq::new(
                views[i as int].partitions.len(),
                |k: int| views[i as int].partitions[k].partition_index,
            ));
        }
        list.push(AskedTopic { name: topic.name.clone(), partitions });
        i += 1;
    }
    proof {
        let expected = Seq::new(
            views.len(),
            |i: int|
                AskedTopicView {
                    name: views[i].name,
                    partitions: Seq::new(
                        views[i].partitions.len(),
                        |j: int| views[i].partitions[j].partition_index,
                    ),
                },
        );
        assert(list.deep_view() =~= expected);
    }
    list
}

impl AlloyFilter {
    /// The original partition of a virtual one.
    pub(crate) fn find_original(&self, topic: &String, partition: i32) -> (r: Result<i32, FilterError>)
        ensures
            r == original_in(self@.relations, topic@, partition),
    {
        match self.bimap_virtual_origin.get(topic) {
            None => Err(FilterError::UnknownTopic),
            Some(relation) => match relation.get_original_by_virtual(partition) {
                None => Err(FilterError::UnknownPartition),
                Some(original) => Ok(*original),
            },
        }
    }

    /// Puts original partitions in place of virtual ones.
    fn put_originals(&self, topic: &String, partitions: Vec<OffsetsPartition>) -> (r: Result<
        Vec<OffsetsPartition>,
        FilterError,
    >)
        ensures
            match r {
                Ok(list) => with_originals(self@.relations, topic@, partitions@) == Ok::<
                    Seq<OffsetsPartition>,
                    FilterError,
                >(list@),
                Err(e) => with_originals(self@.relations, topic@, partitions@) == Err::<
                    Seq<OffsetsPartition>,
                    FilterError,
                >(e),
            },
    {
        let ghost all = partitions@;
        let mut list: Vec<OffsetsPartition> = Vec::new();
        proof {
            assert(all.take(0) =~= Seq::<OffsetsPartition>::empty());
            assert(list@ =~= Seq::<OffsetsPartition>::empty());
        }
        for entry in it: partitions
            invariant
                it.seq() == all,
                all == partitions@,
                with_originals(self@.relations, topic@, all.take(it.index() as int)) == Ok::<
                    Seq<OffsetsPartition>,
                    FilterError,
                >(list@),
        {
            let ghost i = it.index() as int;
            let mut partition = entry;
            proof {
                assert(all.take(i + 1).drop_last() =~= all.take(i));
                assert(all.take(i + 1).last() == partition);
            }
            match self.find_original(topic, partition.partition_index) {
                Ok(original) => {
                    partition.partition_index = original;
                },
                Err(e) => {
                    proof {
                        lemma_originals_error_stays(self@.relations, topic@, all, i + 1, e);
                    }
                    return Err(e);
                },
            }
            list.push(partition);
        }
        proof {
            assert(all.take(all.len() as int) =~= all);
        }
        Ok(list)
    }

    /// Puts original partitions in place of virtual ones in a request for offsets.
    fn put_original_topics(&self, topics: Vec<OffsetsTopic>) -> (r: Result<
        Vec<OffsetsTopic>,
        FilterError,
    >)
        ensures
            match r {
                Ok(list) => self@.offsets_asked(topics.deep_view()) == Ok::<
                    Seq<OffsetsTopicView>,
                    FilterError,
                >(list.deep_view()),
                Err(e) => self@.offsets_asked(topics.deep_view()) == Err::<
                    Seq<OffsetsTopicView>,
                    FilterError,
                >(e),
            },
    {
        let ghost this = self@;
        let ghost all = topics@;
        let ghost views = topics.deep_view();
        let mut list: Vec<OffsetsTopic> = Vec::new();
        proof {
            assert(views.take(0) =~= Seq::<OffsetsTopicView>::empty());
            assert(list.deep_view() =~= Seq::<OffsetsTopicView>::empty());
        }
        for entry in it: topics
            invariant
                it.seq() == all,
                all == topics@,
                this == self@,
                views == topics.deep_view(),
                this.offsets_asked(views.take(it.index() as int)) == Ok::<
                    Seq<OffsetsTopicView>,
                    FilterError,
                >(list.deep_view()),
        {
            let ghost i = it.index() as int;
            let ghost before = list.deep_view();
            let mut topic = entry;
            proof {
                assert(views.take(i + 1).drop_last() =~= views.take(i));
                assert(views.take(i + 1).last() == topic.deep_view());
            }
            if self.map_alloy_filters.contains_key(&topic.name) {
                let mut partitions: Vec<OffsetsPartition> = Vec::new();
                std::mem::swap(&mut partitions, &mut topic.partitions);
                match self.put_originals(&topic.name, partitions) {
                    Ok(originals) => {
                        topic.partitions = originals;
                    },
                    Err(e) => {
                        proof {
                            lemma_asked_error_stays(this, views, i + 1, e);
                        }
                        return Err(e);
                    },
                }
            }
            list.push(topic);
            assert(list.deep_view() =~= before.push(topic.deep_view()));
        }
        proof {
            assert(views.take(views.len() as int) =~= views);
        }
        Ok(list)
    }

    /// Adds the names of the queues of virtual partitions that are not known yet.
    fn add_unknown_queues(&self, topic: &String, virtuals: &Vec<i32>, queues: &mut Vec<String>)
        ensures
            text::texts(final(queues)@) == text::texts(old(queues)@) + self@.unknown_queues(
                topic@,
                virtuals@,
            ),
    {
        let ghost this = self@;
        let ghost start = text::texts(queues@);
        let mut i: usize = 0;
        proof {
            assert(virtuals@.take(0) =~= Seq::<i32>::empty());
            assert(start + Seq::<Seq<char>>::empty() =~= start);
        }
        while i < virtuals.len()
            invariant
                this == self@,
                i <= virtuals@.len(),
                text::texts(queues@) == start + this.unknown_queues(
                    topic@,
                    virtuals@.take(i as int),
                ),
            decreases virtuals@.len() - i,
        {
            let ghost now = text::texts(queues@);
            let key = data::make_queue_key(topic, virtuals[i]);
            let ghost name = key@;
            proof {
                assert(virtuals@.take(i + 1).drop_last() =~= virtuals@.take(i as int));
                assert(virtuals@.take(i + 1).last() == virtuals@[i as int]);
            }
            if !self.map_queue_vp.contains_key(&key) {
                queues.push(key);
                assert(text::texts(queues@) =~= now.push(name));
                assert(text::texts(queues@) =~= start + this.unknown_queues(
                    topic@,
                    virtuals@.take(i + 1),
                ));
            }
            i += 1;
        }
        proof {
            assert(virtuals@.take(i as int) =~= virtuals@);
        }
    }

    /// Tells the virtual partitions of a topic from the original ones.
    fn split_topic(
        &self,
        topic: &String,
        partitions: &Vec<FetchPartition>,
        virtuals: &mut Vec<FetchRequestDataPartition>,
        queues: &mut Vec<String>,
    ) -> (r: Result<(), FilterError>)
        ensures
            match r {
                Ok(_) => self@.split_partitions(
                    topic@,
                    partitions@,
                    SplitFetch {
                        virtuals: old(virtuals).deep_view(),
                        queues: text::texts(old(queues)@),
                    },
                ) == Ok::<SplitFetch, FilterError>(
                    SplitFetch {
                        virtuals: final(virtuals).deep_view(),
                        queues: text::texts(final(queues)@),
                    },
                ),
                Err(e) => self@.split_partitions(
                    topic@,
                    partitions@,
                    SplitFetch {
                        virtuals: old(virtuals).deep_view(),
                        queues: text::texts(old(queues)@),
                    },
                ) == Err::<SplitFetch, FilterError>(e),
            },
    {
        let ghost this = self@;
        let ghost start = SplitFetch {
            virtuals: virtuals.deep_view(),
            queues: text::texts(queues@),
        };
        let mut i: usize = 0;
        proof {
            assert(partitions@.take(0) =~= Seq::<FetchPartition>::empty());
        }
        while i < partitions.len()
            invariant
                this == self@,
                i <= partitions@.len(),
                start.virtuals == old(virtuals).deep_view(),
                start.queues == text::texts(old(queues)@),
                this.split_partitions(topic@, partitions@.take(i as int), start) == Ok::<
                    SplitFetch,
                    FilterError,
                >(
                    SplitFetch {
                        virtuals: virtuals.deep_view(),
                        queues: text::texts(queues@),
                    },
                ),
            decreases partitions@.len() - i,
        {
            let asked = partitions[i];
            proof {
                assert(partitions@.take(i + 1).drop_last() =~= partitions@.take(i as int));
                assert(partitions@.take(i + 1).last() == asked);
            }
            let original: i32 = match self.find_original(topic, asked.partition) {
                Ok(original) => original,
                Err(e) => {
                    proof {
                        lemma_split_error_stays(this, topic@, partitions@, start, i + 1, e);
                    }
                    return Err(e);
                },
            };
            if original != asked.partition {
                let ghost now = virtuals.deep_view();
                let partition = FetchRequestDataPartition {
                    topic: topic.clone(),
                    partition: asked.partition,
                    fetch_offset: asked.fetch_offset,
                };
                virtuals.push(partition);
                assert(virtuals.deep_view() =~= now.push(partition.deep_view()));
            } else {
                match self.find_siblings(topic, asked.partition) {
                    Ok(siblings) => self.add_unknown_queues(topic, siblings, queues),
                    Err(e) => {
                        proof {
                            lemma_split_error_stays(this, topic@, partitions@, start, i + 1, e);
                        }
                        return Err(e);
                    },
                }
            }
            i += 1;
        }
        proof {
            assert(partitions@.take(i as int) =~= partitions@);
        }
        Ok(())
    }

    /// Tells the virtual partitions of a fetch from the original ones.
    fn split_reading(&self, reading: &FetchReading) -> (r: Result<
        (Vec<FetchRequestDataPartition>, Vec<String>),
        FilterError,
    >)
        ensures
            match r {
                Ok(split) => self@.split_fetch(reading@.topics) == Ok::<SplitFetch, FilterError>(
                    SplitFetch {
                        virtuals: split.0.deep_view(),
                        queues: text::texts(split.1@),
                    },
                ),
                Err(e) => self@.split_fetch(reading@.topics) == Err::<SplitFetch, FilterError>(e),
            },
    {
        let ghost this = self@;
        let ghost views = reading@.topics;
        let mut virtuals: Vec<FetchRequestDataPartition> = Vec::new();
        let mut queues: Vec<String> = Vec::new();
        let mut i: usize = 0;
        proof {
            assert(views.take(0) =~= Seq::<FetchTopicView>::empty());
            assert(virtuals.deep_view() =~= Seq::<RequestPartitionView>::empty());
            assert(text::texts(queues@) =~= Seq::<Seq<char>>::empty());
        }
        while i < reading.topics.len()
            invariant
                this == self@,
                views == reading@.topics,
                i <= reading.topics@.len(),
                this.split_fetch(views.take(i as int)) == Ok::<SplitFetch, FilterError>(
                    SplitFetch {
                        virtuals: virtuals.deep_view(),
                        queues: text::texts(queues@),
                    },
                ),
            decreases reading.topics@.len() - i,
        {
            let topic = &reading.topics[i];
            proof {
                assert(views.take(i + 1).drop_last() =~= views.take(i as int));
                assert(views.take(i + 1).last() == topic.deep_view());
            }
            if let Err(e) = self.split_topic(
                &topic.topic,
                &topic.partitions,
                &mut virtuals,
                &mut queues,
            ) {
                proof {
                    lemma_fetch_error_stays(this, views, i + 1, e);
                }
                return Err(e);
            }
            i += 1;
        }
        proof {
            assert(views.take(i as int) =~= views);
        }
        Ok((virtuals, queues))
    }
}

proof fn lemma_originals_error_stays(
    relations: Map<Seq<char>, Relation>,
    topic: Seq<char>,
    partitions: Seq<OffsetsPartition>,
    n: int,
    e: FilterError,
)
    requires
        0 <= n <= partitions.len(),
        with_originals(relations, topic, partitions.take(n)) == Err::<
            Seq<OffsetsPartition>,
            FilterError,
        >(e),
    ensures
        with_originals(relations, topic, partitions) == Err::<Seq<OffsetsPartition>, FilterError>(
            e,
        ),
    decreases partitions.len() - n,
{
    if n < partitions.len() {
        assert(partitions.take(n + 1).drop_last() =~= partitions.take(n));
        lemma_originals_error_stays(relations, topic, partitions, n + 1, e);
    } else {
        assert(partitions.take(n) =~= partitions);
    }
}

proof fn lemma_asked_error_stays(
    this: FilterView,
    topics: Seq<OffsetsTopicView>,
    n: int,
    e: FilterError,
)
    requires
        0 <= n <= topics.len(),
        this.offsets_asked(topics.take(n)) == Err::<Seq<OffsetsTopicView>, FilterError>(e),
    ensures
        this.offsets_asked(topics) == Err::<Seq<OffsetsTopicView>, FilterError>(e),
    decreases topics.len() - n,
{
    if n < topics.len() {
        assert(topics.take(n + 1).drop_last() =~= topics.take(n));
        lemma_asked_error_stays(this, topics, n + 1, e);
    } else {
        assert(topics.take(n) =~= topics);
    }
}

proof fn lemma_split_error_stays(
    this: FilterView,
    topic: Seq<char>,
    partitions: Seq<FetchPartition>,
    start: SplitFetch,
    n: int,
    e: FilterError,
)
    requires
        0 <= n <= partitions.len(),
        this.split_partitions(topic, partitions.take(n), start) == Err::<SplitFetch, FilterError>(
            e,
        ),
    ensures
        this.split_partitions(topic, partitions, start) == Err::<SplitFetch, FilterError>(e),
    decreases partitions.len() - n,
{
    if n < partitions.len() {
        assert(partitions.take(n + 1).drop_last() =~= partitions.take(n));
        lemma_split_error_stays(this, topic, partitions, start, n + 1, e);
    } else {
        assert(partitions.take(n) =~= partitions);
    }
}

proof fn lemma_fetch_error_stays(
    this: FilterView,
    topics: Seq<FetchTopicView>,
    n: int,
    e: FilterError,
)
    requires
        0 <= n <= topics.len(),
        this.split_fetch(topics.take(n)) == Err::<SplitFetch, FilterError>(e),
    ensures
        this.split_fetch(topics) == Err::<SplitFetch, FilterError>(e),
    decreases topics.len() - n,
{
    if n < topics.len() {
        assert(topics.take(n + 1).drop_last() =~= topics.take(n));
        lemma_fetch_error_stays(this, topics, n + 1, e);
    } else {
        assert(topics.take(n) =~= topics);
    }
}

/// The cluster of the proxy.
fn find_home(table: &RoutingTable) -> (r: Option<String>)
    ensures
        r.deep_view() == home(table@),
{
    match &table.local_cluster {
        Some(cluster) => Some(cluster.clone()),
        None => match &table.default_cluster {
            Some(cluster) => Some(cluster.clone()),
            None => None,
        },
    }
}

/// Nothing is done with the bytes of a client.
pub open spec fn nothing_done() -> DownstreamView {
    DownstreamView { replacement: None, pause: false, queues: Seq::empty() }
}

fn no_change() -> (outcome: DownstreamOutcome)
    ensures
        outcome@ == nothing_done(),
{
    let outcome = DownstreamOutcome { replacement: None, pause: false, queues: Vec::new() };
    assert(outcome@.queues =~= Seq::<Seq<char>>::empty());
    outcome
}

fn replaced(payload: Vec<u8>, pause: bool, queues: Vec<String>) -> (outcome: DownstreamOutcome)
    ensures
        outcome@ == (DownstreamView {
            replacement: Some(payload@),
            pause,
            queues: text::texts(queues@),
        }),
{
    DownstreamOutcome { replacement: Some(payload), pause, queues }
}

impl AlloyFilter {
    /// Notes that a request was sent to the cluster of the proxy.
    fn send(&mut self, payload: &Vec<u8>)
        requires
            home(old(self)@.table) is Some,
        ensures
            final(self)@ == old(self)@.sent(payload@),
            final(self).map_vp_records == old(self).map_vp_records,
    {
        if let Some(cluster) = find_home(&self.routing_table) {
            self.routing_table.register_upstream_request(0, cluster, text::copy_bytes(payload));
        }
    }

    /// Notes that another request was sent in place of the one that came.
    fn resend(&mut self, payload: &Vec<u8>)
        requires
            home(old(self)@.table) is Some,
        ensures
            final(self)@ == old(self)@.resent(payload@),
            final(self).map_vp_records == old(self).map_vp_records,
    {
        broadcast use text::bytes_deep_view;

        self.send(payload);
        self.routing_table.register_downstream_request(Some(text::copy_bytes(payload)));
    }

    /// Lets a request go out.
    fn pass(&mut self, payload: Vec<u8>) -> (outcome: DownstreamOutcome)
        requires
            home(old(self)@.table) is Some,
        ensures
            final(self)@ == old(self)@.sent(payload@),
            final(self).map_vp_records == old(self).map_vp_records,
            outcome@ == (DownstreamView {
                replacement: Some(payload@),
                pause: false,
                queues: Seq::empty(),
            }),
    {
        self.send(&payload);
        let queues: Vec<String> = Vec::new();
        assert(text::texts(queues@) =~= Seq::<Seq<char>>::empty());
        replaced(payload, false, queues)
    }

    /// The first partition of the fetch that goes on.
    fn find_first_partition(&self, reading: &FetchReading) -> (r: Result<
        (String, i32),
        FilterError,
    >)
        ensures
            match r {
                Ok(first) => self@.first_partition(reading@) == Ok::<
                    (Seq<char>, i32),
                    FilterError,
                >((first.0@, first.1)),
                Err(e) => self@.first_partition(reading@) == Err::<(Seq<char>, i32), FilterError>(
                    e,
                ),
            },
    {
        let topics = if reading.topics.len() > 0 {
            &reading.topics
        } else {
            match &self.origin_fetch_request {
                Some(origin) => &origin.topics,
                None => {
                    return Err(FilterError::EmptyFetch);
                },
            }
        };
        if topics.len() == 0 {
            return Err(FilterError::EmptyFetch);
        }
        assert(topics.deep_view()[0] == topics@[0].deep_view());
        if topics[0].partitions.len() == 0 {
            return Err(FilterError::EmptyFetch);
        }
        Ok((topics[0].topic.clone(), topics[0].partitions[0].partition))
    }

    /// Keeps what a fetch asks for.
    fn note_fetch(&mut self, reading: &FetchReading, version: i16)
        ensures
            final(self)@ == old(self)@.fetching(reading@, version),
            final(self).map_vp_records == old(self).map_vp_records,
    {
        self.fetch_request_api_version = version;
        self.session_id = reading.session_id;
        if reading.topics.len() > 0 {
            self.origin_fetch_request = Some(reading.copy());
        } else {
            self.session_epoch = reading.session_epoch;
        }
    }

    /// Lets a fetch go out, or wait.
    fn fetch(
        &mut self,
        header_version: i16,
        header: RequestHeader,
        reading: &FetchReading,
        message: &kafka_protocol::messages::FetchRequest,
        contexts: &mut HashMap<u32, ConnectionInfo>,
        now: u128,
    ) -> (r: Result<DownstreamOutcome, FilterError>)
        requires
            home(old(self)@.table) is Some,
        ensures
            ({
                let step = old(self)@.fetch_downstream(
                    RequestView {
                        header_version,
                        header: header@,
                        request: Some(ReadRequestView::FetchRequest(reading@, *message)),
                    },
                    reading@,
                    *message,
                    data::connections_view(old(contexts)@),
                    now,
                );
                match r {
                    Ok(outcome) => step == Ok::<DownstreamStep, FilterError>(
                        DownstreamStep {
                            filter: final(self)@,
                            contexts: data::connections_view(final(contexts)@),
                            outcome: outcome@,
                        },
                    ),
                    Err(e) => step == Err::<DownstreamStep, FilterError>(e),
                }
            }),
            final(self).map_vp_records == old(self).map_vp_records,
    {
        broadcast use vstd::std_specs::hash::group_hash_axioms;

        let mut header = header;
        let version: i16 = header.request_api_version;
        self.note_fetch(reading, version);
        let (first_topic, first_partition) = match self.find_first_partition(reading) {
            Ok(first) => first,
            Err(e) => {
                return Err(e);
            },
        };
        let (virtuals, queues) = match self.split_reading(reading) {
            Ok(split) => split,
            Err(e) => {
                return Err(e);
            },
        };
        if virtuals.len() == 0 {
            let payload = KafkaRoutingProtocol::encode(
                codec::encode_request_header(&header, header_version),
                codec::encode_fetch_request(message, version),
            );
            self.resend(&payload);
            return Ok(replaced(payload, false, queues));
        }
        let original: i32 = match self.find_original(&first_topic, first_partition) {
            Ok(original) => original,
            Err(e) => {
                return Err(e);
            },
        };
        let offsets = one_offset_request(reading, first_topic, original);
        header.request_api_key = 2;
        header.request_api_version = 7;
        let payload = KafkaRoutingProtocol::encode(
            codec::encode_request_header(&header, 2),
            codec::encode_offsets_request(offsets, 7),
        );
        self.resend(&payload);
        let request_data = FetchRequestData {
            context_id: self.context_id,
            correlation_id: self.correlation_id,
            session_id: reading.session_id,
            session_epoch: reading.session_epoch,
            body_version: version,
            partitions: virtuals,
        };
        let ghost before = data::connections_view(contexts@);
        let ghost request_view = request_data.deep_view();
        let connection: ConnectionInfo = match contexts.remove(&self.context_id) {
            Some(mut connection) => {
                connection.timeout = false;
                connection.response_initial_time = now;
                connection
            },
            None => ConnectionInfo {
                response_initial_time: now,
                timeout: false,
                request_data,
                response_data: None,
            },
        };
        assert(connection.deep_view() == waiting_fetch(
            before,
            self.context_id,
            request_view,
            now,
        ));
        contexts.insert(self.context_id, connection);
        assert(data::connections_view(contexts@) =~= before.insert(
            self.context_id,
            connection.deep_view(),
        ));
        Ok(replaced(payload, true, queues))
    }

    /// Lets a Kafka request go out, with original partitions in place of virtual ones.
    fn take_request(
        &mut self,
        protocol: &KafkaRoutingProtocol,
        payload: Vec<u8>,
        contexts: &mut HashMap<u32, ConnectionInfo>,
        now: u128,
    ) -> (r: Result<DownstreamOutcome, FilterError>)
        requires
            home(old(self)@.table) is Some,
        ensures
            ({
                let step = old(self)@.kafka_downstream(
                    payload@,
                    data::connections_view(old(contexts)@),
                    now,
                );
                match r {
                    Ok(outcome) => step == Ok::<DownstreamStep, FilterError>(
                        DownstreamStep {
                            filter: final(self)@,
                            contexts: data::connections_view(final(contexts)@),
                            outcome: outcome@,
                        },
                    ),
                    Err(e) => step == Err::<DownstreamStep, FilterError>(e),
                }
            }),
            final(self).map_vp_records == old(self).map_vp_records,
    {
        let (header_version, header, request) = match protocol.decode_request(&payload) {
            Ok(decoded) => decoded,
            Err(e) => {
                return Err(FilterError::Kafka(e));
            },
        };
        let version: i16 = header.request_api_version;
        self.correlation_id = header.correlation_id;
        self.request_header = Some(header.copy());
        match request {
            Some(ReadRequest::FetchRequest(reading, message)) => {
                self.request = Some(AskedRequest::FetchRequest(reading.copy()));
                self.fetch(header_version, header, &reading, &message, contexts, now)
            },
            Some(ReadRequest::ListOffsetsRequest(offsets)) => {
                let mut offsets = offsets;
                let ghost given = offsets@;
                self.request =
                Some(AskedRequest::ListOffsetsRequest(asked_topics(&offsets.topics)));
                let mut topics: Vec<OffsetsTopic> = Vec::new();
                std::mem::swap(&mut topics, &mut offsets.topics);
                match self.put_original_topics(topics) {
                    Ok(originals) => {
                        offsets.topics = originals;
                    },
                    Err(e) => {
                        return Err(e);
                    },
                }
                let out = KafkaRoutingProtocol::encode(
                    codec::encode_request_header(&header, header_version),
                    codec::encode_offsets_request(offsets, version),
                );
                Ok(self.pass(out))
            },
            Some(ReadRequest::MetadataRequest(message)) => {
                self.request = Some(AskedRequest::Other);
                let out = KafkaRoutingProtocol::encode(
                    codec::encode_request_header(&header, header_version),
                    codec::encode_metadata_request(&message, version),
                );
                Ok(self.pass(out))
            },
            Some(ReadRequest::Other(_)) => {
                self.request = Some(AskedRequest::Other);
                Ok(self.pass(payload))
            },
            None => {
                self.request = None;
                Ok(self.pass(payload))
            },
        }
    }

    /// Takes the bytes of a client, at a time in milliseconds, and tells what to do with
    /// them. After an error nothing more is promised of the filter.
    pub fn on_downstream_data(
        &mut self,
        data: Option<Vec<u8>>,
        contexts: &mut HashMap<u32, ConnectionInfo>,
        now: u128,
    ) -> (r: Result<DownstreamOutcome, FilterError>)
        ensures
            match data {
                None => r matches Ok(outcome) && outcome@ == nothing_done() && final(self)@ == old(
                    self,
                )@ && *final(contexts) == *old(contexts),
                Some(bytes) => {
                    let step = old(self)@.downstream(
                        bytes@,
                        data::connections_view(old(contexts)@),
                        now,
                    );
                    match r {
                        Ok(outcome) => step == Ok::<DownstreamStep, FilterError>(
                            DownstreamStep {
                                filter: final(self)@,
                                contexts: data::connections_view(final(contexts)@),
                                outcome: outcome@,
                            },
                        ),
                        Err(e) => step == Err::<DownstreamStep, FilterError>(e),
                    }
                },
            },
            final(self).map_vp_records == old(self).map_vp_records,
    {
        broadcast use text::bytes_deep_view;

        let bytes = match data {
            Some(bytes) => bytes,
            None => {
                return Ok(no_change());
            },
        };
        let ghost given = TableView { origin_request: Some(bytes@), ..self@.table };
        self.routing_table.register_downstream_request(Some(bytes));
        assert(self.routing_table@ =~= given);
        let protocol = self.protocol;
        if !guards::can_route(&self.routing_table, &protocol) {
            return Err(FilterError::Unroutable);
        }
        let cluster = match find_home(&self.routing_table) {
            Some(cluster) => cluster,
            None => {
                return Err(FilterError::NoRoute);
            },
        };
        let (routes, remaining) = self.routing_table.route_request(&protocol);
        let routes = match routes {
            Ok(routes) => routes,
            Err(e) => {
                return Err(FilterError::Route(e));
            },
        };
        assert(home(self@.table) == home(given));
        if remaining != 0 {
            return Ok(no_change());
        }
        let payload = match routes.get(&cluster) {
            Some(payload) => {
                proof {
                    text::bytes_deep_view(*payload);
                }
                text::copy_bytes(payload)
            },
            None => {
                return Err(FilterError::NoRoute);
            },
        };
        match protocol {
            Protocol::Default(_) => Ok(self.pass(payload)),
            Protocol::Kafka(kafka) => self.take_request(&kafka, payload, contexts, now),
        }
    }
}

/// Makes a request for the offsets of one partition.
fn one_offset_request(reading: &FetchReading, topic: String, original: i32) -> (r: OffsetsRequest)
    ensures
        r@ == offsets_request_for(reading@, topic@, original),
{
    let ghost name = topic@;
    let mut partitions: Vec<OffsetsPartition> = Vec::new();
    partitions.push(OffsetsPartition { partition_index: original, rest: None });
    let mut topics: Vec<OffsetsTopic> = Vec::new();
    topics.push(OffsetsTopic { name: topic, partitions, rest: None });
    let r = OffsetsRequest {
        replica_id: reading.replica_id,
        isolation_level: reading.isolation_level,
        topics,
        rest: None,
    };
    proof {
        let expected = offsets_request_for(reading@, name, original);
        assert(partitions@ =~= expected.topics[0].partitions);
        assert(r@.topics[0] =~= expected.topics[0]);
        assert(r@.topics =~= expected.topics);
    }
    r
}

impl AlloyFilter {
    /// Forgets the fetch of the connection when its client is gone.
    pub fn on_downstream_close(&self, contexts: &mut HashMap<u32, ConnectionInfo>)
        ensures
            final(contexts)@ == old(contexts)@.remove(self.context_id),
    {
        broadcast use vstd::std_specs::hash::group_hash_axioms;

        contexts.remove(&self.context_id);
    }
}

} // verus!
