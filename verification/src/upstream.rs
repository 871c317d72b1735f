//! Responses: what the proxy makes of the bytes that a broker sends.

use crate::codec;
use crate::codec::FetchMessage;
use crate::codec::FetchMessageView;
use crate::codec::FetchReading;
use crate::codec::FetchReadingView;
use crate::codec::FetchTopicView;
use crate::codec::FetchedPartition;
use crate::codec::FetchedPartitionView;
use crate::codec::FetchedTopic;
use crate::codec::FetchedTopicView;
use crate::codec::MetadataMessage;
use crate::codec::MetadataMessageView;
use crate::codec::MetadataPartition;
use crate::codec::MetadataTopic;
use crate::codec::MetadataTopicView;
use crate::codec::OffsetsResponse;
use crate::codec::OffsetsResponseView;
use crate::codec::PartitionOffsets;
use crate::codec::RequestHeaderView;
use crate::codec::ResponseHeader;
use crate::codec::ResponseHeaderView;
use crate::codec::TopicOffsets;
use crate::codec::TopicOffsetsView;
use crate::data;
use crate::data::ConnectionInfo;
use crate::data::Connections;
use crate::downstream;
use crate::fetching::AssemblyView;
use crate::fetching::Delivery;
use crate::fetching::DeliveryView;
use crate::fetching::FetchAssembly;
use crate::filter::AlloyFilter;
use crate::filter::AskedRequest;
use crate::filter::AskedTopic;
use crate::filter::AskedTopicView;
use crate::filter::AskedView;
use crate::filter::FilterError;
use crate::filter::FilterView;
use crate::filter::Waiting;
use crate::guards;
use crate::hashing;
use crate::kafka;
use crate::kafka::KafkaError;
use crate::kafka::KafkaRoutingProtocol;
use crate::kafka::Protocol;
use crate::kafka::ReadResponse;
use crate::kafka::ReadResponseView;
use crate::maps::KeyedMap;
use crate::partitions::Relation;
use crate::routing::RouteError;
use crate::text;
use std::collections::HashMap;
use vstd::prelude::*;

verus! {

/// What to do with the bytes of a broker.
pub enum UpstreamOutcome {
    /// They go on as they are.
    Keep,
    /// So many of them are replaced.
    Replace { size: usize, payload: Vec<u8> },
    /// Records are delivered to virtual partitions, and the response is completed with what
    /// other contexts left.
    Fetched { assembly: FetchAssembly, deliveries: Vec<Delivery> },
}

/// What is to be done with the bytes of a broker.
pub enum UpstreamView {
    Keep,
    Replace { size: int, payload: Seq<u8> },
    Fetched { assembly: AssemblyView, deliveries: Seq<DeliveryView> },
}

impl View for UpstreamOutcome {
    type V = UpstreamView;

    open spec fn view(&self) -> UpstreamView {
        match self {
            UpstreamOutcome::Keep => UpstreamView::Keep,
            UpstreamOutcome::Replace { size, payload } => UpstreamView::Replace {
                size: *size as int,
                payload: payload@,
            },
            UpstreamOutcome::Fetched { assembly, deliveries } => UpstreamView::Fetched {
                assembly: assembly@,
                deliveries: deliveries.deep_view(),
            },
        }
    }
}

/// What comes of the bytes of a broker.
#[verifier::ext_equal]
pub struct UpstreamStep {
    pub filter: FilterView,
    pub waiting: Waiting,
    pub contexts: Connections,
    pub outcome: UpstreamView,
}

/// Copies of the metadata of partitions for their virtual partitions.
pub open spec fn virtual_metadata(
    relations: Map<Seq<char>, Relation>,
    topic: Seq<char>,
    partitions: Seq<MetadataPartition>,
) -> Result<Seq<MetadataPartition>, FilterError>
    decreases partitions.len(),
{
    if partitions.len() == 0 {
        Ok(Seq::empty())
    } else {
        match virtual_metadata(relations, topic, partitions.drop_last()) {
            Err(e) => Err(e),
            Ok(before) => {
                let p = partitions.last();
                if !relations.contains_key(topic) {
                    Err(FilterError::UnknownTopic)
                } else if !relations[topic].virtuals.contains_key(p.partition_index) {
                    Err(FilterError::UnknownPartition)
                } else {
                    Ok(before + copies_for(p, relations[topic].virtuals[p.partition_index]))
                }
            },
        }
    }
}

/// Copies of the metadata of a partition.
pub open spec fn copies_for(partition: MetadataPartition, virtuals: Seq<i32>) -> Seq<
    MetadataPartition,
> {
    Seq::new(
        virtuals.len(),
        |i: int| MetadataPartition { partition_index: virtuals[i], ..partition },
    )
}

/// Topics with the metadata of virtual partitions after that of the original ones.
pub open spec fn with_virtuals(
    relations: Map<Seq<char>, Relation>,
    topics: Seq<MetadataTopicView>,
) -> Result<Seq<MetadataTopicView>, FilterError>
    decreases topics.len(),
{
    if topics.len() == 0 {
        Ok(Seq::empty())
    } else {
        match with_virtuals(relations, topics.drop_last()) {
            Err(e) => Err(e),
            Ok(before) => {
                let topic = topics.last();
                match virtual_metadata(relations, topic.name, topic.partitions) {
                    Err(e) => Err(e),
                    Ok(added) => Ok(
                        before.push(
                            MetadataTopicView { partitions: topic.partitions + added, ..topic },
                        ),
                    ),
                }
            },
        }
    }
}

/// The position of the first topic with a name; the number of topics if there is none.
pub open spec fn topic_position(topics: Seq<TopicOffsetsView>, name: Seq<char>) -> int
    decreases topics.len(),
{
    if topics.len() == 0 || topics[0].name == name {
        0
    } else {
        1 + topic_position(topics.skip(1), name)
    }
}

/// The first offsets of a partition.
pub open spec fn offsets_of(partitions: Seq<PartitionOffsets>, index: i32) -> Option<
    PartitionOffsets,
>
    decreases partitions.len(),
{
    if partitions.len() == 0 {
        None
    } else if partitions[0].partition_index == index {
        Some(partitions[0])
    } else {
        offsets_of(partitions.skip(1), index)
    }
}

/// The offsets of virtual partitions: those of their original partitions.
pub open spec fn virtual_offsets(
    relations: Map<Seq<char>, Relation>,
    topic: Seq<char>,
    asked: Seq<i32>,
    partitions: Seq<PartitionOffsets>,
) -> Result<Seq<PartitionOffsets>, FilterError>
    decreases asked.len(),
{
    if asked.len() == 0 {
        Ok(Seq::empty())
    } else {
        match virtual_offsets(relations, topic, asked.drop_last(), partitions) {
            Err(e) => Err(e),
            Ok(before) => match downstream::original_in(relations, topic, asked.last()) {
                Err(e) => Err(e),
                Ok(original) => match offsets_of(partitions, original) {
                    None => Err(FilterError::UnknownPartition),
                    Some(found) => Ok(
                        before.push(PartitionOffsets { partition_index: asked.last(), ..found }),
                    ),
                },
            },
        }
    }
}

/// The number of virtual partitions.
pub open spec fn partition_count(num_sources: i32, num_partitions: i32) -> int {
    num_partitions * num_sources
}

/// Whether the readers of all virtual partitions can be computed.
pub open spec fn owners_fit(topic: Seq<char>, num_sources: i32, num_partitions: i32) -> bool {
    let n = partition_count(num_sources, num_partitions);
    &&& i32::MIN <= n <= i32::MAX
    &&& n > 0 ==> hashing::start_index(topic, num_sources as int) + n - 1 <= i32::MAX
}

/// The readers of the virtual partitions below `n`.
pub open spec fn owners(
    splits: Map<(Seq<char>, i32), i32>,
    topic: Seq<char>,
    num_sources: i32,
    n: int,
) -> Map<(Seq<char>, i32), i32> {
    Map::new(
        |k: (Seq<char>, i32)| splits.contains_key(k) || (k.0 == topic && 0 <= k.1 < n),
        |k: (Seq<char>, i32)|
            if k.0 == topic && 0 <= k.1 < n {
                hashing::split_owner_of(topic, k.1 as int, num_sources as int) as i32
            } else {
                splits[k]
            },
    )
}

/// The positions of the virtual partitions below `n`, at their start.
pub open spec fn positions(
    indexes: Map<(Seq<char>, i32), i64>,
    topic: Seq<char>,
    n: int,
) -> Map<(Seq<char>, i32), i64> {
    Map::new(
        |k: (Seq<char>, i32)| indexes.contains_key(k) || (k.0 == topic && 0 <= k.1 < n),
        |k: (Seq<char>, i32)|
            if k.0 == topic && 0 <= k.1 < n {
                0
            } else {
                indexes[k]
            },
    )
}

/// The filter and the topics of a response with offsets.
#[verifier::ext_equal]
pub struct OffsetsStep {
    pub filter: FilterView,
    pub topics: Seq<TopicOffsetsView>,
}

impl FilterView {
    /// Answers what was asked of a topic, and notes which source reads which of its virtual
    /// partitions.
    pub open spec fn offsets_answered_for(
        self,
        asked: AskedTopicView,
        topics: Seq<TopicOffsetsView>,
    ) -> Result<OffsetsStep, FilterError> {
        let i = topic_position(topics, asked.name);
        if !self.criteria.contains_key(asked.name) || i >= topics.len() {
            Err(FilterError::UnknownTopic)
        } else {
            let criteria = self.criteria[asked.name];
            let n = partition_count(criteria.num_sources, criteria.num_partitions);
            match virtual_offsets(
                self.relations,
                asked.name,
                asked.partitions,
                topics[i].partitions,
            ) {
                Err(e) => Err(e),
                Ok(partitions) => if !owners_fit(
                    asked.name,
                    criteria.num_sources,
                    criteria.num_partitions,
                ) {
                    Err(FilterError::TooManyPartitions)
                } else {
                    Ok(
                        OffsetsStep {
                            filter: FilterView {
                                splits: owners(self.splits, asked.name, criteria.num_sources, n),
                                query_indexes: positions(self.query_indexes, asked.name, n),
                                ..self
                            },
                            topics: topics.update(
                                i,
                                TopicOffsetsView { partitions, ..topics[i] },
                            ),
                        },
                    )
                },
            }
        }
    }

    /// Answers what was asked of topics.
    pub open spec fn offsets_answered(
        self,
        asked: Seq<AskedTopicView>,
        topics: Seq<TopicOffsetsView>,
    ) -> Result<OffsetsStep, FilterError>
        decreases asked.len(),
    {
        if asked.len() == 0 {
            Ok(OffsetsStep { filter: self, topics })
        } else {
            match self.offsets_answered(asked.drop_last(), topics) {
                Err(e) => Err(e),
                Ok(before) => before.filter.offsets_answered_for(asked.last(), before.topics),
            }
        }
    }
}

/// A response to a fetch without records.
pub open spec fn empty_fetch(topics: Seq<FetchTopicView>) -> FetchMessageView {
    FetchMessageView {
        error_code: 0,
        session_id: 0,
        topics: Seq::new(
            topics.len(),
            |i: int|
                FetchedTopicView {
                    topic: topics[i].topic,
                    partitions: Seq::new(
                        topics[i].partitions.len(),
                        |j: int| FetchedPartitionView::fresh(topics[i].partitions[j].partition),
                    ),
                    rest: None,
                },
        ),
        rest: None,
    }
}

/// A response to a fetch, as bytes.
pub open spec fn fetch_payload(header: RequestHeaderView, message: FetchMessageView) -> Seq<u8> {
    kafka::framed(
        codec::response_header_encoded(
            ResponseHeaderView { correlation_id: header.correlation_id, tags: Map::empty() },
            1,
        ),
        codec::fetch_encoded(message, header.api_version),
    )
}

impl FilterView {
    /// What comes of metadata: virtual partitions are added to it.
    pub open spec fn metadata_upstream(
        self,
        header_version: i16,
        header: ResponseHeaderView,
        message: MetadataMessageView,
        data_size: int,
    ) -> Result<UpstreamView, FilterError> {
        match with_virtuals(self.relations, message.topics) {
            Err(e) => Err(e),
            Ok(topics) => match self.request_header {
                None => Err(FilterError::NoRequest),
                Some(request) => Ok(
                    UpstreamView::Replace {
                        size: data_size,
                        payload: kafka::framed(
                            codec::response_header_encoded(header, header_version),
                            codec::metadata_encoded(
                                MetadataMessageView { topics, ..message },
                                request.api_version,
                            ),
                        ),
                    },
                ),
            },
        }
    }

    /// What comes of offsets that were asked for: those of virtual partitions.
    pub open spec fn offsets_upstream(
        self,
        header_version: i16,
        header: ResponseHeaderView,
        message: OffsetsResponseView,
        asked: Seq<AskedTopicView>,
    ) -> Result<(FilterView, UpstreamView), FilterError> {
        match self.offsets_answered(asked, message.topics) {
            Err(e) => Err(e),
            Ok(step) => match self.request_header {
                None => Err(FilterError::NoRequest),
                Some(request) => {
                    let payload = kafka::framed(
                        codec::response_header_encoded(header, header_version),
                        codec::offsets_response_encoded(
                            OffsetsResponseView { topics: step.topics, ..message },
                            request.api_version,
                        ),
                    );
                    Ok(
                        (
                            step.filter,
                            UpstreamView::Replace { size: payload.len() as int, payload },
                        ),
                    )
                },
            },
        }
    }

    /// What a fetch that waits gets: the response that was made for it, or an empty one.
    pub open spec fn waiting_upstream(
        self,
        reading: FetchReadingView,
        contexts: Connections,
        data_size: int,
    ) -> Result<UpstreamView, FilterError> {
        if contexts.contains_key(self.context_id) && contexts[self.context_id].response_data
            is Some {
            Ok(
                UpstreamView::Replace {
                    size: data_size,
                    payload: contexts[self.context_id].response_data->Some_0,
                },
            )
        } else {
            match self.request_header {
                None => Err(FilterError::NoRequest),
                Some(request) => Ok(
                    UpstreamView::Replace {
                        size: data_size,
                        payload: fetch_payload(request, empty_fetch(reading.topics)),
                    },
                ),
            }
        }
    }

    /// The session of a fetch and of its response: that of the response, where it has one.
    pub open spec fn in_session(self, message: FetchMessageView) -> (FilterView, FetchMessageView) {
        if message.session_id > 0 {
            (FilterView { session_id: message.session_id, ..self }, message)
        } else {
            (self, FetchMessageView { session_id: self.session_id, ..message })
        }
    }

    /// What comes of fetched records: they are filtered and dealt out, and the response is
    /// to be completed.
    pub open spec fn fetch_upstream(
        self,
        reading: FetchReadingView,
        message: FetchMessageView,
        waiting: Waiting,
    ) -> Result<(FilterView, Waiting, UpstreamView), FilterError> {
        let (f, m) = self.in_session(message);
        match f.processed_topics(reading, m.topics, waiting) {
            Err(e) => Err(e),
            Ok(p) => if f.origin_fetch is None {
                Err(FilterError::NoRequest)
            } else {
                Ok(
                    (
                        f,
                        p.waiting,
                        UpstreamView::Fetched {
                            assembly: AssemblyView {
                                message: FetchMessageView { topics: p.topics, ..m },
                                collected: Seq::empty(),
                                topic: 0,
                                partition: 0,
                            },
                            deliveries: p.deliveries,
                        },
                    ),
                )
            },
        }
    }

    /// What comes of the response to a Kafka request.
    pub open spec fn kafka_upstream(
        self,
        payload: Seq<u8>,
        data_size: int,
        waiting: Waiting,
        contexts: Connections,
    ) -> Result<UpstreamStep, FilterError> {
        let kept = UpstreamStep { filter: self, waiting, contexts, outcome: UpstreamView::Keep };
        let taken = FilterView { request: None, ..self };
        match self.table.origin_request {
            None => Err(FilterError::NoRequest),
            Some(request) => match kafka::response_of(request, payload) {
                Err(KafkaError::Split) => Ok(kept),
                Err(e) => Err(FilterError::Kafka(e)),
                Ok(q) => match q.response {
                    Some(ReadResponseView::MetadataResponse(m)) => match self.metadata_upstream(
                        q.header_version,
                        q.header,
                        m,
                        data_size,
                    ) {
                        Err(e) => Err(e),
                        Ok(outcome) => Ok(UpstreamStep { outcome, ..kept }),
                    },
                    Some(ReadResponseView::ListOffsetsResponse(m)) => match self.request {
                        Some(AskedView::ListOffsetsRequest(asked)) => match taken.offsets_upstream(
                            q.header_version,
                            q.header,
                            m,
                            asked,
                        ) {
                            Err(e) => Err(e),
                            Ok(s) => Ok(UpstreamStep { filter: s.0, outcome: s.1, ..kept }),
                        },
                        Some(AskedView::FetchRequest(reading)) => match taken.waiting_upstream(
                            reading,
                            contexts,
                            data_size,
                        ) {
                            Err(e) => Err(e),
                            Ok(outcome) => Ok(
                                UpstreamStep {
                                    filter: taken,
                                    contexts: contexts.remove(self.context_id),
                                    outcome,
                                    ..kept
                                },
                            ),
                        },
                        _ => Ok(UpstreamStep { filter: taken, ..kept }),
                    },
                    Some(ReadResponseView::FetchResponse(m)) => match self.request {
                        Some(AskedView::FetchRequest(reading)) => match taken.fetch_upstream(
                            reading,
                            m,
                            waiting,
                        ) {
                            Err(e) => Err(e),
                            Ok(s) => Ok(
                                UpstreamStep { filter: s.0, waiting: s.1, outcome: s.2, ..kept },
                            ),
                        },
                        _ => Ok(UpstreamStep { filter: taken, ..kept }),
                    },
                    _ => Ok(kept),
                },
            },
        }
    }

    /// What comes of the bytes of a broker.
    pub open spec fn upstream(
        self,
        bytes: Seq<u8>,
        data_size: usize,
        waiting: Waiting,
        contexts: Connections,
    ) -> Result<UpstreamStep, FilterError> {
        let answered = self.table.responded(self.protocol, 0, bytes);
        let f = FilterView { table: answered.table, ..self };
        let g = FilterView { data_size, ..f };
        if !self.table.can_answer(self.protocol, 0, bytes) {
            Err(FilterError::Unexpected)
        } else {
            match answered.result {
                Err(RouteError::Incomplete) => Ok(
                    UpstreamStep {
                        filter: f,
                        waiting,
                        contexts,
                        outcome: UpstreamView::Replace {
                            size: data_size as int,
                            payload: Seq::empty(),
                        },
                    },
                ),
                Err(_) => Ok(
                    UpstreamStep { filter: f, waiting, contexts, outcome: UpstreamView::Keep },
                ),
                Ok(payload) => match self.protocol {
                    Protocol::Kafka(_) if answered.remaining == 0 => g.kafka_upstream(
                        payload,
                        data_size as int,
                        waiting,
                        contexts,
                    ),
                    _ => Ok(
                        UpstreamStep { filter: g, waiting, contexts, outcome: UpstreamView::Keep },
                    ),
                },
            }
        }
    }
}

impl AlloyFilter {
    /// Copies the metadata of partitions for their virtual partitions.
    fn copy_metadata(&self, topic: &String, partitions: &Vec<MetadataPartition>) -> (r: Result<
        Vec<MetadataPartition>,
        FilterError,
    >)
        ensures
            match r {
                Ok(list) => virtual_metadata(self@.relations, topic@, partitions@) == Ok::<
                    Seq<MetadataPartition>,
                    FilterError,
                >(list@),
                Err(e) => virtual_metadata(self@.relations, topic@, partitions@) == Err::<
                    Seq<MetadataPartition>,
                    FilterError,
                >(e),
            },
    {
        let ghost relations = self@.relations;
        let mut list: Vec<MetadataPartition> = Vec::new();
        let mut i: usize = 0;
        proof {
            assert(partitions@.take(0) =~= Seq::<MetadataPartition>::empty());
            assert(list@ =~= Seq::<MetadataPartition>::empty());
        }
        while i < partitions.len()
            invariant
                i <= partitions@.len(),
                relations == self@.relations,
                virtual_metadata(relations, topic@, partitions@.take(i as int)) == Ok::<
                    Seq<MetadataPartition>,
                    FilterError,
                >(list@),
            decreases partitions@.len() - i,
        {
            let partition = &partitions[i];
            let ghost before = list@;
            proof {
                assert(partitions@.take(i + 1).drop_last() =~= partitions@.take(i as int));
                assert(partitions@.take(i + 1).last() == *partition);
            }
            let relation = match self.bimap_virtual_origin.get(topic) {
                Some(relation) => relation,
                None => {
                    proof {
                        lemma_metadata_error_stays(
                            relations,
                            topic@,
                            partitions@,
                            i + 1,
                            FilterError::UnknownTopic,
                        );
                    }
                    return Err(FilterError::UnknownTopic);
                },
            };
            let virtuals = match relation.get_virtuals_by_original(partition.partition_index) {
                Some(virtuals) => virtuals,
                None => {
                    proof {
                        lemma_metadata_error_stays(
                            relations,
                            topic@,
                            partitions@,
                            i + 1,
                            FilterError::UnknownPartition,
                        );
                    }
                    return Err(FilterError::UnknownPartition);
                },
            };
            let ghost copies = copies_for(*partition, virtuals@);
            let mut j: usize = 0;
            proof {
                assert(before + copies.take(0) =~= before);
            }
            while j < virtuals.len()
                invariant
                    j <= virtuals@.len(),
                    copies == copies_for(*partition, virtuals@),
                    list@ == before + copies.take(j as int),
                decreases virtuals@.len() - j,
            {
                let copied = MetadataPartition {
                    partition_index: virtuals[j],
                    rest: partition.rest.clone(),
                };
                list.push(copied);
                proof {
                    assert(copies.take(j + 1) =~= copies.take(j as int).push(copied));
                    assert(list@ =~= before + copies.take(j + 1));
                }
                j += 1;
            }
            proof {
                assert(copies.take(j as int) =~= copies);
            }
            i += 1;
        }
        proof {
            assert(partitions@.take(i as int) =~= partitions@);
        }
        Ok(list)
    }

    /// Adds the metadata of virtual partitions to that of the original ones.
    fn add_virtuals(&self, topics: Vec<MetadataTopic>) -> (r: Result<
        Vec<MetadataTopic>,
        FilterError,
    >)
        ensures
            match r {
                Ok(list) => with_virtuals(self@.relations, topics.deep_view()) == Ok::<
                    Seq<MetadataTopicView>,
                    FilterError,
                >(list.deep_view()),
                Err(e) => with_virtuals(self@.relations, topics.deep_view()) == Err::<
                    Seq<MetadataTopicView>,
                    FilterError,
                >(e),
            },
    {
        let ghost relations = self@.relations;
        let ghost all = topics@;
        let ghost views = topics.deep_view();
        let mut list: Vec<MetadataTopic> = Vec::new();
        proof {
            assert(views.take(0) =~= Seq::<MetadataTopicView>::empty());
            assert(list.deep_view() =~= Seq::<MetadataTopicView>::empty());
        }
        for entry in it: topics
            invariant
                it.seq() == all,
                all == topics@,
                relations == self@.relations,
                views == topics.deep_view(),
                with_virtuals(relations, views.take(it.index() as int)) == Ok::<
                    Seq<MetadataTopicView>,
                    FilterError,
                >(list.deep_view()),
        {
            let ghost i = it.index() as int;
            let ghost before = list.deep_view();
            let mut topic = entry;
            let ghost given = topic.partitions@;
            proof {
                assert(views.take(i + 1).drop_last() =~= views.take(i));
                assert(views.take(i + 1).last() == topic.deep_view());
            }
            match self.copy_metadata(&topic.name, &topic.partitions) {
                Ok(mut added) => {
                    let ghost more = added@;
                    topic.partitions.append(&mut added);
                    assert(topic.partitions@ =~= given + more);
                },
                Err(e) => {
                    proof {
                        lemma_virtuals_error_stays(relations, views, i + 1, e);
                    }
                    return Err(e);
                },
            }
            list.push(topic);
            assert(list.deep_view() =~= before.push(topic.deep_view()));
        }
        proof {
            assert(views.take(views.len() as int) =~= views);
        }
        Ok(list)
    }
}

proof fn lemma_metadata_error_stays(
    relations: Map<Seq<char>, Relation>,
    topic: Seq<char>,
    partitions: Seq<MetadataPartition>,
    n: int,
    e: FilterError,
)
    requires
        0 <= n <= partitions.len(),
        virtual_metadata(relations, topic, partitions.take(n)) == Err::<
            Seq<MetadataPartition>,
            FilterError,
        >(e),
    ensures
        virtual_metadata(relations, topic, partitions) == Err::<
            Seq<MetadataPartition>,
            FilterError,
        >(e),
    decreases partitions.len() - n,
{
    if n < partitions.len() {
        assert(partitions.take(n + 1).drop_last() =~= partitions.take(n));
        lemma_metadata_error_stays(relations, topic, partitions, n + 1, e);
    } else {
        assert(partitions.take(n) =~= partitions);
    }
}

proof fn lemma_virtuals_error_stays(
    relations: Map<Seq<char>, Relation>,
    topics: Seq<MetadataTopicView>,
    n: int,
    e: FilterError,
)
    requires
        0 <= n <= topics.len(),
        with_virtuals(relations, topics.take(n)) == Err::<Seq<MetadataTopicView>, FilterError>(e),
    ensures
        with_virtuals(relations, topics) == Err::<Seq<MetadataTopicView>, FilterError>(e),
    decreases topics.len() - n,
{
    if n < topics.len() {
        assert(topics.take(n + 1).drop_last() =~= topics.take(n));
        lemma_virtuals_error_stays(relations, topics, n + 1, e);
    } else {
        assert(topics.take(n) =~= topics);
    }
}

/// The position of the first topic with a name.
fn find_position(topics: &Vec<TopicOffsets>, name: &String) -> (r: usize)
    ensures
        r == topic_position(topics.deep_view(), name@),
        r <= topics@.len(),
{
    let ghost views = topics.deep_view();
    let mut i: usize = 0;
    proof {
        assert(views.skip(0) =~= views);
    }
    while i < topics.len()
        invariant
            i <= topics@.len(),
            views == topics.deep_view(),
            topic_position(views, name@) == i + topic_position(views.skip(i as int), name@),
        decreases topics@.len() - i,
    {
        proof {
            assert(views.skip(i as int)[0] == topics@[i as int].deep_view());
            assert(views.skip(i as int).skip(1) =~= views.skip(i + 1));
        }
        if topics[i].name == *name {
            return i;
        }
        i += 1;
    }
    i
}

/// The first offsets of a partition.
fn find_offsets(partitions: &Vec<PartitionOffsets>, index: i32) -> (r: Option<&PartitionOffsets>)
    ensures
        match r {
            Some(p) => offsets_of(partitions@, index) == Some(*p),
            None => offsets_of(partitions@, index) is None,
        },
{
    let mut i: usize = 0;
    proof {
        assert(partitions@.skip(0) =~= partitions@);
    }
    while i < partitions.len()
        invariant
            i <= partitions@.len(),
            offsets_of(partitions@, index) == offsets_of(partitions@.skip(i as int), index),
        decreases partitions@.len() - i,
    {
        proof {
            assert(partitions@.skip(i as int)[0] == partitions@[i as int]);
            assert(partitions@.skip(i as int).skip(1) =~= partitions@.skip(i + 1));
        }
        if partitions[i].partition_index == index {
            return Some(&partitions[i]);
        }
        i += 1;
    }
    None
}

impl AlloyFilter {
    /// Makes the offsets of virtual partitions of those of their original partitions.
    fn make_virtual_offsets(
        &self,
        topic: &String,
        asked: &Vec<i32>,
        partitions: &Vec<PartitionOffsets>,
    ) -> (r: Result<Vec<PartitionOffsets>, FilterError>)
        ensures
            match r {
                Ok(list) => virtual_offsets(self@.relations, topic@, asked@, partitions@) == Ok::<
                    Seq<PartitionOffsets>,
                    FilterError,
                >(list@),
                Err(e) => virtual_offsets(self@.relations, topic@, asked@, partitions@) == Err::<
                    Seq<PartitionOffsets>,
                    FilterError,
                >(e),
            },
    {
        let ghost relations = self@.relations;
        let mut list: Vec<PartitionOffsets> = Vec::new();
        let mut i: usize = 0;
        proof {
            assert(asked@.take(0) =~= Seq::<i32>::empty());
            assert(list@ =~= Seq::<PartitionOffsets>::empty());
        }
        while i < asked.len()
            invariant
                i <= asked@.len(),
                relations == self@.relations,
                virtual_offsets(relations, topic@, asked@.take(i as int), partitions@) == Ok::<
                    Seq<PartitionOffsets>,
                    FilterError,
                >(list@),
            decreases asked@.len() - i,
        {
            let index: i32 = asked[i];
            let ghost before = list@;
            proof {
                assert(asked@.take(i + 1).drop_last() =~= asked@.take(i as int));
                assert(asked@.take(i + 1).last() == index);
            }
            let original: i32 = match self.find_original(topic, index) {
                Ok(original) => original,
                Err(e) => {
                    proof {
                        lemma_offsets_error_stays(
                            relations,
                            topic@,
                            asked@,
                            partitions@,
                            i + 1,
                            e,
                        );
                    }
                    return Err(e);
                },
            };
            match find_offsets(partitions, original) {
                Some(found) => {
                    list.push(
                        PartitionOffsets { partition_index: index, rest: found.rest.clone() },
                    );
                },
                None => {
                    proof {
                        lemma_offsets_error_stays(
                            relations,
                            topic@,
                            asked@,
                            partitions@,
                            i + 1,
                            FilterError::UnknownPartition,
                        );
                    }
                    return Err(FilterError::UnknownPartition);
                },
            }
            i += 1;
        }
        proof {
            assert(asked@.take(i as int) =~= asked@);
        }
        Ok(list)
    }

    /// Notes which source reads which virtual partition of a topic.
    fn note_owners(&mut self, topic: &String, num_sources: i32, num_partitions: i32)
        requires
            owners_fit(topic@, num_sources, num_partitions),
        ensures
            final(self)@ == (FilterView {
                splits: owners(
                    old(self)@.splits,
                    topic@,
                    num_sources,
                    partition_count(num_sources, num_partitions),
                ),
                query_indexes: positions(
                    old(self)@.query_indexes,
                    topic@,
                    partition_count(num_sources, num_partitions),
                ),
                ..old(self)@
            }),
            final(self).map_vp_records == old(self).map_vp_records,
    {
        let ghost before = self@;
        let ghost n = partition_count(num_sources, num_partitions);
        let total: i32 = num_partitions * num_sources;
        let mut partition: i32 = 0;
        proof {
            assert(owners(before.splits, topic@, num_sources, 0) =~= before.splits);
            assert(positions(before.query_indexes, topic@, 0) =~= before.query_indexes);
        }
        while partition < total
            invariant
                n == partition_count(num_sources, num_partitions),
                total == n,
                owners_fit(topic@, num_sources, num_partitions),
                0 <= partition,
                partition <= total || total < 0,
                total <= 0 ==> partition == 0,
                *self == (AlloyFilter {
                    map_split_id: self.map_split_id,
                    map_index_query_partition: self.map_index_query_partition,
                    ..*old(self)
                }),
                before == old(self)@,
                self@.splits == owners(before.splits, topic@, num_sources, partition as int),
                self@.query_indexes == positions(before.query_indexes, topic@, partition as int),
            decreases total - partition,
        {
            let ghost splits = self@.splits;
            let ghost indexes = self@.query_indexes;
            assert(num_sources != 0) by (nonlinear_arith)
                requires
                    num_partitions * num_sources > 0,
            ;
            let owner: i32 = hashing::get_split_owner(topic.as_str(), partition, num_sources);
            self.map_split_id.insert((topic.clone(), partition), owner);
            self.map_index_query_partition.insert((topic.clone(), partition), 0);
            proof {
                assert(self@.splits =~= owners(
                    before.splits,
                    topic@,
                    num_sources,
                    partition + 1,
                ));
                assert(self@.query_indexes =~= positions(
                    before.query_indexes,
                    topic@,
                    partition + 1,
                ));
            }
            partition = partition + 1;
        }
        proof {
            assert(owners(before.splits, topic@, num_sources, partition as int) =~= owners(
                before.splits,
                topic@,
                num_sources,
                n,
            ));
            assert(positions(before.query_indexes, topic@, partition as int) =~= positions(
                before.query_indexes,
                topic@,
                n,
            ));
        }
    }
}

proof fn lemma_offsets_error_stays(
    relations: Map<Seq<char>, Relation>,
    topic: Seq<char>,
    asked: Seq<i32>,
    partitions: Seq<PartitionOffsets>,
    n: int,
    e: FilterError,
)
    requires
        0 <= n <= asked.len(),
        virtual_offsets(relations, topic, asked.take(n), partitions) == Err::<
            Seq<PartitionOffsets>,
            FilterError,
        >(e),
    ensures
        virtual_offsets(relations, topic, asked, partitions) == Err::<
            Seq<PartitionOffsets>,
            FilterError,
        >(e),
    decreases asked.len() - n,
{
    if n < asked.len() {
        assert(asked.take(n + 1).drop_last() =~= asked.take(n));
        lemma_offsets_error_stays(relations, topic, asked, partitions, n + 1, e);
    } else {
        assert(asked.take(n) =~= asked);
    }
}

/// Whether the readers of all virtual partitions can be computed.
fn check_owners(topic: &String, num_sources: i32, num_partitions: i32) -> (r: bool)
    ensures
        r <==> owners_fit(topic@, num_sources, num_partitions),
{
    assert(-0x4000_0000_0000_0000 <= num_partitions * num_sources <= 0x4000_0000_0000_0000)
        by (nonlinear_arith)
        requires
            -0x8000_0000 <= num_partitions <= 0x7fff_ffff,
            -0x8000_0000 <= num_sources <= 0x7fff_ffff,
    ;
    let n: i64 = num_partitions as i64 * num_sources as i64;
    if n < i32::MIN as i64 || n > i32::MAX as i64 {
        return false;
    }
    if n <= 0 {
        return true;
    }
    assert(num_sources != 0) by (nonlinear_arith)
        requires
            num_partitions * num_sources > 0,
    ;
    let start: i32 = hashing::find_start_index(topic.as_str(), num_sources);
    start as i64 + n - 1 <= i32::MAX as i64
}

impl AlloyFilter {
    /// Answers what was asked of a topic.
    fn answer_topic(&mut self, asked: &AskedTopic, topics: &mut Vec<TopicOffsets>) -> (r: Result<
        (),
        FilterError,
    >)
        ensures
            match r {
                Ok(_) => old(self)@.offsets_answered_for(
                    asked.deep_view(),
                    old(topics).deep_view(),
                ) == Ok::<OffsetsStep, FilterError>(
                    OffsetsStep { filter: final(self)@, topics: final(topics).deep_view() },
                ),
                Err(e) => old(self)@.offsets_answered_for(
                    asked.deep_view(),
                    old(topics).deep_view(),
                ) == Err::<OffsetsStep, FilterError>(e),
            },
            final(self).map_vp_records == old(self).map_vp_records,
    {
        let ghost views = topics.deep_view();
        let (num_sources, num_partitions): (i32, i32) = match self.map_alloy_filters.get(
            &asked.name,
        ) {
            Some(criteria) => (criteria.num_sources, criteria.num_partitions),
            None => {
                return Err(FilterError::UnknownTopic);
            },
        };
        let i: usize = find_position(topics, &asked.name);
        if i >= topics.len() {
            return Err(FilterError::UnknownTopic);
        }
        assert(views[i as int] == topics@[i as int].deep_view());
        let partitions = match self.make_virtual_offsets(
            &asked.name,
            &asked.partitions,
            &topics[i].partitions,
        ) {
            Ok(partitions) => partitions,
            Err(e) => {
                return Err(e);
            },
        };
        if !check_owners(&asked.name, num_sources, num_partitions) {
            return Err(FilterError::TooManyPartitions);
        }
        let ghost answer = partitions@;
        topics[i].partitions = partitions;
        proof {
            let expected = views.update(
                i as int,
                TopicOffsetsView { partitions: answer, ..views[i as int] },
            );
            assert(topics.deep_view() =~= expected);
        }
        self.note_owners(&asked.name, num_sources, num_partitions);
        Ok(())
    }

    /// Answers what was asked of topics.
    fn answer_topics(&mut self, asked: &Vec<AskedTopic>, topics: &mut Vec<TopicOffsets>) -> (r:
        Result<(), FilterError>)
        ensures
            match r {
                Ok(_) => old(self)@.offsets_answered(
                    asked.deep_view(),
                    old(topics).deep_view(),
                ) == Ok::<OffsetsStep, FilterError>(
                    OffsetsStep { filter: final(self)@, topics: final(topics).deep_view() },
                ),
                Err(e) => old(self)@.offsets_answered(
                    asked.deep_view(),
                    old(topics).deep_view(),
                ) == Err::<OffsetsStep, FilterError>(e),
            },
            final(self).map_vp_records == old(self).map_vp_records,
    {
        let ghost this = self@;
        let ghost start = topics.deep_view();
        let ghost views = asked.deep_view();
        let mut i: usize = 0;
        proof {
            assert(views.take(0) =~= Seq::<AskedTopicView>::empty());
        }
        while i < asked.len()
            invariant
                this == old(self)@,
                start == old(topics).deep_view(),
                views == asked.deep_view(),
                i <= asked@.len(),
                self.map_vp_records == old(self).map_vp_records,
                this.offsets_answered(views.take(i as int), start) == Ok::<
                    OffsetsStep,
                    FilterError,
                >(OffsetsStep { filter: self@, topics: topics.deep_view() }),
            decreases asked@.len() - i,
        {
            proof {
                assert(views.take(i + 1).drop_last() =~= views.take(i as int));
                assert(views.take(i + 1).last() == asked@[i as int].deep_view());
            }
            if let Err(e) = self.answer_topic(&asked[i], topics) {
                proof {
                    lemma_answer_error_stays(this, views, start, i + 1, e);
                }
                return Err(e);
            }
            i += 1;
        }
        proof {
            assert(views.take(i as int) =~= views);
        }
        Ok(())
    }

    /// Adds virtual partitions to metadata.
    fn take_metadata(
        &self,
        header_version: i16,
        header: &ResponseHeader,
        message: MetadataMessage,
        data_size: usize,
    ) -> (r: Result<UpstreamOutcome, FilterError>)
        ensures
            match r {
                Ok(outcome) => self@.metadata_upstream(
                    header_version,
                    header@,
                    message@,
                    data_size as int,
                ) == Ok::<UpstreamView, FilterError>(outcome@),
                Err(e) => self@.metadata_upstream(
                    header_version,
                    header@,
                    message@,
                    data_size as int,
                ) == Err::<UpstreamView, FilterError>(e),
            },
    {
        let mut message = message;
        let mut topics: Vec<MetadataTopic> = Vec::new();
        std::mem::swap(&mut topics, &mut message.topics);
        match self.add_virtuals(topics) {
            Ok(list) => {
                message.topics = list;
            },
            Err(e) => {
                return Err(e);
            },
        }
        let version: i16 = match &self.request_header {
            Some(request) => request.request_api_version,
            None => {
                return Err(FilterError::NoRequest);
            },
        };
        let payload = KafkaRoutingProtocol::encode(
            codec::encode_response_header(header, header_version),
            codec::encode_metadata(message, version),
        );
        Ok(UpstreamOutcome::Replace { size: data_size, payload })
    }

    /// Answers a request for offsets.
    fn take_offsets(
        &mut self,
        header_version: i16,
        header: &ResponseHeader,
        message: OffsetsResponse,
        asked: &Vec<AskedTopic>,
    ) -> (r: Result<UpstreamOutcome, FilterError>)
        ensures
            match r {
                Ok(outcome) => old(self)@.offsets_upstream(
                    header_version,
                    header@,
                    message@,
                    asked.deep_view(),
                ) == Ok::<(FilterView, UpstreamView), FilterError>((final(self)@, outcome@)),
                Err(e) => old(self)@.offsets_upstream(
                    header_version,
                    header@,
                    message@,
                    asked.deep_view(),
                ) == Err::<(FilterView, UpstreamView), FilterError>(e),
            },
            final(self).map_vp_records == old(self).map_vp_records,
    {
        let mut message = message;
        let ghost before = self@;
        let ghost given = message@.topics;
        if let Err(e) = self.answer_topics(asked, &mut message.topics) {
            return Err(e);
        }
        proof {
            lemma_answer_keeps_header(before, asked.deep_view(), given);
        }
        let version: i16 = match &self.request_header {
            Some(request) => request.request_api_version,
            None => {
                return Err(FilterError::NoRequest);
            },
        };
        let payload = KafkaRoutingProtocol::encode(
            codec::encode_response_header(header, header_version),
            codec::encode_offsets_response(message, version),
        );
        Ok(UpstreamOutcome::Replace { size: payload.len(), payload })
    }

    /// Answers a fetch that waits.
    fn take_waiting(
        &self,
        reading: &FetchReading,
        contexts: &mut HashMap<u32, ConnectionInfo>,
        data_size: usize,
    ) -> (r: Result<UpstreamOutcome, FilterError>)
        ensures
            match r {
                Ok(outcome) => self@.waiting_upstream(
                    reading@,
                    data::connections_view(old(contexts)@),
                    data_size as int,
                ) == Ok::<UpstreamView, FilterError>(outcome@),
                Err(e) => self@.waiting_upstream(
                    reading@,
                    data::connections_view(old(contexts)@),
                    data_size as int,
                ) == Err::<UpstreamView, FilterError>(e),
            },
            data::connections_view(final(contexts)@) == data::connections_view(
                old(contexts)@,
            ).remove(self.context_id),
    {
        broadcast use vstd::std_specs::hash::group_hash_axioms;

        let ghost before = data::connections_view(contexts@);
        let removed = contexts.remove(&self.context_id);
        assert(data::connections_view(contexts@) =~= before.remove(self.context_id));
        if let Some(connection) = removed {
            assert(before[self.context_id] == connection.deep_view());
            if let Some(payload) = connection.response_data {
                return Ok(UpstreamOutcome::Replace { size: data_size, payload });
            }
        }
        match &self.request_header {
            Some(request) => {
                let message = make_empty_fetch(reading);
                let payload = KafkaRoutingProtocol::encode(
                    codec::encode_response_header(&ResponseHeader::new(request.correlation_id), 1),
                    codec::encode_fetch(message, request.request_api_version),
                );
                Ok(UpstreamOutcome::Replace { size: data_size, payload })
            },
            None => Err(FilterError::NoRequest),
        }
    }

    /// Filters fetched records.
    fn take_fetched(&mut self, reading: &FetchReading, message: FetchMessage) -> (r: Result<
        UpstreamOutcome,
        FilterError,
    >)
        ensures
            match r {
                Ok(outcome) => old(self)@.fetch_upstream(
                    reading@,
                    message@,
                    old(self).map_vp_records@,
                ) == Ok::<(FilterView, Waiting, UpstreamView), FilterError>(
                    (final(self)@, final(self).map_vp_records@, outcome@),
                ),
                Err(e) => old(self)@.fetch_upstream(
                    reading@,
                    message@,
                    old(self).map_vp_records@,
                ) == Err::<(FilterView, Waiting, UpstreamView), FilterError>(e),
            },
    {
        let mut message = message;
        let ghost given = message@;
        if message.session_id > 0 {
            self.session_id = message.session_id;
        } else {
            message.session_id = self.session_id;
        }
        let mut topics: Vec<FetchedTopic> = Vec::new();
        std::mem::swap(&mut topics, &mut message.topics);
        let mut waiting = KeyedMap::new();
        std::mem::swap(&mut waiting, &mut self.map_vp_records);
        let ghost f = self@;
        assert(f == old(self)@.in_session(given).0);
        let processed = self.process_records(reading, topics, &mut waiting);
        self.map_vp_records = waiting;
        match processed {
            Err(e) => Err(e),
            Ok((list, deliveries)) => {
                if self.origin_fetch_request.is_none() {
                    return Err(FilterError::NoRequest);
                }
                message.topics = list;
                Ok(UpstreamOutcome::Fetched { assembly: FetchAssembly::new(message), deliveries })
            },
        }
    }

    /// Takes the response to a Kafka request.
    fn take_response(
        &mut self,
        protocol: &KafkaRoutingProtocol,
        payload: &Vec<u8>,
        data_size: usize,
        contexts: &mut HashMap<u32, ConnectionInfo>,
    ) -> (r: Result<UpstreamOutcome, FilterError>)
        ensures
            ({
                let step = old(self)@.kafka_upstream(
                    payload@,
                    data_size as int,
                    old(self).map_vp_records@,
                    data::connections_view(old(contexts)@),
                );
                match r {
                    Ok(outcome) => step == Ok::<UpstreamStep, FilterError>(
                        UpstreamStep {
                            filter: final(self)@,
                            waiting: final(self).map_vp_records@,
                            contexts: data::connections_view(final(contexts)@),
                            outcome: outcome@,
                        },
                    ),
                    Err(e) => step == Err::<UpstreamStep, FilterError>(e),
                }
            }),
    {
        broadcast use text::bytes_deep_view;

        let decoded = match &self.routing_table.origin_request {
            Some(request) => protocol.decode_response(request, payload),
            None => {
                return Err(FilterError::NoRequest);
            },
        };
        let (header_version, _, header, response, _) = match decoded {
            Ok(decoded) => decoded,
            Err(KafkaError::Split) => {
                return Ok(UpstreamOutcome::Keep);
            },
            Err(e) => {
                return Err(FilterError::Kafka(e));
            },
        };
        match response {
            Some(ReadResponse::MetadataResponse(message)) => self.take_metadata(
                header_version,
                &header,
                message,
                data_size,
            ),
            Some(ReadResponse::ListOffsetsResponse(message)) => match self.request.take() {
                Some(AskedRequest::ListOffsetsRequest(asked)) => self.take_offsets(
                    header_version,
                    &header,
                    message,
                    &asked,
                ),
                Some(AskedRequest::FetchRequest(reading)) => self.take_waiting(
                    &reading,
                    contexts,
                    data_size,
                ),
                _ => Ok(UpstreamOutcome::Keep),
            },
            Some(ReadResponse::FetchResponse(message)) => match self.request.take() {
                Some(AskedRequest::FetchRequest(reading)) => self.take_fetched(&reading, message),
                _ => Ok(UpstreamOutcome::Keep),
            },
            _ => Ok(UpstreamOutcome::Keep),
        }
    }

    /// Takes the bytes of a broker, and tells what to do with them. After an error nothing
    /// more is promised of the filter.
    pub fn on_upstream_data(
        &mut self,
        data: Option<Vec<u8>>,
        data_size: usize,
        contexts: &mut HashMap<u32, ConnectionInfo>,
    ) -> (r: Result<UpstreamOutcome, FilterError>)
        ensures
            match data {
                None => r matches Ok(outcome) && outcome@ == UpstreamView::Keep && final(self)@
                    == old(self)@ && final(self).map_vp_records == old(self).map_vp_records
                    && *final(contexts) == *old(contexts),
                Some(bytes) => {
                    let step = old(self)@.upstream(
                        bytes@,
                        data_size,
                        old(self).map_vp_records@,
                        data::connections_view(old(contexts)@),
                    );
                    match r {
                        Ok(outcome) => step == Ok::<UpstreamStep, FilterError>(
                            UpstreamStep {
                                filter: final(self)@,
                                waiting: final(self).map_vp_records@,
                                contexts: data::connections_view(final(contexts)@),
                                outcome: outcome@,
                            },
                        ),
                        Err(e) => step == Err::<UpstreamStep, FilterError>(e),
                    }
                },
            },
    {
        let bytes = match data {
            Some(bytes) => bytes,
            None => {
                return Ok(UpstreamOutcome::Keep);
            },
        };
        let protocol = self.protocol;
        if !guards::can_answer(&self.routing_table, &protocol, 0, &bytes) {
            return Err(FilterError::Unexpected);
        }
        let (response, remaining) = self.routing_table.route_response(&protocol, 0, bytes);
        let payload = match response {
            Ok(payload) => payload,
            Err(RouteError::Incomplete) => {
                let empty: Vec<u8> = Vec::new();
                assert(empty@ =~= Seq::<u8>::empty());
                return Ok(UpstreamOutcome::Replace { size: data_size, payload: empty });
            },
            Err(_) => {
                return Ok(UpstreamOutcome::Keep);
            },
        };
        self.data_size = data_size;
        if remaining != 0 {
            return Ok(UpstreamOutcome::Keep);
        }
        match protocol {
            Protocol::Kafka(kafka) => self.take_response(&kafka, &payload, data_size, contexts),
            Protocol::Default(_) => Ok(UpstreamOutcome::Keep),
        }
    }

    /// Ends a response to a fetch: keeps its session, and writes it.
    pub fn finish_fetch(&mut self, message: FetchMessage) -> (r: Result<Vec<u8>, FilterError>)
        ensures
            match r {
                Ok(payload) => old(self)@.request_header matches Some(header) && payload@
                    == fetch_payload(header, message@),
                Err(e) => old(self)@.request_header is None && e == FilterError::NoRequest,
            },
            final(self)@ == (FilterView { session_id: message.session_id, ..old(self)@ }),
            final(self).map_vp_records == old(self).map_vp_records,
    {
        self.session_id = message.session_id;
        match &self.request_header {
            Some(request) => Ok(
                KafkaRoutingProtocol::encode(
                    codec::encode_response_header(&ResponseHeader::new(request.correlation_id), 1),
                    codec::encode_fetch(message, request.request_api_version),
                ),
            ),
            None => Err(FilterError::NoRequest),
        }
    }
}

/// Makes a response to a fetch without records.
fn make_empty_fetch(reading: &FetchReading) -> (message: FetchMessage)
    ensures
        message@ == empty_fetch(reading@.topics),
{
    let ghost views = reading@.topics;
    let mut topics: Vec<FetchedTopic> = Vec::new();
    let mut i: usize = 0;
    while i < reading.topics.len()
        invariant
            i <= reading.topics@.len(),
            views == reading@.topics,
            topics@.len() == i,
            forall|k: int|
                0 <= k < i ==> (#[trigger] topics@[k]).deep_view() == empty_fetch(views).topics[k],
        decreases reading.topics@.len() - i,
    {
        let topic = &reading.topics[i];
        let mut partitions: Vec<FetchedPartition> = Vec::new();
        let mut j: usize = 0;
        while j < topic.partitions.len()
            invariant
                j <= topic.partitions@.len(),
                partitions@.len() == j,
                forall|k: int|
                    0 <= k < j ==> (#[trigger] partitions@[k]).deep_view()
                        == FetchedPartitionView::fresh(topic.partitions@[k].partition),
            decreases topic.partitions@.len() - j,
        {
            partitions.push(FetchedPartition::fresh(topic.partitions[j].partition));
            j += 1;
        }
        proof {
            assert(views[i as int] == topic.deep_view());
            assert(partitions.deep_view() =~= empty_fetch(views).topics[i as int].partitions);
        }
        topics.push(FetchedTopic { topic: topic.topic.clone(), partitions, rest: None });
        i += 1;
    }
    let message = FetchMessage { error_code: 0, session_id: 0, topics, rest: None };
    assert(message@.topics =~= empty_fetch(views).topics);
    message
}

proof fn lemma_answer_error_stays(
    this: FilterView,
    asked: Seq<AskedTopicView>,
    topics: Seq<TopicOffsetsView>,
    n: int,
    e: FilterError,
)
    requires
        0 <= n <= asked.len(),
        this.offsets_answered(asked.take(n), topics) == Err::<OffsetsStep, FilterError>(e),
    ensures
        this.offsets_answered(asked, topics) == Err::<OffsetsStep, FilterError>(e),
    decreases asked.len() - n,
{
    if n < asked.len() {
        assert(asked.take(n + 1).drop_last() =~= asked.take(n));
        lemma_answer_error_stays(this, asked, topics, n + 1, e);
    } else {
        assert(asked.take(n) =~= asked);
    }
}

/// Answering keeps the header of the request.
proof fn lemma_answer_keeps_header(
    this: FilterView,
    asked: Seq<AskedTopicView>,
    topics: Seq<TopicOffsetsView>,
)
    ensures
        this.offsets_answered(asked, topics) matches Ok(step)
            ==> step.filter.request_header == this.request_header,
    decreases asked.len(),
{
    if asked.len() > 0 {
        lemma_answer_keeps_header(this, asked.drop_last(), topics);
    }
}

impl AlloyFilter {
    /// Forgets the fetch of the connection when its broker is gone.
    pub fn on_upstream_close(&self, contexts: &mut HashMap<u32, ConnectionInfo>)
        ensures
            final(contexts)@ == old(contexts)@.remove(self.context_id),
    {
        broadcast use vstd::std_specs::hash::group_hash_axioms;

        contexts.remove(&self.context_id);
    }
}

} // verus!
