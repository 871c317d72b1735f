//! What becomes of the requests of a client: which partitions a broker is asked for, and which
//! fetches wait.

use crate::codec;
use crate::codec::FetchReadingView;
use crate::codec::FetchTopicView;
use crate::codec::OffsetsPartition;
use crate::codec::OffsetsRequestView;
use crate::codec::OffsetsTopicView;
use crate::codec::RequestHeaderView;
use crate::data;
use crate::data::ConnectionView;
use crate::data::Connections;
use crate::data::RequestDataView;
use crate::data::RequestPartitionView;
use crate::downstream;
use crate::downstream::SplitFetch;
use crate::event_laws::joined;
use crate::filter::AskedTopicView;
use crate::filter::AskedView;
use crate::filter::FilterView;
use crate::kafka;
use crate::kafka::ReadRequestView;
use crate::message_laws;
use crate::partitions::Relation;
use vstd::prelude::*;

verus! {

/// Whether a partition of a topic is known.
pub open spec fn is_known(
    relations: Map<Seq<char>, Relation>,
    topic: Seq<char>,
    partition: i32,
) -> bool {
    relations.contains_key(topic) && relations[topic].originals.contains_key(partition)
}

/// Whether a topic of a request for offsets is asked of the broker by its original partitions,
/// each in its place; one without criteria stays as it is.
pub open spec fn is_asked_by_originals(
    filter: FilterView,
    before: OffsetsTopicView,
    after: OffsetsTopicView,
) -> bool {
    if !filter.criteria.contains_key(before.name) {
        after == before
    } else {
        &&& after.name == before.name
        &&& after.rest == before.rest
        &&& after.partitions.len() == before.partitions.len()
        &&& forall|i: int|
            0 <= i < before.partitions.len() ==> is_known(
                filter.relations,
                before.name,
                before.partitions[i].partition_index,
            ) && #[trigger] after.partitions[i] == (OffsetsPartition {
                partition_index: filter.relations[before.name].originals[before.partitions[i].partition_index],
                ..before.partitions[i]
            })
    }
}

/// The partitions of a topic can be asked for exactly if each is known.
proof fn lemma_originals(
    relations: Map<Seq<char>, Relation>,
    topic: Seq<char>,
    partitions: Seq<OffsetsPartition>,
)
    ensures
        downstream::with_originals(relations, topic, partitions) is Ok <==> forall|i: int|
            0 <= i < partitions.len() ==> is_known(
                relations,
                topic,
                (#[trigger] partitions[i]).partition_index,
            ),
    decreases partitions.len(),
{
    if partitions.len() > 0 {
        let before = partitions.drop_last();
        lemma_originals(relations, topic, before);
        if forall|i: int|
            0 <= i < partitions.len() ==> is_known(
                relations,
                topic,
                (#[trigger] partitions[i]).partition_index,
            ) {
            assert forall|i: int| 0 <= i < before.len() implies is_known(
                relations,
                topic,
                (#[trigger] before[i]).partition_index,
            ) by {
                assert(before[i] == partitions[i]);
            }
            assert(is_known(relations, topic, partitions[partitions.len() - 1].partition_index));
        }
        if downstream::with_originals(relations, topic, partitions) is Ok {
            assert forall|i: int| 0 <= i < partitions.len() implies is_known(
                relations,
                topic,
                (#[trigger] partitions[i]).partition_index,
            ) by {
                if i < before.len() {
                    assert(before[i] == partitions[i]);
                }
            }
        }
    }
}

/// Whether every partition of the topics with criteria is known.
pub open spec fn all_known(filter: FilterView, topics: Seq<OffsetsTopicView>) -> bool {
    forall|t: int, i: int|
        0 <= t < topics.len() && 0 <= i < topics[t].partitions.len()
            && filter.criteria.contains_key(topics[t].name) ==> is_known(
            filter.relations,
            topics[t].name,
            (#[trigger] topics[t].partitions[i]).partition_index,
        )
}

/// Every topic of a request for offsets is asked by its original partitions.
proof fn lemma_asked(filter: FilterView, topics: Seq<OffsetsTopicView>)
    ensures
        filter.offsets_asked(topics) is Ok <==> all_known(filter, topics),
        filter.offsets_asked(topics) is Ok ==> {
            let after = filter.offsets_asked(topics)->Ok_0;
            &&& after.len() == topics.len()
            &&& forall|t: int|
                0 <= t < topics.len() ==> is_asked_by_originals(
                    filter,
                    topics[t],
                    #[trigger] after[t],
                )
        },
    decreases topics.len(),
{
    if topics.len() > 0 {
        let before = topics.drop_last();
        let last = topics.last();
        lemma_asked(filter, before);
        lemma_originals(filter.relations, last.name, last.partitions);
        if all_known(filter, topics) {
            assert forall|t: int, i: int|
                0 <= t < before.len() && 0 <= i < before[t].partitions.len()
                    && filter.criteria.contains_key(before[t].name) implies is_known(
                filter.relations,
                before[t].name,
                (#[trigger] before[t].partitions[i]).partition_index,
            ) by {
                assert(is_known(
                    filter.relations,
                    topics[t].name,
                    topics[t].partitions[i].partition_index,
                ));
            }
            if filter.criteria.contains_key(last.name) {
                assert forall|i: int| 0 <= i < last.partitions.len() implies is_known(
                    filter.relations,
                    last.name,
                    (#[trigger] last.partitions[i]).partition_index,
                ) by {
                    let t = topics.len() - 1;
                    assert(is_known(
                        filter.relations,
                        topics[t].name,
                        topics[t].partitions[i].partition_index,
                    ));
                }
            }
        }
        if filter.offsets_asked(topics) is Ok {
            assert forall|t: int, i: int|
                0 <= t < topics.len() && 0 <= i < topics[t].partitions.len()
                    && filter.criteria.contains_key(topics[t].name) implies is_known(
                filter.relations,
                topics[t].name,
                (#[trigger] topics[t].partitions[i]).partition_index,
            ) by {
                if t < before.len() {
                    assert(is_known(
                        filter.relations,
                        before[t].name,
                        before[t].partitions[i].partition_index,
                    ));
                }
            }
            let after = filter.offsets_asked(topics)->Ok_0;
            let earlier = filter.offsets_asked(before)->Ok_0;
            assert forall|t: int| 0 <= t < topics.len() implies is_asked_by_originals(
                filter,
                topics[t],
                #[trigger] after[t],
            ) by {
                if t < before.len() {
                    assert(after[t] == earlier[t]);
                    assert(before[t] == topics[t]);
                } else if filter.criteria.contains_key(last.name) {
                    let list = downstream::with_originals(
                        filter.relations,
                        last.name,
                        last.partitions,
                    )->Ok_0;
                    assert(list.len() == last.partitions.len()) by {
                        if last.partitions.len() > 0 {
                            message_laws::offsets_are_asked_of_original_partitions(
                                filter.relations,
                                last.name,
                                last.partitions,
                                0,
                            );
                        }
                    }
                    assert forall|i: int| 0 <= i < last.partitions.len() implies is_known(
                        filter.relations,
                        last.name,
                        last.partitions[i].partition_index,
                    ) && #[trigger] after[t].partitions[i] == (OffsetsPartition {
                        partition_index: filter.relations[last.name].originals[last.partitions[i].partition_index],
                        ..last.partitions[i]
                    }) by {
                        message_laws::offsets_are_asked_of_original_partitions(
                            filter.relations,
                            last.name,
                            last.partitions,
                            i,
                        );
                    }
                }
            }
        }
    }
}

/// A request for offsets goes out exactly if every partition of every topic with criteria is
/// known. Then each of them, wherever it stands, is replaced by its original one; topics without
/// criteria, the number of topics and their order stay. What was asked is kept for the response.
/// Nothing waits because of it.
pub proof fn offsets_of_every_topic_are_asked_of_originals(
    filter: FilterView,
    payload: Seq<u8>,
    contexts: Connections,
    now: u128,
    message: OffsetsRequestView,
) -> (topics: Seq<OffsetsTopicView>)
    requires
        kafka::request_of(payload) is Ok,
        kafka::request_of(payload)->Ok_0.request == Some(
            ReadRequestView::ListOffsetsRequest(message),
        ),
    ensures
        filter.kafka_downstream(payload, contexts, now) is Ok <==> all_known(
            filter,
            message.topics,
        ),
        filter.kafka_downstream(payload, contexts, now) is Ok ==> {
            let q = kafka::request_of(payload)->Ok_0;
            let step = filter.kafka_downstream(payload, contexts, now)->Ok_0;
            &&& topics.len() == message.topics.len()
            &&& forall|t: int|
                0 <= t < topics.len() ==> is_asked_by_originals(
                    filter,
                    message.topics[t],
                    #[trigger] topics[t],
                )
            &&& step.outcome.replacement == Some(
                kafka::framed(
                    codec::request_header_encoded(q.header, q.header_version),
                    codec::offsets_request_encoded(
                        OffsetsRequestView { topics, ..message },
                        q.header.api_version,
                    ),
                ),
            )
            &&& !step.outcome.pause
            &&& step.outcome.queues.len() == 0
            &&& step.contexts == contexts
            &&& is_sent(filter, q.header, step.filter, step.outcome.replacement->Some_0)
            &&& step.filter.table.origin_request == filter.table.origin_request
            &&& step.filter.request matches Some(AskedView::ListOffsetsRequest(asked))
                && are_those(message.topics, asked)
        },
{
    let f = FilterView {
        correlation_id: kafka::request_of(payload)->Ok_0.header.correlation_id,
        request: downstream::asked_of(kafka::request_of(payload)->Ok_0.request),
        request_header: Some(kafka::request_of(payload)->Ok_0.header),
        ..filter
    };
    lemma_asked(f, message.topics);
    assert(all_known(f, message.topics) == all_known(filter, message.topics));
    if f.offsets_asked(message.topics) is Ok {
        let topics = f.offsets_asked(message.topics)->Ok_0;
        assert forall|t: int| 0 <= t < topics.len() implies is_asked_by_originals(
            filter,
            message.topics[t],
            #[trigger] topics[t],
        ) by {
            assert(is_asked_by_originals(f, message.topics[t], topics[t]));
        }
        topics
    } else {
        Seq::empty()
    }
}

/// Whether what was asked lists the names and the partitions of the topics of a request.
pub open spec fn are_those(topics: Seq<OffsetsTopicView>, asked: Seq<AskedTopicView>) -> bool {
    &&& asked.len() == topics.len()
    &&& forall|t: int|
        0 <= t < topics.len() ==> (#[trigger] asked[t]).name == topics[t].name
            && asked[t].partitions.len() == topics[t].partitions.len()
    &&& forall|t: int, i: int|
        0 <= t < topics.len() && 0 <= i < topics[t].partitions.len()
            ==> #[trigger] asked[t].partitions[i] == topics[t].partitions[i].partition_index
}

/// Whether a request was sent to the cluster of the proxy, and is known to have been: the local
/// cluster, or the default one where there is none. The header of the request is kept.
pub open spec fn is_sent(
    before: FilterView,
    header: RequestHeaderView,
    after: FilterView,
    payload: Seq<u8>,
) -> bool {
    let home = if before.table.local_cluster is Some {
        before.table.local_cluster
    } else {
        before.table.default_cluster
    };
    &&& after.request_header == Some(header)
    &&& after.correlation_id == header.correlation_id
    &&& after.table.requests == before.table.requests.insert(0, (home->Some_0, payload))
    &&& after.table.responses == before.table.responses
    &&& after.criteria == before.criteria
    &&& after.relations == before.relations
    &&& after.splits == before.splits
    &&& after.queues == before.queues
    &&& after.protocol == before.protocol
    &&& after.context_id == before.context_id
}

/// The partitions of a topic of a fetch that differ from their original ones, in order.
pub open spec fn virtuals_of_topic(
    relations: Map<Seq<char>, Relation>,
    topic: FetchTopicView,
) -> Seq<RequestPartitionView> {
    joined(
        Seq::new(
            topic.partitions.len(),
            |i: int|
                {
                    let p = topic.partitions[i];
                    if relations[topic.topic].originals[p.partition] != p.partition {
                        seq![
                            RequestPartitionView {
                                topic: topic.topic,
                                partition: p.partition,
                                fetch_offset: p.fetch_offset,
                            },
                        ]
                    } else {
                        Seq::<RequestPartitionView>::empty()
                    }
                },
        ),
    )
}

/// The partitions of a fetch that differ from their original ones, of all topics in order.
pub open spec fn virtuals_of_fetch(
    relations: Map<Seq<char>, Relation>,
    topics: Seq<FetchTopicView>,
) -> Seq<RequestPartitionView> {
    joined(Seq::new(topics.len(), |t: int| virtuals_of_topic(relations, topics[t])))
}

/// The names of the queues of an original partition's virtual ones that are not known yet, in
/// order.
pub open spec fn new_queues(
    filter: FilterView,
    topic: Seq<char>,
    virtuals: Seq<i32>,
) -> Seq<Seq<char>> {
    joined(
        Seq::new(
            virtuals.len(),
            |k: int|
                if filter.queues.contains_key(data::queue_key(topic, virtuals[k] as int)) {
                    Seq::<Seq<char>>::empty()
                } else {
                    seq![data::queue_key(topic, virtuals[k] as int)]
                },
        ),
    )
}

/// The names of the queues that are looked up for a topic of a fetch: those of the virtual
/// partitions of its original ones.
pub open spec fn queues_of_topic(filter: FilterView, topic: FetchTopicView) -> Seq<Seq<char>> {
    joined(
        Seq::new(
            topic.partitions.len(),
            |i: int|
                {
                    let p = topic.partitions[i].partition;
                    let relation = filter.relations[topic.topic];
                    if relation.originals[p] == p {
                        new_queues(filter, topic.topic, relation.virtuals[p])
                    } else {
                        Seq::<Seq<char>>::empty()
                    }
                },
        ),
    )
}

/// The names of the queues that are looked up for a fetch.
pub open spec fn queues_of_fetch(filter: FilterView, topics: Seq<FetchTopicView>) -> Seq<Seq<char>> {
    joined(Seq::new(topics.len(), |t: int| queues_of_topic(filter, topics[t])))
}

proof fn lemma_new_queues(filter: FilterView, topic: Seq<char>, virtuals: Seq<i32>)
    ensures
        filter.unknown_queues(topic, virtuals) == new_queues(filter, topic, virtuals),
    decreases virtuals.len(),
{
    let all = Seq::new(
        virtuals.len(),
        |k: int|
            if filter.queues.contains_key(data::queue_key(topic, virtuals[k] as int)) {
                Seq::<Seq<char>>::empty()
            } else {
                seq![data::queue_key(topic, virtuals[k] as int)]
            },
    );
    if virtuals.len() > 0 {
        let before = virtuals.drop_last();
        lemma_new_queues(filter, topic, before);
        let earlier = Seq::new(
            before.len(),
            |k: int|
                if filter.queues.contains_key(data::queue_key(topic, before[k] as int)) {
                    Seq::<Seq<char>>::empty()
                } else {
                    seq![data::queue_key(topic, before[k] as int)]
                },
        );
        assert(all.drop_last() =~= earlier);
        assert(filter.unknown_queues(topic, virtuals) =~= joined(earlier) + all.last());
    } else {
        assert(joined(all) =~= Seq::<Seq<char>>::empty());
    }
}

/// The partitions of a topic are told apart one by one.
proof fn lemma_split_topic(filter: FilterView, topic: FetchTopicView, n: int, start: SplitFetch)
    requires
        0 <= n <= topic.partitions.len(),
        filter.split_partitions(topic.topic, topic.partitions.take(n), start) is Ok,
    ensures
        ({
            let split = filter.split_partitions(
                topic.topic,
                topic.partitions.take(n),
                start,
            )->Ok_0;
            let part = FetchTopicView { partitions: topic.partitions.take(n), ..topic };
            &&& split.virtuals == start.virtuals + virtuals_of_topic(filter.relations, part)
            &&& split.queues == start.queues + queues_of_topic(filter, part)
            &&& forall|i: int|
                0 <= i < n ==> is_known(
                    filter.relations,
                    topic.topic,
                    (#[trigger] topic.partitions[i]).partition,
                )
        }),
    decreases n,
{
    let parts = topic.partitions.take(n);
    let part = FetchTopicView { partitions: parts, ..topic };
    let virtual_lists = Seq::new(
        part.partitions.len(),
        |i: int|
            {
                let p = part.partitions[i];
                if filter.relations[part.topic].originals[p.partition] != p.partition {
                    seq![
                        RequestPartitionView {
                            topic: part.topic,
                            partition: p.partition,
                            fetch_offset: p.fetch_offset,
                        },
                    ]
                } else {
                    Seq::<RequestPartitionView>::empty()
                }
            },
    );
    let queue_lists = Seq::new(
        part.partitions.len(),
        |i: int|
            {
                let p = part.partitions[i].partition;
                let relation = filter.relations[part.topic];
                if relation.originals[p] == p {
                    new_queues(filter, part.topic, relation.virtuals[p])
                } else {
                    Seq::<Seq<char>>::empty()
                }
            },
    );
    if n == 0 {
        assert(joined(virtual_lists) =~= Seq::<RequestPartitionView>::empty());
        assert(joined(queue_lists) =~= Seq::<Seq<char>>::empty());
        assert(start.virtuals + joined(virtual_lists) =~= start.virtuals);
        assert(start.queues + joined(queue_lists) =~= start.queues);
    } else {
        let fewer = topic.partitions.take(n - 1);
        assert(parts.drop_last() =~= fewer);
        assert(parts.last() == topic.partitions[n - 1]);
        lemma_split_topic(filter, topic, n - 1, start);
        let less = FetchTopicView { partitions: fewer, ..topic };
        let before = filter.split_partitions(topic.topic, fewer, start)->Ok_0;
        let split = filter.split_partitions(topic.topic, parts, start)->Ok_0;
        let p = topic.partitions[n - 1];
        let relation = filter.relations[topic.topic];
        lemma_new_queues(filter, topic.topic, relation.virtuals[p.partition]);
        assert(virtual_lists.drop_last() =~= Seq::new(
            less.partitions.len(),
            |i: int|
                {
                    let p = less.partitions[i];
                    if filter.relations[less.topic].originals[p.partition] != p.partition {
                        seq![
                            RequestPartitionView {
                                topic: less.topic,
                                partition: p.partition,
                                fetch_offset: p.fetch_offset,
                            },
                        ]
                    } else {
                        Seq::<RequestPartitionView>::empty()
                    }
                },
        ));
        assert(queue_lists.drop_last() =~= Seq::new(
            less.partitions.len(),
            |i: int|
                {
                    let p = less.partitions[i].partition;
                    let relation = filter.relations[less.topic];
                    if relation.originals[p] == p {
                        new_queues(filter, less.topic, relation.virtuals[p])
                    } else {
                        Seq::<Seq<char>>::empty()
                    }
                },
        ));
        assert(split.virtuals =~= start.virtuals + (joined(virtual_lists.drop_last())
            + virtual_lists.last()));
        assert(split.queues =~= start.queues + (joined(queue_lists.drop_last())
            + queue_lists.last()));
    }
}

/// The partitions of a fetch are told apart one by one.
proof fn lemma_split(filter: FilterView, topics: Seq<FetchTopicView>)
    requires
        filter.split_fetch(topics) is Ok,
    ensures
        filter.split_fetch(topics)->Ok_0.virtuals == virtuals_of_fetch(filter.relations, topics),
        filter.split_fetch(topics)->Ok_0.queues == queues_of_fetch(filter, topics),
        forall|t: int, i: int|
            0 <= t < topics.len() && 0 <= i < topics[t].partitions.len() ==> is_known(
                filter.relations,
                topics[t].topic,
                (#[trigger] topics[t].partitions[i]).partition,
            ),
    decreases topics.len(),
{
    let virtual_lists = Seq::new(
        topics.len(),
        |t: int| virtuals_of_topic(filter.relations, topics[t]),
    );
    let queue_lists = Seq::new(topics.len(), |t: int| queues_of_topic(filter, topics[t]));
    if topics.len() > 0 {
        let before = topics.drop_last();
        let last = topics.last();
        lemma_split(filter, before);
        let start = filter.split_fetch(before)->Ok_0;
        let n = last.partitions.len() as int;
        assert(last.partitions.take(n) =~= last.partitions);
        lemma_split_topic(filter, last, n, start);
        assert(virtual_lists.drop_last() =~= Seq::new(
            before.len(),
            |t: int| virtuals_of_topic(filter.relations, before[t]),
        ));
        assert(queue_lists.drop_last() =~= Seq::new(
            before.len(),
            |t: int| queues_of_topic(filter, before[t]),
        ));
        assert forall|t: int, i: int|
            0 <= t < topics.len() && 0 <= i < topics[t].partitions.len() implies is_known(
            filter.relations,
            topics[t].topic,
            (#[trigger] topics[t].partitions[i]).partition,
        ) by {
            if t < before.len() {
                assert(is_known(
                    filter.relations,
                    before[t].topic,
                    before[t].partitions[i].partition,
                ));
            } else {
                assert(is_known(filter.relations, last.topic, last.partitions[i].partition));
            }
        }
    } else {
        assert(joined(virtual_lists) =~= Seq::<RequestPartitionView>::empty());
        assert(joined(queue_lists) =~= Seq::<Seq<char>>::empty());
    }
}

/// Whether a partition of a fetch differs from its original one.
pub open spec fn is_virtual(
    relations: Map<Seq<char>, Relation>,
    topics: Seq<FetchTopicView>,
    t: int,
    i: int,
) -> bool {
    &&& 0 <= t < topics.len()
    &&& 0 <= i < topics[t].partitions.len()
    &&& relations[topics[t].topic].originals[topics[t].partitions[i].partition]
        != topics[t].partitions[i].partition
}

proof fn lemma_joined_empty<A>(lists: Seq<Seq<A>>)
    ensures
        joined(lists).len() == 0 <==> forall|k: int|
            0 <= k < lists.len() ==> (#[trigger] lists[k]).len() == 0,
    decreases lists.len(),
{
    if lists.len() > 0 {
        let before = lists.drop_last();
        lemma_joined_empty(before);
        if forall|k: int| 0 <= k < lists.len() ==> (#[trigger] lists[k]).len() == 0 {
            assert forall|k: int| 0 <= k < before.len() implies (#[trigger] before[k]).len() == 0 by {
                assert(before[k] == lists[k]);
            }
            assert(lists[lists.len() - 1].len() == 0);
        }
        if joined(lists).len() == 0 {
            assert forall|k: int| 0 <= k < lists.len() implies (#[trigger] lists[k]).len() == 0 by {
                if k < before.len() {
                    assert(before[k] == lists[k]);
                }
            }
        }
    }
}

/// A fetch has virtual partitions exactly if one of them differs from its original one.
proof fn lemma_has_virtuals(relations: Map<Seq<char>, Relation>, topics: Seq<FetchTopicView>)
    ensures
        virtuals_of_fetch(relations, topics).len() > 0 <==> exists|t: int, i: int|
            is_virtual(relations, topics, t, i),
{
    let lists = Seq::new(topics.len(), |t: int| virtuals_of_topic(relations, topics[t]));
    lemma_joined_empty(lists);
    assert forall|t: int| 0 <= t < topics.len() implies ((#[trigger] lists[t]).len() > 0
        <==> exists|i: int| is_virtual(relations, topics, t, i)) by {
        let topic = topics[t];
        let parts = Seq::new(
            topic.partitions.len(),
            |i: int|
                {
                    let p = topic.partitions[i];
                    if relations[topic.topic].originals[p.partition] != p.partition {
                        seq![
                            RequestPartitionView {
                                topic: topic.topic,
                                partition: p.partition,
                                fetch_offset: p.fetch_offset,
                            },
                        ]
                    } else {
                        Seq::<RequestPartitionView>::empty()
                    }
                },
        );
        assert(lists[t] == joined(parts));
        lemma_joined_empty(parts);
        if lists[t].len() > 0 {
            let i = choose|i: int| 0 <= i < parts.len() && (#[trigger] parts[i]).len() != 0;
            assert(is_virtual(relations, topics, t, i));
        }
        if exists|i: int| is_virtual(relations, topics, t, i) {
            let i = choose|i: int| is_virtual(relations, topics, t, i);
            assert(parts[i].len() == 1);
        }
    }
    if virtuals_of_fetch(relations, topics).len() > 0 {
        let t = choose|t: int| 0 <= t < lists.len() && (#[trigger] lists[t]).len() != 0;
        let i = choose|i: int| is_virtual(relations, topics, t, i);
        assert(is_virtual(relations, topics, t, i));
    }
    if exists|t: int, i: int| is_virtual(relations, topics, t, i) {
        let (t, i) = choose|t: int, i: int| is_virtual(relations, topics, t, i);
        assert(lists[t].len() > 0);
    }
}

/// A fetch goes to the broker as it is exactly if no partition of any of its topics differs from
/// its original one. Otherwise the client is paused and the fetch waits for exactly those
/// partitions of all topics that differ from their original ones, in order and with their
/// offsets, and the broker is asked for the offsets of the original of the first partition in
/// its place. A fetch that waits already goes on waiting, from now on. Of each original
/// partition, the queues of all its virtual ones are looked up that are not known yet.
pub proof fn a_fetch_waits_for_all_its_virtual_partitions(
    filter: FilterView,
    payload: Seq<u8>,
    contexts: Connections,
    now: u128,
    reading: FetchReadingView,
    message: kafka_protocol::messages::FetchRequest,
)
    requires
        kafka::request_of(payload) is Ok,
        kafka::request_of(payload)->Ok_0.request == Some(
            ReadRequestView::FetchRequest(reading, message),
        ),
        filter.kafka_downstream(payload, contexts, now) is Ok,
    ensures
        ({
            let q = kafka::request_of(payload)->Ok_0;
            let step = filter.kafka_downstream(payload, contexts, now)->Ok_0;
            let virtuals = virtuals_of_fetch(filter.relations, reading.topics);
            let known = if reading.topics.len() > 0 {
                Some(reading)
            } else {
                filter.origin_fetch
            };
            let first = known->Some_0.topics[0];
            &&& forall|t: int, i: int|
                0 <= t < reading.topics.len() && 0 <= i < reading.topics[t].partitions.len()
                    ==> is_known(
                    filter.relations,
                    reading.topics[t].topic,
                    (#[trigger] reading.topics[t].partitions[i]).partition,
                )
            &&& step.outcome.pause <==> exists|t: int, i: int|
                is_virtual(filter.relations, reading.topics, t, i)
            &&& step.outcome.queues == queues_of_fetch(filter, reading.topics)
            &&& step.outcome.replacement is Some
            &&& !step.outcome.pause ==> {
                &&& step.contexts == contexts
                &&& step.outcome.replacement == Some(
                    kafka::framed(
                        codec::request_header_encoded(q.header, q.header_version),
                        codec::fetch_request_encoded(message, q.header.api_version),
                    ),
                )
            }
            &&& step.outcome.pause ==> {
                &&& known is Some
                &&& is_known(filter.relations, first.topic, first.partitions[0].partition)
                &&& step.outcome.replacement == Some(
                    kafka::framed(
                        codec::request_header_encoded(
                            RequestHeaderView { api_key: 2, api_version: 7, ..q.header },
                            2,
                        ),
                        codec::offsets_request_encoded(
                            OffsetsRequestView {
                                replica_id: reading.replica_id,
                                isolation_level: reading.isolation_level,
                                topics: seq![
                                    OffsetsTopicView {
                                        name: first.topic,
                                        partitions: seq![
                                            OffsetsPartition {
                                                partition_index: filter.relations[first.topic].originals[first.partitions[0].partition],
                                                rest: None,
                                            },
                                        ],
                                        rest: None,
                                    },
                                ],
                                rest: None,
                            },
                            7,
                        ),
                    ),
                )
                &&& step.contexts.dom() == contexts.dom().insert(filter.context_id)
                &&& forall|id: u32|
                    id != filter.context_id && contexts.contains_key(id)
                        ==> #[trigger] step.contexts[id] == contexts[id]
                &&& contexts.contains_key(filter.context_id) ==> step.contexts[filter.context_id]
                    == (ConnectionView {
                    response_initial_time: now,
                    timeout: false,
                    ..contexts[filter.context_id]
                })
                &&& !contexts.contains_key(filter.context_id) ==> step.contexts[filter.context_id]
                    == (ConnectionView {
                    response_initial_time: now,
                    timeout: false,
                    response_data: None,
                    request_data: RequestDataView {
                        context_id: filter.context_id,
                        correlation_id: q.header.correlation_id,
                        session_id: reading.session_id,
                        session_epoch: reading.session_epoch,
                        body_version: q.header.api_version,
                        partitions: virtuals,
                    },
                })
            }
            &&& is_sent(filter, q.header, step.filter, step.outcome.replacement->Some_0)
            &&& step.filter.table.origin_request == step.outcome.replacement
            &&& step.filter.request == Some(AskedView::FetchRequest(reading))
            &&& step.filter.origin_fetch == known
            &&& step.filter.fetch_request_api_version == q.header.api_version
            &&& step.filter.session_id == reading.session_id
            &&& step.filter.session_epoch == (if reading.topics.len() > 0 {
                filter.session_epoch
            } else {
                reading.session_epoch
            })
        }),
{
    let q = kafka::request_of(payload)->Ok_0;
    let f = FilterView {
        correlation_id: q.header.correlation_id,
        request: downstream::asked_of(q.request),
        request_header: Some(q.header),
        ..filter
    };
    let g = f.fetching(reading, q.header.api_version);
    lemma_split(g, reading.topics);
    lemma_has_virtuals(filter.relations, reading.topics);
    lemma_same_queues(g, filter, reading.topics);
    let step = filter.kafka_downstream(payload, contexts, now)->Ok_0;
    if step.outcome.pause {
        assert(step.contexts.dom() =~= contexts.dom().insert(filter.context_id));
    }
}

/// The queues that are looked up depend on nothing but the queues and the relations.
proof fn lemma_same_queues(a: FilterView, b: FilterView, topics: Seq<FetchTopicView>)
    requires
        a.queues == b.queues,
        a.relations == b.relations,
    ensures
        queues_of_fetch(a, topics) == queues_of_fetch(b, topics),
{
    assert forall|topic: Seq<char>, virtuals: Seq<i32>| #[trigger]
        new_queues(a, topic, virtuals) == new_queues(b, topic, virtuals) by {
        let x = Seq::new(
            virtuals.len(),
            |k: int|
                if a.queues.contains_key(data::queue_key(topic, virtuals[k] as int)) {
                    Seq::<Seq<char>>::empty()
                } else {
                    seq![data::queue_key(topic, virtuals[k] as int)]
                },
        );
        let y = Seq::new(
            virtuals.len(),
            |k: int|
                if b.queues.contains_key(data::queue_key(topic, virtuals[k] as int)) {
                    Seq::<Seq<char>>::empty()
                } else {
                    seq![data::queue_key(topic, virtuals[k] as int)]
                },
        );
        assert(x =~= y);
    }
    assert forall|topic: FetchTopicView| #[trigger]
        queues_of_topic(a, topic) == queues_of_topic(b, topic) by {
        let x = Seq::new(
            topic.partitions.len(),
            |i: int|
                {
                    let p = topic.partitions[i].partition;
                    let relation = a.relations[topic.topic];
                    if relation.originals[p] == p {
                        new_queues(a, topic.topic, relation.virtuals[p])
                    } else {
                        Seq::<Seq<char>>::empty()
                    }
                },
        );
        let y = Seq::new(
            topic.partitions.len(),
            |i: int|
                {
                    let p = topic.partitions[i].partition;
                    let relation = b.relations[topic.topic];
                    if relation.originals[p] == p {
                        new_queues(b, topic.topic, relation.virtuals[p])
                    } else {
                        Seq::<Seq<char>>::empty()
                    }
                },
        );
        assert(x =~= y);
    }
    let x = Seq::new(topics.len(), |t: int| queues_of_topic(a, topics[t]));
    let y = Seq::new(topics.len(), |t: int| queues_of_topic(b, topics[t]));
    assert(x =~= y);
}

/// A request for metadata goes out as it was read, to the cluster of the proxy; nothing waits
/// because of it.
pub proof fn metadata_is_asked_for_as_it_was(
    filter: FilterView,
    payload: Seq<u8>,
    contexts: Connections,
    now: u128,
    message: kafka_protocol::messages::MetadataRequest,
)
    requires
        kafka::request_of(payload) is Ok,
        kafka::request_of(payload)->Ok_0.request == Some(ReadRequestView::MetadataRequest(message)),
    ensures
        filter.kafka_downstream(payload, contexts, now) is Ok,
        ({
            let q = kafka::request_of(payload)->Ok_0;
            let step = filter.kafka_downstream(payload, contexts, now)->Ok_0;
            &&& step.outcome.replacement == Some(
                kafka::framed(
                    codec::request_header_encoded(q.header, q.header_version),
                    codec::metadata_request_encoded(message, q.header.api_version),
                ),
            )
            &&& !step.outcome.pause
            &&& step.outcome.queues.len() == 0
            &&& step.contexts == contexts
            &&& step.filter.request is Some
            &&& step.filter.request->Some_0 is Other
            &&& is_sent(filter, q.header, step.filter, step.outcome.replacement->Some_0)
            &&& step.filter.table.origin_request == filter.table.origin_request
        }),
{
}

/// A request of any other kind goes out as it came, to the cluster of the proxy; nothing waits
/// because of it.
pub proof fn other_requests_are_sent_as_they_came(
    filter: FilterView,
    payload: Seq<u8>,
    contexts: Connections,
    now: u128,
)
    requires
        kafka::request_of(payload) is Ok,
        kafka::request_of(payload)->Ok_0.request is None || kafka::request_of(
            payload,
        )->Ok_0.request->Some_0 is Other,
    ensures
        filter.kafka_downstream(payload, contexts, now) is Ok,
        ({
            let q = kafka::request_of(payload)->Ok_0;
            let step = filter.kafka_downstream(payload, contexts, now)->Ok_0;
            &&& step.outcome.replacement == Some(payload)
            &&& !step.outcome.pause
            &&& step.outcome.queues.len() == 0
            &&& step.contexts == contexts
            &&& step.filter.request is Some <==> q.request is Some
            &&& step.filter.request is Some ==> step.filter.request->Some_0 is Other
            &&& is_sent(filter, q.header, step.filter, payload)
        }),
{
}

} // verus!
