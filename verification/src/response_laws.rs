//! What becomes of the responses of a broker: which partitions a client is told of, and what a
//! fetch that waited gets.

use crate::codec;
use crate::codec::FetchMessageView;
use crate::codec::FetchReadingView;
use crate::codec::MetadataMessageView;
use crate::codec::MetadataPartition;
use crate::codec::MetadataTopicView;
use crate::codec::OffsetsResponseView;
use crate::codec::PartitionOffsets;
use crate::codec::ResponseHeaderView;
use crate::codec::TopicOffsetsView;
use crate::data::Connections;
use crate::event_laws::joined;
use crate::filter::AskedTopicView;
use crate::filter::AskedView;
use crate::filter::FilterView;
use crate::filter::Waiting;
use crate::hashing;
use crate::kafka;
use crate::kafka::ReadResponseView;
use crate::partitions::Relation;
use crate::request_laws;
use crate::upstream;
use crate::upstream::UpstreamView;
use vstd::prelude::*;

verus! {

/// Whether a response of a broker is read as one of a kind.
pub open spec fn is_read(
    filter: FilterView,
    payload: Seq<u8>,
    response: ReadResponseView,
) -> bool {
    &&& filter.table.origin_request is Some
    &&& kafka::response_of(filter.table.origin_request->Some_0, payload) is Ok
    &&& kafka::response_of(filter.table.origin_request->Some_0, payload)->Ok_0.response == Some(
        response,
    )
}

/// The copies of the metadata of partitions, one for each of their virtual ones, in order.
pub open spec fn copies_of_all(
    relation: Relation,
    partitions: Seq<MetadataPartition>,
) -> Seq<MetadataPartition> {
    joined(
        Seq::new(
            partitions.len(),
            |i: int|
                Seq::new(
                    relation.virtuals[partitions[i].partition_index].len(),
                    |k: int|
                        MetadataPartition {
                            partition_index: relation.virtuals[partitions[i].partition_index][k],
                            rest: partitions[i].rest,
                        },
                ),
        ),
    )
}

/// Whether the virtual partitions of a partition are known.
pub open spec fn has_virtuals(
    relations: Map<Seq<char>, Relation>,
    topic: Seq<char>,
    partition: i32,
) -> bool {
    relations.contains_key(topic) && relations[topic].virtuals.contains_key(partition)
}

/// The metadata of a topic has copies for exactly the virtual partitions.
proof fn lemma_copies(
    relations: Map<Seq<char>, Relation>,
    topic: Seq<char>,
    partitions: Seq<MetadataPartition>,
)
    ensures
        upstream::virtual_metadata(relations, topic, partitions) is Ok <==> forall|i: int|
            0 <= i < partitions.len() ==> has_virtuals(
                relations,
                topic,
                (#[trigger] partitions[i]).partition_index,
            ),
        upstream::virtual_metadata(relations, topic, partitions) is Ok
            ==> upstream::virtual_metadata(relations, topic, partitions)->Ok_0 == copies_of_all(
            relations[topic],
            partitions,
        ),
    decreases partitions.len(),
{
    let relation = relations[topic];
    let lists = Seq::new(
        partitions.len(),
        |i: int|
            Seq::new(
                relation.virtuals[partitions[i].partition_index].len(),
                |k: int|
                    MetadataPartition {
                        partition_index: relation.virtuals[partitions[i].partition_index][k],
                        rest: partitions[i].rest,
                    },
            ),
    );
    if partitions.len() > 0 {
        let before = partitions.drop_last();
        lemma_copies(relations, topic, before);
        assert(lists.drop_last() =~= Seq::new(
            before.len(),
            |i: int|
                Seq::new(
                    relation.virtuals[before[i].partition_index].len(),
                    |k: int|
                        MetadataPartition {
                            partition_index: relation.virtuals[before[i].partition_index][k],
                            rest: before[i].rest,
                        },
                ),
        )) by {
            assert forall|i: int| 0 <= i < before.len() implies #[trigger] lists.drop_last()[i]
                == Seq::new(
                relation.virtuals[before[i].partition_index].len(),
                |k: int|
                    MetadataPartition {
                        partition_index: relation.virtuals[before[i].partition_index][k],
                        rest: before[i].rest,
                    },
            ) by {
                assert(before[i] == partitions[i]);
                assert(lists.drop_last()[i] =~= Seq::new(
                    relation.virtuals[before[i].partition_index].len(),
                    |k: int|
                        MetadataPartition {
                            partition_index: relation.virtuals[before[i].partition_index][k],
                            rest: before[i].rest,
                        },
                ));
            }
        }
        assert(upstream::copies_for(
            partitions.last(),
            relation.virtuals[partitions.last().partition_index],
        ) =~= lists.last());
        if forall|i: int|
            0 <= i < partitions.len() ==> has_virtuals(
                relations,
                topic,
                (#[trigger] partitions[i]).partition_index,
            ) {
            assert forall|i: int| 0 <= i < before.len() implies has_virtuals(
                relations,
                topic,
                (#[trigger] before[i]).partition_index,
            ) by {
                assert(before[i] == partitions[i]);
            }
            assert(has_virtuals(
                relations,
                topic,
                partitions[partitions.len() - 1].partition_index,
            ));
        }
        if upstream::virtual_metadata(relations, topic, partitions) is Ok {
            assert forall|i: int| 0 <= i < partitions.len() implies has_virtuals(
                relations,
                topic,
                (#[trigger] partitions[i]).partition_index,
            ) by {
                if i < before.len() {
                    assert(before[i] == partitions[i]);
                }
            }
        }
    } else {
        assert(joined(lists) =~= Seq::<MetadataPartition>::empty());
    }
}

/// Whether all partitions that metadata lists have virtual ones.
pub open spec fn all_have_virtuals(
    relations: Map<Seq<char>, Relation>,
    topics: Seq<MetadataTopicView>,
) -> bool {
    forall|t: int, i: int|
        0 <= t < topics.len() && 0 <= i < topics[t].partitions.len() ==> has_virtuals(
            relations,
            topics[t].name,
            (#[trigger] topics[t].partitions[i]).partition_index,
        )
}

/// Whether a topic is told of with its virtual partitions after the original ones.
pub open spec fn is_told_of(
    relations: Map<Seq<char>, Relation>,
    before: MetadataTopicView,
    after: MetadataTopicView,
) -> bool {
    &&& after.name == before.name
    &&& after.rest == before.rest
    &&& after.partitions == before.partitions + copies_of_all(
        relations[before.name],
        before.partitions,
    )
}

proof fn lemma_metadata(relations: Map<Seq<char>, Relation>, topics: Seq<MetadataTopicView>)
    ensures
        upstream::with_virtuals(relations, topics) is Ok <==> all_have_virtuals(
            relations,
            topics,
        ),
        upstream::with_virtuals(relations, topics) is Ok ==> {
            let told = upstream::with_virtuals(relations, topics)->Ok_0;
            &&& told.len() == topics.len()
            &&& forall|t: int|
                0 <= t < topics.len() ==> is_told_of(relations, topics[t], #[trigger] told[t])
        },
    decreases topics.len(),
{
    if topics.len() > 0 {
        let before = topics.drop_last();
        let last = topics.last();
        lemma_metadata(relations, before);
        lemma_copies(relations, last.name, last.partitions);
        if all_have_virtuals(relations, topics) {
            assert forall|t: int, i: int|
                0 <= t < before.len() && 0 <= i < before[t].partitions.len() implies has_virtuals(
                relations,
                before[t].name,
                (#[trigger] before[t].partitions[i]).partition_index,
            ) by {
                assert(has_virtuals(
                    relations,
                    topics[t].name,
                    topics[t].partitions[i].partition_index,
                ));
            }
            assert forall|i: int| 0 <= i < last.partitions.len() implies has_virtuals(
                relations,
                last.name,
                (#[trigger] last.partitions[i]).partition_index,
            ) by {
                let t = topics.len() - 1;
                assert(has_virtuals(
                    relations,
                    topics[t].name,
                    topics[t].partitions[i].partition_index,
                ));
            }
        }
        if upstream::with_virtuals(relations, topics) is Ok {
            assert forall|t: int, i: int|
                0 <= t < topics.len() && 0 <= i < topics[t].partitions.len() implies has_virtuals(
                relations,
                topics[t].name,
                (#[trigger] topics[t].partitions[i]).partition_index,
            ) by {
                if t < before.len() {
                    assert(has_virtuals(
                        relations,
                        before[t].name,
                        before[t].partitions[i].partition_index,
                    ));
                } else {
                    assert(has_virtuals(
                        relations,
                        last.name,
                        last.partitions[i].partition_index,
                    ));
                }
            }
            let told = upstream::with_virtuals(relations, topics)->Ok_0;
            let earlier = upstream::with_virtuals(relations, before)->Ok_0;
            assert forall|t: int| 0 <= t < topics.len() implies is_told_of(
                relations,
                topics[t],
                #[trigger] told[t],
            ) by {
                if t < before.len() {
                    assert(told[t] == earlier[t]);
                    assert(before[t] == topics[t]);
                }
            }
        }
    }
}

/// Metadata goes on to the client exactly if the virtual partitions of all partitions that it
/// lists are known and a request was made. Then each topic, in its place, lists the partitions
/// that the broker lists, and after them a copy for each of their virtual ones and nothing else.
/// All else stays.
pub proof fn metadata_lists_exactly_the_virtual_partitions(
    filter: FilterView,
    payload: Seq<u8>,
    data_size: int,
    waiting: Waiting,
    contexts: Connections,
    message: MetadataMessageView,
) -> (told: Seq<MetadataTopicView>)
    requires
        is_read(filter, payload, ReadResponseView::MetadataResponse(message)),
    ensures
        filter.kafka_upstream(payload, data_size, waiting, contexts) is Ok
            <==> filter.request_header is Some && all_have_virtuals(
            filter.relations,
            message.topics,
        ),
        filter.kafka_upstream(payload, data_size, waiting, contexts) is Ok ==> {
            let q = kafka::response_of(filter.table.origin_request->Some_0, payload)->Ok_0;
            let step = filter.kafka_upstream(payload, data_size, waiting, contexts)->Ok_0;
            &&& told.len() == message.topics.len()
            &&& forall|t: int|
                0 <= t < told.len() ==> is_told_of(
                    filter.relations,
                    message.topics[t],
                    #[trigger] told[t],
                )
            &&& step.outcome == (UpstreamView::Replace {
                size: data_size,
                payload: kafka::framed(
                    codec::response_header_encoded(q.header, q.header_version),
                    codec::metadata_encoded(
                        MetadataMessageView { topics: told, ..message },
                        filter.request_header->Some_0.api_version,
                    ),
                ),
            })
            &&& step.filter == filter
            &&& step.waiting == waiting
            &&& step.contexts == contexts
        },
{
    lemma_metadata(filter.relations, message.topics);
    if upstream::with_virtuals(filter.relations, message.topics) is Ok {
        upstream::with_virtuals(filter.relations, message.topics)->Ok_0
    } else {
        Seq::empty()
    }
}

/// Whether the first topic with a name stands at a place.
pub open spec fn is_first_topic(topics: Seq<TopicOffsetsView>, name: Seq<char>, p: int) -> bool {
    &&& 0 <= p < topics.len()
    &&& topics[p].name == name
    &&& forall|j: int| 0 <= j < p ==> (#[trigger] topics[j]).name != name
}

/// Whether the first offsets of a partition stand at a place.
pub open spec fn is_first_offsets(
    partitions: Seq<PartitionOffsets>,
    index: i32,
    k: int,
) -> bool {
    &&& 0 <= k < partitions.len()
    &&& partitions[k].partition_index == index
    &&& forall|j: int| 0 <= j < k ==> (#[trigger] partitions[j]).partition_index != index
}

pub(crate) proof fn lemma_position(topics: Seq<TopicOffsetsView>, name: Seq<char>)
    ensures
        ({
            let p = upstream::topic_position(topics, name);
            &&& 0 <= p <= topics.len()
            &&& p < topics.len() ==> is_first_topic(topics, name, p)
            &&& p == topics.len() ==> forall|j: int|
                0 <= j < topics.len() ==> (#[trigger] topics[j]).name != name
        }),
    decreases topics.len(),
{
    if topics.len() > 0 && topics[0].name != name {
        let rest = topics.skip(1);
        lemma_position(rest, name);
        let p = upstream::topic_position(topics, name);
        assert forall|j: int| 0 <= j < p implies (#[trigger] topics[j]).name != name by {
            if j > 0 {
                assert(rest[j - 1] == topics[j]);
            }
        }
        if p < topics.len() {
            assert(rest[p - 1] == topics[p]);
        }
    }
}

proof fn lemma_found(partitions: Seq<PartitionOffsets>, index: i32)
    ensures
        match upstream::offsets_of(partitions, index) {
            Some(found) => exists|k: int| #[trigger]
                is_first_offsets(partitions, index, k) && partitions[k] == found,
            None => forall|j: int|
                0 <= j < partitions.len() ==> (#[trigger] partitions[j]).partition_index != index,
        },
    decreases partitions.len(),
{
    if partitions.len() > 0 {
        if partitions[0].partition_index == index {
            assert(is_first_offsets(partitions, index, 0));
        } else {
            let rest = partitions.skip(1);
            lemma_found(rest, index);
            match upstream::offsets_of(rest, index) {
                Some(found) => {
                    let k = choose|k: int| #[trigger]
                        is_first_offsets(rest, index, k) && rest[k] == found;
                    assert forall|j: int| 0 <= j < k + 1 implies (
                    #[trigger] partitions[j]).partition_index != index by {
                        if j > 0 {
                            assert(rest[j - 1] == partitions[j]);
                        }
                    }
                    assert(rest[k] == partitions[k + 1]);
                    assert(is_first_offsets(partitions, index, k + 1));
                },
                None => {
                    assert forall|j: int| 0 <= j < partitions.len() implies (
                    #[trigger] partitions[j]).partition_index != index by {
                        if j > 0 {
                            assert(rest[j - 1] == partitions[j]);
                        }
                    }
                },
            }
        }
    }
}

/// Whether a partition that was asked for is told the offsets of its original one.
pub open spec fn has_offsets_of(
    original: i32,
    asked: i32,
    partitions: Seq<PartitionOffsets>,
    told: PartitionOffsets,
) -> bool {
    exists|k: int| #[trigger]
        is_first_offsets(partitions, original, k) && told == (PartitionOffsets {
            partition_index: asked,
            rest: partitions[k].rest,
        })
}

/// Whether a topic is told of with exactly the partitions that were asked for, each in its place
/// and with the offsets of its original one.
pub open spec fn is_answered(
    relations: Map<Seq<char>, Relation>,
    asked: AskedTopicView,
    before: TopicOffsetsView,
    after: TopicOffsetsView,
) -> bool {
    &&& after.name == before.name
    &&& after.rest == before.rest
    &&& after.partitions.len() == asked.partitions.len()
    &&& forall|i: int|
        0 <= i < asked.partitions.len() ==> request_laws::is_known(
            relations,
            asked.name,
            asked.partitions[i],
        ) && has_offsets_of(
            relations[asked.name].originals[asked.partitions[i]],
            asked.partitions[i],
            before.partitions,
            #[trigger] after.partitions[i],
        )
}

/// Whether offsets of all partitions that were asked for can be told.
pub open spec fn can_be_answered(
    relations: Map<Seq<char>, Relation>,
    asked: AskedTopicView,
    topic: TopicOffsetsView,
) -> bool {
    forall|i: int|
        0 <= i < asked.partitions.len() ==> request_laws::is_known(
            relations,
            asked.name,
            #[trigger] asked.partitions[i],
        ) && exists|j: int|
            0 <= j < topic.partitions.len() && (#[trigger] topic.partitions[j]).partition_index
                == relations[asked.name].originals[asked.partitions[i]]
}

pub(crate) proof fn lemma_virtual_offsets(
    relations: Map<Seq<char>, Relation>,
    asked: AskedTopicView,
    topic: TopicOffsetsView,
)
    ensures
        upstream::virtual_offsets(relations, asked.name, asked.partitions, topic.partitions) is Ok
            <==> can_be_answered(relations, asked, topic),
        upstream::virtual_offsets(relations, asked.name, asked.partitions, topic.partitions) is Ok
            ==> is_answered(
            relations,
            asked,
            topic,
            TopicOffsetsView {
                partitions: upstream::virtual_offsets(
                    relations,
                    asked.name,
                    asked.partitions,
                    topic.partitions,
                )->Ok_0,
                ..topic
            },
        ),
    decreases asked.partitions.len(),
{
    let name = asked.name;
    let list = asked.partitions;
    if list.len() > 0 {
        let before = AskedTopicView { partitions: list.drop_last(), ..asked };
        lemma_virtual_offsets(relations, before, topic);
        let last = list.last();
        let original = relations[name].originals[last];
        lemma_found(topic.partitions, original);
        if can_be_answered(relations, asked, topic) {
            assert forall|i: int|
                0 <= i < before.partitions.len() implies request_laws::is_known(
                relations,
                name,
                #[trigger] before.partitions[i],
            ) && exists|j: int|
                0 <= j < topic.partitions.len() && (#[trigger] topic.partitions[j]).partition_index
                    == relations[name].originals[before.partitions[i]] by {
                assert(before.partitions[i] == asked.partitions[i]);
            }
            assert(asked.partitions[list.len() - 1] == last);
        }
        let told = upstream::virtual_offsets(relations, name, list, topic.partitions);
        if told is Ok {
            let earlier = upstream::virtual_offsets(
                relations,
                name,
                before.partitions,
                topic.partitions,
            )->Ok_0;
            let after = told->Ok_0;
            assert forall|i: int| 0 <= i < list.len() implies request_laws::is_known(
                relations,
                name,
                list[i],
            ) && has_offsets_of(
                relations[name].originals[list[i]],
                list[i],
                topic.partitions,
                #[trigger] after[i],
            ) by {
                if i < before.partitions.len() {
                    assert(after[i] == earlier[i]);
                    assert(before.partitions[i] == list[i]);
                    assert(has_offsets_of(
                        relations[name].originals[before.partitions[i]],
                        before.partitions[i],
                        topic.partitions,
                        earlier[i],
                    ));
                } else {
                    let found = upstream::offsets_of(topic.partitions, original)->Some_0;
                    let k = choose|k: int| #[trigger]
                        is_first_offsets(topic.partitions, original, k) && topic.partitions[k]
                            == found;
                    assert(is_first_offsets(topic.partitions, original, k));
                    assert(after[i] == (PartitionOffsets {
                        partition_index: last,
                        rest: topic.partitions[k].rest,
                    }));
                }
            }
            assert forall|i: int| 0 <= i < list.len() implies request_laws::is_known(
                relations,
                name,
                #[trigger] list[i],
            ) && exists|j: int|
                0 <= j < topic.partitions.len() && (#[trigger] topic.partitions[j]).partition_index
                    == relations[name].originals[list[i]] by {
                assert(has_offsets_of(
                    relations[name].originals[list[i]],
                    list[i],
                    topic.partitions,
                    after[i],
                ));
            }
        }
    }
}

/// Whether no topic is asked for twice.
pub open spec fn asks_once(asked: Seq<AskedTopicView>) -> bool {
    forall|a: int, b: int|
        0 <= a < b < asked.len() ==> (#[trigger] asked[a]).name != (#[trigger] asked[b]).name
}

/// Whether a topic was asked for.
pub open spec fn is_asked(asked: Seq<AskedTopicView>, name: Seq<char>) -> bool {
    exists|a: int| 0 <= a < asked.len() && (#[trigger] asked[a]).name == name
}

/// Whether a virtual partition belongs to a topic that was asked for.
pub open spec fn is_numbered(filter: FilterView, asked: Seq<AskedTopicView>, k: (Seq<char>, i32)) -> bool {
    &&& is_asked(asked, k.0)
    &&& 0 <= k.1
    &&& k.1 < filter.criteria[k.0].num_partitions * filter.criteria[k.0].num_sources
}

/// What the filter knows of the virtual partitions after offsets were told: which source reads
/// those of the topics that were asked for, and that they start at the beginning. Of all others
/// it knows what it knew.
pub open spec fn knows_sources(
    before: FilterView,
    asked: Seq<AskedTopicView>,
    after: FilterView,
) -> bool {
    &&& forall|k: (Seq<char>, i32)| #[trigger]
        after.splits.contains_key(k) <==> before.splits.contains_key(k) || is_numbered(
            before,
            asked,
            k,
        )
    &&& forall|k: (Seq<char>, i32)| #[trigger]
        after.query_indexes.contains_key(k) <==> before.query_indexes.contains_key(k)
            || is_numbered(before, asked, k)
    &&& forall|k: (Seq<char>, i32)| #[trigger]
        after.splits.contains_key(k) ==> after.splits[k] == (if is_numbered(before, asked, k) {
            hashing::split_owner_of(k.0, k.1 as int, before.criteria[k.0].num_sources as int)
        } else {
            before.splits[k] as int
        })
    &&& forall|k: (Seq<char>, i32)| #[trigger]
        after.query_indexes.contains_key(k) ==> after.query_indexes[k] == (if is_numbered(
            before,
            asked,
            k,
        ) {
            0i64
        } else {
            before.query_indexes[k]
        })
    &&& after == (FilterView {
        splits: after.splits,
        query_indexes: after.query_indexes,
        ..before
    })
}

/// Whether each topic that was asked for is told of in its place, and every other one stays as
/// it is.
pub open spec fn are_answered(
    filter: FilterView,
    asked: Seq<AskedTopicView>,
    before: Seq<TopicOffsetsView>,
    after: Seq<TopicOffsetsView>,
) -> bool {
    &&& after.len() == before.len()
    &&& forall|p: int|
        0 <= p < before.len() && !(is_asked(asked, before[p].name) && is_first_topic(
            before,
            before[p].name,
            p,
        )) ==> #[trigger] after[p] == before[p]
    &&& forall|a: int, p: int|
        0 <= a < asked.len() && is_first_topic(before, #[trigger] asked[a].name, p)
            ==> is_answered(filter.relations, asked[a], before[p], #[trigger] after[p])
    &&& forall|a: int|
        0 <= a < asked.len() ==> filter.criteria.contains_key((#[trigger] asked[a]).name)
            && exists|p: int| is_first_topic(before, asked[a].name, p)
}

proof fn lemma_owner_fits(topic: Seq<char>, vp: int, num_sources: i32)
    requires
        num_sources > 0,
        0 <= vp,
    ensures
        0 <= hashing::split_owner_of(topic, vp, num_sources as int) < num_sources,
{
    hashing::split_owners_go_round(topic, vp, num_sources as int);
}

/// The names of topics stay where offsets are told of them.
pub(crate) proof fn lemma_names_stay(
    filter: FilterView,
    asked: Seq<AskedTopicView>,
    before: Seq<TopicOffsetsView>,
    after: Seq<TopicOffsetsView>,
)
    requires
        are_answered(filter, asked, before, after),
    ensures
        forall|p: int| 0 <= p < before.len() ==> (#[trigger] after[p]).name == before[p].name,
{
    assert forall|p: int| 0 <= p < before.len() implies (#[trigger] after[p]).name
        == before[p].name by {
        if is_asked(asked, before[p].name) && is_first_topic(before, before[p].name, p) {
            let a = choose|a: int|
                0 <= a < asked.len() && (#[trigger] asked[a]).name == before[p].name;
            assert(is_first_topic(before, asked[a].name, p));
            assert(is_answered(filter.relations, asked[a], before[p], after[p]));
        }
    }
}

/// Offsets are told of every topic that was asked for.
#[verifier::rlimit(60)]
pub(crate) proof fn lemma_offsets(
    filter: FilterView,
    asked: Seq<AskedTopicView>,
    topics: Seq<TopicOffsetsView>,
)
    requires
        asks_once(asked),
        filter.offsets_answered(asked, topics) is Ok,
        forall|a: int|
            0 <= a < asked.len() ==> filter.criteria[(#[trigger] asked[a]).name].num_sources > 0,
    ensures
        are_answered(
            filter,
            asked,
            topics,
            filter.offsets_answered(asked, topics)->Ok_0.topics,
        ),
        knows_sources(filter, asked, filter.offsets_answered(asked, topics)->Ok_0.filter),
    decreases asked.len(),
{
    if asked.len() > 0 {
        let fewer = asked.drop_last();
        let last = asked.last();
        let n = asked.len() - 1;
        assert(asked[n] == last);
        assert(asks_once(fewer)) by {
            assert forall|a: int, b: int| 0 <= a < b < fewer.len() implies (
            #[trigger] fewer[a]).name != (#[trigger] fewer[b]).name by {
                assert(asked[a].name != asked[b].name);
            }
        }
        assert forall|a: int| 0 <= a < fewer.len() implies filter.criteria[(
        #[trigger] fewer[a]).name].num_sources > 0 by {
            assert(fewer[a] == asked[a]);
        }
        lemma_offsets(filter, fewer, topics);
        let mid = filter.offsets_answered(fewer, topics)->Ok_0;
        let end = filter.offsets_answered(asked, topics)->Ok_0;
        lemma_names_stay(filter, fewer, topics, mid.topics);
        let p0 = upstream::topic_position(mid.topics, last.name);
        lemma_position(mid.topics, last.name);
        assert(is_first_topic(topics, last.name, p0)) by {
            assert forall|j: int| 0 <= j < p0 implies (#[trigger] topics[j]).name != last.name by {
                assert(mid.topics[j].name == topics[j].name);
            }
            assert(mid.topics[p0].name == topics[p0].name);
        }
        assert(!is_asked(fewer, last.name)) by {
            if is_asked(fewer, last.name) {
                let a = choose|a: int|
                    0 <= a < fewer.len() && (#[trigger] fewer[a]).name == last.name;
                assert(asked[a].name != asked[n].name);
            }
        }
        assert(mid.topics[p0] == topics[p0]);
        lemma_virtual_offsets(filter.relations, last, topics[p0]);
        assert forall|name: Seq<char>| #[trigger]
            is_asked(asked, name) <==> is_asked(fewer, name) || name == last.name by {
            if is_asked(asked, name) {
                let a = choose|a: int| 0 <= a < asked.len() && (#[trigger] asked[a]).name == name;
                if a < n {
                    assert(fewer[a] == asked[a]);
                }
            }
            if is_asked(fewer, name) {
                let a = choose|a: int| 0 <= a < fewer.len() && (#[trigger] fewer[a]).name == name;
                assert(asked[a].name == name);
            }
        }
        assert forall|p: int|
            0 <= p < topics.len() && !(is_asked(asked, topics[p].name) && is_first_topic(
                topics,
                topics[p].name,
                p,
            )) implies #[trigger] end.topics[p] == topics[p] by {
            assert(p != p0);
            assert(end.topics[p] == mid.topics[p]);
        }
        assert forall|a: int, p: int|
            0 <= a < asked.len() && is_first_topic(
                topics,
                #[trigger] asked[a].name,
                p,
            ) implies is_answered(
            filter.relations,
            asked[a],
            topics[p],
            #[trigger] end.topics[p],
        ) by {
            if a < n {
                assert(asked[a].name != asked[n].name);
                assert(p != p0);
                assert(fewer[a] == asked[a]);
                assert(is_answered(filter.relations, fewer[a], topics[p], mid.topics[p]));
            } else {
                if p < p0 {
                    assert(topics[p].name != last.name);
                } else if p > p0 {
                    assert(topics[p0].name != last.name);
                }
            }
        }
        assert forall|a: int| 0 <= a < asked.len() implies filter.criteria.contains_key((
        #[trigger] asked[a]).name) && exists|p: int| is_first_topic(topics, asked[a].name, p) by {
            if a < n {
                assert(fewer[a] == asked[a]);
            } else {
                assert(is_first_topic(topics, asked[a].name, p0));
            }
        }
        let count = filter.criteria[last.name].num_partitions
            * filter.criteria[last.name].num_sources;
        assert forall|k: (Seq<char>, i32)| #[trigger]
            is_numbered(filter, asked, k) <==> is_numbered(filter, fewer, k) || (k.0 == last.name
                && 0 <= k.1 < count) by {
            assert(is_asked(asked, k.0) <==> is_asked(fewer, k.0) || k.0 == last.name);
        }
        assert forall|k: (Seq<char>, i32)| #[trigger]
            end.filter.splits.contains_key(k) implies end.filter.splits[k] == (if is_numbered(
            filter,
            asked,
            k,
        ) {
            hashing::split_owner_of(k.0, k.1 as int, filter.criteria[k.0].num_sources as int)
        } else {
            filter.splits[k] as int
        }) by {
            if k.0 == last.name && 0 <= k.1 < count {
                lemma_owner_fits(last.name, k.1 as int, filter.criteria[last.name].num_sources);
                assert(is_numbered(filter, asked, k));
            } else {
                assert(mid.filter.splits.contains_key(k));
            }
        }
        assert forall|k: (Seq<char>, i32)| #[trigger]
            end.filter.splits.contains_key(k) <==> filter.splits.contains_key(k) || is_numbered(
            filter,
            asked,
            k,
        ) by {
            assert(mid.filter.splits.contains_key(k) <==> filter.splits.contains_key(k)
                || is_numbered(filter, fewer, k));
        }
        assert forall|k: (Seq<char>, i32)| #[trigger]
            end.filter.query_indexes.contains_key(k) <==> filter.query_indexes.contains_key(k)
            || is_numbered(filter, asked, k) by {
            assert(mid.filter.query_indexes.contains_key(k)
                <==> filter.query_indexes.contains_key(k) || is_numbered(filter, fewer, k));
        }
        assert forall|k: (Seq<char>, i32)| #[trigger]
            end.filter.query_indexes.contains_key(k) implies end.filter.query_indexes[k] == (
        if is_numbered(filter, asked, k) {
            0i64
        } else {
            filter.query_indexes[k]
        }) by {
            if k.0 == last.name && 0 <= k.1 < count {
                assert(is_numbered(filter, asked, k));
            } else {
                assert(mid.filter.query_indexes.contains_key(k));
            }
        }
    } else {
        assert forall|k: (Seq<char>, i32)| !#[trigger] is_numbered(filter, asked, k) by {
        }
    }
}

/// Offsets that a client asked for are told of all topics that it asked for, wherever they stand:
/// exactly its partitions, each in its place and with the offsets of its original partition.
/// Topics that it did not ask for stay. The filter then knows which source reads each virtual
/// partition of all those topics, and the request is no longer open.
pub proof fn offsets_of_every_topic_are_told(
    filter: FilterView,
    payload: Seq<u8>,
    data_size: int,
    waiting: Waiting,
    contexts: Connections,
    message: OffsetsResponseView,
    asked: Seq<AskedTopicView>,
) -> (told: Seq<TopicOffsetsView>)
    requires
        is_read(filter, payload, ReadResponseView::ListOffsetsResponse(message)),
        filter.request == Some(AskedView::ListOffsetsRequest(asked)),
        asks_once(asked),
        forall|a: int|
            0 <= a < asked.len() ==> filter.criteria[(#[trigger] asked[a]).name].num_sources > 0,
        filter.kafka_upstream(payload, data_size, waiting, contexts) is Ok,
    ensures
        are_answered(filter, asked, message.topics, told),
        ({
            let q = kafka::response_of(filter.table.origin_request->Some_0, payload)->Ok_0;
            let step = filter.kafka_upstream(payload, data_size, waiting, contexts)->Ok_0;
            let bytes = kafka::framed(
                codec::response_header_encoded(q.header, q.header_version),
                codec::offsets_response_encoded(
                    OffsetsResponseView { topics: told, ..message },
                    filter.request_header->Some_0.api_version,
                ),
            );
            &&& filter.request_header is Some
            &&& step.outcome == (UpstreamView::Replace { size: bytes.len() as int, payload: bytes })
            &&& knows_sources(FilterView { request: None, ..filter }, asked, step.filter)
            &&& step.waiting == waiting
            &&& step.contexts == contexts
        }),
{
    let f = FilterView { request: None, ..filter };
    lemma_offsets(f, asked, message.topics);
    let told = f.offsets_answered(asked, message.topics)->Ok_0.topics;
    assert(are_answered(filter, asked, message.topics, told)) by {
        assert(are_answered(f, asked, message.topics, told));
    }
    told
}

/// Whether a response to a fetch lists exactly the partitions that were asked for, each in its
/// place and without records.
pub open spec fn is_without_records(reading: FetchReadingView, message: FetchMessageView) -> bool {
    &&& message.error_code == 0
    &&& message.session_id == 0
    &&& message.rest is None
    &&& message.topics.len() == reading.topics.len()
    &&& forall|t: int|
        0 <= t < reading.topics.len() ==> (#[trigger] message.topics[t]).topic
            == reading.topics[t].topic && message.topics[t].rest is None
            && message.topics[t].partitions.len() == reading.topics[t].partitions.len()
    &&& forall|t: int, i: int|
        0 <= t < reading.topics.len() && 0 <= i < reading.topics[t].partitions.len() ==> {
            let p = #[trigger] message.topics[t].partitions[i];
            &&& p.partition_index == reading.topics[t].partitions[i].partition
            &&& p.records == Some(Seq::<u8>::empty())
            &&& p.tags == Map::<i32, Seq<u8>>::empty()
            &&& p.rest is None
        }
}

/// When the broker answers for a fetch that waits, the client gets the response that was made
/// for it in the meantime, and otherwise one that lists exactly the partitions that it asked for,
/// without records. Either way the fetch waits no more, and no other one is touched.
pub proof fn a_fetch_that_waited_is_answered(
    filter: FilterView,
    payload: Seq<u8>,
    data_size: int,
    waiting: Waiting,
    contexts: Connections,
    message: OffsetsResponseView,
    reading: FetchReadingView,
) -> (answer: FetchMessageView)
    requires
        is_read(filter, payload, ReadResponseView::ListOffsetsResponse(message)),
        filter.request == Some(AskedView::FetchRequest(reading)),
    ensures
        is_without_records(reading, answer),
        ({
            let made = contexts.contains_key(filter.context_id)
                && contexts[filter.context_id].response_data is Some;
            let r = filter.kafka_upstream(payload, data_size, waiting, contexts);
            &&& r is Ok <==> made || filter.request_header is Some
            &&& r is Ok ==> {
                let step = r->Ok_0;
                &&& made ==> step.outcome == (UpstreamView::Replace {
                    size: data_size,
                    payload: contexts[filter.context_id].response_data->Some_0,
                })
                &&& !made ==> step.outcome == (UpstreamView::Replace {
                    size: data_size,
                    payload: kafka::framed(
                        codec::response_header_encoded(
                            ResponseHeaderView {
                                correlation_id: filter.request_header->Some_0.correlation_id,
                                tags: Map::empty(),
                            },
                            1,
                        ),
                        codec::fetch_encoded(answer, filter.request_header->Some_0.api_version),
                    ),
                })
                &&& !step.contexts.contains_key(filter.context_id)
                &&& forall|id: u32|
                    id != filter.context_id ==> (#[trigger] step.contexts.contains_key(id)
                        <==> contexts.contains_key(id)) && (contexts.contains_key(id)
                        ==> step.contexts[id] == contexts[id])
                &&& step.waiting == waiting
                &&& step.filter == (FilterView { request: None, ..filter })
            }
        }),
{
    upstream::empty_fetch(reading.topics)
}

/// A response of which only a part has come, and one to a request that is not open any more,
/// change nothing that a client sees.
pub proof fn unasked_responses_stay(
    filter: FilterView,
    payload: Seq<u8>,
    data_size: int,
    waiting: Waiting,
    contexts: Connections,
)
    requires
        filter.table.origin_request is Some,
        ({
            let r = kafka::response_of(filter.table.origin_request->Some_0, payload);
            ||| r == Err::<kafka::ResponseView, kafka::KafkaError>(kafka::KafkaError::Split)
            ||| {
                &&& r is Ok
                &&& filter.request is None
                &&& !(r->Ok_0.response matches Some(ReadResponseView::MetadataResponse(_)))
            }
        }),
    ensures
        filter.kafka_upstream(payload, data_size, waiting, contexts) is Ok,
        ({
            let step = filter.kafka_upstream(payload, data_size, waiting, contexts)->Ok_0;
            &&& step.outcome is Keep
            &&& step.filter == filter
            &&& step.waiting == waiting
            &&& step.contexts == contexts
        }),
{
}

/// Offsets and records that answer another request than one for them stay as they are; the
/// request is then no longer open, and all else stays.
pub proof fn answers_to_other_requests_stay(
    filter: FilterView,
    payload: Seq<u8>,
    data_size: int,
    waiting: Waiting,
    contexts: Connections,
    response: ReadResponseView,
)
    requires
        is_read(filter, payload, response),
        response is ListOffsetsResponse || response is FetchResponse,
        filter.request is Some,
        filter.request->Some_0 is Other || (response is FetchResponse && filter.request->Some_0
            is ListOffsetsRequest),
    ensures
        filter.kafka_upstream(payload, data_size, waiting, contexts) is Ok,
        ({
            let step = filter.kafka_upstream(payload, data_size, waiting, contexts)->Ok_0;
            &&& step.outcome is Keep
            &&& step.filter == (FilterView { request: None, ..filter })
            &&& step.waiting == waiting
            &&& step.contexts == contexts
        }),
{
}

} // verus!
