//! What becomes of a response to a fetch: each of its partitions is filtered, and no record is
//! lost on its way to a virtual partition.

use crate::batches;
use crate::batches::RecordView;
use crate::codec::FetchMessageView;
use crate::codec::FetchPartition;
use crate::codec::FetchReadingView;
use crate::codec::FetchTopicView;
use crate::codec::FetchedPartitionView;
use crate::codec::FetchedTopicView;
use crate::data;
use crate::data::Connections;
use crate::event_laws;
use crate::event_laws::joined;
use crate::fetching;
use crate::fetching::DeliveryView;
use crate::filter;
use crate::filter::AskedView;
use crate::filter::FilterError;
use crate::filter::FilterView;
use crate::filter::Waiting;
use crate::kafka;
use crate::kafka::ReadResponseView;
use crate::message_laws;
use crate::partitions::Relation;
use crate::upstream::UpstreamView;
use vstd::prelude::*;

verus! {

/// Whether a fetch asks for a topic.
pub open spec fn asks_for(request: FetchReadingView, topic: Seq<char>) -> bool {
    exists|t: int| 0 <= t < request.topics.len() && (#[trigger] request.topics[t]).topic == topic
}

/// Whether a partition of a fetch is the one that an original partition is fetched for: the
/// first one that belongs to it, of the first topic with the name.
pub open spec fn is_fetched_for(
    relations: Map<Seq<char>, Relation>,
    request: FetchReadingView,
    topic: Seq<char>,
    original: i32,
    t: int,
    i: int,
) -> bool {
    &&& 0 <= t < request.topics.len()
    &&& request.topics[t].topic == topic
    &&& forall|s: int| 0 <= s < t ==> (#[trigger] request.topics[s]).topic != topic
    &&& 0 <= i < request.topics[t].partitions.len()
    &&& relations.contains_key(topic)
    &&& forall|j: int|
        0 <= j <= i ==> relations[topic].originals.contains_key(
            (#[trigger] request.topics[t].partitions[j]).partition,
        )
    &&& forall|j: int|
        0 <= j < i ==> relations[topic].originals[(
        #[trigger] request.topics[t].partitions[j]).partition] != original
    &&& relations[topic].originals[request.topics[t].partitions[i].partition] == original
}

/// Whether a partition of a response is what filtering makes of it: it is named after the
/// partition that it was fetched for, and holds what is left of its records for that one. One of
/// a topic that was not asked for stays as it is.
pub open spec fn is_filtered(
    filter: FilterView,
    request: FetchReadingView,
    topic: Seq<char>,
    before: FetchedPartitionView,
    after: FetchedPartitionView,
) -> bool {
    if !asks_for(request, topic) {
        after == before
    } else {
        exists|t: int, i: int| #[trigger]
            is_fetched_for(filter.relations, request, topic, before.partition_index, t, i) && {
                let asked = request.topics[t].partitions[i];
                let left = filter.filtered(
                    topic,
                    asked.partition,
                    before.records,
                    Map::<(Seq<char>, i32), Seq<RecordView>>::empty(),
                );
                &&& left is Ok
                &&& after == FetchedPartitionView {
                    partition_index: asked.partition,
                    records: left->Ok_0.0,
                    ..before
                }
            }
    }
}

/// The first topic with a name is the first one that has it.
proof fn lemma_first_topic(topics: Seq<FetchTopicView>, name: Seq<char>) -> (t: int)
    ensures
        match fetching::first_topic(topics, name) {
            Some(found) => 0 <= t < topics.len() && topics[t] == found && found.topic == name
                && forall|s: int| 0 <= s < t ==> (#[trigger] topics[s]).topic != name,
            None => forall|s: int| 0 <= s < topics.len() ==> (#[trigger] topics[s]).topic != name,
        },
    decreases topics.len(),
{
    if topics.len() == 0 || topics[0].topic == name {
        0
    } else {
        let rest = topics.skip(1);
        let t = lemma_first_topic(rest, name);
        assert forall|s: int|
            0 <= s < topics.len() && (s == 0 || rest[s - 1].topic != name) implies (
        #[trigger] topics[s]).topic != name by {
            if s > 0 {
                assert(topics[s] == rest[s - 1]);
            }
        }
        t + 1
    }
}

/// The first partition that belongs to an original one is the first one that does.
proof fn lemma_first_asked(
    relations: Map<Seq<char>, Relation>,
    topic: Seq<char>,
    partitions: Seq<FetchPartition>,
    original: i32,
) -> (i: int)
    requires
        fetching::first_asked(relations, topic, partitions, original) is Ok,
    ensures
        0 <= i < partitions.len(),
        partitions[i] == fetching::first_asked(relations, topic, partitions, original)->Ok_0,
        relations.contains_key(topic),
        forall|j: int|
            0 <= j <= i ==> relations[topic].originals.contains_key(
                (#[trigger] partitions[j]).partition,
            ),
        forall|j: int|
            0 <= j < i ==> relations[topic].originals[(#[trigger] partitions[j]).partition]
                != original,
        relations[topic].originals[partitions[i].partition] == original,
    decreases partitions.len(),
{
    if relations[topic].originals[partitions[0].partition] == original {
        0
    } else {
        let rest = partitions.skip(1);
        let i = lemma_first_asked(relations, topic, rest, original);
        assert forall|j: int| 0 <= j <= i + 1 implies relations[topic].originals.contains_key(
            (#[trigger] partitions[j]).partition,
        ) && (j <= i ==> relations[topic].originals[partitions[j].partition] != original) by {
            if j > 0 {
                assert(partitions[j] == rest[j - 1]);
            }
        }
        i + 1
    }
}

/// A partition that was processed was fetched for one of the fetch.
proof fn lemma_fetched_for(
    filter: FilterView,
    request: FetchReadingView,
    topic: Seq<char>,
    partition: FetchedPartitionView,
    waiting: Waiting,
) -> (place: (int, int))
    requires
        asks_for(request, topic),
        filter.processed_partition(request, topic, partition, waiting) is Ok,
    ensures
        is_fetched_for(
            filter.relations,
            request,
            topic,
            partition.partition_index,
            place.0,
            place.1,
        ),
        ({
            let found = fetching::first_topic(request.topics, topic);
            &&& found is Some
            &&& fetching::first_asked(
                filter.relations,
                topic,
                found->Some_0.partitions,
                partition.partition_index,
            ) == Ok::<FetchPartition, FilterError>(request.topics[place.0].partitions[place.1])
        }),
{
    let t = lemma_first_topic(request.topics, topic);
    let found = fetching::first_topic(request.topics, topic);
    if found is None {
        let s = choose|s: int|
            0 <= s < request.topics.len() && (#[trigger] request.topics[s]).topic == topic;
        assert(request.topics[s].topic != topic);
    }
    let i = lemma_first_asked(
        filter.relations,
        topic,
        request.topics[t].partitions,
        partition.partition_index,
    );
    (t, i)
}

/// There is only one partition that an original one is fetched for.
proof fn lemma_one_place(
    relations: Map<Seq<char>, Relation>,
    request: FetchReadingView,
    topic: Seq<char>,
    original: i32,
    t: int,
    i: int,
    u: int,
    j: int,
)
    requires
        is_fetched_for(relations, request, topic, original, t, i),
        is_fetched_for(relations, request, topic, original, u, j),
    ensures
        t == u && i == j,
{
    if t < u {
        assert(request.topics[t].topic != topic);
    } else if u < t {
        assert(request.topics[u].topic != topic);
    } else if i < j {
        assert(relations[topic].originals[request.topics[t].partitions[i].partition] != original);
    } else if j < i {
        assert(relations[topic].originals[request.topics[t].partitions[j].partition] != original);
    }
}

/// What is left of a partition does not depend on what waits.
proof fn lemma_left(
    filter: FilterView,
    topic: Seq<char>,
    asked: i32,
    records: Option<Seq<u8>>,
    waiting: Waiting,
)
    requires
        filter.filtered(topic, asked, records, waiting) is Ok,
    ensures
        filter.filtered(
            topic,
            asked,
            records,
            Map::<(Seq<char>, i32), Seq<RecordView>>::empty(),
        ) is Ok,
        filter.filtered(
            topic,
            asked,
            records,
            Map::<(Seq<char>, i32), Seq<RecordView>>::empty(),
        )->Ok_0.0 == filter.filtered(topic, asked, records, waiting)->Ok_0.0,
{
}

/// A partition that was processed is filtered.
proof fn lemma_partition(
    filter: FilterView,
    request: FetchReadingView,
    topic: Seq<char>,
    partition: FetchedPartitionView,
    waiting: Waiting,
)
    requires
        filter.processed_partition(request, topic, partition, waiting) is Ok,
    ensures
        is_filtered(
            filter,
            request,
            topic,
            partition,
            filter.processed_partition(request, topic, partition, waiting)->Ok_0.0,
        ),
{
    if asks_for(request, topic) {
        let (t, i) = lemma_fetched_for(filter, request, topic, partition, waiting);
        let asked = request.topics[t].partitions[i];
        lemma_left(filter, topic, asked.partition, partition.records, waiting);
    } else {
        let t = lemma_first_topic(request.topics, topic);
        if fetching::first_topic(request.topics, topic) is Some {
            assert(request.topics[t].topic == topic);
        }
    }
}

/// Each partition of a topic is filtered.
proof fn lemma_partitions(
    filter: FilterView,
    request: FetchReadingView,
    topic: Seq<char>,
    partitions: Seq<FetchedPartitionView>,
    waiting: Waiting,
)
    requires
        filter.processed_partitions(request, topic, partitions, waiting) is Ok,
    ensures
        ({
            let after = filter.processed_partitions(
                request,
                topic,
                partitions,
                waiting,
            )->Ok_0.partitions;
            &&& after.len() == partitions.len()
            &&& forall|p: int|
                0 <= p < partitions.len() ==> is_filtered(
                    filter,
                    request,
                    topic,
                    partitions[p],
                    #[trigger] after[p],
                )
        }),
    decreases partitions.len(),
{
    if partitions.len() > 0 {
        let before = partitions.drop_last();
        lemma_partitions(filter, request, topic, before, waiting);
        let earlier = filter.processed_partitions(request, topic, before, waiting)->Ok_0;
        lemma_partition(filter, request, topic, partitions.last(), earlier.waiting);
        let after = filter.processed_partitions(request, topic, partitions, waiting)->Ok_0.partitions;
        assert forall|p: int| 0 <= p < partitions.len() implies is_filtered(
            filter,
            request,
            topic,
            partitions[p],
            #[trigger] after[p],
        ) by {
            if p < before.len() {
                assert(after[p] == earlier.partitions[p]);
                assert(before[p] == partitions[p]);
            }
        }
    }
}

/// Whether the topics of a response are what filtering makes of them: each partition of each
/// topic is filtered, in its place, and nothing else changes.
pub open spec fn are_filtered(
    filter: FilterView,
    request: FetchReadingView,
    before: Seq<FetchedTopicView>,
    after: Seq<FetchedTopicView>,
) -> bool {
    &&& after.len() == before.len()
    &&& forall|t: int|
        0 <= t < before.len() ==> {
            &&& (#[trigger] after[t]).topic == before[t].topic
            &&& after[t].rest == before[t].rest
            &&& after[t].partitions.len() == before[t].partitions.len()
        }
    &&& forall|t: int, p: int|
        0 <= t < before.len() && 0 <= p < before[t].partitions.len() ==> is_filtered(
            filter,
            request,
            before[t].topic,
            before[t].partitions[p],
            #[trigger] after[t].partitions[p],
        )
}

/// Every partition of every topic of a response is filtered.
pub proof fn every_partition_of_a_response_is_filtered(
    filter: FilterView,
    request: FetchReadingView,
    topics: Seq<FetchedTopicView>,
    waiting: Waiting,
)
    requires
        filter.processed_topics(request, topics, waiting) is Ok,
    ensures
        are_filtered(
            filter,
            request,
            topics,
            filter.processed_topics(request, topics, waiting)->Ok_0.topics,
        ),
    decreases topics.len(),
{
    if topics.len() > 0 {
        let before = topics.drop_last();
        every_partition_of_a_response_is_filtered(filter, request, before, waiting);
        let earlier = filter.processed_topics(request, before, waiting)->Ok_0;
        let last = topics.last();
        lemma_partitions(filter, request, last.topic, last.partitions, earlier.waiting);
        let after = filter.processed_topics(request, topics, waiting)->Ok_0.topics;
        assert forall|t: int| 0 <= t < topics.len() implies (#[trigger] after[t]).topic
            == topics[t].topic && after[t].rest == topics[t].rest && after[t].partitions.len()
            == topics[t].partitions.len() by {
            if t < before.len() {
                assert(after[t] == earlier.topics[t]);
                assert(before[t] == topics[t]);
            }
        }
        assert forall|t: int, p: int|
            0 <= t < topics.len() && 0 <= p < topics[t].partitions.len() implies is_filtered(
            filter,
            request,
            topics[t].topic,
            topics[t].partitions[p],
            #[trigger] after[t].partitions[p],
        ) by {
            if t < before.len() {
                assert(after[t] == earlier.topics[t]);
                assert(before[t] == topics[t]);
            }
        }
    }
}

/// Whether no virtual partition is listed twice with an original one.
pub open spec fn lists_once(relations: Map<Seq<char>, Relation>) -> bool {
    forall|topic: Seq<char>, original: i32|
        relations.contains_key(topic) && #[trigger] relations[topic].virtuals.contains_key(original)
            ==> relations[topic].virtuals[original].no_duplicates()
}

/// What a virtual partition gets of a partition of a response.
pub open spec fn gained_of(
    filter: FilterView,
    request: FetchReadingView,
    topic: Seq<char>,
    partition: FetchedPartitionView,
    vp: i32,
) -> Seq<RecordView> {
    let criteria = filter.criteria[topic];
    let (t, i) = choose|t: int, i: int|
        is_fetched_for(filter.relations, request, topic, partition.partition_index, t, i);
    let asked = request.topics[t].partitions[i].partition;
    let virtuals = filter.relations[topic].virtuals[partition.partition_index];
    if !asks_for(request, topic) || partition.records is None || !event_laws::has_a_query(criteria) {
        Seq::empty()
    } else {
        let records = batches::records_of(partition.records->Some_0);
        if records.len() == 0 {
            Seq::empty()
        } else {
            event_laws::gains(filter, topic, criteria, virtuals, asked, records, vp)
                + event_laws::marker_for(filter, topic, criteria, virtuals, asked, records, vp)
        }
    }
}

/// What a virtual partition of a topic gets of the topics of a response: what it gets of each
/// partition of each topic with the name, in order.
pub open spec fn gained_of_all(
    filter: FilterView,
    request: FetchReadingView,
    topics: Seq<FetchedTopicView>,
    name: Seq<char>,
    vp: i32,
) -> Seq<RecordView> {
    joined(
        Seq::new(
            topics.len(),
            |t: int| gained_of_topic(filter, request, topics[t].topic, topics[t].partitions, name, vp),
        ),
    )
}

/// What a virtual partition of a topic gets of the partitions of a topic.
pub open spec fn gained_of_topic(
    filter: FilterView,
    request: FetchReadingView,
    topic: Seq<char>,
    partitions: Seq<FetchedPartitionView>,
    name: Seq<char>,
    vp: i32,
) -> Seq<RecordView> {
    if topic == name {
        joined(
            Seq::new(
                partitions.len(),
                |p: int| gained_of(filter, request, topic, partitions[p], vp),
            ),
        )
    } else {
        Seq::empty()
    }
}

/// What is delivered to a virtual partition of a topic.
pub open spec fn delivered_to(
    deliveries: Seq<DeliveryView>,
    name: Seq<char>,
    vp: i32,
) -> Seq<DeliveryView> {
    deliveries.filter(|d: DeliveryView| d.data.topic == name && d.data.partition == vp)
}

/// Whether nothing is lost on the way to a virtual partition: the lists that are delivered to
/// it, one after the other, and what waits for it at the end are what waited for it and what it
/// got.
pub open spec fn is_settled(
    before: Waiting,
    gained: Seq<RecordView>,
    after: Waiting,
    deliveries: Seq<DeliveryView>,
    name: Seq<char>,
    vp: i32,
    lists: Seq<Seq<RecordView>>,
) -> bool {
    let delivered = delivered_to(deliveries, name, vp);
    &&& delivered.len() == lists.len()
    &&& forall|k: int|
        0 <= k < lists.len() ==> (#[trigger] delivered[k]).data.records
            == batches::records_encoded(lists[k], 2, 0)
    &&& joined(lists) + filter::waiting_for(after, name, vp) == filter::waiting_for(
        before,
        name,
        vp,
    ) + gained
}

proof fn lemma_joined_add<A>(a: Seq<Seq<A>>, b: Seq<Seq<A>>)
    ensures
        joined(a + b) == joined(a) + joined(b),
    decreases b.len(),
{
    if b.len() > 0 {
        lemma_joined_add(a, b.drop_last());
        assert((a + b).drop_last() =~= a + b.drop_last());
        assert((a + b).last() == b.last());
        assert(joined(a) + joined(b.drop_last()) + b.last() =~= joined(a) + (joined(b.drop_last())
            + b.last()));
    } else {
        assert(a + b =~= a);
        assert(joined(a) + joined(b) =~= joined(a));
    }
}

proof fn lemma_delivered_add(
    a: Seq<DeliveryView>,
    b: Seq<DeliveryView>,
    name: Seq<char>,
    vp: i32,
)
    ensures
        delivered_to(a + b, name, vp) == delivered_to(a, name, vp) + delivered_to(b, name, vp),
    decreases b.len(),
{
    reveal(Seq::filter);
    let to = |d: DeliveryView| d.data.topic == name && d.data.partition == vp;
    if b.len() > 0 {
        lemma_delivered_add(a, b.drop_last(), name, vp);
        assert((a + b).drop_last() =~= a + b.drop_last());
        assert((a + b).last() == b.last());
        assert(delivered_to(a + b, name, vp) =~= delivered_to(a, name, vp) + delivered_to(
            b,
            name,
            vp,
        ));
    } else {
        assert(a + b =~= a);
        assert(delivered_to(a, name, vp) + delivered_to(b, name, vp) =~= delivered_to(a, name, vp));
    }
}

/// What is settled in two steps is settled.
proof fn lemma_settled(
    start: Waiting,
    first: Seq<RecordView>,
    middle: Waiting,
    some: Seq<DeliveryView>,
    a: Seq<Seq<RecordView>>,
    second: Seq<RecordView>,
    end: Waiting,
    more: Seq<DeliveryView>,
    b: Seq<Seq<RecordView>>,
    name: Seq<char>,
    vp: i32,
)
    requires
        is_settled(start, first, middle, some, name, vp, a),
        is_settled(middle, second, end, more, name, vp, b),
    ensures
        is_settled(start, first + second, end, some + more, name, vp, a + b),
{
    lemma_joined_add(a, b);
    lemma_delivered_add(some, more, name, vp);
    let w0 = filter::waiting_for(start, name, vp);
    let w1 = filter::waiting_for(middle, name, vp);
    let w2 = filter::waiting_for(end, name, vp);
    assert(joined(a) + joined(b) + w2 =~= joined(a) + (joined(b) + w2));
    assert(joined(a) + (w1 + second) =~= (joined(a) + w1) + second);
    assert((w0 + first) + second =~= w0 + (first + second));
    let delivered = delivered_to(some + more, name, vp);
    assert forall|k: int| 0 <= k < (a + b).len() implies (#[trigger] delivered[k]).data.records
        == batches::records_encoded((a + b)[k], 2, 0) by {
        if k < a.len() {
            assert(delivered[k] == delivered_to(some, name, vp)[k]);
        } else {
            assert(delivered[k] == delivered_to(more, name, vp)[k - a.len()]);
        }
    }
}

/// Nothing is settled where nothing happens.
proof fn lemma_nothing(before: Waiting, after: Waiting, name: Seq<char>, vp: i32)
    requires
        filter::waiting_for(before, name, vp) == filter::waiting_for(after, name, vp),
    ensures
        is_settled(
            before,
            Seq::empty(),
            after,
            Seq::empty(),
            name,
            vp,
            Seq::<Seq<RecordView>>::empty(),
        ),
{
    reveal(Seq::filter);
    let w = filter::waiting_for(before, name, vp);
    assert(Seq::<RecordView>::empty() + w =~= w);
    assert(w + Seq::<RecordView>::empty() =~= w);
}

/// What is delivered of a topic is of that topic, and what waits for another one goes on
/// waiting.
proof fn lemma_flushed(
    filter: FilterView,
    topic: Seq<char>,
    virtuals: Seq<i32>,
    asked: FetchPartition,
    waiting: Waiting,
    name: Seq<char>,
    vp: i32,
)
    requires
        filter.flushed(topic, virtuals, asked, waiting) is Ok,
    ensures
        ({
            let after = filter.flushed(topic, virtuals, asked, waiting)->Ok_0;
            &&& name != topic ==> filter::waiting_for(after.waiting, name, vp)
                == filter::waiting_for(waiting, name, vp)
            &&& delivered_to(after.deliveries, name, vp) == (if name == topic {
                message_laws::delivered_to(after.deliveries, vp)
            } else {
                Seq::<DeliveryView>::empty()
            })
        }),
    decreases virtuals.len(),
{
    reveal(Seq::filter);
    if virtuals.len() > 0 {
        lemma_flushed(filter, topic, virtuals.drop_last(), asked, waiting, name, vp);
        let earlier = filter.flushed(topic, virtuals.drop_last(), asked, waiting)->Ok_0;
        let after = filter.flushed(topic, virtuals, asked, waiting)->Ok_0;
        if after.deliveries != earlier.deliveries {
            assert(after.deliveries.drop_last() =~= earlier.deliveries);
            assert(after.deliveries.last().data.topic == topic);
        }
    }
}

/// Nothing of a partition of a response is lost.
proof fn lemma_partition_settled(
    filter: FilterView,
    request: FetchReadingView,
    topic: Seq<char>,
    partition: FetchedPartitionView,
    waiting: Waiting,
    name: Seq<char>,
    vp: i32,
) -> (lists: Seq<Seq<RecordView>>)
    requires
        lists_once(filter.relations),
        filter.processed_partition(request, topic, partition, waiting) is Ok,
    ensures
        ({
            let p = filter.processed_partition(request, topic, partition, waiting)->Ok_0.1;
            is_settled(
                waiting,
                if topic == name {
                    gained_of(filter, request, topic, partition, vp)
                } else {
                    Seq::empty()
                },
                p.waiting,
                p.deliveries,
                name,
                vp,
                lists,
            )
        }),
{
    let none = Seq::<Seq<RecordView>>::empty();
    let after = filter.processed_partition(request, topic, partition, waiting)->Ok_0.1;
    if !asks_for(request, topic) {
        let t = lemma_first_topic(request.topics, topic);
        if fetching::first_topic(request.topics, topic) is Some {
            assert(request.topics[t].topic == topic);
        }
        lemma_nothing(waiting, waiting, name, vp);
        none
    } else {
        let (t, i) = lemma_fetched_for(filter, request, topic, partition, waiting);
        let original = partition.partition_index;
        let (u, j) = choose|u: int, j: int|
            is_fetched_for(filter.relations, request, topic, original, u, j);
        lemma_one_place(filter.relations, request, topic, original, t, i, u, j);
        let asked = request.topics[t].partitions[i];
        let virtuals = filter.relations[topic].virtuals[original];
        let middle = filter.filtered(topic, asked.partition, partition.records, waiting)->Ok_0.1;
        let criteria = filter.criteria[topic];
        let gained = if topic == name {
            gained_of(filter, request, topic, partition, vp)
        } else {
            Seq::empty()
        };
        assert(filter.relations[topic].virtuals.contains_key(original));
        let w0 = filter::waiting_for(waiting, name, vp);
        let w1 = filter::waiting_for(middle, name, vp);
        assert(w1 == w0 + gained) by {
            assert(w0 + Seq::<RecordView>::empty() =~= w0);
            if partition.records is Some && event_laws::has_a_query(criteria) {
                let records = batches::records_of(partition.records->Some_0);
                if records.len() > 0 {
                    let sent = event_laws::every_record_of_a_partition_is_filtered(
                        filter,
                        topic,
                        asked.partition,
                        partition.records->Some_0,
                        waiting,
                        vp,
                        name,
                    );
                    let own = event_laws::gains(
                        filter,
                        topic,
                        criteria,
                        virtuals,
                        asked.partition,
                        records,
                        vp,
                    );
                    let mark = event_laws::marker_for(
                        filter,
                        topic,
                        criteria,
                        virtuals,
                        asked.partition,
                        records,
                        vp,
                    );
                    assert(w0 + own + mark =~= w0 + (own + mark));
                }
            }
        }
        lemma_flushed(filter, topic, virtuals, asked, middle, name, vp);
        message_laws::records_wait_or_are_delivered(filter, topic, virtuals, asked, middle, vp);
        let w2 = filter::waiting_for(after.waiting, name, vp);
        if name == topic && virtuals.contains(vp) && vp != asked.partition
            && batches::size_of_all(w1) > filter.fetch_min_bytes {
            let lists = seq![w1];
            assert(lists.drop_last() =~= none);
            assert(joined(none) =~= Seq::<RecordView>::empty());
            assert(joined(lists) =~= w1);
            assert(joined(lists) + w2 =~= w1);
            assert(lists.len() == 1);
            lists
        } else {
            assert(joined(none) + w2 =~= w2);
            none
        }
    }
}

/// Nothing of the partitions of a topic is lost.
proof fn lemma_partitions_settled(
    filter: FilterView,
    request: FetchReadingView,
    topic: Seq<char>,
    partitions: Seq<FetchedPartitionView>,
    waiting: Waiting,
    name: Seq<char>,
    vp: i32,
) -> (lists: Seq<Seq<RecordView>>)
    requires
        lists_once(filter.relations),
        filter.processed_partitions(request, topic, partitions, waiting) is Ok,
    ensures
        ({
            let p = filter.processed_partitions(request, topic, partitions, waiting)->Ok_0;
            is_settled(
                waiting,
                gained_of_topic(filter, request, topic, partitions, name, vp),
                p.waiting,
                p.deliveries,
                name,
                vp,
                lists,
            )
        }),
    decreases partitions.len(),
{
    let gains = Seq::new(
        partitions.len(),
        |p: int| gained_of(filter, request, topic, partitions[p], vp),
    );
    if partitions.len() == 0 {
        lemma_nothing(waiting, waiting, name, vp);
        assert(joined(gains) =~= Seq::<RecordView>::empty());
        Seq::<Seq<RecordView>>::empty()
    } else {
        let before = partitions.drop_last();
        let a = lemma_partitions_settled(filter, request, topic, before, waiting, name, vp);
        let earlier = filter.processed_partitions(request, topic, before, waiting)->Ok_0;
        let b = lemma_partition_settled(
            filter,
            request,
            topic,
            partitions.last(),
            earlier.waiting,
            name,
            vp,
        );
        let last = filter.processed_partition(
            request,
            topic,
            partitions.last(),
            earlier.waiting,
        )->Ok_0.1;
        let first_gain = gained_of_topic(filter, request, topic, before, name, vp);
        let second_gain = if topic == name {
            gained_of(filter, request, topic, partitions.last(), vp)
        } else {
            Seq::empty()
        };
        lemma_settled(
            waiting,
            first_gain,
            earlier.waiting,
            earlier.deliveries,
            a,
            second_gain,
            last.waiting,
            last.deliveries,
            b,
            name,
            vp,
        );
        assert(gains.drop_last() =~= Seq::new(
            before.len(),
            |p: int| gained_of(filter, request, topic, before[p], vp),
        ));
        if topic != name {
            assert(first_gain + second_gain =~= Seq::<RecordView>::empty());
        }
        a + b
    }
}

/// No record of a response is lost on its way to a virtual partition, and none is doubled: the
/// lists that are delivered to it and what waits for it at the end are, in order, what waited
/// for it and what it gets of each partition of each topic.
pub proof fn nothing_of_a_response_is_lost(
    filter: FilterView,
    request: FetchReadingView,
    topics: Seq<FetchedTopicView>,
    waiting: Waiting,
    name: Seq<char>,
    vp: i32,
) -> (lists: Seq<Seq<RecordView>>)
    requires
        lists_once(filter.relations),
        filter.processed_topics(request, topics, waiting) is Ok,
    ensures
        ({
            let p = filter.processed_topics(request, topics, waiting)->Ok_0;
            is_settled(
                waiting,
                gained_of_all(filter, request, topics, name, vp),
                p.waiting,
                p.deliveries,
                name,
                vp,
                lists,
            )
        }),
    decreases topics.len(),
{
    let gains = Seq::new(
        topics.len(),
        |t: int| gained_of_topic(filter, request, topics[t].topic, topics[t].partitions, name, vp),
    );
    if topics.len() == 0 {
        lemma_nothing(waiting, waiting, name, vp);
        assert(joined(gains) =~= Seq::<RecordView>::empty());
        Seq::<Seq<RecordView>>::empty()
    } else {
        let before = topics.drop_last();
        let last = topics.last();
        let a = nothing_of_a_response_is_lost(filter, request, before, waiting, name, vp);
        let earlier = filter.processed_topics(request, before, waiting)->Ok_0;
        let b = lemma_partitions_settled(
            filter,
            request,
            last.topic,
            last.partitions,
            earlier.waiting,
            name,
            vp,
        );
        let p = filter.processed_partitions(
            request,
            last.topic,
            last.partitions,
            earlier.waiting,
        )->Ok_0;
        lemma_settled(
            waiting,
            gained_of_all(filter, request, before, name, vp),
            earlier.waiting,
            earlier.deliveries,
            a,
            gained_of_topic(filter, request, last.topic, last.partitions, name, vp),
            p.waiting,
            p.deliveries,
            b,
            name,
            vp,
        );
        assert(gains.drop_last() =~= Seq::new(
            before.len(),
            |t: int|
                gained_of_topic(filter, request, before[t].topic, before[t].partitions, name, vp),
        ));
        a + b
    }
}

/// A delivery is addressed to the virtual partition that it is for: it goes into the queue of
/// the partition where that is known, is kept under its name, and belongs to the session.
pub proof fn a_delivery_is_addressed(
    filter: FilterView,
    topic: Seq<char>,
    partition: i32,
    fetch_offset: i64,
    records: Seq<u8>,
)
    ensures
        ({
            let d = filter.delivery(topic, partition, fetch_offset, records);
            let queue = data::queue_key(topic, partition as int);
            &&& d.queue_id is Some <==> filter.queues.contains_key(queue)
            &&& d.queue_id is Some ==> d.queue_id == Some(filter.queues[queue])
            &&& d.key == data::records_key(topic, partition as int, fetch_offset as int)
            &&& d.data.topic == topic
            &&& d.data.partition == partition
            &&& d.data.fetch_offset == fetch_offset
            &&& d.data.records == records
            &&& d.data.session_id == filter.session_id
            &&& d.data.session_epoch == filter.session_epoch
        }),
{
}

/// What comes of fetched records: every partition of the response is filtered for what was
/// asked, nothing is lost on its way to a virtual partition, and the response, which is to be
/// completed from its start, belongs to the session that it names, or else to that of the
/// filter. The filter waits for no response any more.
pub proof fn fetched_records_are_filtered_and_dealt_out(
    filter: FilterView,
    payload: Seq<u8>,
    data_size: int,
    waiting: Waiting,
    contexts: Connections,
    reading: FetchReadingView,
    message: FetchMessageView,
    name: Seq<char>,
    vp: i32,
) -> (lists: Seq<Seq<RecordView>>)
    requires
        filter.table.origin_request is Some,
        kafka::response_of(filter.table.origin_request->Some_0, payload) is Ok,
        kafka::response_of(filter.table.origin_request->Some_0, payload)->Ok_0.response == Some(
            ReadResponseView::FetchResponse(message),
        ),
        filter.request == Some(AskedView::FetchRequest(reading)),
        filter.kafka_upstream(payload, data_size, waiting, contexts) is Ok,
        lists_once(filter.relations),
    ensures
        ({
            let step = filter.kafka_upstream(payload, data_size, waiting, contexts)->Ok_0;
            let session = if message.session_id > 0 {
                message.session_id
            } else {
                filter.session_id
            };
            &&& step.filter == (FilterView { request: None, session_id: session, ..filter })
            &&& step.contexts == contexts
            &&& step.outcome matches UpstreamView::Fetched { assembly, deliveries } && {
                &&& assembly.collected.len() == 0
                &&& assembly.topic == 0
                &&& assembly.partition == 0
                &&& assembly.message == (FetchMessageView {
                    session_id: session,
                    topics: assembly.message.topics,
                    ..message
                })
                &&& are_filtered(step.filter, reading, message.topics, assembly.message.topics)
                &&& is_settled(
                    waiting,
                    gained_of_all(step.filter, reading, message.topics, name, vp),
                    step.waiting,
                    deliveries,
                    name,
                    vp,
                    lists,
                )
            }
        }),
{
    let step = filter.kafka_upstream(payload, data_size, waiting, contexts)->Ok_0;
    every_partition_of_a_response_is_filtered(step.filter, reading, message.topics, waiting);
    nothing_of_a_response_is_lost(step.filter, reading, message.topics, waiting, name, vp)
}

} // verus!
