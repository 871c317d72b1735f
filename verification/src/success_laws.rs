//! When the filter does its work: what it knows all it needs of is never refused.

use crate::batches;
use crate::batches::RecordView;
use crate::codec::FetchMessageView;
use crate::codec::FetchPartition;
use crate::codec::FetchReadingView;
use crate::codec::FetchTopicView;
use crate::codec::FetchedPartitionView;
use crate::codec::FetchedTopicView;
use crate::codec::OffsetsResponseView;
use crate::codec::TopicOffsetsView;
use crate::criteria;
use crate::criteria::CriteriaView;
use crate::data::Connections;
use crate::downstream;
use crate::downstream::SplitFetch;
use crate::event_laws;
use crate::fetch_laws;
use crate::fetching;
use crate::filter;
use crate::filter::AskedTopicView;
use crate::filter::AskedView;
use crate::filter::FilterView;
use crate::filter::Waiting;
use crate::hashing;
use crate::json;
use crate::kafka;
use crate::kafka::ReadRequestView;
use crate::kafka::ReadResponseView;
use crate::partitions::Relation;
use crate::request_laws;
use crate::response_laws;
use crate::upstream;
use vstd::prelude::*;

verus! {

/// Whether a partition of a fetch is known: its original one, and where it is itself the
/// original one, its virtual ones.
pub open spec fn can_be_fetched(
    relations: Map<Seq<char>, Relation>,
    topic: Seq<char>,
    partition: i32,
) -> bool {
    &&& request_laws::is_known(relations, topic, partition)
    &&& relations[topic].originals[partition] == partition ==> relations[topic].virtuals.contains_key(
        partition,
    )
}

proof fn lemma_splits_topic(
    filter: FilterView,
    topic: Seq<char>,
    partitions: Seq<FetchPartition>,
    start: SplitFetch,
)
    ensures
        filter.split_partitions(topic, partitions, start) is Ok <==> forall|i: int|
            0 <= i < partitions.len() ==> can_be_fetched(
                filter.relations,
                topic,
                (#[trigger] partitions[i]).partition,
            ),
    decreases partitions.len(),
{
    if partitions.len() > 0 {
        let before = partitions.drop_last();
        lemma_splits_topic(filter, topic, before, start);
        if forall|i: int|
            0 <= i < partitions.len() ==> can_be_fetched(
                filter.relations,
                topic,
                (#[trigger] partitions[i]).partition,
            ) {
            assert forall|i: int| 0 <= i < before.len() implies can_be_fetched(
                filter.relations,
                topic,
                (#[trigger] before[i]).partition,
            ) by {
                assert(before[i] == partitions[i]);
            }
            assert(can_be_fetched(
                filter.relations,
                topic,
                partitions[partitions.len() - 1].partition,
            ));
        }
        if filter.split_partitions(topic, partitions, start) is Ok {
            assert forall|i: int| 0 <= i < partitions.len() implies can_be_fetched(
                filter.relations,
                topic,
                (#[trigger] partitions[i]).partition,
            ) by {
                if i < before.len() {
                    assert(before[i] == partitions[i]);
                }
            }
        }
    }
}

/// Whether all partitions of a fetch are known.
pub open spec fn all_can_be_fetched(
    relations: Map<Seq<char>, Relation>,
    topics: Seq<FetchTopicView>,
) -> bool {
    forall|t: int, i: int|
        0 <= t < topics.len() && 0 <= i < topics[t].partitions.len() ==> can_be_fetched(
            relations,
            topics[t].topic,
            (#[trigger] topics[t].partitions[i]).partition,
        )
}

proof fn lemma_splits(filter: FilterView, topics: Seq<FetchTopicView>)
    ensures
        filter.split_fetch(topics) is Ok <==> all_can_be_fetched(filter.relations, topics),
    decreases topics.len(),
{
    if topics.len() > 0 {
        let before = topics.drop_last();
        let last = topics.last();
        lemma_splits(filter, before);
        if filter.split_fetch(before) is Ok {
            lemma_splits_topic(
                filter,
                last.topic,
                last.partitions,
                filter.split_fetch(before)->Ok_0,
            );
        }
        if all_can_be_fetched(filter.relations, topics) {
            assert forall|t: int, i: int|
                0 <= t < before.len() && 0 <= i < before[t].partitions.len() implies can_be_fetched(
                filter.relations,
                before[t].topic,
                (#[trigger] before[t].partitions[i]).partition,
            ) by {
                assert(can_be_fetched(
                    filter.relations,
                    topics[t].topic,
                    topics[t].partitions[i].partition,
                ));
            }
            assert forall|i: int| 0 <= i < last.partitions.len() implies can_be_fetched(
                filter.relations,
                last.topic,
                (#[trigger] last.partitions[i]).partition,
            ) by {
                let t = topics.len() - 1;
                assert(can_be_fetched(
                    filter.relations,
                    topics[t].topic,
                    topics[t].partitions[i].partition,
                ));
            }
        }
        if filter.split_fetch(topics) is Ok {
            assert forall|t: int, i: int|
                0 <= t < topics.len() && 0 <= i < topics[t].partitions.len() implies can_be_fetched(
                filter.relations,
                topics[t].topic,
                (#[trigger] topics[t].partitions[i]).partition,
            ) by {
                if t < before.len() {
                    assert(can_be_fetched(
                        filter.relations,
                        before[t].topic,
                        before[t].partitions[i].partition,
                    ));
                } else {
                    assert(can_be_fetched(
                        filter.relations,
                        last.topic,
                        last.partitions[i].partition,
                    ));
                }
            }
        }
    }
}

/// A fetch is taken exactly if every partition of every topic of it is known and its first topic
/// has a partition. Where it has no topics, those of the fetch before it count for the latter.
pub proof fn known_fetches_are_taken(
    filter: FilterView,
    payload: Seq<u8>,
    contexts: Connections,
    now: u128,
    reading: FetchReadingView,
    message: kafka_protocol::messages::FetchRequest,
)
    requires
        kafka::request_of(payload) is Ok,
        kafka::request_of(payload)->Ok_0.request == Some(
            ReadRequestView::FetchRequest(reading, message),
        ),
    ensures
        filter.kafka_downstream(payload, contexts, now) is Ok <==> {
            &&& all_can_be_fetched(filter.relations, reading.topics)
            &&& if reading.topics.len() > 0 {
                reading.topics[0].partitions.len() > 0
            } else {
                &&& filter.origin_fetch is Some
                &&& filter.origin_fetch->Some_0.topics.len() > 0
                &&& filter.origin_fetch->Some_0.topics[0].partitions.len() > 0
            }
        },
{
    let q = kafka::request_of(payload)->Ok_0;
    let f = FilterView {
        correlation_id: q.header.correlation_id,
        request: downstream::asked_of(q.request),
        request_header: Some(q.header),
        ..filter
    };
    let g = f.fetching(reading, q.header.api_version);
    lemma_splits(g, reading.topics);
    if all_can_be_fetched(filter.relations, reading.topics) && reading.topics.len() > 0
        && reading.topics[0].partitions.len() > 0 {
        assert(can_be_fetched(
            filter.relations,
            reading.topics[0].topic,
            reading.topics[0].partitions[0].partition,
        ));
    }
}

/// Whether the filter knows all it needs to find the source of an event: the slots can be
/// computed, and the sources of the virtual partitions are known.
pub open spec fn knows_slots(
    filter: FilterView,
    topic: Seq<char>,
    criteria: CriteriaView,
    virtuals: Seq<i32>,
    asked: i32,
) -> bool {
    &&& 0 < filter.max_parallelism
    &&& 0 < criteria.num_sources
    &&& criteria.num_sources * filter.max_parallelism <= i32::MAX
    &&& filter.splits.contains_key((topic, asked))
    &&& forall|i: int|
        0 <= i < virtuals.len() ==> filter.splits.contains_key((topic, #[trigger] virtuals[i]))
}

proof fn lemma_taker_known(
    splits: Map<(Seq<char>, i32), i32>,
    topic: Seq<char>,
    virtuals: Seq<i32>,
    asked: i32,
    slot: int,
)
    requires
        forall|i: int|
            0 <= i < virtuals.len() ==> splits.contains_key((topic, #[trigger] virtuals[i])),
    ensures
        filter::taker(splits, topic, virtuals, asked, slot) is Ok,
    decreases virtuals.len(),
{
    if virtuals.len() > 0 {
        let rest = virtuals.skip(1);
        assert forall|i: int| 0 <= i < rest.len() implies splits.contains_key(
            (topic, #[trigger] rest[i]),
        ) by {
            assert(rest[i] == virtuals[i + 1]);
        }
        assert(splits.contains_key((topic, virtuals[0])));
        lemma_taker_known(splits, topic, rest, asked, slot);
    }
}

/// A record without a value and an event are dispatched wherever the topic is not partitioned by
/// fields or the sources are known.
pub proof fn known_events_are_dispatched(
    filter: FilterView,
    topic: Seq<char>,
    criteria: CriteriaView,
    virtuals: Seq<i32>,
    asked: i32,
    record: RecordView,
)
    requires
        record.value is None || event_laws::is_event(record),
        criteria.partition.len() == 0 || knows_slots(filter, topic, criteria, virtuals, asked),
    ensures
        filter.dispatched(topic, criteria, virtuals, asked, record) is Ok,
{
    if record.value is Some && criteria.partition.len() > 0 {
        let bytes = record.value->Some_0;
        let value = json::json_parsed(bytes)->Some_0;
        let left = FilterView::projected(criteria, bytes, value);
        let hash = hashing::composite_hash(
            criteria::hash_inputs_of(left.1, criteria.partition),
        );
        let ns = criteria.num_sources as int;
        let max = filter.max_parallelism as int;
        let group = hashing::keygroup_of(hash, max);
        assert(0 <= group < max) by {
            hashing::slot_in_range(hash, ns, max);
        }
        assert(0 <= group * ns <= ns * max) by (nonlinear_arith)
            requires
                0 <= group < max,
                0 < ns,
        ;
        lemma_taker_known(
            filter.splits,
            topic,
            virtuals,
            asked,
            hashing::slot_of(hash, ns, max),
        );
    }
}

/// Whether a record has a place that brokers give: no offset and no time below zero.
pub open spec fn has_place(record: RecordView) -> bool {
    record.offset >= 0 && record.timestamp >= 0
}

/// Whether all records of a list have places.
pub open spec fn have_places(records: Seq<RecordView>) -> bool {
    forall|i: int| 0 <= i < records.len() ==> has_place(#[trigger] records[i])
}

/// Whether all records that wait have places.
pub open spec fn all_have_places(waiting: Waiting) -> bool {
    forall|k: (Seq<char>, i32)| #[trigger]
        waiting.contains_key(k) ==> have_places(waiting[k])
}

proof fn lemma_fits(records: Seq<RecordView>)
    requires
        have_places(records),
    ensures
        batches::distances_fit(records),
{
    assert forall|i: int, j: int|
        0 <= i < records.len() && 0 <= j < records.len() implies (#[trigger] records[i]).offset - (
    #[trigger] records[j]).offset <= i64::MAX && records[i].timestamp - records[j].timestamp
        <= i64::MAX by {
        assert(has_place(records[i]));
        assert(has_place(records[j]));
    }
}

proof fn lemma_flushes(
    filter: FilterView,
    topic: Seq<char>,
    virtuals: Seq<i32>,
    asked: FetchPartition,
    waiting: Waiting,
)
    requires
        all_have_places(waiting),
    ensures
        filter.flushed(topic, virtuals, asked, waiting) is Ok,
        all_have_places(filter.flushed(topic, virtuals, asked, waiting)->Ok_0.waiting),
    decreases virtuals.len(),
{
    if virtuals.len() > 0 {
        lemma_flushes(filter, topic, virtuals.drop_last(), asked, waiting);
        let before = filter.flushed(topic, virtuals.drop_last(), asked, waiting)->Ok_0;
        let list = filter::waiting_for(before.waiting, topic, virtuals.last());
        assert(have_places(list)) by {
            if before.waiting.contains_key((topic, virtuals.last())) {
                assert(have_places(before.waiting[(topic, virtuals.last())]));
            }
        }
        lemma_fits(list);
        let after = filter.flushed(topic, virtuals, asked, waiting)->Ok_0;
        assert forall|k: (Seq<char>, i32)| #[trigger]
            after.waiting.contains_key(k) implies have_places(after.waiting[k]) by {
            if k != (topic, virtuals.last()) {
                assert(before.waiting.contains_key(k));
            }
        }
    }
}

/// Whether all records that are to wait have places.
spec fn moved_have_places(moved: Seq<(i32, RecordView)>) -> bool {
    forall|i: int| 0 <= i < moved.len() ==> has_place((#[trigger] moved[i]).1)
}

proof fn lemma_moves(waiting: Waiting, topic: Seq<char>, moved: Seq<(i32, RecordView)>)
    requires
        all_have_places(waiting),
        moved_have_places(moved),
    ensures
        all_have_places(filter::with_moved(waiting, topic, moved)),
    decreases moved.len(),
{
    if moved.len() > 0 {
        let fewer = moved.drop_last();
        assert forall|i: int| 0 <= i < fewer.len() implies has_place((#[trigger] fewer[i]).1) by {
            assert(fewer[i] == moved[i]);
        }
        assert(has_place(moved[moved.len() - 1].1));
        lemma_moves(waiting, topic, fewer);
        let before = filter::with_moved(waiting, topic, fewer);
        let after = filter::with_moved(waiting, topic, moved);
        let key = (topic, moved.last().0);
        let list = filter::waiting_for(before, topic, moved.last().0);
        assert(have_places(list)) by {
            if before.contains_key(key) {
                assert(have_places(before[key]));
            }
        }
        assert forall|k: (Seq<char>, i32)| #[trigger] after.contains_key(k) implies have_places(
            after[k],
        ) by {
            if k == key {
                assert(after[k] == list.push(moved.last().1));
                assert forall|i: int| 0 <= i < after[k].len() implies has_place(
                    #[trigger] after[k][i],
                ) by {
                    if i < list.len() {
                        assert(after[k][i] == list[i]);
                    }
                }
            } else {
                assert(before.contains_key(k));
            }
        }
    }
}

proof fn lemma_marks(virtuals: Seq<i32>, asked: i32, taken_by: i32, marker: RecordView)
    requires
        has_place(marker),
    ensures
        moved_have_places(filter::markers(virtuals, asked, taken_by, marker)),
    decreases virtuals.len(),
{
    if virtuals.len() > 0 {
        lemma_marks(virtuals.drop_last(), asked, taken_by, marker);
        let before = filter::markers(virtuals.drop_last(), asked, taken_by, marker);
        let after = filter::markers(virtuals, asked, taken_by, marker);
        assert forall|i: int| 0 <= i < after.len() implies has_place((#[trigger] after[i]).1) by {
            if i < before.len() {
                assert(after[i] == before[i]);
            }
        }
    }
}

/// Whether the records of a list are events or have no value, and have places.
pub open spec fn can_be_read(records: Seq<RecordView>) -> bool {
    forall|i: int|
        0 <= i < records.len() ==> has_place(#[trigger] records[i]) && (records[i].value is None
            || event_laws::is_event(records[i]))
}

proof fn lemma_sorts(
    filter: FilterView,
    topic: Seq<char>,
    criteria: CriteriaView,
    virtuals: Seq<i32>,
    asked: i32,
    records: Seq<RecordView>,
)
    requires
        can_be_read(records),
        criteria.partition.len() == 0 || knows_slots(filter, topic, criteria, virtuals, asked),
    ensures
        filter.sorted(topic, criteria, virtuals, asked, records) is Ok,
        have_places(filter.sorted(topic, criteria, virtuals, asked, records)->Ok_0.kept),
        moved_have_places(filter.sorted(topic, criteria, virtuals, asked, records)->Ok_0.moved),
    decreases records.len(),
{
    if records.len() > 0 {
        let fewer = records.drop_last();
        let last = records.last();
        assert(can_be_read(fewer)) by {
            assert forall|i: int| 0 <= i < fewer.len() implies has_place(#[trigger] fewer[i]) && (
            fewer[i].value is None || event_laws::is_event(fewer[i])) by {
                assert(fewer[i] == records[i]);
            }
        }
        assert(last == records[records.len() - 1]);
        assert(has_place(last));
        lemma_sorts(filter, topic, criteria, virtuals, asked, fewer);
        known_events_are_dispatched(filter, topic, criteria, virtuals, asked, last);
        let before = filter.sorted(topic, criteria, virtuals, asked, fewer)->Ok_0;
        let after = filter.sorted(topic, criteria, virtuals, asked, records)->Ok_0;
        assert forall|i: int| 0 <= i < after.kept.len() implies has_place(
            #[trigger] after.kept[i],
        ) by {
            if i < before.kept.len() {
                assert(after.kept[i] == before.kept[i]);
            }
        }
        assert forall|i: int| 0 <= i < after.moved.len() implies has_place(
            (#[trigger] after.moved[i]).1,
        ) by {
            if i < before.moved.len() {
                assert(after.moved[i] == before.moved[i]);
            }
        }
    }
}

/// What is left of records with places has places.
proof fn lemma_left_places(records: Seq<RecordView>, pred: spec_fn(RecordView) -> bool)
    requires
        have_places(records),
    ensures
        have_places(records.filter(pred)),
    decreases records.len(),
{
    reveal(Seq::filter);
    if records.len() > 0 {
        let fewer = records.drop_last();
        assert forall|i: int| 0 <= i < fewer.len() implies has_place(#[trigger] fewer[i]) by {
            assert(fewer[i] == records[i]);
        }
        lemma_left_places(fewer, pred);
        assert(has_place(records[records.len() - 1]));
        let before = fewer.filter(pred);
        let after = records.filter(pred);
        assert forall|i: int| 0 <= i < after.len() implies has_place(#[trigger] after[i]) by {
            if i < before.len() {
                assert(after[i] == before[i]);
            }
        }
    }
}

proof fn lemma_kept_places(records: Seq<RecordView>, last: RecordView)
    requires
        have_places(records),
        has_place(last),
    ensures
        have_places(batches::with_last(records, last)),
{
    let says = |r: RecordView| batches::says_something(r);
    let kept = records.filter(says);
    let all = batches::with_last(records, last);
    lemma_left_places(records, says);
    assert forall|i: int| 0 <= i < all.len() implies has_place(#[trigger] all[i]) by {
        if i < kept.len() {
            assert(all[i] == kept[i]);
        }
    }
}

/// Whether the filter knows all it needs to filter records for a partition that was asked for.
pub open spec fn can_be_filtered(
    filter: FilterView,
    topic: Seq<char>,
    asked: i32,
    records: Option<Seq<u8>>,
) -> bool {
    let relation = filter.relations[topic];
    &&& filter.relations.contains_key(topic)
    &&& relation.originals.contains_key(asked)
    &&& relation.virtuals.contains_key(relation.originals[asked])
    &&& filter.criteria.contains_key(topic)
    &&& records is Some ==> can_be_read(batches::records_of(records->Some_0))
    &&& filter.criteria[topic].partition.len() == 0 || knows_slots(
        filter,
        topic,
        filter.criteria[topic],
        relation.virtuals[relation.originals[asked]],
        asked,
    )
}

proof fn lemma_filters(
    filter: FilterView,
    topic: Seq<char>,
    asked: i32,
    records: Option<Seq<u8>>,
    waiting: Waiting,
)
    requires
        can_be_filtered(filter, topic, asked, records),
        all_have_places(waiting),
    ensures
        filter.filtered(topic, asked, records, waiting) is Ok,
        all_have_places(filter.filtered(topic, asked, records, waiting)->Ok_0.1),
{
    let criteria = filter.criteria[topic];
    let relation = filter.relations[topic];
    let virtuals = relation.virtuals[relation.originals[asked]];
    if records is Some && !filter::filters_nothing(criteria) && batches::records_of(
        records->Some_0,
    ).len() > 0 {
        let list = batches::records_of(records->Some_0);
        let last = list.last();
        lemma_sorts(filter, topic, criteria, virtuals, asked, list);
        assert(last == list[list.len() - 1]);
        assert(has_place(last));
        let sorted = filter.sorted(topic, criteria, virtuals, asked, list)->Ok_0;
        lemma_kept_places(sorted.kept, filter::emptied(last));
        let marked = filter.marked(topic, criteria, virtuals, asked, list)->Ok_0;
        lemma_fits(marked.kept);
        assert(moved_have_places(marked.moved)) by {
            match filter.taken_by(topic, criteria, virtuals, asked, last) {
                Some(vp) => {
                    let more = filter::markers(virtuals, asked, vp, filter::emptied(last));
                    lemma_marks(virtuals, asked, vp, filter::emptied(last));
                    assert forall|i: int| 0 <= i < marked.moved.len() implies has_place(
                        (#[trigger] marked.moved[i]).1,
                    ) by {
                        if i < sorted.moved.len() {
                            assert(marked.moved[i] == sorted.moved[i]);
                        } else {
                            assert(marked.moved[i] == more[i - sorted.moved.len()]);
                        }
                    }
                },
                None => {},
            }
        }
        lemma_moves(waiting, topic, marked.moved);
    }
}

/// The search for a topic finds the first one.
proof fn lemma_finds_topic(topics: Seq<FetchTopicView>, name: Seq<char>, t: int)
    requires
        0 <= t < topics.len(),
        topics[t].topic == name,
        forall|s: int| 0 <= s < t ==> (#[trigger] topics[s]).topic != name,
    ensures
        fetching::first_topic(topics, name) == Some(topics[t]),
    decreases t,
{
    if t > 0 {
        let rest = topics.skip(1);
        assert(topics[0].topic != name);
        assert forall|s: int| 0 <= s < t - 1 implies (#[trigger] rest[s]).topic != name by {
            assert(rest[s] == topics[s + 1]);
        }
        assert(rest[t - 1] == topics[t]);
        lemma_finds_topic(rest, name, t - 1);
    }
}

proof fn lemma_finds_none(topics: Seq<FetchTopicView>, name: Seq<char>)
    requires
        forall|s: int| 0 <= s < topics.len() ==> (#[trigger] topics[s]).topic != name,
    ensures
        fetching::first_topic(topics, name) is None,
    decreases topics.len(),
{
    if topics.len() > 0 {
        let rest = topics.skip(1);
        assert(topics[0].topic != name);
        assert forall|s: int| 0 <= s < rest.len() implies (#[trigger] rest[s]).topic != name by {
            assert(rest[s] == topics[s + 1]);
        }
        lemma_finds_none(rest, name);
    }
}

/// The search for a partition finds the first one that belongs to an original one.
proof fn lemma_finds_asked(
    relations: Map<Seq<char>, Relation>,
    topic: Seq<char>,
    partitions: Seq<FetchPartition>,
    original: i32,
    i: int,
)
    requires
        relations.contains_key(topic),
        0 <= i < partitions.len(),
        forall|j: int|
            0 <= j <= i ==> relations[topic].originals.contains_key(
                (#[trigger] partitions[j]).partition,
            ),
        forall|j: int|
            0 <= j < i ==> relations[topic].originals[(#[trigger] partitions[j]).partition]
                != original,
        relations[topic].originals[partitions[i].partition] == original,
    ensures
        fetching::first_asked(relations, topic, partitions, original) is Ok,
        fetching::first_asked(relations, topic, partitions, original)->Ok_0 == partitions[i],
    decreases i,
{
    assert(relations[topic].originals.contains_key(partitions[0].partition));
    if i > 0 {
        let rest = partitions.skip(1);
        assert(relations[topic].originals[partitions[0].partition] != original);
        assert forall|j: int| 0 <= j <= i - 1 implies relations[topic].originals.contains_key(
            (#[trigger] rest[j]).partition,
        ) && (j < i - 1 ==> relations[topic].originals[rest[j].partition] != original) by {
            assert(rest[j] == partitions[j + 1]);
        }
        assert(rest[i - 1] == partitions[i]);
        lemma_finds_asked(relations, topic, rest, original, i - 1);
    }
}

/// Whether a partition of a response can be processed: its topic was not asked for, or it was
/// fetched for a partition for which its records can be filtered.
pub open spec fn can_be_processed(
    filter: FilterView,
    request: FetchReadingView,
    topic: Seq<char>,
    partition: FetchedPartitionView,
) -> bool {
    fetch_laws::asks_for(request, topic) ==> exists|t: int, i: int| #[trigger]
        fetch_laws::is_fetched_for(
            filter.relations,
            request,
            topic,
            partition.partition_index,
            t,
            i,
        ) && can_be_filtered(
            filter,
            topic,
            request.topics[t].partitions[i].partition,
            partition.records,
        )
}

proof fn lemma_processes(
    filter: FilterView,
    request: FetchReadingView,
    topic: Seq<char>,
    partition: FetchedPartitionView,
    waiting: Waiting,
)
    requires
        can_be_processed(filter, request, topic, partition),
        all_have_places(waiting),
    ensures
        filter.processed_partition(request, topic, partition, waiting) is Ok,
        all_have_places(
            filter.processed_partition(request, topic, partition, waiting)->Ok_0.1.waiting,
        ),
{
    if fetch_laws::asks_for(request, topic) {
        let (t, i) = choose|t: int, i: int| #[trigger]
            fetch_laws::is_fetched_for(
                filter.relations,
                request,
                topic,
                partition.partition_index,
                t,
                i,
            ) && can_be_filtered(
                filter,
                topic,
                request.topics[t].partitions[i].partition,
                partition.records,
            );
        let asked = request.topics[t].partitions[i];
        lemma_finds_topic(request.topics, topic, t);
        lemma_finds_asked(
            filter.relations,
            topic,
            request.topics[t].partitions,
            partition.partition_index,
            i,
        );
        lemma_filters(filter, topic, asked.partition, partition.records, waiting);
        let left = filter.filtered(topic, asked.partition, partition.records, waiting)->Ok_0;
        lemma_flushes(
            filter,
            topic,
            filter.siblings(topic, asked.partition)->Ok_0,
            asked,
            left.1,
        );
    } else {
        assert forall|s: int| 0 <= s < request.topics.len() implies (
        #[trigger] request.topics[s]).topic != topic by {
            if request.topics[s].topic == topic {
                assert(fetch_laws::asks_for(request, topic));
            }
        }
        lemma_finds_none(request.topics, topic);
    }
}

proof fn lemma_processes_all(
    filter: FilterView,
    request: FetchReadingView,
    topic: Seq<char>,
    partitions: Seq<FetchedPartitionView>,
    waiting: Waiting,
)
    requires
        all_have_places(waiting),
        forall|p: int|
            0 <= p < partitions.len() ==> can_be_processed(
                filter,
                request,
                topic,
                #[trigger] partitions[p],
            ),
    ensures
        filter.processed_partitions(request, topic, partitions, waiting) is Ok,
        all_have_places(
            filter.processed_partitions(request, topic, partitions, waiting)->Ok_0.waiting,
        ),
    decreases partitions.len(),
{
    if partitions.len() > 0 {
        let fewer = partitions.drop_last();
        assert forall|p: int| 0 <= p < fewer.len() implies can_be_processed(
            filter,
            request,
            topic,
            #[trigger] fewer[p],
        ) by {
            assert(fewer[p] == partitions[p]);
        }
        lemma_processes_all(filter, request, topic, fewer, waiting);
        let before = filter.processed_partitions(request, topic, fewer, waiting)->Ok_0;
        assert(can_be_processed(filter, request, topic, partitions[partitions.len() - 1]));
        lemma_processes(filter, request, topic, partitions.last(), before.waiting);
    }
}

/// Whether all partitions of a response can be processed.
pub open spec fn all_can_be_processed(
    filter: FilterView,
    request: FetchReadingView,
    topics: Seq<FetchedTopicView>,
) -> bool {
    forall|t: int, p: int|
        0 <= t < topics.len() && 0 <= p < topics[t].partitions.len() ==> can_be_processed(
            filter,
            request,
            topics[t].topic,
            #[trigger] topics[t].partitions[p],
        )
}

proof fn lemma_processes_topics(
    filter: FilterView,
    request: FetchReadingView,
    topics: Seq<FetchedTopicView>,
    waiting: Waiting,
)
    requires
        all_have_places(waiting),
        all_can_be_processed(filter, request, topics),
    ensures
        filter.processed_topics(request, topics, waiting) is Ok,
        all_have_places(filter.processed_topics(request, topics, waiting)->Ok_0.waiting),
    decreases topics.len(),
{
    if topics.len() > 0 {
        let fewer = topics.drop_last();
        let last = topics.last();
        assert forall|t: int, p: int|
            0 <= t < fewer.len() && 0 <= p < fewer[t].partitions.len() implies can_be_processed(
            filter,
            request,
            fewer[t].topic,
            #[trigger] fewer[t].partitions[p],
        ) by {
            assert(can_be_processed(
                filter,
                request,
                topics[t].topic,
                topics[t].partitions[p],
            ));
        }
        lemma_processes_topics(filter, request, fewer, waiting);
        let before = filter.processed_topics(request, fewer, waiting)->Ok_0;
        assert forall|p: int| 0 <= p < last.partitions.len() implies can_be_processed(
            filter,
            request,
            last.topic,
            #[trigger] last.partitions[p],
        ) by {
            let t = topics.len() - 1;
            assert(can_be_processed(
                filter,
                request,
                topics[t].topic,
                topics[t].partitions[p],
            ));
        }
        lemma_processes_all(filter, request, last.topic, last.partitions, before.waiting);
    }
}

/// Fetched records are taken wherever every partition of the response can be processed and all
/// records have places; what waits then has places again.
pub proof fn known_records_are_taken(
    filter: FilterView,
    payload: Seq<u8>,
    data_size: int,
    waiting: Waiting,
    contexts: Connections,
    reading: FetchReadingView,
    message: FetchMessageView,
)
    requires
        response_laws::is_read(filter, payload, ReadResponseView::FetchResponse(message)),
        filter.request == Some(AskedView::FetchRequest(reading)),
        filter.origin_fetch is Some,
        all_have_places(waiting),
        all_can_be_processed(filter, reading, message.topics),
    ensures
        filter.kafka_upstream(payload, data_size, waiting, contexts) is Ok,
        all_have_places(
            filter.kafka_upstream(payload, data_size, waiting, contexts)->Ok_0.waiting,
        ),
{
    let taken = FilterView { request: None, ..filter };
    let (f, m) = taken.in_session(message);
    assert forall|t: int, p: int|
        0 <= t < m.topics.len() && 0 <= p < m.topics[t].partitions.len() implies can_be_processed(
        f,
        reading,
        m.topics[t].topic,
        #[trigger] m.topics[t].partitions[p],
    ) by {
        let topic = m.topics[t].topic;
        let partition = m.topics[t].partitions[p];
        assert(can_be_processed(filter, reading, topic, message.topics[t].partitions[p]));
        if fetch_laws::asks_for(reading, topic) {
            let (u, i) = choose|u: int, i: int| #[trigger]
                fetch_laws::is_fetched_for(
                    filter.relations,
                    reading,
                    topic,
                    partition.partition_index,
                    u,
                    i,
                ) && can_be_filtered(
                    filter,
                    topic,
                    reading.topics[u].partitions[i].partition,
                    partition.records,
                );
            assert(can_be_filtered(
                f,
                topic,
                reading.topics[u].partitions[i].partition,
                partition.records,
            ));
            assert(fetch_laws::is_fetched_for(
                f.relations,
                reading,
                topic,
                partition.partition_index,
                u,
                i,
            ));
        }
    }
    lemma_processes_topics(f, reading, m.topics, waiting);
}

/// Whether offsets that were asked for can be told: the topic has criteria, stands in the
/// response, which has the offsets of all original partitions, and the readers of its virtual
/// partitions can be computed.
pub open spec fn can_be_told(
    filter: FilterView,
    asked: AskedTopicView,
    topics: Seq<TopicOffsetsView>,
) -> bool {
    let criteria = filter.criteria[asked.name];
    let n = criteria.num_partitions * criteria.num_sources;
    &&& filter.criteria.contains_key(asked.name)
    &&& exists|p: int| #[trigger]
        response_laws::is_first_topic(topics, asked.name, p) && response_laws::can_be_answered(
            filter.relations,
            asked,
            topics[p],
        )
    &&& 0 < criteria.num_sources
    &&& 0 <= n
    &&& n + criteria.num_sources <= i32::MAX
}

proof fn lemma_tells(filter: FilterView, asked: Seq<AskedTopicView>, topics: Seq<TopicOffsetsView>)
    requires
        response_laws::asks_once(asked),
        forall|a: int|
            0 <= a < asked.len() ==> can_be_told(filter, #[trigger] asked[a], topics),
    ensures
        filter.offsets_answered(asked, topics) is Ok,
    decreases asked.len(),
{
    if asked.len() > 0 {
        let fewer = asked.drop_last();
        let last = asked.last();
        let n = asked.len() - 1;
        assert(response_laws::asks_once(fewer)) by {
            assert forall|a: int, b: int| 0 <= a < b < fewer.len() implies (
            #[trigger] fewer[a]).name != (#[trigger] fewer[b]).name by {
                assert(asked[a].name != asked[b].name);
            }
        }
        assert forall|a: int| 0 <= a < fewer.len() implies can_be_told(
            filter,
            #[trigger] fewer[a],
            topics,
        ) by {
            assert(fewer[a] == asked[a]);
        }
        assert forall|a: int| 0 <= a < fewer.len() implies filter.criteria[(
        #[trigger] fewer[a]).name].num_sources > 0 by {
            assert(can_be_told(filter, fewer[a], topics));
        }
        lemma_tells(filter, fewer, topics);
        response_laws::lemma_offsets(filter, fewer, topics);
        let mid = filter.offsets_answered(fewer, topics)->Ok_0;
        assert(asked[n] == last);
        assert(can_be_told(filter, last, topics));
        let p = choose|p: int| #[trigger]
            response_laws::is_first_topic(topics, last.name, p) && response_laws::can_be_answered(
                filter.relations,
                last,
                topics[p],
            );
        response_laws::lemma_names_stay(filter, fewer, topics, mid.topics);
        assert(!response_laws::is_asked(fewer, last.name)) by {
            if response_laws::is_asked(fewer, last.name) {
                let a = choose|a: int|
                    0 <= a < fewer.len() && (#[trigger] fewer[a]).name == last.name;
                assert(asked[a].name != asked[n].name);
            }
        }
        assert(mid.topics[p] == topics[p]);
        response_laws::lemma_position(mid.topics, last.name);
        let q = upstream::topic_position(mid.topics, last.name);
        assert(q == p) by {
            assert(mid.topics[p].name == last.name);
            if q < p {
                assert(mid.topics[q].name == topics[q].name);
                assert(topics[q].name != last.name);
            } else if q > p {
                assert(mid.topics[p].name != last.name);
            }
        }
        response_laws::lemma_virtual_offsets(filter.relations, last, topics[p]);
        let ns = filter.criteria[last.name].num_sources as int;
        assert(0 <= hashing::start_index(last.name, ns) < ns);
    }
}

/// Offsets that a client asked for are told wherever they can be told of each of its topics.
pub proof fn known_offsets_are_told(
    filter: FilterView,
    payload: Seq<u8>,
    data_size: int,
    waiting: Waiting,
    contexts: Connections,
    message: OffsetsResponseView,
    asked: Seq<AskedTopicView>,
)
    requires
        response_laws::is_read(filter, payload, ReadResponseView::ListOffsetsResponse(message)),
        filter.request == Some(AskedView::ListOffsetsRequest(asked)),
        filter.request_header is Some,
        response_laws::asks_once(asked),
        forall|a: int|
            0 <= a < asked.len() ==> can_be_told(filter, #[trigger] asked[a], message.topics),
    ensures
        filter.kafka_upstream(payload, data_size, waiting, contexts) is Ok,
{
    let f = FilterView { request: None, ..filter };
    assert forall|a: int| 0 <= a < asked.len() implies can_be_told(
        f,
        #[trigger] asked[a],
        message.topics,
    ) by {
        assert(can_be_told(filter, asked[a], message.topics));
    }
    lemma_tells(f, asked, message.topics);
}

} // verus!
