//! What the proxy promises of the messages that go through it.

use crate::batches;
use crate::codec::FetchPartition;
use crate::codec::MetadataPartition;
use crate::codec::MetadataTopicView;
use crate::codec::OffsetsPartition;
use crate::codec::PartitionOffsets;
use crate::codec::TopicOffsetsView;
use crate::data::Connections;
use crate::downstream;
use crate::fetching::DeliveryView;
use crate::filter;
use crate::filter::AskedTopicView;
use crate::filter::FilterError;
use crate::filter::FilterView;
use crate::filter::Waiting;
use crate::filter_laws;
use crate::hashing;
use crate::kafka;
use crate::kafka::ReadRequestView;
use crate::kafka::ReadResponseView;
use crate::partitions::Relation;
use crate::upstream;
use crate::upstream::UpstreamStep;
use crate::upstream::UpstreamView;
use vstd::prelude::*;

verus! {

/// The copies of a partition's metadata for its virtual partitions are among those that are
/// added for all partitions.
proof fn lemma_copied(
    relations: Map<Seq<char>, Relation>,
    topic: Seq<char>,
    partitions: Seq<MetadataPartition>,
    i: int,
    vp: i32,
)
    requires
        upstream::virtual_metadata(relations, topic, partitions) is Ok,
        0 <= i < partitions.len(),
        relations[topic].virtuals[partitions[i].partition_index].contains(vp),
    ensures
        upstream::virtual_metadata(relations, topic, partitions)->Ok_0.contains(
            MetadataPartition { partition_index: vp, ..partitions[i] },
        ),
    decreases partitions.len(),
{
    let before = partitions.drop_last();
    let copy = MetadataPartition { partition_index: vp, ..partitions[i] };
    let earlier = upstream::virtual_metadata(relations, topic, before)->Ok_0;
    let virtuals = relations[topic].virtuals[partitions.last().partition_index];
    let added = upstream::copies_for(partitions.last(), virtuals);
    let all = upstream::virtual_metadata(relations, topic, partitions)->Ok_0;
    if i < before.len() {
        lemma_copied(relations, topic, before, i, vp);
        let j = choose|j: int| 0 <= j < earlier.len() && earlier[j] == copy;
        assert(all[j] == copy);
    } else {
        let j = choose|j: int| 0 <= j < virtuals.len() && virtuals[j] == vp;
        assert(added[j] == copy);
        assert(all[earlier.len() + j] == copy);
    }
}

/// Clients are told of all virtual partitions: the metadata that they get lists the original
/// partitions as the broker lists them, and every virtual partition as a copy of its original
/// one.
pub proof fn metadata_lists_virtual_partitions(
    relations: Map<Seq<char>, Relation>,
    topics: Seq<MetadataTopicView>,
    t: int,
    i: int,
    vp: i32,
)
    requires
        upstream::with_virtuals(relations, topics) is Ok,
        0 <= t < topics.len(),
        0 <= i < topics[t].partitions.len(),
    ensures
        ({
            let told = upstream::with_virtuals(relations, topics)->Ok_0;
            let original = topics[t].partitions[i];
            &&& told.len() == topics.len()
            &&& told[t].name == topics[t].name
            &&& told[t].partitions.len() >= topics[t].partitions.len()
            &&& told[t].partitions[i] == original
            &&& relations[topics[t].name].virtuals[original.partition_index].contains(vp)
                ==> told[t].partitions.contains(
                MetadataPartition { partition_index: vp, ..original },
            )
        }),
    decreases topics.len(),
{
    let before = topics.drop_last();
    let told = upstream::with_virtuals(relations, topics)->Ok_0;
    if t < before.len() {
        metadata_lists_virtual_partitions(relations, before, t, i, vp);
    } else {
        let topic = topics.last();
        let original = topic.partitions[i];
        let added = upstream::virtual_metadata(relations, topic.name, topic.partitions)->Ok_0;
        lemma_told(relations, before);
        assert(told[t].partitions == topic.partitions + added);
        if relations[topic.name].virtuals[original.partition_index].contains(vp) {
            lemma_copied(relations, topic.name, topic.partitions, i, vp);
            let copy = MetadataPartition { partition_index: vp, ..original };
            let j = choose|j: int| 0 <= j < added.len() && added[j] == copy;
            assert(told[t].partitions[topic.partitions.len() + j] == copy);
        }
    }
}

/// As many topics are told of as there are.
proof fn lemma_told(relations: Map<Seq<char>, Relation>, topics: Seq<MetadataTopicView>)
    requires
        upstream::with_virtuals(relations, topics) is Ok,
    ensures
        upstream::with_virtuals(relations, topics)->Ok_0.len() == topics.len(),
    decreases topics.len(),
{
    if topics.len() > 0 {
        lemma_told(relations, topics.drop_last());
    }
}

/// Brokers are asked for the offsets of original partitions only: each virtual partition of a
/// request is replaced by its original one, and nothing else of it changes.
pub proof fn offsets_are_asked_of_original_partitions(
    relations: Map<Seq<char>, Relation>,
    topic: Seq<char>,
    partitions: Seq<OffsetsPartition>,
    i: int,
)
    requires
        downstream::with_originals(relations, topic, partitions) is Ok,
        0 <= i < partitions.len(),
    ensures
        ({
            let asked = downstream::with_originals(relations, topic, partitions)->Ok_0;
            &&& asked.len() == partitions.len()
            &&& relations.contains_key(topic)
            &&& relations[topic].originals.contains_key(partitions[i].partition_index)
            &&& asked[i] == (OffsetsPartition {
                partition_index: relations[topic].originals[partitions[i].partition_index],
                ..partitions[i]
            })
        }),
    decreases partitions.len(),
{
    let before = partitions.drop_last();
    if i < before.len() {
        offsets_are_asked_of_original_partitions(relations, topic, before, i);
    } else if before.len() > 0 {
        offsets_are_asked_of_original_partitions(relations, topic, before, 0);
    } else {
        assert(downstream::with_originals(relations, topic, before)->Ok_0.len() == 0);
    }
}

/// Clients get offsets for the virtual partitions that they asked for: those of the original
/// partitions.
pub proof fn offsets_are_told_of_virtual_partitions(
    relations: Map<Seq<char>, Relation>,
    topic: Seq<char>,
    asked: Seq<i32>,
    partitions: Seq<PartitionOffsets>,
    i: int,
)
    requires
        upstream::virtual_offsets(relations, topic, asked, partitions) is Ok,
        0 <= i < asked.len(),
    ensures
        ({
            let told = upstream::virtual_offsets(relations, topic, asked, partitions)->Ok_0;
            let original = relations[topic].originals[asked[i]];
            let found = upstream::offsets_of(partitions, original);
            &&& told.len() == asked.len()
            &&& relations.contains_key(topic)
            &&& relations[topic].originals.contains_key(asked[i])
            &&& found is Some
            &&& told[i] == (PartitionOffsets { partition_index: asked[i], ..found->Some_0 })
        }),
    decreases asked.len(),
{
    let before = asked.drop_last();
    if i < before.len() {
        offsets_are_told_of_virtual_partitions(relations, topic, before, partitions, i);
    } else if before.len() > 0 {
        offsets_are_told_of_virtual_partitions(relations, topic, before, partitions, 0);
    } else {
        assert(upstream::virtual_offsets(relations, topic, before, partitions)->Ok_0.len() == 0);
    }
}

/// Once the offsets of a topic have been asked for, the filter knows which source reads which
/// of its virtual partitions.
pub proof fn offsets_make_the_sources_known(
    filter: FilterView,
    asked: AskedTopicView,
    topics: Seq<TopicOffsetsView>,
)
    requires
        filter.offsets_answered_for(asked, topics) is Ok,
        filter.criteria[asked.name].num_sources > 0,
        filter.criteria[asked.name].num_partitions > 0,
        filter.relations.contains_key(asked.name),
        filter.relations[asked.name].is_table(
            filter.criteria[asked.name].num_sources as int,
            filter.criteria[asked.name].num_partitions as int,
        ),
    ensures
        filter_laws::knows_partitions(
            filter.offsets_answered_for(asked, topics)->Ok_0.filter,
            asked.name,
            filter.criteria[asked.name].num_sources as int,
            filter.criteria[asked.name].num_partitions as int,
        ),
{
    let ns = filter.criteria[asked.name].num_sources as int;
    let np = filter.criteria[asked.name].num_partitions as int;
    let known = filter.offsets_answered_for(asked, topics)->Ok_0.filter;
    assert(ns * np == np * ns) by (nonlinear_arith);
    assert forall|vp: i32| 0 <= vp < ns * np implies #[trigger] known.splits.contains_key(
        (asked.name, vp),
    ) && known.splits[(asked.name, vp)] == hashing::split_owner_of(asked.name, vp as int, ns) by {
        hashing::split_owners_go_round(asked.name, vp as int, ns);
    }
}

/// Requests that are not about records, offsets or metadata go out as they came, and nothing
/// waits because of them.
pub proof fn other_requests_go_out_unchanged(
    filter: FilterView,
    payload: Seq<u8>,
    contexts: Connections,
    now: u128,
)
    requires
        kafka::request_of(payload) is Ok,
        !(kafka::request_of(payload)->Ok_0.request matches Some(
            ReadRequestView::FetchRequest(_, _),
        )),
        !(kafka::request_of(payload)->Ok_0.request matches Some(
            ReadRequestView::ListOffsetsRequest(_),
        )),
        !(kafka::request_of(payload)->Ok_0.request matches Some(
            ReadRequestView::MetadataRequest(_),
        )),
    ensures
        filter.kafka_downstream(payload, contexts, now) is Ok,
        filter.kafka_downstream(payload, contexts, now)->Ok_0.outcome.replacement == Some(payload),
        !filter.kafka_downstream(payload, contexts, now)->Ok_0.outcome.pause,
        filter.kafka_downstream(payload, contexts, now)->Ok_0.contexts == contexts,
{
}

/// Responses that are not about records, offsets or metadata stay as they are, and so does
/// everything else.
pub proof fn other_responses_stay_unchanged(
    filter: FilterView,
    payload: Seq<u8>,
    data_size: int,
    waiting: Waiting,
    contexts: Connections,
)
    requires
        filter.table.origin_request is Some,
        kafka::response_of(filter.table.origin_request->Some_0, payload) is Ok,
        !(kafka::response_of(filter.table.origin_request->Some_0, payload)->Ok_0.response matches Some(
            ReadResponseView::FetchResponse(_),
        )),
        !(kafka::response_of(filter.table.origin_request->Some_0, payload)->Ok_0.response matches Some(
            ReadResponseView::ListOffsetsResponse(_),
        )),
        !(kafka::response_of(filter.table.origin_request->Some_0, payload)->Ok_0.response matches Some(
            ReadResponseView::MetadataResponse(_),
        )),
    ensures
        filter.kafka_upstream(payload, data_size, waiting, contexts) == Ok::<
            UpstreamStep,
            FilterError,
        >(UpstreamStep { filter, waiting, contexts, outcome: UpstreamView::Keep }),
{
}

/// Responses of any other protocol stay as they are.
pub proof fn other_protocols_stay_unchanged(
    filter: FilterView,
    bytes: Seq<u8>,
    data_size: usize,
    waiting: Waiting,
    contexts: Connections,
)
    requires
        filter.protocol is Default,
        filter.table.can_answer(filter.protocol, 0, bytes),
    ensures
        filter.upstream(bytes, data_size, waiting, contexts) is Ok,
        filter.upstream(bytes, data_size, waiting, contexts)->Ok_0.outcome == UpstreamView::Keep,
{
}

/// What is delivered to a virtual partition.
pub open spec fn delivered_to(deliveries: Seq<DeliveryView>, vp: i32) -> Seq<DeliveryView> {
    deliveries.filter(|d: DeliveryView| d.data.partition == vp)
}

/// No record is lost on its way to a virtual partition: what waits for it goes on waiting as it
/// is, or all of it is delivered at once.
pub proof fn records_wait_or_are_delivered(
    filter: FilterView,
    topic: Seq<char>,
    virtuals: Seq<i32>,
    asked: FetchPartition,
    waiting: Waiting,
    vp: i32,
)
    requires
        virtuals.no_duplicates(),
        filter.flushed(topic, virtuals, asked, waiting) is Ok,
    ensures
        ({
            let list = filter::waiting_for(waiting, topic, vp);
            let after = filter.flushed(topic, virtuals, asked, waiting)->Ok_0;
            if virtuals.contains(vp) && vp != asked.partition && batches::size_of_all(list)
                > filter.fetch_min_bytes {
                &&& filter::waiting_for(after.waiting, topic, vp).len() == 0
                &&& delivered_to(after.deliveries, vp) == seq![
                    filter.delivery(
                        topic,
                        vp,
                        asked.fetch_offset,
                        batches::records_encoded(list, 2, 0),
                    ),
                ]
            } else {
                &&& filter::waiting_for(after.waiting, topic, vp) == list
                &&& delivered_to(after.deliveries, vp) == Seq::<DeliveryView>::empty()
            }
        }),
    decreases virtuals.len(),
{
    reveal(Seq::filter);
    if virtuals.len() > 0 {
        let before = virtuals.drop_last();
        let last = virtuals.last();
        assert(before.no_duplicates());
        records_wait_or_are_delivered(filter, topic, before, asked, waiting, vp);
        assert(before.contains(vp) ==> virtuals.contains(vp)) by {
            if before.contains(vp) {
                let i = choose|i: int| 0 <= i < before.len() && before[i] == vp;
                assert(virtuals[i] == vp);
            }
        }
        assert(virtuals.contains(vp) && vp != last ==> before.contains(vp)) by {
            if virtuals.contains(vp) && vp != last {
                let i = choose|i: int| 0 <= i < virtuals.len() && virtuals[i] == vp;
                assert(before[i] == vp);
            }
        }
        if vp == last {
            assert(virtuals[virtuals.len() - 1] == vp);
            assert(!before.contains(vp));
        }
        let earlier = filter.flushed(topic, before, asked, waiting)->Ok_0;
        let after = filter.flushed(topic, virtuals, asked, waiting)->Ok_0;
        if after.deliveries != earlier.deliveries {
            assert(after.deliveries.drop_last() =~= earlier.deliveries);
            assert(after.deliveries.last().data.partition == last);
        }
    }
}

} // verus!
