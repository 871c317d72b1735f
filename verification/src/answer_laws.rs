//! What a fetch is answered with: the records that other contexts left for it, partition by
//! partition.

use crate::assembly_laws;
use crate::codec;
use crate::codec::FetchMessageView;
use crate::codec::FetchPartition;
use crate::codec::FetchReadingView;
use crate::codec::FetchedTopicView;
use crate::codec::ResponseHeaderView;
use crate::data;
use crate::data::RequestDataView;
use crate::data::RequestPartitionView;
use crate::fetching;
use crate::fetching::AssemblyView;
use crate::fetching::PoppedView;
use crate::kafka;
use crate::root;
use crate::root::Responses;
use crate::root::SharedRecords;
use crate::wire;
use vstd::prelude::*;

verus! {

/// Whether there are records for a partition that is waited for.
pub open spec fn has_records(responses: Responses, partition: RequestPartitionView) -> bool {
    responses.contains_key(data::queue_key(partition.topic, partition.partition as int))
}

/// Whether an entry of a response holds the records of a partition that is waited for, and
/// nothing else.
pub open spec fn is_answer_for(
    responses: Responses,
    partition: RequestPartitionView,
    topic: FetchedTopicView,
) -> bool {
    let found = responses[data::queue_key(partition.topic, partition.partition as int)];
    &&& topic.topic == found.topic
    &&& topic.rest is None
    &&& topic.partitions.len() == 1
    &&& topic.partitions[0].partition_index == partition.partition
    &&& topic.partitions[0].records == Some(found.records)
    &&& topic.partitions[0].tags == Map::<i32, Seq<u8>>::empty()
    &&& topic.partitions[0].rest is None
}

/// A fetch that waits can be answered exactly if there are records for every partition that it
/// waits for. The answer then has an entry for each of them, in order, with its records, and
/// carries the number and the session of the fetch.
pub proof fn an_answer_has_the_records_of_every_partition(
    responses: Responses,
    request: RequestDataView,
) -> (message: FetchMessageView)
    ensures
        root::is_answerable(responses, request.partitions) <==> forall|i: int|
            0 <= i < request.partitions.len() ==> has_records(
                responses,
                #[trigger] request.partitions[i],
            ),
        message.error_code == 0,
        message.session_id == request.session_id,
        message.rest is None,
        message.topics.len() == request.partitions.len(),
        forall|i: int|
            0 <= i < request.partitions.len() ==> is_answer_for(
                responses,
                request.partitions[i],
                #[trigger] message.topics[i],
            ),
        root::answer_payload(responses, request) == kafka::framed(
            codec::response_header_encoded(
                ResponseHeaderView { correlation_id: request.correlation_id, tags: Map::empty() },
                1,
            ),
            codec::fetch_encoded(message, request.body_version),
        ),
{
    if root::is_answerable(responses, request.partitions) {
        assert forall|i: int| 0 <= i < request.partitions.len() implies has_records(
            responses,
            #[trigger] request.partitions[i],
        ) by {
            assert(responses.contains_key(root::queue_of(request.partitions[i])));
        }
    } else {
        let i = choose|i: int|
            0 <= i < request.partitions.len() && !responses.contains_key(
                #[trigger] root::queue_of(request.partitions[i]),
            );
        assert(!has_records(responses, request.partitions[i]));
    }
    root::answer_message(responses, request)
}

/// The search for records that are missing passes over exactly those partitions that have
/// records, up to the first one that has none.
pub proof fn the_first_partition_without_records_is_found(
    responses: Responses,
    partitions: Seq<RequestPartitionView>,
    from: int,
)
    requires
        0 <= from <= partitions.len(),
    ensures
        ({
            let p = root::first_missing(responses, partitions, from);
            &&& from <= p <= partitions.len()
            &&& p < partitions.len() ==> !has_records(responses, partitions[p])
            &&& forall|j: int| from <= j < p ==> has_records(responses, #[trigger] partitions[j])
        }),
    decreases partitions.len() - from,
{
    if from < partitions.len() && has_records(responses, partitions[from]) {
        the_first_partition_without_records_is_found(responses, partitions, from + 1);
    }
}

/// Records that were found are noted for their own partition and for no other one; where none
/// were found, nothing is.
pub proof fn found_records_are_noted(
    responses: Responses,
    found: SharedRecords,
    partition: RequestPartitionView,
)
    ensures
        ({
            let after = root::noted(responses, found);
            let key = data::queue_key(partition.topic, partition.partition as int);
            match found {
                SharedRecords::Found(records) => {
                    let own = data::queue_key(records.topic@, records.partition as int);
                    &&& after.contains_key(own)
                    &&& after[own] == records.deep_view()
                    &&& key != own ==> (has_records(after, partition) <==> has_records(
                        responses,
                        partition,
                    ))
                    &&& key != own && has_records(responses, partition) ==> after[key]
                        == responses[key]
                },
                _ => after == responses,
            }
        }),
{
}

/// Whether a partition is among those of the first topic of a response with a name.
pub open spec fn is_there(
    topics: Seq<FetchedTopicView>,
    name: Seq<char>,
    partition: i32,
    t: int,
    i: int,
) -> bool {
    &&& 0 <= t < topics.len()
    &&& topics[t].topic == name
    &&& forall|s: int| 0 <= s < t ==> (#[trigger] topics[s]).topic != name
    &&& 0 <= i < topics[t].partitions.len()
    &&& topics[t].partitions[i].partition_index == partition
}

proof fn lemma_first_fetched(topics: Seq<FetchedTopicView>, name: Seq<char>) -> (t: int)
    ensures
        match fetching::first_fetched(topics, name) {
            Some(found) => 0 <= t < topics.len() && topics[t] == found && found.topic == name
                && forall|s: int| 0 <= s < t ==> (#[trigger] topics[s]).topic != name,
            None => forall|s: int| 0 <= s < topics.len() ==> (#[trigger] topics[s]).topic != name,
        },
    decreases topics.len(),
{
    if topics.len() == 0 || topics[0].topic == name {
        0
    } else {
        let rest = topics.skip(1);
        let t = lemma_first_fetched(rest, name);
        assert forall|s: int|
            0 <= s < topics.len() && (s == 0 || rest[s - 1].topic != name) implies (
        #[trigger] topics[s]).topic != name by {
            if s > 0 {
                assert(topics[s] == rest[s - 1]);
            }
        }
        t + 1
    }
}

/// A response has a partition exactly if it stands, at any place, in the first of its topics with
/// the name.
pub proof fn a_partition_is_fetched_wherever_it_stands(
    topics: Seq<FetchedTopicView>,
    name: Seq<char>,
    partition: i32,
)
    ensures
        fetching::is_fetched(topics, name, partition) <==> exists|t: int, i: int| #[trigger]
            is_there(topics, name, partition, t, i),
{
    let t = lemma_first_fetched(topics, name);
    if fetching::is_fetched(topics, name, partition) {
        let found = fetching::first_fetched(topics, name)->Some_0;
        let i = choose|i: int|
            0 <= i < found.partitions.len() && (#[trigger] found.partitions[i]).partition_index
                == partition;
        assert(is_there(topics, name, partition, t, i));
    }
    if exists|u: int, i: int| #[trigger] is_there(topics, name, partition, u, i) {
        let (u, i) = choose|u: int, i: int| #[trigger] is_there(topics, name, partition, u, i);
        if fetching::first_fetched(topics, name) is None {
            assert(topics[u].topic != name);
        } else {
            if t < u {
                assert(topics[t].topic != name);
            } else if u < t {
                assert(topics[u].topic != name);
            }
            let found = fetching::first_fetched(topics, name)->Some_0;
            assert(found.partitions[i].partition_index == partition);
        }
    }
}

/// A partition of which nothing was left gets an entry without records, whose last offsets are
/// the one that was asked for.
pub proof fn a_partition_without_records_tells_its_offset(asked: FetchPartition)
    ensures
        ({
            let p = fetching::missing_partition(asked);
            &&& p.partition_index == asked.partition
            &&& p.records is None
            &&& p.tags == Map::<i32, Seq<u8>>::empty()
            &&& p.rest == Some(
                codec::partition_with(asked.fetch_offset, asked.fetch_offset, 0, None),
            )
        }),
{
}

/// Whether what was left of a partition can be added: a session that it names has four bytes.
pub open spec fn can_be_added(popped: Option<PoppedView>) -> bool {
    match popped {
        Some(PoppedView { partition: Some(p), .. }) => p.tags.contains_key(4) ==> p.tags[4].len()
            >= 4,
        _ => true,
    }
}

/// What was left of a partition is added behind those that were added before, and the response
/// belongs to its session, or to the one that it names; nothing else changes. Where nothing was
/// left, the session stays.
pub proof fn what_was_left_is_added(
    a: AssemblyView,
    request: FetchReadingView,
    popped: Option<PoppedView>,
)
    requires
        a.is_waiting(request),
    ensures
        a.supplied(request, popped) is Ok <==> can_be_added(popped),
        a.supplied(request, popped) is Err ==> a.supplied(request, popped)->Err_0
            is BadSharedData,
        a.supplied(request, popped) is Ok ==> {
            let b = a.supplied(request, popped)->Ok_0;
            let asked = request.topics[a.topic].partitions[a.partition];
            let part = assembly_laws::entry(popped, asked);
            &&& b.topic == a.topic
            &&& b.partition == a.partition + 1
            &&& b.collected == a.collected.push(part)
            &&& b.message == (FetchMessageView { session_id: b.message.session_id, ..a.message })
            &&& b.message.session_id == (if popped is None || popped->Some_0.partition is None {
                a.message.session_id
            } else if part.tags.contains_key(4) {
                wire::little_i32(part.tags[4]) as i32
            } else {
                popped->Some_0.session_id
            })
        },
{
}

/// A response gets as far as it can with what was left, wherever that can be added.
pub proof fn what_was_left_is_never_refused(
    message: FetchMessageView,
    request: FetchReadingView,
    left: Seq<Option<PoppedView>>,
)
    requires
        forall|k: int| 0 <= k < left.len() ==> can_be_added(#[trigger] left[k]),
    ensures
        assembly_laws::assembled(message, request, left) is Ok,
    decreases left.len(),
{
    if left.len() > 0 {
        let before = left.drop_last();
        assert forall|k: int| 0 <= k < before.len() implies can_be_added(#[trigger] before[k]) by {
            assert(before[k] == left[k]);
        }
        what_was_left_is_never_refused(message, request, before);
        assert(can_be_added(left[left.len() - 1]));
    }
}

/// Whether a response belongs to the session of a fetch, as soon as it has come to one of its
/// topics.
spec fn is_in_session(request: FetchReadingView, message: FetchMessageView, a: AssemblyView) -> bool {
    if a.topic == 0 && a.partition == 0 {
        a.message.session_id == message.session_id && a.message.error_code == message.error_code
            || (a.message.session_id == request.session_id && a.message.error_code == 0)
    } else {
        a.message.session_id == request.session_id && a.message.error_code == 0
    }
}

proof fn lemma_session(request: FetchReadingView, message: FetchMessageView, a: AssemblyView)
    requires
        0 <= a.topic,
        0 <= a.partition,
        is_in_session(request, message, a),
    ensures
        ({
            let b = a.advanced(request);
            &&& 0 <= b.topic
            &&& 0 <= b.partition
            &&& is_in_session(request, message, b)
            &&& a.topic < request.topics.len() ==> b.message.session_id == request.session_id
                && b.message.error_code == 0
        }),
    decreases
            request.topics.len() - a.topic,
            a.current(request).partitions.len() - a.partition,
{
    if !a.is_done(request) {
        let s = a.begun(request);
        let t = a.current(request);
        if a.partition >= t.partitions.len() {
            lemma_session(request, message, s.ended(request));
        } else if fetching::is_fetched(
            s.message.topics,
            t.topic,
            t.partitions[a.partition].partition,
        ) {
            lemma_session(
                request,
                message,
                AssemblyView { partition: s.partition + 1, ..s },
            );
        }
    }
}

proof fn lemma_in_session(
    message: FetchMessageView,
    request: FetchReadingView,
    left: Seq<Option<PoppedView>>,
)
    requires
        request.topics.len() > 0,
        forall|k: int|
            0 <= k < left.len() ==> (#[trigger] left[k]) is None || left[k]->Some_0.partition is None,
    ensures
        assembly_laws::assembled(message, request, left) is Ok,
        ({
            let a = assembly_laws::assembled(message, request, left)->Ok_0;
            &&& a.message.session_id == request.session_id
            &&& a.message.error_code == 0
            &&& 0 <= a.topic
            &&& 0 <= a.partition
            &&& is_in_session(request, message, a)
        }),
    decreases left.len(),
{
    if left.len() == 0 {
        lemma_session(request, message, assembly_laws::fresh(message));
    } else {
        let before = left.drop_last();
        assert forall|k: int| 0 <= k < before.len() implies (#[trigger] before[k]) is None
            || before[k]->Some_0.partition is None by {
            assert(before[k] == left[k]);
        }
        lemma_in_session(message, request, before);
        let a = assembly_laws::assembled(message, request, before)->Ok_0;
        let last = left[left.len() - 1];
        assert(last is None || last->Some_0.partition is None);
        if a.is_waiting(request) {
            let b = a.supplied(request, left.last())->Ok_0;
            lemma_session(request, message, b);
        }
    }
}

/// A response to a fetch with topics, for which other contexts left nothing, belongs to the
/// session of the fetch and tells of no error.
pub proof fn a_response_belongs_to_the_session_of_its_fetch(
    message: FetchMessageView,
    request: FetchReadingView,
    left: Seq<Option<PoppedView>>,
)
    requires
        request.topics.len() > 0,
        forall|k: int|
            0 <= k < left.len() ==> (#[trigger] left[k]) is None || left[k]->Some_0.partition is None,
    ensures
        assembly_laws::assembled(message, request, left) is Ok,
        ({
            let a = assembly_laws::assembled(message, request, left)->Ok_0;
            &&& a.message.session_id == request.session_id
            &&& a.message.error_code == 0
        }),
{
    lemma_in_session(message, request, left);
}

/// What another context left is read from its bytes: the number of the session, that of its
/// epoch, and the partition behind them.
pub proof fn what_was_left_is_read_from_its_bytes(bytes: Seq<u8>, version: i16)
    ensures
        fetching::popped_from(bytes, version) is Ok <==> bytes.len() >= 8,
        bytes.len() >= 8 ==> {
            let p = fetching::popped_from(bytes, version)->Ok_0;
            let session = bytes[0] * 0x1000000 + bytes[1] * 0x10000 + bytes[2] * 0x100 + bytes[3];
            let epoch = bytes[4] * 0x1000000 + bytes[5] * 0x10000 + bytes[6] * 0x100 + bytes[7];
            &&& session < 0x8000_0000 ==> p.session_id == session
            &&& session >= 0x8000_0000 ==> p.session_id == session - 0x1_0000_0000
            &&& epoch < 0x8000_0000 ==> p.session_epoch == epoch
            &&& epoch >= 0x8000_0000 ==> p.session_epoch == epoch - 0x1_0000_0000
            &&& p.partition == codec::partition_decoded(bytes.skip(8), version)
        },
        fetching::popped_from(bytes, version) is Err ==> fetching::popped_from(
            bytes,
            version,
        )->Err_0 is BadSharedData,
{
}

} // verus!
