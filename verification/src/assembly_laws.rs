//! What comes of a response to a fetch to which virtual partitions are added until none is
//! missing.

use crate::codec::FetchMessageView;
use crate::codec::FetchPartition;
use crate::codec::FetchReadingView;
use crate::codec::FetchTopicView;
use crate::codec::FetchedPartitionView;
use crate::codec::FetchedTopicView;
use crate::fetching;
use crate::fetching::AssemblyView;
use crate::fetching::PoppedView;
use crate::filter::FilterError;
use vstd::prelude::*;

verus! {

/// A response to which nothing has been added yet.
pub open spec fn fresh(message: FetchMessageView) -> AssemblyView {
    AssemblyView { message, collected: Seq::empty(), topic: 0, partition: 0 }
}

/// How far a response comes with what other contexts left, one after the other: it goes on to
/// the next partition that it does not have, gets what was left of it, and goes on.
pub open spec fn assembled(
    message: FetchMessageView,
    request: FetchReadingView,
    left: Seq<Option<PoppedView>>,
) -> Result<AssemblyView, FilterError>
    decreases left.len(),
{
    if left.len() == 0 {
        Ok(fresh(message).advanced(request))
    } else {
        match assembled(message, request, left.drop_last()) {
            Err(e) => Err(e),
            Ok(a) => if !a.is_waiting(request) {
                Ok(a)
            } else {
                match a.supplied(request, left.last()) {
                    Err(e) => Err(e),
                    Ok(b) => Ok(b.advanced(request)),
                }
            },
        }
    }
}

/// Whether no two topics of a fetch have the same name.
pub open spec fn names_differ(request: FetchReadingView) -> bool {
    forall|i: int, j: int|
        0 <= i < j < request.topics.len() ==> (#[trigger] request.topics[i]).topic != (
        #[trigger] request.topics[j]).topic
}

/// The partitions of a list that a response does not have under the name of a topic.
pub open spec fn absent(
    topics: Seq<FetchedTopicView>,
    name: Seq<char>,
    partitions: Seq<FetchPartition>,
) -> Seq<FetchPartition>
    decreases partitions.len(),
{
    if partitions.len() == 0 {
        Seq::empty()
    } else {
        let before = absent(topics, name, partitions.drop_last());
        if fetching::is_fetched(topics, name, partitions.last().partition) {
            before
        } else {
            before.push(partitions.last())
        }
    }
}

/// The number of partitions that a response does not have of the first topics of a fetch.
pub open spec fn absent_before(
    topics: Seq<FetchedTopicView>,
    asked: Seq<FetchTopicView>,
    n: int,
) -> int
    decreases n,
{
    if n <= 0 {
        0
    } else {
        absent_before(topics, asked, n - 1) + absent(
            topics,
            asked[n - 1].topic,
            asked[n - 1].partitions,
        ).len()
    }
}

/// The entry for a partition: what was left of it, or an empty one where nothing was.
pub open spec fn entry(popped: Option<PoppedView>, asked: FetchPartition) -> FetchedPartitionView {
    match popped {
        Some(PoppedView { partition: Some(p), .. }) => p,
        _ => fetching::missing_partition(asked),
    }
}

/// The entries for partitions, of which the first one gets what was left at a position.
pub open spec fn entries(
    left: Seq<Option<PoppedView>>,
    from: int,
    partitions: Seq<FetchPartition>,
) -> Seq<FetchedPartitionView> {
    Seq::new(partitions.len(), |j: int| entry(left[from + j], partitions[j]))
}

/// Whether a response holds what is owed for a topic of a fetch: an entry for each partition
/// that it did not have, and one more entry for the topic without partitions.
pub open spec fn holds_topic(
    message: FetchMessageView,
    request: FetchReadingView,
    left: Seq<Option<PoppedView>>,
    topics: Seq<FetchedTopicView>,
    k: int,
) -> bool {
    let asked = request.topics[k];
    let n = message.topics.len() as int;
    &&& topics[n + 2 * k] == FetchedTopicView {
        topic: asked.topic,
        partitions: entries(
            left,
            absent_before(message.topics, request.topics, k),
            absent(message.topics, asked.topic, asked.partitions),
        ),
        rest: None,
    }
    &&& topics[n + 2 * k + 1] == FetchedTopicView {
        topic: asked.topic,
        partitions: Seq::empty(),
        rest: None,
    }
}

/// Whether a response has come so far that it has used up so much of what was left.
spec fn has_come(
    message: FetchMessageView,
    request: FetchReadingView,
    left: Seq<Option<PoppedView>>,
    used: int,
    a: AssemblyView,
) -> bool {
    let n = message.topics.len() as int;
    let topics = a.message.topics;
    &&& 0 <= a.topic <= request.topics.len()
    &&& 0 <= a.partition
    &&& 0 <= used <= left.len()
    &&& a.message.rest == message.rest
    &&& topics.len() == n + 2 * a.topic
    &&& topics.take(n) == message.topics
    &&& forall|k: int|
        0 <= k < a.topic ==> #[trigger] holds_topic(message, request, left, topics, k)
    &&& used == absent_before(message.topics, request.topics, a.topic) + a.collected.len()
    &&& if a.topic < request.topics.len() {
        let asked = request.topics[a.topic];
        &&& a.partition <= asked.partitions.len()
        &&& a.collected == entries(
            left,
            absent_before(message.topics, request.topics, a.topic),
            absent(message.topics, asked.topic, asked.partitions.take(a.partition)),
        )
    } else {
        a.partition == 0 && a.collected.len() == 0
    }
}

/// Topics with other names behind those of a response do not change which partitions it has.
proof fn lemma_first_fetched(
    topics: Seq<FetchedTopicView>,
    more: Seq<FetchedTopicView>,
    name: Seq<char>,
)
    requires
        forall|i: int| 0 <= i < more.len() ==> (#[trigger] more[i]).topic != name,
    ensures
        fetching::first_fetched(topics + more, name) == fetching::first_fetched(topics, name),
    decreases topics.len() + more.len(),
{
    if topics.len() > 0 {
        assert((topics + more).skip(1) =~= topics.skip(1) + more);
        lemma_first_fetched(topics.skip(1), more, name);
    } else if more.len() > 0 {
        assert((topics + more).skip(1) =~= topics + more.skip(1));
        assert((topics + more)[0] == more[0]);
        lemma_first_fetched(topics, more.skip(1), name);
    } else {
        assert(topics + more =~= topics);
    }
}

/// A response that has come to a topic has the partitions of it that it had at first.
proof fn lemma_still_absent(
    message: FetchMessageView,
    request: FetchReadingView,
    left: Seq<Option<PoppedView>>,
    used: int,
    a: AssemblyView,
    partition: i32,
)
    requires
        names_differ(request),
        has_come(message, request, left, used, a),
        a.topic < request.topics.len(),
    ensures
        fetching::is_fetched(a.message.topics, request.topics[a.topic].topic, partition)
            == fetching::is_fetched(
            message.topics,
            request.topics[a.topic].topic,
            partition,
        ),
{
    let n = message.topics.len() as int;
    let topics = a.message.topics;
    let name = request.topics[a.topic].topic;
    let more = topics.skip(n);
    assert(topics =~= message.topics + more);
    assert forall|i: int| 0 <= i < more.len() implies (#[trigger] more[i]).topic != name by {
        let k = i / 2;
        assert(holds_topic(message, request, left, topics, k));
        assert(i == 2 * k || i == 2 * k + 1);
        assert(more[i] == topics[n + i]);
        assert(request.topics[k].topic != request.topics[a.topic].topic);
    }
    lemma_first_fetched(message.topics, more, name);
}

/// A response goes on without using up anything, to a partition that it does not have or to the
/// end.
proof fn lemma_advanced(
    message: FetchMessageView,
    request: FetchReadingView,
    left: Seq<Option<PoppedView>>,
    used: int,
    a: AssemblyView,
)
    requires
        names_differ(request),
        has_come(message, request, left, used, a),
    ensures
        has_come(message, request, left, used, a.advanced(request)),
        !a.advanced(request).is_done(request) ==> a.advanced(request).is_waiting(request)
            && !fetching::is_fetched(
            message.topics,
            a.advanced(request).current(request).topic,
            a.advanced(request).asked(request).partition,
        ),
    decreases
        request.topics.len() - a.topic,
        a.current(request).partitions.len() - a.partition,
{
    if !a.is_done(request) {
        let s = a.begun(request);
        let t = a.current(request);
        assert(has_come(message, request, left, used, s));
        if a.partition >= t.partitions.len() {
            let e = s.ended(request);
            let n = message.topics.len() as int;
            assert(t.partitions.take(a.partition) =~= t.partitions);
            assert(e.message.topics.take(n) =~= message.topics);
            assert forall|k: int| 0 <= k < e.topic implies #[trigger] holds_topic(
                message,
                request,
                left,
                e.message.topics,
                k,
            ) by {
                if k < s.topic {
                    assert(holds_topic(message, request, left, s.message.topics, k));
                }
            }
            if e.topic < request.topics.len() {
                let next = request.topics[e.topic];
                assert(next.partitions.take(0) =~= Seq::<FetchPartition>::empty());
                assert(e.collected =~= entries(
                    left,
                    absent_before(message.topics, request.topics, e.topic),
                    absent(message.topics, next.topic, next.partitions.take(0)),
                ));
            }
            assert(has_come(message, request, left, used, e));
            lemma_advanced(message, request, left, used, e);
        } else {
            let p = t.partitions[a.partition].partition;
            lemma_still_absent(message, request, left, used, s, p);
            if fetching::is_fetched(s.message.topics, t.topic, p) {
                let b = AssemblyView { partition: s.partition + 1, ..s };
                assert(t.partitions.take(b.partition).drop_last() =~= t.partitions.take(
                    s.partition,
                ));
                assert(t.partitions.take(b.partition).last() == t.partitions[s.partition]);
                assert(has_come(message, request, left, used, b));
                lemma_advanced(message, request, left, used, b);
            }
        }
    }
}

/// A response that waits for a partition uses up what was left of it.
proof fn lemma_supplied(
    message: FetchMessageView,
    request: FetchReadingView,
    left: Seq<Option<PoppedView>>,
    used: int,
    a: AssemblyView,
)
    requires
        has_come(message, request, left, used, a),
        a.is_waiting(request),
        !fetching::is_fetched(
            message.topics,
            a.current(request).topic,
            a.asked(request).partition,
        ),
        used < left.len(),
        a.supplied(request, left[used]) is Ok,
    ensures
        has_come(message, request, left, used + 1, a.supplied(request, left[used])->Ok_0),
{
    let b = a.supplied(request, left[used])->Ok_0;
    let t = a.current(request);
    let from = absent_before(message.topics, request.topics, a.topic);
    let before = absent(message.topics, t.topic, t.partitions.take(a.partition));
    let now = absent(message.topics, t.topic, t.partitions.take(b.partition));
    assert(t.partitions.take(b.partition).drop_last() =~= t.partitions.take(a.partition));
    assert(t.partitions.take(b.partition).last() == a.asked(request));
    assert(now == before.push(a.asked(request)));
    assert(b.collected =~= entries(left, from, now));
    assert forall|k: int| 0 <= k < b.topic implies #[trigger] holds_topic(
        message,
        request,
        left,
        b.message.topics,
        k,
    ) by {
        assert(holds_topic(message, request, left, a.message.topics, k));
    }
}

/// There are not fewer absent partitions in more topics.
proof fn lemma_absent_grows(
    topics: Seq<FetchedTopicView>,
    asked: Seq<FetchTopicView>,
    i: int,
    j: int,
)
    requires
        0 <= i <= j,
    ensures
        0 <= absent_before(topics, asked, i) <= absent_before(topics, asked, j),
    decreases j,
{
    if i < j {
        lemma_absent_grows(topics, asked, i, j - 1);
    } else if i > 0 {
        lemma_absent_grows(topics, asked, i - 1, j - 1);
    }
}

/// There are not fewer absent partitions in a longer list.
proof fn lemma_absent_in_more(
    topics: Seq<FetchedTopicView>,
    name: Seq<char>,
    partitions: Seq<FetchPartition>,
    i: int,
)
    requires
        0 <= i <= partitions.len(),
    ensures
        absent(topics, name, partitions.take(i)).len() <= absent(topics, name, partitions).len(),
    decreases partitions.len() - i,
{
    if i < partitions.len() {
        lemma_absent_in_more(topics, name, partitions, i + 1);
        assert(partitions.take(i + 1).drop_last() =~= partitions.take(i));
    } else {
        assert(partitions.take(i) =~= partitions);
    }
}

/// What was left behind what has been used up makes no difference.
proof fn lemma_more_left(
    message: FetchMessageView,
    request: FetchReadingView,
    left: Seq<Option<PoppedView>>,
    more: Seq<Option<PoppedView>>,
    used: int,
    a: AssemblyView,
)
    requires
        has_come(message, request, left, used, a),
        left.len() <= more.len(),
        forall|i: int| 0 <= i < left.len() ==> #[trigger] more[i] == left[i],
    ensures
        has_come(message, request, more, used, a),
{
    let topics = a.message.topics;
    assert forall|k: int| 0 <= k < a.topic implies #[trigger] holds_topic(
        message,
        request,
        more,
        topics,
        k,
    ) by {
        assert(holds_topic(message, request, left, topics, k));
        let asked = request.topics[k];
        let from = absent_before(message.topics, request.topics, k);
        let partitions = absent(message.topics, asked.topic, asked.partitions);
        lemma_absent_grows(message.topics, request.topics, k + 1, a.topic);
        lemma_absent_grows(message.topics, request.topics, 0, k);
        assert(entries(left, from, partitions) =~= entries(more, from, partitions));
    }
    lemma_absent_grows(message.topics, request.topics, 0, a.topic);
    if a.topic < request.topics.len() {
        let asked = request.topics[a.topic];
        let from = absent_before(message.topics, request.topics, a.topic);
        let partitions = absent(message.topics, asked.topic, asked.partitions.take(a.partition));
        assert(a.collected.len() == partitions.len());
        assert(entries(left, from, partitions) =~= entries(more, from, partitions));
    }
}

/// How far a run has come, and how much it has used up.
proof fn lemma_assembled(
    message: FetchMessageView,
    request: FetchReadingView,
    left: Seq<Option<PoppedView>>,
) -> (used: int)
    requires
        names_differ(request),
        assembled(message, request, left) is Ok,
    ensures
        has_come(message, request, left, used, assembled(message, request, left)->Ok_0),
        ({
            let a = assembled(message, request, left)->Ok_0;
            !a.is_done(request) ==> used == left.len() && a.is_waiting(request)
                && !fetching::is_fetched(
                message.topics,
                a.current(request).topic,
                a.asked(request).partition,
            )
        }),
    decreases left.len(),
{
    if left.len() == 0 {
        let a = fresh(message);
        assert(a.message.topics.take(message.topics.len() as int) =~= message.topics);
        if request.topics.len() > 0 {
            let asked = request.topics[0];
            assert(asked.partitions.take(0) =~= Seq::<FetchPartition>::empty());
            assert(a.collected =~= entries(
                left,
                0,
                absent(message.topics, asked.topic, asked.partitions.take(0)),
            ));
        }
        lemma_advanced(message, request, left, 0, a);
        0
    } else {
        let before = left.drop_last();
        let used = lemma_assembled(message, request, before);
        let a = assembled(message, request, before)->Ok_0;
        lemma_more_left(message, request, before, left, used, a);
        if a.is_waiting(request) {
            lemma_supplied(message, request, left, used, a);
            let b = a.supplied(request, left.last())->Ok_0;
            lemma_advanced(message, request, left, used + 1, b);
            used + 1
        } else {
            used
        }
    }
}

/// A response to a fetch is complete once something, or nothing, was found for each partition
/// that it did not have. It then has the topics that it had, and behind them two entries for
/// each topic of the fetch, in its order: one with exactly one entry for each partition of the
/// topic that it did not have, in the order of the fetch, and one without partitions. A
/// partition that it had gets no entry.
pub proof fn every_absent_partition_is_added_once(
    message: FetchMessageView,
    request: FetchReadingView,
    left: Seq<Option<PoppedView>>,
)
    requires
        names_differ(request),
        assembled(message, request, left) is Ok,
    ensures
        ({
            let a = assembled(message, request, left)->Ok_0;
            let n = message.topics.len() as int;
            &&& a.is_done(request) <==> left.len() >= absent_before(
                message.topics,
                request.topics,
                request.topics.len() as int,
            )
            &&& a.is_done(request) ==> {
                &&& a.message.topics.len() == n + 2 * request.topics.len()
                &&& a.message.topics.take(n) == message.topics
                &&& a.message.rest == message.rest
                &&& forall|k: int|
                    0 <= k < request.topics.len() ==> #[trigger] holds_topic(
                        message,
                        request,
                        left,
                        a.message.topics,
                        k,
                    )
            }
        }),
{
    let used = lemma_assembled(message, request, left);
    let a = assembled(message, request, left)->Ok_0;
    let all = request.topics.len() as int;
    if !a.is_done(request) {
        let t = a.current(request);
        lemma_absent_grows(message.topics, request.topics, a.topic + 1, all);
        lemma_absent_in_more(message.topics, t.topic, t.partitions, a.partition + 1);
        assert(t.partitions.take(a.partition + 1).drop_last() =~= t.partitions.take(a.partition));
        assert(t.partitions.take(a.partition + 1).last() == a.asked(request));
    }
}

} // verus!
