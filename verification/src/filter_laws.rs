//! What the filter promises of all records.

use crate::batches;
use crate::batches::RecordView;
use crate::criteria;
use crate::criteria::CriteriaView;
use crate::criteria::Members;
use crate::filter;
use crate::filter::Dispatched;
use crate::filter::FilterError;
use crate::filter::FilterView;
use crate::filter::Waiting;
use crate::hashing;
use crate::json;
use crate::partitions;
use crate::routing;
use crate::text;
use vstd::arithmetic::div_mod;
use vstd::prelude::*;

verus! {

/// Whether the value of a record is one that the selections take.
pub open spec fn is_selected(criteria: CriteriaView, record: RecordView) -> bool {
    &&& record.value is Some
    &&& json::json_parsed(record.value->Some_0) is Some
    &&& filter::selected(
        criteria.selections,
        json::json_parsed(record.value->Some_0)->Some_0.0,
    )
}

/// What the projection leaves of the value of a record: its bytes, and its members.
pub open spec fn projection(criteria: CriteriaView, record: RecordView) -> (Seq<u8>, Members) {
    FilterView::projected(
        criteria,
        record.value->Some_0,
        json::json_parsed(record.value->Some_0)->Some_0,
    )
}

/// Whether a record is what is left of a record that was selected: its value is what the
/// projection left, and its key is the same or missing.
pub open spec fn is_left_of(criteria: CriteriaView, record: RecordView, left: RecordView) -> bool {
    &&& is_selected(criteria, record)
    &&& left.value == Some(projection(criteria, record).0)
    &&& left.key is None || left.key == record.key
    &&& left.offset == record.offset
}

/// Whether a virtual partition gets this of a record.
spec fn moves(
    filter: FilterView,
    topic: Seq<char>,
    criteria: CriteriaView,
    virtuals: Seq<i32>,
    asked: i32,
    record: RecordView,
    moved: (i32, RecordView),
) -> bool {
    match filter.dispatched(topic, criteria, virtuals, asked, record) {
        Ok(d) => d.moved == Some(moved),
        Err(_) => false,
    }
}

/// What is kept of a list of records is what is kept of each of them.
proof fn lemma_kept(
    filter: FilterView,
    topic: Seq<char>,
    criteria: CriteriaView,
    virtuals: Seq<i32>,
    asked: i32,
    records: Seq<RecordView>,
    i: int,
)
    requires
        filter.sorted(topic, criteria, virtuals, asked, records) is Ok,
        0 <= i < records.len(),
    ensures
        ({
            let s = filter.sorted(topic, criteria, virtuals, asked, records)->Ok_0;
            let d = filter.dispatched(topic, criteria, virtuals, asked, records[i]);
            s.kept.len() == records.len() && d is Ok && s.kept[i] == d->Ok_0.record
        }),
    decreases records.len(),
{
    let before = records.drop_last();
    if before.len() > 0 {
        lemma_kept(
            filter,
            topic,
            criteria,
            virtuals,
            asked,
            before,
            if i < before.len() {
                i
            } else {
                0
            },
        );
    } else {
        assert(filter.sorted(topic, criteria, virtuals, asked, before)->Ok_0.kept.len() == 0);
    }
}

/// What virtual partitions get of a list of records, they get of one of them.
proof fn lemma_moved(
    filter: FilterView,
    topic: Seq<char>,
    criteria: CriteriaView,
    virtuals: Seq<i32>,
    asked: i32,
    records: Seq<RecordView>,
    j: int,
) -> (i: int)
    requires
        filter.sorted(topic, criteria, virtuals, asked, records) is Ok,
        0 <= j < filter.sorted(topic, criteria, virtuals, asked, records)->Ok_0.moved.len(),
    ensures
        0 <= i < records.len(),
        moves(
            filter,
            topic,
            criteria,
            virtuals,
            asked,
            records[i],
            filter.sorted(topic, criteria, virtuals, asked, records)->Ok_0.moved[j],
        ),
    decreases records.len(),
{
    let before = records.drop_last();
    if j < filter.sorted(topic, criteria, virtuals, asked, before)->Ok_0.moved.len() {
        lemma_moved(filter, topic, criteria, virtuals, asked, before, j)
    } else {
        records.len() - 1
    }
}

/// Markers are all the same.
proof fn lemma_markers(virtuals: Seq<i32>, asked: i32, taken_by: i32, marker: RecordView)
    ensures
        forall|j: int|
            0 <= j < filter::markers(virtuals, asked, taken_by, marker).len() ==> (
            #[trigger] filter::markers(virtuals, asked, taken_by, marker)[j]).1 == marker,
    decreases virtuals.len(),
{
    if virtuals.len() > 0 {
        lemma_markers(virtuals.drop_last(), asked, taken_by, marker);
    }
}

/// A record that is sent with a key or a value, be it to the partition that was asked for or to
/// another virtual partition, is what is left of a record that was selected.
pub proof fn only_selected_records_are_sent(
    filter: FilterView,
    topic: Seq<char>,
    criteria: CriteriaView,
    virtuals: Seq<i32>,
    asked: i32,
    records: Seq<RecordView>,
    left: RecordView,
)
    requires
        records.len() > 0,
        filter.marked(topic, criteria, virtuals, asked, records) is Ok,
        batches::says_something(left),
        filter.marked(topic, criteria, virtuals, asked, records)->Ok_0.kept.contains(left)
            || exists|j: int|
            0 <= j < filter.marked(topic, criteria, virtuals, asked, records)->Ok_0.moved.len()
                && (#[trigger] filter.marked(
                topic,
                criteria,
                virtuals,
                asked,
                records,
            )->Ok_0.moved[j]).1 == left,
    ensures
        exists|i: int|
            0 <= i < records.len() && is_left_of(criteria, #[trigger] records[i], left),
{
    let last = records.last();
    let marker = filter::emptied(last);
    let sorted = filter.sorted(topic, criteria, virtuals, asked, records)->Ok_0;
    let marked = filter.marked(topic, criteria, virtuals, asked, records)->Ok_0;
    lemma_kept(filter, topic, criteria, virtuals, asked, records, 0);
    if marked.kept.contains(left) {
        let j = choose|j: int| 0 <= j < marked.kept.len() && marked.kept[j] == left;
        if filter.remove_empty_records {
            let keep = |r: RecordView| batches::says_something(r);
            let kept = sorted.kept.filter(keep);
            assert(kept.contains(left)) by {
                if j < kept.len() {
                    assert(kept[j] == left);
                }
            }
            sorted.kept.lemma_filter_contains_rev(keep, left);
        }
        let i = choose|i: int| 0 <= i < sorted.kept.len() && sorted.kept[i] == left;
        lemma_kept(filter, topic, criteria, virtuals, asked, records, i);
        assert(is_left_of(criteria, records[i], left));
    } else {
        let j = choose|j: int|
            0 <= j < marked.moved.len() && (#[trigger] marked.moved[j]).1 == left;
        match filter.taken_by(topic, criteria, virtuals, asked, last) {
            Some(vp) => {
                lemma_markers(virtuals, asked, vp, marker);
                if j >= sorted.moved.len() {
                    let k = j - sorted.moved.len();
                    assert(marked.moved[j] == filter::markers(virtuals, asked, vp, marker)[k]);
                }
            },
            None => {},
        }
        assert(marked.moved[j] == sorted.moved[j]);
        let i = lemma_moved(filter, topic, criteria, virtuals, asked, records, j);
        assert(is_left_of(criteria, records[i], left));
    }
}

/// The projection leaves nothing of an object but members that are listed, and leaves those as
/// they are. Where nothing is listed, it leaves all.
pub proof fn only_listed_members_are_left(criteria: CriteriaView, record: RecordView, name: Seq<char>)
    requires
        is_selected(criteria, record),
        json::json_parsed(record.value->Some_0)->Some_0.0 is Some,
    ensures
        ({
            let before = json::json_parsed(record.value->Some_0)->Some_0.0->Some_0;
            let left = projection(criteria, record);
            if criteria.projections.len() == 0 {
                left == (record.value->Some_0, Some(before))
            } else {
                &&& left.1 is Some
                &&& left.1->Some_0.contains_key(name) <==> before.contains_key(name)
                    && text::texts(criteria.projections).contains(name)
                &&& left.1->Some_0.contains_key(name) ==> left.1->Some_0[name] == before[name]
                &&& left.0 == routing::text_bytes(json::json_object_text(left.1->Some_0))
            }
        }),
{
}

/// However many records are removed, the reader is told how far the partition has come: the
/// last record that it gets has the last offset.
pub proof fn the_last_offset_is_always_told(
    filter: FilterView,
    topic: Seq<char>,
    criteria: CriteriaView,
    virtuals: Seq<i32>,
    asked: i32,
    records: Seq<RecordView>,
)
    requires
        records.len() > 0,
        filter.marked(topic, criteria, virtuals, asked, records) is Ok,
    ensures
        filter.marked(topic, criteria, virtuals, asked, records)->Ok_0.kept.len() > 0,
        filter.marked(topic, criteria, virtuals, asked, records)->Ok_0.kept.last().offset
            == records.last().offset,
{
    lemma_kept(filter, topic, criteria, virtuals, asked, records, records.len() - 1);
    let sorted = filter.sorted(topic, criteria, virtuals, asked, records)->Ok_0;
    assert(sorted.kept.last().offset == records.last().offset);
}

/// What a virtual partition gets of two lists is what it gets of the first, then of the second.
proof fn lemma_moved_to_appended(
    moved: Seq<(i32, RecordView)>,
    more: Seq<(i32, RecordView)>,
    vp: i32,
)
    ensures
        moved_to(moved + more, vp) == moved_to(moved, vp) + moved_to(more, vp),
    decreases more.len(),
{
    if more.len() > 0 {
        lemma_moved_to_appended(moved, more.drop_last(), vp);
        assert((moved + more).drop_last() =~= moved + more.drop_last());
        assert((moved + more).last() == more.last());
        if more.last().0 == vp {
            assert(moved_to(moved + more, vp) =~= moved_to(moved, vp) + moved_to(more, vp));
        }
    } else {
        assert(moved + more =~= moved);
        assert(moved_to(moved, vp) + moved_to(more, vp) =~= moved_to(moved, vp));
    }
}

/// A marker goes once to every virtual partition but two.
proof fn lemma_marked_once(
    virtuals: Seq<i32>,
    asked: i32,
    taken_by: i32,
    marker: RecordView,
    vp: i32,
)
    requires
        virtuals.no_duplicates(),
    ensures
        moved_to(filter::markers(virtuals, asked, taken_by, marker), vp) == (if virtuals.contains(vp)
            && vp != asked && vp != taken_by {
            seq![marker]
        } else {
            Seq::<RecordView>::empty()
        }),
    decreases virtuals.len(),
{
    if virtuals.len() > 0 {
        let before = virtuals.drop_last();
        let tail = virtuals.last();
        assert(before.no_duplicates());
        lemma_marked_once(before, asked, taken_by, marker, vp);
        assert(virtuals.contains(vp) <==> before.contains(vp) || vp == tail) by {
            if before.contains(vp) {
                let i = choose|i: int| 0 <= i < before.len() && before[i] == vp;
                assert(virtuals[i] == vp);
            }
            if vp == tail {
                assert(virtuals[virtuals.len() - 1] == vp);
            }
            if virtuals.contains(vp) && vp != tail {
                let i = choose|i: int| 0 <= i < virtuals.len() && virtuals[i] == vp;
                assert(before[i] == vp);
            }
        }
        let earlier = filter::markers(before, asked, taken_by, marker);
        let all = filter::markers(virtuals, asked, taken_by, marker);
        if tail != asked && tail != taken_by {
            assert(all.drop_last() =~= earlier);
            if tail == vp {
                assert(!before.contains(vp));
                assert(moved_to(all, vp) =~= seq![marker]);
            }
        }
    }
}

/// Where a virtual partition takes the last record, every other one, but for the one that was
/// asked for, gets its offset, in a record without key and value, once and behind all that it
/// gets otherwise. Where none takes it, none gets more than its own records.
pub proof fn the_last_record_marks_the_other_partitions(
    filter: FilterView,
    topic: Seq<char>,
    criteria: CriteriaView,
    virtuals: Seq<i32>,
    asked: i32,
    records: Seq<RecordView>,
    vp: i32,
)
    requires
        records.len() > 0,
        virtuals.no_duplicates(),
        filter.marked(topic, criteria, virtuals, asked, records) is Ok,
    ensures
        ({
            let own = moved_to(
                filter.sorted(topic, criteria, virtuals, asked, records)->Ok_0.moved,
                vp,
            );
            let all = moved_to(
                filter.marked(topic, criteria, virtuals, asked, records)->Ok_0.moved,
                vp,
            );
            match filter.taken_by(topic, criteria, virtuals, asked, records.last()) {
                Some(taker) if virtuals.contains(vp) && vp != asked && vp != taker => all
                    == own.push(filter::emptied(records.last())),
                _ => all == own,
            }
        }),
{
    let last = records.last();
    let marker = filter::emptied(last);
    let sorted = filter.sorted(topic, criteria, virtuals, asked, records)->Ok_0;
    match filter.taken_by(topic, criteria, virtuals, asked, last) {
        Some(taker) => {
            let markers = filter::markers(virtuals, asked, taker, marker);
            lemma_moved_to_appended(sorted.moved, markers, vp);
            lemma_marked_once(virtuals, asked, taker, marker, vp);
            assert(moved_to(sorted.moved, vp) + seq![marker] =~= moved_to(sorted.moved, vp).push(
                marker,
            ));
            assert(moved_to(sorted.moved, vp) + Seq::<RecordView>::empty() =~= moved_to(
                sorted.moved,
                vp,
            ));
        },
        None => {},
    }
}

/// Without anything to filter by, the records of a partition stay as they are.
pub proof fn without_criteria_nothing_changes(
    filter: FilterView,
    topic: Seq<char>,
    asked: i32,
    records: Option<Seq<u8>>,
    waiting: Waiting,
)
    requires
        filter.siblings(topic, asked) is Ok,
        filter.criteria.contains_key(topic),
        filter::filters_nothing(filter.criteria[topic]),
    ensures
        filter.filtered(topic, asked, records, waiting) == Ok::<
            (Option<Seq<u8>>, Waiting),
            FilterError,
        >((records, waiting)),
{
}

/// The records that a virtual partition gets, in order.
pub open spec fn moved_to(moved: Seq<(i32, RecordView)>, vp: i32) -> Seq<RecordView>
    decreases moved.len(),
{
    if moved.len() == 0 {
        Seq::empty()
    } else if moved.last().0 == vp {
        moved_to(moved.drop_last(), vp).push(moved.last().1)
    } else {
        moved_to(moved.drop_last(), vp)
    }
}

/// Records wait in the order in which they came: those that a virtual partition gets go behind
/// those that already wait for it, and nothing else changes.
pub proof fn waiting_records_keep_their_order(
    waiting: Waiting,
    topic: Seq<char>,
    moved: Seq<(i32, RecordView)>,
    name: Seq<char>,
    vp: i32,
)
    ensures
        filter::waiting_for(filter::with_moved(waiting, topic, moved), topic, vp)
            == filter::waiting_for(waiting, topic, vp) + moved_to(moved, vp),
        name != topic ==> filter::waiting_for(
            filter::with_moved(waiting, topic, moved),
            name,
            vp,
        ) == filter::waiting_for(waiting, name, vp),
    decreases moved.len(),
{
    if moved.len() > 0 {
        waiting_records_keep_their_order(waiting, topic, moved.drop_last(), name, vp);
        let before = filter::with_moved(waiting, topic, moved.drop_last());
        if moved.last().0 == vp {
            assert(filter::waiting_for(before, topic, vp).push(moved.last().1)
                =~= filter::waiting_for(waiting, topic, vp) + moved_to(moved, vp));
        }
    } else {
        assert(filter::waiting_for(waiting, topic, vp) + moved_to(moved, vp)
            =~= filter::waiting_for(waiting, topic, vp));
    }
}

/// Whether the filter knows which source reads which virtual partition of a topic, and which
/// original partition each of them belongs to.
pub open spec fn knows_partitions(
    filter: FilterView,
    topic: Seq<char>,
    num_sources: int,
    num_partitions: int,
) -> bool {
    &&& filter.relations.contains_key(topic)
    &&& filter.relations[topic].is_table(num_sources, num_partitions)
    &&& forall|vp: i32|
        0 <= vp < num_sources * num_partitions ==> #[trigger] filter.splits.contains_key(
            (topic, vp),
        ) && filter.splits[(topic, vp)] == hashing::split_owner_of(topic, vp as int, num_sources)
}

/// Exactly one virtual partition of an original partition is read by the source with a slot.
pub proof fn one_sibling_has_the_slot(
    filter: FilterView,
    topic: Seq<char>,
    num_sources: int,
    num_partitions: int,
    asked: i32,
    slot: int,
) -> (vp: i32)
    requires
        0 < num_sources,
        0 < num_partitions,
        num_sources * num_partitions <= i32::MAX,
        knows_partitions(filter, topic, num_sources, num_partitions),
        0 <= asked < num_sources * num_partitions,
        0 <= slot < num_sources,
    ensures
        filter.siblings(topic, asked) is Ok,
        filter.siblings(topic, asked)->Ok_0.contains(asked),
        filter.siblings(topic, asked)->Ok_0.contains(vp),
        filter.splits[(topic, vp)] == slot,
        forall|other: i32| #[trigger]
            filter.siblings(topic, asked)->Ok_0.contains(other) ==> filter.splits.contains_key(
                (topic, other),
            ) && (filter.splits[(topic, other)] == slot ==> other == vp),
{
    let n = num_sources * num_partitions;
    let p = partitions::original_of(num_sources, num_partitions, asked as int);
    let relation = filter.relations[topic];
    let virtuals = partitions::virtuals_below(num_sources, num_partitions, n, p);
    let start = hashing::start_index(topic, num_sources);
    let source = (slot - start) % num_sources;
    partitions::virtuals_are_those_of_the_original(num_sources, num_partitions, n, p);
    assert(relation.originals.contains_key(asked));
    assert(relation.originals[asked] == p);
    assert(virtuals.contains(asked));
    assert(0 <= p < num_partitions) by {
        div_mod::lemma_mod_bound(
            asked as int % num_sources + asked as int / num_sources,
            num_partitions,
        );
    }
    assert(relation.virtuals.contains_key(p as i32));
    assert(filter.siblings(topic, asked) == Ok::<Seq<i32>, FilterError>(virtuals));
    div_mod::lemma_mod_bound(slot - start, num_sources);
    partitions::each_source_covers_each_partition(num_sources, num_partitions, source, p);
    let vp = choose|vp: int|
        partitions::is_virtual(num_sources, num_partitions, vp) && vp % num_sources == source
            && #[trigger] partitions::original_of(num_sources, num_partitions, vp) == p;
    assert(virtuals.contains(vp as i32));
    lemma_owner(topic, vp, num_sources, slot);
    assert(filter.splits.contains_key((topic, vp as i32)));
    assert forall|other: i32| #[trigger] virtuals.contains(other) implies filter.splits.contains_key(
        (topic, other),
    ) && (filter.splits[(topic, other)] == slot ==> other == vp) by {
        assert(filter.splits.contains_key((topic, other)));
        lemma_owner(topic, other as int, num_sources, slot);
        if filter.splits[(topic, other)] == slot {
            assert(partitions::original_of(num_sources, num_partitions, other as int) == p);
        }
    }
    vp as i32
}

/// A partition is read by the source with a slot exactly if it is so many partitions away from
/// the start.
proof fn lemma_owner(topic: Seq<char>, vp: int, num_sources: int, slot: int)
    requires
        0 < num_sources,
        0 <= vp,
        0 <= slot < num_sources,
    ensures
        hashing::split_owner_of(topic, vp, num_sources) == slot <==> vp % num_sources == (slot
            - hashing::start_index(topic, num_sources)) % num_sources,
{
    let start = hashing::start_index(topic, num_sources);
    let a = num_sources;
    assert(0 <= start);
    assert(hashing::split_owner_of(topic, vp, a) == (start + vp) % a);
    if (start + vp) % a == slot {
        div_mod::lemma_sub_mod_noop(start + vp, start, a);
        div_mod::lemma_sub_mod_noop(slot, start, a);
        div_mod::lemma_small_mod(slot as nat, a as nat);
        assert((start + vp - start) % a == (slot - start) % a);
    }
    if vp % a == (slot - start) % a {
        div_mod::lemma_add_mod_noop(start, vp, a);
        div_mod::lemma_add_mod_noop(start, slot - start, a);
        div_mod::lemma_small_mod(slot as nat, a as nat);
        assert((start + vp) % a == (start + (slot - start)) % a);
    }
}

/// The virtual partition whose source has the slot takes a record, if it is not the one that
/// was asked for.
proof fn lemma_taker(
    splits: Map<(Seq<char>, i32), i32>,
    topic: Seq<char>,
    virtuals: Seq<i32>,
    asked: i32,
    slot: int,
    vp: i32,
)
    requires
        forall|other: i32| #[trigger]
            virtuals.contains(other) ==> splits.contains_key((topic, other)) && (splits[(
                topic,
                other,
            )] == slot ==> other == vp),
        splits[(topic, vp)] == slot,
    ensures
        filter::taker(splits, topic, virtuals, asked, slot) == Ok::<Option<i32>, FilterError>(
            if virtuals.contains(vp) && vp != asked {
                Some(vp)
            } else {
                None
            },
        ),
    decreases virtuals.len(),
{
    if virtuals.len() > 0 {
        let rest = virtuals.skip(1);
        assert(virtuals.contains(virtuals[0]));
        assert forall|other: i32| #[trigger] rest.contains(other) implies virtuals.contains(other) by {
            let i = choose|i: int| 0 <= i < rest.len() && rest[i] == other;
            assert(virtuals[i + 1] == other);
        }
        lemma_taker(splits, topic, rest, asked, slot, vp);
        if virtuals.contains(vp) && virtuals[0] != vp {
            let i = choose|i: int| 0 <= i < virtuals.len() && virtuals[i] == vp;
            assert(rest[i - 1] == vp);
        }
    }
}

/// The slot of a record that was selected, by what the projection left of it.
pub open spec fn slot_of_record(filter: FilterView, criteria: CriteriaView, record: RecordView) -> int {
    hashing::slot_of(
        hashing::composite_hash(
            criteria::hash_inputs_of(projection(criteria, record).1, criteria.partition),
        ),
        criteria.num_sources as int,
        filter.max_parallelism as int,
    )
}

/// Whether the slot of a record that was selected is computed within 32 bits.
pub open spec fn slot_fits(filter: FilterView, criteria: CriteriaView, record: RecordView) -> bool {
    hashing::slot_fits(
        hashing::composite_hash(
            criteria::hash_inputs_of(projection(criteria, record).1, criteria.partition),
        ),
        criteria.num_sources as int,
        filter.max_parallelism as int,
    )
}

/// Every record that is selected goes to exactly one virtual partition of its original
/// partition: to the one whose source has its slot.
pub proof fn every_selected_record_is_delivered_once(
    filter: FilterView,
    topic: Seq<char>,
    criteria: CriteriaView,
    asked: i32,
    record: RecordView,
) -> (vp: i32)
    requires
        criteria.partition.len() > 0,
        0 < criteria.num_sources,
        0 < criteria.num_partitions,
        criteria.num_sources * criteria.num_partitions <= i32::MAX,
        0 < filter.max_parallelism,
        knows_partitions(
            filter,
            topic,
            criteria.num_sources as int,
            criteria.num_partitions as int,
        ),
        0 <= asked < criteria.num_sources * criteria.num_partitions,
        is_selected(criteria, record),
        slot_fits(filter, criteria, record),
    ensures
        filter.siblings(topic, asked) is Ok,
        filter.siblings(topic, asked)->Ok_0.contains(vp),
        filter.splits[(topic, vp)] == slot_of_record(filter, criteria, record),
        ({
            let left = RecordView {
                value: Some(projection(criteria, record).0),
                ..filter::emptied(record)
            };
            filter.dispatched(
                topic,
                criteria,
                filter.siblings(topic, asked)->Ok_0,
                asked,
                record,
            ) == Ok::<Dispatched, FilterError>(
                if vp == asked {
                    Dispatched { record: left, moved: None }
                } else {
                    Dispatched { record: filter::emptied(record), moved: Some((vp, left)) }
                },
            )
        }),
{
    let hash = hashing::composite_hash(
        criteria::hash_inputs_of(projection(criteria, record).1, criteria.partition),
    );
    let slot = slot_of_record(filter, criteria, record);
    hashing::slot_in_range(hash, criteria.num_sources as int, filter.max_parallelism as int);
    let vp = one_sibling_has_the_slot(
        filter,
        topic,
        criteria.num_sources as int,
        criteria.num_partitions as int,
        asked,
        slot,
    );
    lemma_taker(
        filter.splits,
        topic,
        filter.siblings(topic, asked)->Ok_0,
        asked,
        slot,
        vp,
    );
    vp
}

} // verus!
