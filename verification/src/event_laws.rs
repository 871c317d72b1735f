//! What becomes of each event: which ones are sent, what is left of them, and who gets them.
//!
//! The laws of this module speak of single selections, members, records and virtual partitions,
//! and of what the filter hands out for them.

use crate::batches;
use crate::batches::RecordView;
use crate::criteria;
use crate::criteria::CriteriaView;
use crate::criteria::FieldView;
use crate::criteria::FilterEntryView;
use crate::criteria::Members;
use crate::filter;
use crate::filter::Dispatched;
use crate::filter::FilterError;
use crate::filter::FilterView;
use crate::filter::Waiting;
use crate::filter_laws;
use crate::frames;
use crate::hashing;
use crate::hashing::HashInput;
use crate::json;
use crate::pattern;
use crate::text;
use vstd::prelude::*;

verus! {

/// All elements of lists, one list after the other.
pub open spec fn joined<A>(lists: Seq<Seq<A>>) -> Seq<A>
    decreases lists.len(),
{
    if lists.len() == 0 {
        Seq::empty()
    } else {
        joined(lists.drop_last()) + lists.last()
    }
}

/// The characters of a member that a pattern is held against: those of a string, the text of a
/// number, a truth value or null, and none of an array or an object.
pub open spec fn shown(text: Seq<char>) -> Seq<char> {
    let kind = json::kind_of_text(text);
    if kind is Array || kind is Object {
        Seq::empty()
    } else if kind is String {
        match json::json_string(text) {
            Some(s) => s,
            None => Seq::empty(),
        }
    } else {
        text
    }
}

/// Whether a selection refuses an event: the event has the attribute, and the pattern does not
/// match it.
pub open spec fn refuses(selection: FilterEntryView, members: Members) -> bool {
    &&& selection.attribute is Some
    &&& selection.pattern is Some
    &&& members is Some
    &&& members->Some_0.contains_key(selection.attribute->Some_0)
    &&& !pattern::regex_matches(
        selection.pattern->Some_0,
        vstd::utf8::encode_utf8(shown(members->Some_0[selection.attribute->Some_0])),
    )
}

/// Whether one of the selections refuses an event.
pub open spec fn is_refused(selections: Seq<FilterEntryView>, members: Members) -> bool {
    exists|i: int| 0 <= i < selections.len() && refuses(#[trigger] selections[i], members)
}

/// Whether a record is an event: its value is in JSON.
pub open spec fn is_event(record: RecordView) -> bool {
    record.value is Some && json::json_parsed(record.value->Some_0) is Some
}

/// The members of an event.
pub open spec fn members_of(record: RecordView) -> Members {
    json::json_parsed(record.value->Some_0)->Some_0.0
}

/// Whether a name is among those of a list.
pub open spec fn is_listed(names: Seq<String>, name: Seq<char>) -> bool {
    exists|i: int| 0 <= i < names.len() && (#[trigger] names[i])@ == name
}

/// The members that a query reads of an event: all where it lists none.
pub open spec fn read_members(criteria: CriteriaView, members: Members) -> Members {
    if criteria.projections.len() == 0 || members is None {
        members
    } else {
        let m = members->Some_0;
        Some(
            Map::new(
                |name: Seq<char>| m.contains_key(name) && is_listed(criteria.projections, name),
                |name: Seq<char>| m[name],
            ),
        )
    }
}

/// The bytes that a query reads of an event: the bytes themselves where it lists no members,
/// the text of an object with the listed members, and the text of anything else.
pub open spec fn read_bytes(criteria: CriteriaView, bytes: Seq<u8>) -> Seq<u8> {
    let value = json::json_parsed(bytes)->Some_0;
    if criteria.projections.len() == 0 {
        bytes
    } else if value.0 is Some {
        vstd::utf8::encode_utf8(json::json_object_text(read_members(criteria, value.0)->Some_0))
    } else {
        vstd::utf8::encode_utf8(value.1)
    }
}

/// A record that only tells its place.
pub open spec fn place_of(record: RecordView) -> RecordView {
    RecordView { key: None, value: None, ..record }
}

/// What an event is sent as to a source: without its key, and with what the query reads.
pub open spec fn sent_as(criteria: CriteriaView, record: RecordView) -> RecordView {
    RecordView {
        key: None,
        value: Some(read_bytes(criteria, record.value->Some_0)),
        ..record
    }
}

/// What an event that has a field is hashed by: the characters of a string or none, an integer
/// or zero.
pub open spec fn key_part(field: FieldView, text: Seq<char>) -> HashInput {
    let number: i64 = match json::json_integer(text) {
        Some(n) => n,
        None => 0,
    };
    if field.field_type is String {
        HashInput::Str(
            match json::json_string(text) {
                Some(s) => s,
                None => Seq::empty(),
            },
        )
    } else if field.field_type is Long {
        HashInput::Long(number)
    } else {
        HashInput::Integer(number as i32)
    }
}

/// What the fields of an event are hashed as, each on its own: nothing for one that it does not
/// have.
pub open spec fn key_parts(members: Members, fields: Seq<FieldView>) -> Seq<HashInput> {
    joined(
        Seq::new(
            fields.len(),
            |i: int|
                if members is Some && members->Some_0.contains_key(fields[i].attribute) {
                    seq![key_part(fields[i], members->Some_0[fields[i].attribute])]
                } else {
                    Seq::<HashInput>::empty()
                },
        ),
    )
}

/// The slot of an event, by all fields that the topic is partitioned by.
pub open spec fn slot_by_fields(filter: FilterView, criteria: CriteriaView, record: RecordView) -> int {
    hashing::slot_of(
        hashing::composite_hash(
            key_parts(read_members(criteria, members_of(record)), criteria.partition),
        ),
        criteria.num_sources as int,
        filter.max_parallelism as int,
    )
}

/// All fields of an event that are hashed are those that it has, in order.
pub proof fn every_field_is_hashed(members: Members, fields: Seq<FieldView>)
    ensures
        criteria::hash_inputs_of(members, fields) == key_parts(members, fields),
    decreases fields.len(),
{
    let all = Seq::new(
        fields.len(),
        |i: int|
            if members is Some && members->Some_0.contains_key(fields[i].attribute) {
                seq![key_part(fields[i], members->Some_0[fields[i].attribute])]
            } else {
                Seq::<HashInput>::empty()
            },
    );
    if fields.len() > 0 {
        let before = fields.drop_last();
        every_field_is_hashed(members, before);
        let earlier = Seq::new(
            before.len(),
            |i: int|
                if members is Some && members->Some_0.contains_key(before[i].attribute) {
                    seq![key_part(before[i], members->Some_0[before[i].attribute])]
                } else {
                    Seq::<HashInput>::empty()
                },
        );
        assert(all.drop_last() =~= earlier);
        let field = fields.last();
        if members is Some && members->Some_0.contains_key(field.attribute) {
            assert(criteria::hash_inputs_of(members, fields) =~= criteria::hash_inputs_of(
                members,
                before,
            ) + seq![key_part(field, members->Some_0[field.attribute])]);
        } else {
            assert(joined(earlier) + Seq::<HashInput>::empty() =~= joined(earlier));
        }
    }
}

/// Every part of a key changes its hash code: that of a key with one part more is the hash code
/// of the key and that of the part, exclusive-or one another. So no part is left out, and their
/// order makes no difference.
pub proof fn every_part_of_a_key_counts(values: Seq<HashInput>, value: HashInput)
    ensures
        hashing::composite_hash(Seq::empty()) == 0,
        hashing::composite_hash(values.push(value)) == hashing::composite_hash(values)
            ^ hashing::java_hash_of(value),
{
    assert(values.push(value).drop_last() =~= values);
}

/// An event is selected exactly if no selection refuses it, each on its own.
pub proof fn an_event_is_selected_unless_a_selection_refuses_it(
    selections: Seq<FilterEntryView>,
    members: Members,
)
    ensures
        filter::selected(selections, members) <==> !is_refused(selections, members),
{
    assert forall|i: int| 0 <= i < selections.len() implies filter::takes(
        #[trigger] selections[i],
        members,
    ) == !refuses(selections[i], members) by {
        let s = selections[i];
        if s.attribute is Some && members is Some && members->Some_0.contains_key(
            s.attribute->Some_0,
        ) {
            let text = members->Some_0[s.attribute->Some_0];
            assert(filter::matched_text(text) == shown(text));
        }
    }
    if !filter::selected(selections, members) {
        let i = choose|i: int|
            0 <= i < selections.len() && !filter::takes(#[trigger] selections[i], members);
        assert(refuses(selections[i], members));
    }
    if is_refused(selections, members) {
        let i = choose|i: int|
            0 <= i < selections.len() && refuses(#[trigger] selections[i], members);
        assert(!filter::takes(selections[i], members));
    }
}

/// What the projection leaves is what the query reads.
proof fn lemma_projected(criteria: CriteriaView, bytes: Seq<u8>)
    requires
        json::json_parsed(bytes) is Some,
    ensures
        FilterView::projected(criteria, bytes, json::json_parsed(bytes)->Some_0) == (
            read_bytes(criteria, bytes),
            read_members(criteria, json::json_parsed(bytes)->Some_0.0),
        ),
{
    let value = json::json_parsed(bytes)->Some_0;
    if criteria.projections.len() > 0 && value.0 is Some {
        let m = value.0->Some_0;
        let names = criteria.projections;
        assert forall|name: Seq<char>| text::texts(names).contains(name) <==> is_listed(
            names,
            name,
        ) by {
            if text::texts(names).contains(name) {
                let i = choose|i: int|
                    0 <= i < names.len() && text::texts(names)[i] == name;
                assert(names[i]@ == name);
            }
            if is_listed(names, name) {
                let i = choose|i: int| 0 <= i < names.len() && (#[trigger] names[i])@ == name;
                assert(text::texts(names)[i] == name);
            }
        }
        assert(json::only(m, names) =~= read_members(criteria, value.0)->Some_0);
    }
}

/// An event that one of the selections refuses is sent to nobody: of its record only the place
/// is left.
pub proof fn a_refused_event_is_not_sent(
    filter: FilterView,
    topic: Seq<char>,
    criteria: CriteriaView,
    virtuals: Seq<i32>,
    asked: i32,
    record: RecordView,
    i: int,
)
    requires
        is_event(record),
        0 <= i < criteria.selections.len(),
        refuses(criteria.selections[i], members_of(record)),
    ensures
        filter.dispatched(topic, criteria, virtuals, asked, record) == Ok::<
            Dispatched,
            FilterError,
        >(Dispatched { record: place_of(record), moved: None }),
{
    assert(is_refused(criteria.selections, members_of(record)));
    an_event_is_selected_unless_a_selection_refuses_it(
        criteria.selections,
        members_of(record),
    );
}

/// Where a topic is not partitioned by any field, an event that no selection refuses is kept,
/// with its key and with exactly what the query reads.
pub proof fn a_selected_event_is_kept(
    filter: FilterView,
    topic: Seq<char>,
    criteria: CriteriaView,
    virtuals: Seq<i32>,
    asked: i32,
    record: RecordView,
)
    requires
        criteria.partition.len() == 0,
        is_event(record),
        forall|i: int|
            0 <= i < criteria.selections.len() ==> !refuses(
                #[trigger] criteria.selections[i],
                members_of(record),
            ),
    ensures
        filter.dispatched(topic, criteria, virtuals, asked, record) == Ok::<
            Dispatched,
            FilterError,
        >(
            Dispatched {
                record: RecordView {
                    value: Some(read_bytes(criteria, record.value->Some_0)),
                    ..record
                },
                moved: None,
            },
        ),
{
    an_event_is_selected_unless_a_selection_refuses_it(
        criteria.selections,
        members_of(record),
    );
    lemma_projected(criteria, record.value->Some_0);
}

/// What the search for a taker finds.
proof fn lemma_taker_found(
    splits: Map<(Seq<char>, i32), i32>,
    topic: Seq<char>,
    virtuals: Seq<i32>,
    asked: i32,
    slot: int,
)
    ensures
        match filter::taker(splits, topic, virtuals, asked, slot) {
            Ok(Some(vp)) => vp != asked && virtuals.contains(vp) && splits.contains_key(
                (topic, vp),
            ) && splits[(topic, vp)] == slot,
            Ok(None) => forall|vp: i32| #[trigger]
                virtuals.contains(vp) && vp != asked ==> splits.contains_key((topic, vp))
                    && splits[(topic, vp)] != slot,
            Err(e) => e == FilterError::UnknownSplit && exists|vp: i32| #[trigger]
                virtuals.contains(vp) && vp != asked && !splits.contains_key((topic, vp)),
        },
    decreases virtuals.len(),
{
    if virtuals.len() > 0 {
        let rest = virtuals.skip(1);
        lemma_taker_found(splits, topic, rest, asked, slot);
        assert(virtuals.contains(virtuals[0]));
        assert forall|vp: i32| virtuals.contains(vp) <==> vp == virtuals[0] || rest.contains(vp) by {
            if virtuals.contains(vp) && vp != virtuals[0] {
                let i = choose|i: int| 0 <= i < virtuals.len() && virtuals[i] == vp;
                assert(rest[i - 1] == vp);
            }
            if rest.contains(vp) {
                let i = choose|i: int| 0 <= i < rest.len() && rest[i] == vp;
                assert(virtuals[i + 1] == vp);
            }
        }
    }
}

/// Where a topic is partitioned by fields, an event that no selection refuses goes to a virtual
/// partition whose source has its slot, as the query reads it and without its key: to one other
/// than that which was asked for, or to that one where no other has the slot. Where no source
/// has the slot, nobody gets it.
pub proof fn a_selected_event_goes_to_its_source(
    filter: FilterView,
    topic: Seq<char>,
    criteria: CriteriaView,
    virtuals: Seq<i32>,
    asked: i32,
    record: RecordView,
)
    requires
        criteria.partition.len() > 0,
        is_event(record),
        !is_refused(criteria.selections, members_of(record)),
        filter.dispatched(topic, criteria, virtuals, asked, record) is Ok,
    ensures
        ({
            let slot = slot_by_fields(filter, criteria, record);
            let d = filter.dispatched(topic, criteria, virtuals, asked, record)->Ok_0;
            match d.moved {
                Some(m) => {
                    &&& m.0 != asked
                    &&& virtuals.contains(m.0)
                    &&& filter.splits[(topic, m.0)] == slot
                    &&& m.1 == sent_as(criteria, record)
                    &&& d.record == place_of(record)
                },
                None => {
                    &&& forall|vp: i32| #[trigger]
                        virtuals.contains(vp) && vp != asked ==> filter.splits[(topic, vp)]
                            != slot
                    &&& d.record == (if filter.splits[(topic, asked)] == slot {
                        sent_as(criteria, record)
                    } else {
                        place_of(record)
                    })
                },
            }
        }),
{
    let members = read_members(criteria, members_of(record));
    an_event_is_selected_unless_a_selection_refuses_it(
        criteria.selections,
        members_of(record),
    );
    lemma_projected(criteria, record.value->Some_0);
    every_field_is_hashed(members, criteria.partition);
    lemma_taker_found(
        filter.splits,
        topic,
        virtuals,
        asked,
        slot_by_fields(filter, criteria, record),
    );
}

/// What has no value leaves nothing but its place, and what is not in JSON stops the filter.
pub proof fn what_is_no_event_is_not_sent(
    filter: FilterView,
    topic: Seq<char>,
    criteria: CriteriaView,
    virtuals: Seq<i32>,
    asked: i32,
    record: RecordView,
)
    requires
        !is_event(record),
    ensures
        filter.dispatched(topic, criteria, virtuals, asked, record) == (if record.value is Some {
            Err::<Dispatched, FilterError>(FilterError::BadJson)
        } else {
            Ok::<Dispatched, FilterError>(Dispatched { record: place_of(record), moved: None })
        }),
{
}

/// What is left of each record for the partition that was asked for.
pub open spec fn left_of_each(
    filter: FilterView,
    topic: Seq<char>,
    criteria: CriteriaView,
    virtuals: Seq<i32>,
    asked: i32,
    records: Seq<RecordView>,
) -> Seq<RecordView> {
    Seq::new(
        records.len(),
        |i: int| filter.dispatched(topic, criteria, virtuals, asked, records[i])->Ok_0.record,
    )
}

/// What a virtual partition gets of a record.
pub open spec fn gain(
    filter: FilterView,
    topic: Seq<char>,
    criteria: CriteriaView,
    virtuals: Seq<i32>,
    asked: i32,
    record: RecordView,
    vp: i32,
) -> Seq<RecordView> {
    match filter.dispatched(topic, criteria, virtuals, asked, record)->Ok_0.moved {
        Some(m) if m.0 == vp => seq![m.1],
        _ => Seq::empty(),
    }
}

/// What a virtual partition gets of each record, in order.
pub open spec fn gains(
    filter: FilterView,
    topic: Seq<char>,
    criteria: CriteriaView,
    virtuals: Seq<i32>,
    asked: i32,
    records: Seq<RecordView>,
    vp: i32,
) -> Seq<RecordView> {
    joined(
        Seq::new(
            records.len(),
            |i: int| gain(filter, topic, criteria, virtuals, asked, records[i], vp),
        ),
    )
}

/// What a virtual partition gets to be told how far the partition has come.
pub open spec fn marker_for(
    filter: FilterView,
    topic: Seq<char>,
    criteria: CriteriaView,
    virtuals: Seq<i32>,
    asked: i32,
    records: Seq<RecordView>,
    vp: i32,
) -> Seq<RecordView> {
    match filter.dispatched(topic, criteria, virtuals, asked, records.last())->Ok_0.moved {
        Some(m) if m.0 != vp && vp != asked && virtuals.contains(vp) => seq![
            place_of(records.last()),
        ],
        _ => Seq::empty(),
    }
}

/// Each record of a list is dispatched on its own.
proof fn lemma_each(
    filter: FilterView,
    topic: Seq<char>,
    criteria: CriteriaView,
    virtuals: Seq<i32>,
    asked: i32,
    records: Seq<RecordView>,
    vp: i32,
)
    ensures
        filter.sorted(topic, criteria, virtuals, asked, records) is Ok <==> forall|i: int|
            0 <= i < records.len() ==> filter.dispatched(
                topic,
                criteria,
                virtuals,
                asked,
                #[trigger] records[i],
            ) is Ok,
        filter.sorted(topic, criteria, virtuals, asked, records) is Ok ==> {
            let s = filter.sorted(topic, criteria, virtuals, asked, records)->Ok_0;
            &&& s.kept == left_of_each(filter, topic, criteria, virtuals, asked, records)
            &&& filter_laws::moved_to(s.moved, vp) == gains(
                filter,
                topic,
                criteria,
                virtuals,
                asked,
                records,
                vp,
            )
        },
    decreases records.len(),
{
    if records.len() > 0 {
        let before = records.drop_last();
        let last = records.last();
        lemma_each(filter, topic, criteria, virtuals, asked, before, vp);
        assert(filter.sorted(topic, criteria, virtuals, asked, records) is Ok <==> forall|i: int|
            0 <= i < records.len() ==> filter.dispatched(
                topic,
                criteria,
                virtuals,
                asked,
                #[trigger] records[i],
            ) is Ok) by {
            if forall|i: int|
                0 <= i < records.len() ==> filter.dispatched(
                    topic,
                    criteria,
                    virtuals,
                    asked,
                    #[trigger] records[i],
                ) is Ok {
                assert forall|i: int| 0 <= i < before.len() implies filter.dispatched(
                    topic,
                    criteria,
                    virtuals,
                    asked,
                    #[trigger] before[i],
                ) is Ok by {
                    assert(before[i] == records[i]);
                }
                assert(records[records.len() - 1] == last);
            }
            if filter.sorted(topic, criteria, virtuals, asked, records) is Ok {
                assert forall|i: int| 0 <= i < records.len() implies filter.dispatched(
                    topic,
                    criteria,
                    virtuals,
                    asked,
                    #[trigger] records[i],
                ) is Ok by {
                    if i < before.len() {
                        assert(before[i] == records[i]);
                    }
                }
            }
        }
        if filter.sorted(topic, criteria, virtuals, asked, records) is Ok {
            let s = filter.sorted(topic, criteria, virtuals, asked, records)->Ok_0;
            let earlier = filter.sorted(topic, criteria, virtuals, asked, before)->Ok_0;
            let d = filter.dispatched(topic, criteria, virtuals, asked, last)->Ok_0;
            assert(s.kept =~= left_of_each(filter, topic, criteria, virtuals, asked, records));
            let lists = Seq::new(
                records.len(),
                |i: int| gain(filter, topic, criteria, virtuals, asked, records[i], vp),
            );
            let fewer = Seq::new(
                before.len(),
                |i: int| gain(filter, topic, criteria, virtuals, asked, before[i], vp),
            );
            assert(lists.drop_last() =~= fewer);
            assert(lists.last() == gain(filter, topic, criteria, virtuals, asked, last, vp));
            match d.moved {
                Some(m) => {
                    assert(s.moved.drop_last() =~= earlier.moved);
                    if m.0 == vp {
                        assert(filter_laws::moved_to(earlier.moved, vp).push(m.1)
                            =~= filter_laws::moved_to(earlier.moved, vp) + seq![m.1]);
                    } else {
                        assert(joined(fewer) + Seq::<RecordView>::empty() =~= joined(fewer));
                    }
                },
                None => {
                    assert(joined(fewer) + Seq::<RecordView>::empty() =~= joined(fewer));
                },
            }
        }
    } else {
        assert(left_of_each(filter, topic, criteria, virtuals, asked, records) =~= Seq::<
            RecordView,
        >::empty());
        let lists = Seq::new(
            records.len(),
            |i: int| gain(filter, topic, criteria, virtuals, asked, records[i], vp),
        );
        assert(lists.len() == 0);
    }
}

/// The records that the client is sent of what is left of each record: all, or where empty ones
/// are removed, those with a key or a value, and behind them the place of the last one where it
/// is not among them.
pub open spec fn is_sent(
    remove_empty: bool,
    left: Seq<RecordView>,
    last: RecordView,
    sent: Seq<RecordView>,
) -> bool {
    let kept = left.filter(|r: RecordView| r.key is Some || r.value is Some);
    if !remove_empty {
        sent == left
    } else if kept.len() > 0 && kept.last().offset == last.offset {
        sent == kept
    } else {
        sent == kept.push(place_of(last))
    }
}

/// Whether a query filters a topic by anything.
pub open spec fn has_a_query(criteria: CriteriaView) -> bool {
    criteria.selections.len() > 0 || criteria.projections.len() > 0 || criteria.partition.len() > 0
}

/// Where a query filters a topic by anything, every record of a partition is dispatched on its
/// own: the client is sent what is left of each, in order, and a virtual partition gets behind
/// what waits for it what it gets of each, in order, and the place of the last one where another
/// virtual partition takes that. What waits for other topics goes on waiting.
pub proof fn every_record_of_a_partition_is_filtered(
    filter: FilterView,
    topic: Seq<char>,
    asked: i32,
    bytes: Seq<u8>,
    waiting: Waiting,
    vp: i32,
    name: Seq<char>,
) -> (sent: Seq<RecordView>)
    requires
        filter.filtered(topic, asked, Some(bytes), waiting) is Ok,
        has_a_query(filter.criteria[topic]),
        batches::records_of(bytes).len() > 0,
        filter.relations[topic].virtuals[filter.relations[topic].originals[asked]].no_duplicates(),
    ensures
        ({
            let criteria = filter.criteria[topic];
            let relation = filter.relations[topic];
            let virtuals = relation.virtuals[relation.originals[asked]];
            let records = batches::records_of(bytes);
            let r = filter.filtered(topic, asked, Some(bytes), waiting)->Ok_0;
            &&& filter.criteria.contains_key(topic)
            &&& filter.relations.contains_key(topic)
            &&& forall|i: int|
                0 <= i < records.len() ==> filter.dispatched(
                    topic,
                    criteria,
                    virtuals,
                    asked,
                    #[trigger] records[i],
                ) is Ok
            &&& is_sent(
                filter.remove_empty_records,
                left_of_each(filter, topic, criteria, virtuals, asked, records),
                records.last(),
                sent,
            )
            &&& r.0 == Some(batches::records_encoded(sent, 2, 0))
            &&& filter::waiting_for(r.1, topic, vp) == filter::waiting_for(waiting, topic, vp)
                + gains(filter, topic, criteria, virtuals, asked, records, vp) + marker_for(
                filter,
                topic,
                criteria,
                virtuals,
                asked,
                records,
                vp,
            )
            &&& name != topic ==> filter::waiting_for(r.1, name, vp) == filter::waiting_for(
                waiting,
                name,
                vp,
            )
        }),
{
    let criteria = filter.criteria[topic];
    let relation = filter.relations[topic];
    let virtuals = relation.virtuals[relation.originals[asked]];
    let records = batches::records_of(bytes);
    let marked = filter.marked(topic, criteria, virtuals, asked, records)->Ok_0;
    let sorted = filter.sorted(topic, criteria, virtuals, asked, records)->Ok_0;
    let last = records.last();
    lemma_each(filter, topic, criteria, virtuals, asked, records, vp);
    filter_laws::waiting_records_keep_their_order(waiting, topic, marked.moved, name, vp);
    filter_laws::the_last_record_marks_the_other_partitions(
        filter,
        topic,
        criteria,
        virtuals,
        asked,
        records,
        vp,
    );
    assert(records[records.len() - 1] == last);
    let own = gains(filter, topic, criteria, virtuals, asked, records, vp);
    let mark = marker_for(filter, topic, criteria, virtuals, asked, records, vp);
    assert(filter_laws::moved_to(marked.moved, vp) =~= own + mark);
    assert(filter::waiting_for(waiting, topic, vp) + (own + mark) =~= filter::waiting_for(
        waiting,
        topic,
        vp,
    ) + own + mark);
    let left = left_of_each(filter, topic, criteria, virtuals, asked, records);
    let a = |r: RecordView| r.key is Some || r.value is Some;
    let b = |r: RecordView| batches::says_something(r);
    assert(a =~= b);
    marked.kept
}

/// Records that cannot be read, or that are not there, leave none, and nothing waits for them.
pub proof fn without_records_nothing_is_sent(
    filter: FilterView,
    topic: Seq<char>,
    asked: i32,
    records: Option<Seq<u8>>,
    waiting: Waiting,
)
    requires
        filter.filtered(topic, asked, records, waiting) is Ok,
        records is None || has_a_query(filter.criteria[topic]) && batches::records_of(
            records->Some_0,
        ).len() == 0,
    ensures
        filter.filtered(topic, asked, records, waiting)->Ok_0 == (None::<Seq<u8>>, waiting),
{
}

/// The records of a partition are filtered wherever the topic and the partition are known, each
/// record can be dispatched, and those that are sent are not too far apart.
pub proof fn known_records_are_filtered(
    filter: FilterView,
    topic: Seq<char>,
    asked: i32,
    bytes: Seq<u8>,
    waiting: Waiting,
)
    requires
        filter.relations.contains_key(topic),
        filter.relations[topic].originals.contains_key(asked),
        filter.relations[topic].virtuals.contains_key(filter.relations[topic].originals[asked]),
        filter.criteria.contains_key(topic),
        forall|i: int|
            0 <= i < batches::records_of(bytes).len() ==> filter.dispatched(
                topic,
                filter.criteria[topic],
                filter.relations[topic].virtuals[filter.relations[topic].originals[asked]],
                asked,
                #[trigger] batches::records_of(bytes)[i],
            ) is Ok,
        forall|sent: Seq<RecordView>| #[trigger]
            is_sent(
                filter.remove_empty_records,
                left_of_each(
                    filter,
                    topic,
                    filter.criteria[topic],
                    filter.relations[topic].virtuals[filter.relations[topic].originals[asked]],
                    asked,
                    batches::records_of(bytes),
                ),
                batches::records_of(bytes).last(),
                sent,
            ) ==> batches::distances_fit(sent),
    ensures
        filter.filtered(topic, asked, Some(bytes), waiting) is Ok,
{
    let criteria = filter.criteria[topic];
    let virtuals = filter.relations[topic].virtuals[filter.relations[topic].originals[asked]];
    let records = batches::records_of(bytes);
    lemma_each(filter, topic, criteria, virtuals, asked, records, 0);
    if records.len() > 0 && has_a_query(criteria) {
        let marked = filter.marked(topic, criteria, virtuals, asked, records)->Ok_0;
        let a = |r: RecordView| r.key is Some || r.value is Some;
        let b = |r: RecordView| batches::says_something(r);
        assert(a =~= b);
        assert(is_sent(
            filter.remove_empty_records,
            left_of_each(filter, topic, criteria, virtuals, asked, records),
            records.last(),
            marked.kept,
        ));
    }
}

/// Batches are read one after the other: the records of a batch that can be read come before
/// those of all that follows it.
pub proof fn batches_are_read_one_after_the_other(batch: Seq<u8>, rest: Seq<u8>)
    requires
        batch.len() >= 17,
        batch.len() == frames::batch_length(batch),
        frames::can_decode(batch),
        batches::batch_records(batch) is Some,
    ensures
        batches::records_of(batch + rest) == batches::batch_records(batch)->Some_0
            + batches::records_of(rest),
{
    let data = batch + rest;
    assert(data.take(batch.len() as int) =~= batch);
    assert(data.skip(batch.len() as int) =~= rest);
    assert(frames::batch_length(data) == batch.len()) by {
        assert(data[8] == batch[8] && data[9] == batch[9] && data[10] == batch[10] && data[11]
            == batch[11]);
    }
}

} // verus!
