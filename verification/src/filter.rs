//! The filter of a connection: what it knows, and how it filters the records of a partition.

use crate::batches;
use crate::batches::Record;
use crate::batches::RecordView;
use crate::codec::FetchReading;
use crate::codec::FetchReadingView;
use crate::codec::RequestHeader;
use crate::codec::RequestHeaderView;
use crate::criteria;
use crate::criteria::AlloyFilterCriteria;
use crate::criteria::CriteriaView;
use crate::criteria::FilterEntry;
use crate::criteria::FilterEntryView;
use crate::criteria::Members;
use crate::hashing;
use crate::json;
use crate::json::JsonKind;
use crate::kafka::KafkaError;
use crate::kafka::Protocol;
use crate::maps::KeyedMap;
use crate::partitions::BiDirectionalMap;
use crate::partitions::Relation;
use crate::pattern;
use crate::routing;
use crate::routing::RouteError;
use crate::routing::RoutingTable;
use crate::routing::TableView;
use serde_json::Value;
use vstd::prelude::*;
use vstd::string::*;

verus! {

/// Why the filter cannot go on.
#[derive(PartialEq, Eq, Structural, Debug, Clone, Copy)]
pub enum FilterError {
    /// The request cannot be routed in the state of the connection.
    Unroutable,
    /// The response does not belong to a request.
    Unexpected,
    /// The request has no route, for this reason.
    Route(RouteError),
    /// The request has no route to the cluster of the proxy.
    NoRoute,
    /// The message cannot be read, for this reason.
    Kafka(KafkaError),
    /// There is no request that the response could answer.
    NoRequest,
    /// The fetch names no partition.
    EmptyFetch,
    /// Nothing is known of the topic.
    UnknownTopic,
    /// Nothing is known of the partition.
    UnknownPartition,
    /// It is not known which source reads the partition.
    UnknownSplit,
    /// A record is not in JSON.
    BadJson,
    /// The slot of a record is not computed within 32 bits.
    SlotOverflow,
    /// There are more virtual partitions than numbers for them.
    TooManyPartitions,
    /// The offsets or times of records are too far apart.
    TooFarApart,
    /// What another context left cannot be read.
    BadSharedData,
}

/// A topic of which the offsets were asked for.
#[derive(Debug)]
pub struct AskedTopic {
    pub name: String,
    pub partitions: Vec<i32>,
}

/// What was asked of a topic.
#[verifier::ext_equal]
pub struct AskedTopicView {
    pub name: Seq<char>,
    pub partitions: Seq<i32>,
}

impl DeepView for AskedTopic {
    type V = AskedTopicView;

    open spec fn deep_view(&self) -> AskedTopicView {
        AskedTopicView { name: self.name@, partitions: self.partitions@ }
    }
}

/// The request that waits for a response, as far as the response is changed for it.
#[derive(Debug)]
pub enum AskedRequest {
    ListOffsetsRequest(Vec<AskedTopic>),
    FetchRequest(FetchReading),
    Other,
}

/// What was asked.
pub enum AskedView {
    ListOffsetsRequest(Seq<AskedTopicView>),
    FetchRequest(FetchReadingView),
    Other,
}

impl DeepView for AskedRequest {
    type V = AskedView;

    open spec fn deep_view(&self) -> AskedView {
        match self {
            AskedRequest::ListOffsetsRequest(topics) => AskedView::ListOffsetsRequest(
                topics.deep_view(),
            ),
            AskedRequest::FetchRequest(reading) => AskedView::FetchRequest(reading@),
            AskedRequest::Other => AskedView::Other,
        }
    }
}

/// The filter of a connection.
pub struct AlloyFilter {
    pub context_id: u32,
    pub protocol: Protocol,
    pub routing_table: RoutingTable,
    pub request_header: Option<RequestHeader>,
    pub request: Option<AskedRequest>,
    pub fetch_request_api_version: i16,
    pub correlation_id: i32,
    pub data_size: usize,
    pub map_alloy_filters: KeyedMap<String, AlloyFilterCriteria>,
    pub max_parallelism: i32,
    pub map_split_id: KeyedMap<(String, i32), i32>,
    pub map_index_query_partition: KeyedMap<(String, i32), i64>,
    pub bimap_virtual_origin: KeyedMap<String, BiDirectionalMap>,
    pub remove_empty_records: bool,
    pub session_id: i32,
    pub session_epoch: i32,
    pub origin_fetch_request: Option<FetchReading>,
    pub map_queue_vp: KeyedMap<String, u32>,
    pub map_vp_records: KeyedMap<(String, i32), Vec<Record>>,
    pub fetch_min_bytes_virtual_partition: usize,
}

/// The records that wait for the sources of virtual partitions.
pub type Waiting = Map<(Seq<char>, i32), Seq<RecordView>>;

/// What the filter of a connection knows, but for the records that wait.
#[verifier::ext_equal]
pub struct FilterView {
    pub context_id: u32,
    pub protocol: Protocol,
    pub table: TableView,
    pub request_header: Option<RequestHeaderView>,
    pub request: Option<AskedView>,
    pub fetch_request_api_version: i16,
    pub correlation_id: i32,
    pub data_size: usize,
    pub criteria: Map<Seq<char>, CriteriaView>,
    pub max_parallelism: i32,
    pub splits: Map<(Seq<char>, i32), i32>,
    pub query_indexes: Map<(Seq<char>, i32), i64>,
    pub relations: Map<Seq<char>, Relation>,
    pub remove_empty_records: bool,
    pub session_id: i32,
    pub session_epoch: i32,
    pub origin_fetch: Option<FetchReadingView>,
    pub queues: Map<Seq<char>, u32>,
    pub fetch_min_bytes: usize,
}

impl View for AlloyFilter {
    type V = FilterView;

    open spec fn view(&self) -> FilterView {
        FilterView {
            context_id: self.context_id,
            protocol: self.protocol,
            table: self.routing_table@,
            request_header: match self.request_header {
                Some(header) => Some(header@),
                None => None,
            },
            request: self.request.deep_view(),
            fetch_request_api_version: self.fetch_request_api_version,
            correlation_id: self.correlation_id,
            data_size: self.data_size,
            criteria: self.map_alloy_filters@,
            max_parallelism: self.max_parallelism,
            splits: self.map_split_id@,
            query_indexes: self.map_index_query_partition@,
            relations: self.bimap_virtual_origin@,
            remove_empty_records: self.remove_empty_records,
            session_id: self.session_id,
            session_epoch: self.session_epoch,
            origin_fetch: match self.origin_fetch_request {
                Some(reading) => Some(reading@),
                None => None,
            },
            queues: self.map_queue_vp@,
            fetch_min_bytes: self.fetch_min_bytes_virtual_partition,
        }
    }
}

/// The characters that a selection matches of the value with a text: those of a string, the
/// text itself of a number, a truth value or null, and none of anything else.
pub open spec fn matched_text(text: Seq<char>) -> Seq<char> {
    match json::kind_of_text(text) {
        JsonKind::String => match json::json_string(text) {
            Some(s) => s,
            None => Seq::empty(),
        },
        JsonKind::Array | JsonKind::Object => Seq::empty(),
        _ => text,
    }
}

/// Whether a selection takes a value: its attribute is missing, or matches the pattern.
pub open spec fn takes(selection: FilterEntryView, members: Members) -> bool {
    (selection.attribute matches Some(a) && members matches Some(m) && m.contains_key(a))
        ==> pattern::pattern_allows(
        selection.pattern,
        routing::text_bytes(matched_text(members->Some_0[selection.attribute->Some_0])),
    )
}

/// Whether all selections take a value.
pub open spec fn selected(selections: Seq<FilterEntryView>, members: Members) -> bool {
    forall|i: int| 0 <= i < selections.len() ==> takes(#[trigger] selections[i], members)
}

/// Whether a selection takes a value.
fn check_selection(selection: &FilterEntry, value: &Value) -> (r: bool)
    ensures
        r <==> takes(selection.deep_view(), json::json_members(*value)),
{
    if let Some(attribute) = &selection.attribute {
        if let Some(content) = json::member(value, attribute.as_str()) {
            let matched: String = match json::kind(content) {
                JsonKind::String => match json::as_str(content) {
                    Some(s) => String::from_str(s),
                    None => String::new(),
                },
                JsonKind::Array => String::new(),
                JsonKind::Object => String::new(),
                _ => json::to_text(content),
            };
            assert(matched@ == matched_text(json::json_text(*content)));
            return pattern::allows(&selection.value_regex, matched.as_str().as_bytes());
        }
    }
    true
}

/// Whether all selections take a value.
fn check_selections(selections: &Vec<FilterEntry>, value: &Value) -> (r: bool)
    ensures
        r <==> selected(selections.deep_view(), json::json_members(*value)),
{
    let ghost views = selections.deep_view();
    let mut i: usize = 0;
    while i < selections.len()
        invariant
            i <= selections@.len(),
            views == selections.deep_view(),
            forall|j: int|
                0 <= j < i ==> takes(#[trigger] views[j], json::json_members(*value)),
        decreases selections@.len() - i,
    {
        assert(views[i as int] == selections@[i as int].deep_view());
        if !check_selection(&selections[i], value) {
            return false;
        }
        i += 1;
    }
    true
}

/// What becomes of a record: what is left of it for the partition that was asked for, and
/// the virtual partition that gets it instead.
#[verifier::ext_equal]
pub struct Dispatched {
    pub record: RecordView,
    pub moved: Option<(i32, RecordView)>,
}

/// The first of the virtual partitions, other than the one that was asked for, whose source
/// has the slot. An error if the source of one before it is not known.
pub open spec fn taker(
    splits: Map<(Seq<char>, i32), i32>,
    topic: Seq<char>,
    virtuals: Seq<i32>,
    asked: i32,
    slot: int,
) -> Result<Option<i32>, FilterError>
    decreases virtuals.len(),
{
    if virtuals.len() == 0 {
        Ok(None)
    } else if virtuals[0] == asked {
        taker(splits, topic, virtuals.skip(1), asked, slot)
    } else if !splits.contains_key((topic, virtuals[0])) {
        Err(FilterError::UnknownSplit)
    } else if splits[(topic, virtuals[0])] == slot {
        Ok(Some(virtuals[0]))
    } else {
        taker(splits, topic, virtuals.skip(1), asked, slot)
    }
}

/// A record without its key and its value.
pub open spec fn emptied(record: RecordView) -> RecordView {
    RecordView { key: None, value: None, ..record }
}

impl FilterView {
    /// The bytes of a value after the projection, and its members.
    pub open spec fn projected(
        criteria: CriteriaView,
        bytes: Seq<u8>,
        value: (Members, Seq<char>),
    ) -> (Seq<u8>, Members) {
        if criteria.projections.len() == 0 {
            (bytes, value.0)
        } else {
            let thin = json::thinned(value, criteria.projections);
            (routing::text_bytes(thin.1), thin.0)
        }
    }

    /// What becomes of a record of a topic with a value that was selected.
    pub open spec fn placed(
        self,
        topic: Seq<char>,
        criteria: CriteriaView,
        virtuals: Seq<i32>,
        asked: i32,
        record: RecordView,
        bytes: Seq<u8>,
        members: Members,
    ) -> Result<Dispatched, FilterError> {
        if criteria.partition.len() == 0 {
            Ok(
                Dispatched {
                    record: RecordView { value: Some(bytes), ..record },
                    moved: None,
                },
            )
        } else {
            let hash = hashing::composite_hash(
                criteria::hash_inputs_of(members, criteria.partition),
            );
            if !hashing::slot_fits(
                hash,
                criteria.num_sources as int,
                self.max_parallelism as int,
            ) {
                Err(FilterError::SlotOverflow)
            } else {
                let slot = hashing::slot_of(
                    hash,
                    criteria.num_sources as int,
                    self.max_parallelism as int,
                );
                let filled = RecordView { value: Some(bytes), ..emptied(record) };
                match taker(self.splits, topic, virtuals, asked, slot) {
                    Err(e) => Err(e),
                    Ok(Some(vp)) => Ok(
                        Dispatched { record: emptied(record), moved: Some((vp, filled)) },
                    ),
                    Ok(None) => if !self.splits.contains_key((topic, asked)) {
                        Err(FilterError::UnknownSplit)
                    } else if self.splits[(topic, asked)] == slot {
                        Ok(Dispatched { record: filled, moved: None })
                    } else {
                        Ok(Dispatched { record: emptied(record), moved: None })
                    },
                }
            }
        }
    }

    /// What becomes of a record of a topic.
    pub open spec fn dispatched(
        self,
        topic: Seq<char>,
        criteria: CriteriaView,
        virtuals: Seq<i32>,
        asked: i32,
        record: RecordView,
    ) -> Result<Dispatched, FilterError> {
        match record.value {
            None => Ok(Dispatched { record: emptied(record), moved: None }),
            Some(bytes) => match json::json_parsed(bytes) {
                None => Err(FilterError::BadJson),
                Some(value) => if !selected(criteria.selections, value.0) {
                    Ok(Dispatched { record: emptied(record), moved: None })
                } else {
                    let left = Self::projected(criteria, bytes, value);
                    self.placed(topic, criteria, virtuals, asked, record, left.0, left.1)
                },
            },
        }
    }
}

impl AlloyFilter {
    /// The first of the virtual partitions, other than the one that was asked for, whose
    /// source has the slot.
    fn find_taker(&self, topic: &String, virtuals: &Vec<i32>, asked: i32, slot: i32) -> (r: Result<
        Option<i32>,
        FilterError,
    >)
        ensures
            r == taker(self@.splits, topic@, virtuals@, asked, slot as int),
    {
        let ghost expected = taker(self@.splits, topic@, virtuals@, asked, slot as int);
        let mut i: usize = 0;
        proof {
            assert(virtuals@.skip(0) =~= virtuals@);
        }
        while i < virtuals.len()
            invariant
                i <= virtuals@.len(),
                expected == taker(self@.splits, topic@, virtuals@, asked, slot as int),
                expected == taker(
                    self@.splits,
                    topic@,
                    virtuals@.skip(i as int),
                    asked,
                    slot as int,
                ),
            decreases virtuals@.len() - i,
        {
            let vp: i32 = virtuals[i];
            proof {
                assert(virtuals@.skip(i as int)[0] == vp);
                assert(virtuals@.skip(i as int).skip(1) =~= virtuals@.skip(i + 1));
            }
            if vp != asked {
                match self.map_split_id.get(&(topic.clone(), vp)) {
                    None => {
                        return Err(FilterError::UnknownSplit);
                    },
                    Some(split) => {
                        if *split == slot {
                            return Ok(Some(vp));
                        }
                    },
                }
            }
            i += 1;
        }
        Ok(None)
    }

    /// Decides what becomes of a record.
    fn dispatch(
        &self,
        topic: &String,
        criteria: &AlloyFilterCriteria,
        virtuals: &Vec<i32>,
        asked: i32,
        record: &mut Record,
    ) -> (r: Result<Option<(i32, Record)>, FilterError>)
        ensures
            match r {
                Ok(moved) => self@.dispatched(
                    topic@,
                    criteria.deep_view(),
                    virtuals@,
                    asked,
                    old(record).deep_view(),
                ) == Ok::<Dispatched, FilterError>(
                    Dispatched {
                        record: final(record).deep_view(),
                        moved: match moved {
                            Some(m) => Some((m.0, m.1.deep_view())),
                            None => None,
                        },
                    },
                ),
                Err(e) => self@.dispatched(
                    topic@,
                    criteria.deep_view(),
                    virtuals@,
                    asked,
                    old(record).deep_view(),
                ) == Err::<Dispatched, FilterError>(e),
            },
    {
        let ghost before = record.deep_view();
        let key = record.key.take();
        let mut bytes = match record.value.take() {
            Some(bytes) => bytes,
            None => {
                return Ok(None);
            },
        };
        let ghost given = bytes@;
        let mut value = match json::parse(bytes.as_slice()) {
            Some(value) => value,
            None => {
                return Err(FilterError::BadJson);
            },
        };
        let ghost parsed = (json::json_members(value), json::json_text(value));
        if !check_selections(&criteria.selections, &value) {
            return Ok(None);
        }
        if criteria.projections.len() > 0 {
            json::filter_json_in_place(
                &mut value,
                &criteria.projections,
                criteria.partition.len() > 0,
            );
            bytes = json::to_text(&value).as_str().as_bytes_vec();
        }
        assert((bytes@, json::json_members(value)) == FilterView::projected(
            criteria.deep_view(),
            given,
            parsed,
        ));
        if criteria.partition.len() == 0 {
            record.key = key;
            record.value = Some(bytes);
            return Ok(None);
        }
        let values = criteria::extract(&value, criteria);
        let slot: i32 = match hashing::try_keygroup_slot(
            values.as_slice(),
            criteria.num_sources,
            self.max_parallelism,
        ) {
            Some(slot) => slot,
            None => {
                return Err(FilterError::SlotOverflow);
            },
        };
        match self.find_taker(topic, virtuals, asked, slot) {
            Err(e) => Err(e),
            Ok(Some(vp)) => {
                let mut moved = record.copy();
                moved.value = Some(bytes);
                Ok(Some((vp, moved)))
            },
            Ok(None) => match self.map_split_id.get(&(topic.clone(), asked)) {
                None => Err(FilterError::UnknownSplit),
                Some(split) => {
                    if *split == slot {
                        record.value = Some(bytes);
                    }
                    Ok(None)
                },
            },
        }
    }
}

/// What becomes of a list of records: what is left of them for the partition that was asked
/// for, and what virtual partitions get.
#[verifier::ext_equal]
pub struct Sorted {
    pub kept: Seq<RecordView>,
    pub moved: Seq<(i32, RecordView)>,
}

/// A marker for every virtual partition that did not get the last record: it tells their
/// sources how far the partition has come.
pub open spec fn markers(virtuals: Seq<i32>, asked: i32, taken_by: i32, marker: RecordView) -> Seq<
    (i32, RecordView),
>
    decreases virtuals.len(),
{
    if virtuals.len() == 0 {
        Seq::empty()
    } else {
        let before = markers(virtuals.drop_last(), asked, taken_by, marker);
        let vp = virtuals.last();
        if vp != asked && vp != taken_by {
            before.push((vp, marker))
        } else {
            before
        }
    }
}

/// The waiting records of a virtual partition.
pub open spec fn waiting_for(waiting: Waiting, topic: Seq<char>, vp: i32) -> Seq<RecordView> {
    if waiting.contains_key((topic, vp)) {
        waiting[(topic, vp)]
    } else {
        Seq::empty()
    }
}

/// The waiting records with those that virtual partitions get.
pub open spec fn with_moved(
    waiting: Waiting,
    topic: Seq<char>,
    moved: Seq<(i32, RecordView)>,
) -> Waiting
    decreases moved.len(),
{
    if moved.len() == 0 {
        waiting
    } else {
        let before = with_moved(waiting, topic, moved.drop_last());
        let (vp, record) = moved.last();
        before.insert((topic, vp), waiting_for(before, topic, vp).push(record))
    }
}

/// Whether there is nothing to filter by.
pub open spec fn filters_nothing(criteria: CriteriaView) -> bool {
    criteria.partition.len() == 0 && criteria.projections.len() == 0 && criteria.selections.len()
        == 0
}

impl FilterView {
    /// What becomes of a list of records, up to the first one at which the filter cannot go
    /// on.
    pub open spec fn sorted(
        self,
        topic: Seq<char>,
        criteria: CriteriaView,
        virtuals: Seq<i32>,
        asked: i32,
        records: Seq<RecordView>,
    ) -> Result<Sorted, FilterError>
        decreases records.len(),
    {
        if records.len() == 0 {
            Ok(Sorted { kept: Seq::empty(), moved: Seq::empty() })
        } else {
            match self.sorted(topic, criteria, virtuals, asked, records.drop_last()) {
                Err(e) => Err(e),
                Ok(before) => match self.dispatched(
                    topic,
                    criteria,
                    virtuals,
                    asked,
                    records.last(),
                ) {
                    Err(e) => Err(e),
                    Ok(d) => Ok(
                        Sorted {
                            kept: before.kept.push(d.record),
                            moved: match d.moved {
                                Some(m) => before.moved.push(m),
                                None => before.moved,
                            },
                        },
                    ),
                },
            }
        }
    }

    /// The virtual partition that gets a record.
    pub open spec fn taken_by(
        self,
        topic: Seq<char>,
        criteria: CriteriaView,
        virtuals: Seq<i32>,
        asked: i32,
        record: RecordView,
    ) -> Option<i32> {
        match self.dispatched(topic, criteria, virtuals, asked, record) {
            Ok(d) => match d.moved {
                Some(m) => Some(m.0),
                None => None,
            },
            Err(_) => None,
        }
    }

    /// What becomes of a list of records, with what tells the sources how far the partition
    /// has come: the last record, without its key and value.
    pub open spec fn marked(
        self,
        topic: Seq<char>,
        criteria: CriteriaView,
        virtuals: Seq<i32>,
        asked: i32,
        records: Seq<RecordView>,
    ) -> Result<Sorted, FilterError> {
        match self.sorted(topic, criteria, virtuals, asked, records) {
            Err(e) => Err(e),
            Ok(s) => {
                let last = records.last();
                Ok(
                    Sorted {
                        kept: if self.remove_empty_records {
                            batches::with_last(s.kept, emptied(last))
                        } else {
                            s.kept
                        },
                        moved: match self.taken_by(topic, criteria, virtuals, asked, last) {
                            Some(vp) => s.moved + markers(virtuals, asked, vp, emptied(last)),
                            None => s.moved,
                        },
                    },
                )
            },
        }
    }

    /// The virtual partitions of the original partition that a virtual one belongs to.
    pub open spec fn siblings(self, topic: Seq<char>, asked: i32) -> Result<
        Seq<i32>,
        FilterError,
    > {
        if !self.relations.contains_key(topic) {
            Err(FilterError::UnknownTopic)
        } else {
            let relation = self.relations[topic];
            if !relation.originals.contains_key(asked) || !relation.virtuals.contains_key(
                relation.originals[asked],
            ) {
                Err(FilterError::UnknownPartition)
            } else {
                Ok(relation.virtuals[relation.originals[asked]])
            }
        }
    }

    /// What becomes of the records of a partition: the records for the partition that was
    /// asked for, and all that wait for virtual partitions.
    pub open spec fn filtered(
        self,
        topic: Seq<char>,
        asked: i32,
        records: Option<Seq<u8>>,
        waiting: Waiting,
    ) -> Result<(Option<Seq<u8>>, Waiting), FilterError> {
        match self.siblings(topic, asked) {
            Err(e) => Err(e),
            Ok(virtuals) => if !self.criteria.contains_key(topic) {
                Err(FilterError::UnknownTopic)
            } else {
                let criteria = self.criteria[topic];
                match records {
                    None => Ok((None, waiting)),
                    Some(bytes) => {
                        let list = batches::records_of(bytes);
                        if filters_nothing(criteria) {
                            Ok((records, waiting))
                        } else if list.len() == 0 {
                            Ok((None, waiting))
                        } else {
                            match self.marked(topic, criteria, virtuals, asked, list) {
                                Err(e) => Err(e),
                                Ok(s) => if !batches::distances_fit(s.kept) {
                                    Err(FilterError::TooFarApart)
                                } else {
                                    Ok(
                                        (
                                            Some(batches::records_encoded(s.kept, 2, 0)),
                                            with_moved(waiting, topic, s.moved),
                                        ),
                                    )
                                },
                            }
                        }
                    },
                }
            },
        }
    }
}

/// What virtual partitions get.
pub open spec fn moved_view(moved: Seq<(i32, Record)>) -> Seq<(i32, RecordView)> {
    Seq::new(moved.len(), |i: int| (moved[i].0, moved[i].1.deep_view()))
}

/// Adds records to those that wait.
fn add_moved(
    waiting: &mut KeyedMap<(String, i32), Vec<Record>>,
    topic: &String,
    moved: Vec<(i32, Record)>,
)
    ensures
        final(waiting)@ == with_moved(old(waiting)@, topic@, moved_view(moved@)),
{
    let ghost all = moved@;
    let ghost views = moved_view(moved@);
    let ghost before = waiting@;
    proof {
        assert(views.take(0) =~= Seq::<(i32, RecordView)>::empty());
    }
    for entry in it: moved
        invariant
            it.seq() == all,
            views == moved_view(all),
            waiting@ == with_moved(before, topic@, views.take(it.index() as int)),
    {
        let ghost i = it.index() as int;
        let (vp, record) = entry;
        let ghost now = waiting@;
        proof {
            assert(views.take(i + 1).drop_last() =~= views.take(i));
            assert(views.take(i + 1).last() == (vp, record.deep_view()));
        }
        let key = (topic.clone(), vp);
        let mut list: Vec<Record> = match waiting.remove(&key) {
            Some(list) => list,
            None => Vec::new(),
        };
        let ghost queue = list.deep_view();
        assert(queue =~= waiting_for(now, topic@, vp));
        list.push(record);
        assert(list.deep_view() =~= queue.push(record.deep_view()));
        waiting.insert(key, list);
        assert(waiting@ =~= now.insert((topic@, vp), queue.push(record.deep_view())));
    }
    proof {
        assert(views.take(views.len() as int) =~= views);
    }
}

/// A filter leaves out at most as much as there is.
proof fn lemma_filter_shortens(records: Seq<RecordView>, keep: spec_fn(RecordView) -> bool)
    ensures
        records.filter(keep).len() <= records.len(),
    decreases records.len(),
{
    reveal(Seq::filter);
    if records.len() > 0 {
        lemma_filter_shortens(records.drop_last(), keep);
    }
}

/// The records that are left with the last one are no more than there were.
proof fn lemma_with_last_shortens(records: Seq<RecordView>, last: RecordView)
    requires
        records.len() > 0,
        records.last().offset == last.offset,
    ensures
        batches::with_last(records, last).len() <= records.len(),
{
    let keep = |r: RecordView| batches::says_something(r);
    reveal(Seq::filter);
    lemma_filter_shortens(records.drop_last(), keep);
}

impl AlloyFilter {
    /// Decides what becomes of a list of records.
    fn sort_records(
        &self,
        topic: &String,
        criteria: &AlloyFilterCriteria,
        virtuals: &Vec<i32>,
        asked: i32,
        records: Vec<Record>,
    ) -> (r: Result<(Vec<Record>, Vec<(i32, Record)>), FilterError>)
        requires
            records@.len() > 0,
        ensures
            match r {
                Ok(s) => self@.marked(
                    topic@,
                    criteria.deep_view(),
                    virtuals@,
                    asked,
                    records.deep_view(),
                ) == Ok::<Sorted, FilterError>(
                    Sorted { kept: s.0.deep_view(), moved: moved_view(s.1@) },
                ),
                Err(e) => self@.marked(
                    topic@,
                    criteria.deep_view(),
                    virtuals@,
                    asked,
                    records.deep_view(),
                ) == Err::<Sorted, FilterError>(e),
            },
    {
        let ghost this = self@;
        let ghost crit = criteria.deep_view();
        let ghost all = records@;
        let ghost views = records.deep_view();
        let last_index: usize = records.len() - 1;
        let mut last_element = records[last_index].copy();
        last_element.key = None;
        last_element.value = None;
        assert(last_element.deep_view() == emptied(views.last()));
        let mut last_element_partition: Option<i32> = None;
        let mut kept: Vec<Record> = Vec::new();
        let mut moved: Vec<(i32, Record)> = Vec::new();
        proof {
            assert(views.take(0) =~= Seq::<RecordView>::empty());
            assert(kept.deep_view() =~= Seq::<RecordView>::empty());
            assert(moved_view(moved@) =~= Seq::<(i32, RecordView)>::empty());
        }
        for entry in it: records
            invariant
                this == self@,
                crit == criteria.deep_view(),
                it.seq() == all,
                views == records.deep_view(),
                all == records@,
                last_index == all.len() - 1,
                this.sorted(topic@, crit, virtuals@, asked, views.take(it.index() as int)) == Ok::<
                    Sorted,
                    FilterError,
                >(Sorted { kept: kept.deep_view(), moved: moved_view(moved@) }),
                it.index() > last_index ==> last_element_partition == this.taken_by(
                    topic@,
                    crit,
                    virtuals@,
                    asked,
                    views.last(),
                ),
        {
            let ghost i = it.index() as int;
            let mut record = entry;
            let ghost kept_so_far = kept.deep_view();
            let ghost moved_so_far = moved_view(moved@);
            proof {
                assert(views[i] == record.deep_view());
                assert(views.take(i + 1).drop_last() =~= views.take(i));
                assert(views.take(i + 1).last() == views[i]);
            }
            match self.dispatch(topic, criteria, virtuals, asked, &mut record) {
                Err(e) => {
                    proof {
                        lemma_error_stays(this, topic@, crit, virtuals@, asked, views, i + 1, e);
                    }
                    return Err(e);
                },
                Ok(Some((vp, moved_record))) => {
                    last_element_partition = Some(vp);
                    moved.push((vp, moved_record));
                    assert(moved_view(moved@) =~= moved_so_far.push(
                        (vp, moved_record.deep_view()),
                    ));
                },
                Ok(None) => {
                    last_element_partition = None;
                },
            }
            kept.push(record);
            assert(kept.deep_view() =~= kept_so_far.push(record.deep_view()));
        }
        proof {
            assert(views.take(views.len() as int) =~= views);
        }
        if let Some(taken_by) = last_element_partition {
            let ghost moved_so_far = moved_view(moved@);
            let ghost marker = last_element.deep_view();
            let mut i: usize = 0;
            proof {
                assert(moved_so_far + markers(virtuals@.take(0), asked, taken_by, marker)
                    =~= moved_so_far);
            }
            while i < virtuals.len()
                invariant
                    i <= virtuals@.len(),
                    marker == last_element.deep_view(),
                    moved_view(moved@) == moved_so_far + markers(
                        virtuals@.take(i as int),
                        asked,
                        taken_by,
                        marker,
                    ),
                decreases virtuals@.len() - i,
            {
                let vp: i32 = virtuals[i];
                let ghost now = moved_view(moved@);
                proof {
                    assert(virtuals@.take(i + 1).drop_last() =~= virtuals@.take(i as int));
                    assert(virtuals@.take(i + 1).last() == vp);
                }
                if vp != asked && vp != taken_by {
                    moved.push((vp, last_element.copy()));
                    assert(moved_view(moved@) =~= now.push((vp, marker)));
                    assert(moved_view(moved@) =~= moved_so_far + markers(
                        virtuals@.take(i + 1),
                        asked,
                        taken_by,
                        marker,
                    ));
                }
                i += 1;
            }
            proof {
                assert(virtuals@.take(i as int) =~= virtuals@);
            }
        }
        if self.remove_empty_records {
            proof {
                lemma_sorted_shape(this, topic@, crit, virtuals@, asked, views);
                lemma_with_last_shortens(kept.deep_view(), last_element.deep_view());
            }
            batches::filter_vector_records(&mut kept, &last_element);
        }
        Ok((kept, moved))
    }

    /// Filters the records of a partition that was asked for. What is left of them is handed
    /// out; what virtual partitions get is added to what waits for them.
    pub fn filter_records_optimized(
        &self,
        topic: &String,
        asked: i32,
        records: Option<Vec<u8>>,
        waiting: &mut KeyedMap<(String, i32), Vec<Record>>,
    ) -> (r: Result<Option<Vec<u8>>, FilterError>)
        ensures
            match r {
                Ok(left) => self@.filtered(
                    topic@,
                    asked,
                    batches::optional(records),
                    old(waiting)@,
                ) == Ok::<(Option<Seq<u8>>, Waiting), FilterError>(
                    (batches::optional(left), final(waiting)@),
                ),
                Err(e) => self@.filtered(
                    topic@,
                    asked,
                    batches::optional(records),
                    old(waiting)@,
                ) == Err::<(Option<Seq<u8>>, Waiting), FilterError>(e) && final(waiting)@ == old(
                    waiting,
                )@,
            },
    {
        let virtuals = match self.find_siblings(topic, asked) {
            Ok(virtuals) => virtuals,
            Err(e) => {
                return Err(e);
            },
        };
        let criteria = match self.map_alloy_filters.get(topic) {
            Some(criteria) => criteria,
            None => {
                return Err(FilterError::UnknownTopic);
            },
        };
        let bytes = match records {
            Some(bytes) => bytes,
            None => {
                return Ok(None);
            },
        };
        if criteria.partition.len() == 0 && criteria.projections.len() == 0
            && criteria.selections.len() == 0 {
            return Ok(Some(bytes));
        }
        let list = batches::decode_records(&bytes);
        if list.len() == 0 {
            return Ok(None);
        }
        match self.sort_records(topic, criteria, virtuals, asked, list) {
            Err(e) => Err(e),
            Ok((kept, moved)) => match batches::encode_records(kept) {
                None => Err(FilterError::TooFarApart),
                Some(encoded) => {
                    add_moved(waiting, topic, moved);
                    Ok(Some(encoded))
                },
            },
        }
    }

    /// Finds the virtual partitions of the original partition that a virtual one belongs to.
    pub(crate) fn find_siblings(&self, topic: &String, asked: i32) -> (r: Result<
        &Vec<i32>,
        FilterError,
    >)
        ensures
            match r {
                Ok(virtuals) => self@.siblings(topic@, asked) == Ok::<Seq<i32>, FilterError>(
                    virtuals@,
                ),
                Err(e) => self@.siblings(topic@, asked) == Err::<Seq<i32>, FilterError>(e),
            },
    {
        let relation = match self.bimap_virtual_origin.get(topic) {
            Some(relation) => relation,
            None => {
                return Err(FilterError::UnknownTopic);
            },
        };
        let original: i32 = match relation.get_original_by_virtual(asked) {
            Some(original) => *original,
            None => {
                return Err(FilterError::UnknownPartition);
            },
        };
        match relation.get_virtuals_by_original(original) {
            Some(virtuals) => Ok(virtuals),
            None => Err(FilterError::UnknownPartition),
        }
    }
}

/// An error in some of the records is an error in all of them.
proof fn lemma_error_stays(
    this: FilterView,
    topic: Seq<char>,
    criteria: CriteriaView,
    virtuals: Seq<i32>,
    asked: i32,
    records: Seq<RecordView>,
    n: int,
    e: FilterError,
)
    requires
        0 <= n <= records.len(),
        this.sorted(topic, criteria, virtuals, asked, records.take(n)) == Err::<
            Sorted,
            FilterError,
        >(e),
    ensures
        this.sorted(topic, criteria, virtuals, asked, records) == Err::<Sorted, FilterError>(e),
    decreases records.len() - n,
{
    if n < records.len() {
        assert(records.take(n + 1).drop_last() =~= records.take(n));
        lemma_error_stays(this, topic, criteria, virtuals, asked, records, n + 1, e);
    } else {
        assert(records.take(n) =~= records);
    }
}

/// What is left of records are as many records, and the last one has its offset.
proof fn lemma_sorted_shape(
    this: FilterView,
    topic: Seq<char>,
    criteria: CriteriaView,
    virtuals: Seq<i32>,
    asked: i32,
    records: Seq<RecordView>,
)
    requires
        this.sorted(topic, criteria, virtuals, asked, records) is Ok,
    ensures
        this.sorted(topic, criteria, virtuals, asked, records)->Ok_0.kept.len() == records.len(),
        records.len() > 0 ==> this.sorted(
            topic,
            criteria,
            virtuals,
            asked,
            records,
        )->Ok_0.kept.last().offset == records.last().offset,
    decreases records.len(),
{
    if records.len() > 0 {
        lemma_sorted_shape(this, topic, criteria, virtuals, asked, records.drop_last());
    }
}

} // verus!
