//! Responses to fetches: the records of original partitions are filtered and dealt out to
//! virtual ones, and what waits for the virtual partitions of a fetch is added to it.

use crate::batches;
use crate::batches::Record;
use crate::codec;
use crate::codec::FetchMessage;
use crate::codec::FetchMessageView;
use crate::codec::FetchPartition;
use crate::codec::FetchReading;
use crate::codec::FetchReadingView;
use crate::codec::FetchTopic;
use crate::codec::FetchTopicView;
use crate::codec::FetchedPartition;
use crate::codec::FetchedPartitionView;
use crate::codec::FetchedTopic;
use crate::codec::FetchedTopicView;
use crate::data;
use crate::data::FetchRequestDataPartition;
use crate::data::FetchResponseData;
use crate::data::RequestPartitionView;
use crate::data::ResponseDataView;
use crate::filter;
use crate::filter::AlloyFilter;
use crate::filter::FilterError;
use crate::filter::FilterView;
use crate::filter::Waiting;
use crate::maps::KeyedMap;
use crate::partitions::Relation;
use crate::wire;
use vstd::prelude::*;

verus! {

/// Records that go to the context of a virtual partition: into its queue, or where there is
/// none yet, among what is kept under a name.
#[derive(Debug)]
pub struct Delivery {
    pub queue_id: Option<u32>,
    pub key: String,
    pub data: FetchResponseData,
}

/// What is delivered, and where.
#[verifier::ext_equal]
pub struct DeliveryView {
    pub queue_id: Option<u32>,
    pub key: Seq<char>,
    pub data: ResponseDataView,
}

impl DeepView for Delivery {
    type V = DeliveryView;

    open spec fn deep_view(&self) -> DeliveryView {
        DeliveryView {
            queue_id: self.queue_id,
            key: self.key@,
            data: self.data.deep_view(),
        }
    }
}

/// The first topic with a name.
pub open spec fn first_topic(topics: Seq<FetchTopicView>, name: Seq<char>) -> Option<FetchTopicView>
    decreases topics.len(),
{
    if topics.len() == 0 {
        None
    } else if topics[0].topic == name {
        Some(topics[0])
    } else {
        first_topic(topics.skip(1), name)
    }
}

/// The first of the partitions that belongs to an original partition.
pub open spec fn first_asked(
    relations: Map<Seq<char>, Relation>,
    topic: Seq<char>,
    partitions: Seq<FetchPartition>,
    original: i32,
) -> Result<FetchPartition, FilterError>
    decreases partitions.len(),
{
    if partitions.len() == 0 {
        Err(FilterError::UnknownPartition)
    } else if !relations.contains_key(topic) {
        Err(FilterError::UnknownTopic)
    } else if !relations[topic].originals.contains_key(partitions[0].partition) {
        Err(FilterError::UnknownPartition)
    } else if relations[topic].originals[partitions[0].partition] == original {
        Ok(partitions[0])
    } else {
        first_asked(relations, topic, partitions.skip(1), original)
    }
}

/// What is left to wait, and what is delivered.
#[verifier::ext_equal]
pub struct Flushed {
    pub waiting: Waiting,
    pub deliveries: Seq<DeliveryView>,
}

/// What becomes of the partitions of a topic.
#[verifier::ext_equal]
pub struct ProcessedPartitions {
    pub partitions: Seq<FetchedPartitionView>,
    pub waiting: Waiting,
    pub deliveries: Seq<DeliveryView>,
}

/// What becomes of the topics of a response.
#[verifier::ext_equal]
pub struct ProcessedTopics {
    pub topics: Seq<FetchedTopicView>,
    pub waiting: Waiting,
    pub deliveries: Seq<DeliveryView>,
}

impl FilterView {
    /// How the records of a virtual partition are delivered.
    pub open spec fn delivery(
        self,
        topic: Seq<char>,
        partition: i32,
        fetch_offset: i64,
        records: Seq<u8>,
    ) -> DeliveryView {
        let queue = data::queue_key(topic, partition as int);
        DeliveryView {
            queue_id: if self.queues.contains_key(queue) {
                Some(self.queues[queue])
            } else {
                None
            },
            key: data::records_key(topic, partition as int, fetch_offset as int),
            data: ResponseDataView {
                session_id: self.session_id,
                session_epoch: self.session_epoch,
                topic,
                partition,
                fetch_offset,
                records,
            },
        }
    }

    /// Delivers what waits for virtual partitions, other than the one that was asked for,
    /// as soon as it is more than the smallest size of a delivery.
    pub open spec fn flushed(
        self,
        topic: Seq<char>,
        virtuals: Seq<i32>,
        asked: FetchPartition,
        waiting: Waiting,
    ) -> Result<Flushed, FilterError>
        decreases virtuals.len(),
    {
        if virtuals.len() == 0 {
            Ok(Flushed { waiting, deliveries: Seq::empty() })
        } else {
            match self.flushed(topic, virtuals.drop_last(), asked, waiting) {
                Err(e) => Err(e),
                Ok(before) => {
                    let vp = virtuals.last();
                    let list = filter::waiting_for(before.waiting, topic, vp);
                    if vp == asked.partition {
                        Ok(before)
                    } else if batches::size_of_all(list) <= self.fetch_min_bytes {
                        Ok(
                            Flushed {
                                waiting: before.waiting.insert((topic, vp), list),
                                deliveries: before.deliveries,
                            },
                        )
                    } else if !batches::distances_fit(list) {
                        Err(FilterError::TooFarApart)
                    } else {
                        Ok(
                            Flushed {
                                waiting: before.waiting.insert((topic, vp), Seq::empty()),
                                deliveries: before.deliveries.push(
                                    self.delivery(
                                        topic,
                                        vp,
                                        asked.fetch_offset,
                                        batches::records_encoded(list, 2, 0),
                                    ),
                                ),
                            },
                        )
                    }
                },
            }
        }
    }

    /// What becomes of a partition of a response: it is filtered for the first partition of
    /// the fetch that belongs to it, and named after that one. A partition of a topic that
    /// was not asked for stays as it is.
    pub open spec fn processed_partition(
        self,
        request: FetchReadingView,
        topic: Seq<char>,
        partition: FetchedPartitionView,
        waiting: Waiting,
    ) -> Result<(FetchedPartitionView, Flushed), FilterError> {
        match first_topic(request.topics, topic) {
            None => Ok((partition, Flushed { waiting, deliveries: Seq::empty() })),
            Some(t) => match first_asked(
                self.relations,
                topic,
                t.partitions,
                partition.partition_index,
            ) {
                Err(e) => Err(e),
                Ok(asked) => match self.filtered(
                    topic,
                    asked.partition,
                    partition.records,
                    waiting,
                ) {
                    Err(e) => Err(e),
                    Ok(left) => match self.flushed(
                        topic,
                        self.siblings(topic, asked.partition)->Ok_0,
                        asked,
                        left.1,
                    ) {
                        Err(e) => Err(e),
                        Ok(flushed) => Ok(
                            (
                                FetchedPartitionView {
                                    partition_index: asked.partition,
                                    records: left.0,
                                    ..partition
                                },
                                flushed,
                            ),
                        ),
                    },
                },
            },
        }
    }

    /// What becomes of the partitions of a topic.
    pub open spec fn processed_partitions(
        self,
        request: FetchReadingView,
        topic: Seq<char>,
        partitions: Seq<FetchedPartitionView>,
        waiting: Waiting,
    ) -> Result<ProcessedPartitions, FilterError>
        decreases partitions.len(),
    {
        if partitions.len() == 0 {
            Ok(
                ProcessedPartitions {
                    partitions: Seq::empty(),
                    waiting,
                    deliveries: Seq::empty(),
                },
            )
        } else {
            match self.processed_partitions(request, topic, partitions.drop_last(), waiting) {
                Err(e) => Err(e),
                Ok(before) => match self.processed_partition(
                    request,
                    topic,
                    partitions.last(),
                    before.waiting,
                ) {
                    Err(e) => Err(e),
                    Ok(p) => Ok(
                        ProcessedPartitions {
                            partitions: before.partitions.push(p.0),
                            waiting: p.1.waiting,
                            deliveries: before.deliveries + p.1.deliveries,
                        },
                    ),
                },
            }
        }
    }

    /// What becomes of the topics of a response.
    pub open spec fn processed_topics(
        self,
        request: FetchReadingView,
        topics: Seq<FetchedTopicView>,
        waiting: Waiting,
    ) -> Result<ProcessedTopics, FilterError>
        decreases topics.len(),
    {
        if topics.len() == 0 {
            Ok(ProcessedTopics { topics: Seq::empty(), waiting, deliveries: Seq::empty() })
        } else {
            match self.processed_topics(request, topics.drop_last(), waiting) {
                Err(e) => Err(e),
                Ok(before) => match self.processed_partitions(
                    request,
                    topics.last().topic,
                    topics.last().partitions,
                    before.waiting,
                ) {
                    Err(e) => Err(e),
                    Ok(p) => Ok(
                        ProcessedTopics {
                            topics: before.topics.push(
                                FetchedTopicView { partitions: p.partitions, ..topics.last() },
                            ),
                            waiting: p.waiting,
                            deliveries: before.deliveries + p.deliveries,
                        },
                    ),
                },
            }
        }
    }
}

/// Finds the first topic with a name.
fn find_topic<'a>(topics: &'a Vec<FetchTopic>, name: &String) -> (r: Option<&'a FetchTopic>)
    ensures
        match r {
            Some(t) => first_topic(topics.deep_view(), name@) == Some(t.deep_view()),
            None => first_topic(topics.deep_view(), name@) is None,
        },
{
    let ghost views = topics.deep_view();
    let mut i: usize = 0;
    proof {
        assert(views.skip(0) =~= views);
    }
    while i < topics.len()
        invariant
            i <= topics@.len(),
            views == topics.deep_view(),
            first_topic(views, name@) == first_topic(views.skip(i as int), name@),
        decreases topics@.len() - i,
    {
        proof {
            assert(views.skip(i as int)[0] == topics@[i as int].deep_view());
            assert(views.skip(i as int).skip(1) =~= views.skip(i + 1));
        }
        if topics[i].topic == *name {
            return Some(&topics[i]);
        }
        i += 1;
    }
    None
}

impl AlloyFilter {
    /// Finds the first of the partitions that belongs to an original partition.
    fn find_asked(
        &self,
        topic: &String,
        partitions: &Vec<FetchPartition>,
        original: i32,
    ) -> (r: Result<FetchPartition, FilterError>)
        ensures
            r == first_asked(self@.relations, topic@, partitions@, original),
    {
        let ghost expected = first_asked(self@.relations, topic@, partitions@, original);
        let mut i: usize = 0;
        proof {
            assert(partitions@.skip(0) =~= partitions@);
        }
        while i < partitions.len()
            invariant
                i <= partitions@.len(),
                expected == first_asked(self@.relations, topic@, partitions@, original),
                expected == first_asked(
                    self@.relations,
                    topic@,
                    partitions@.skip(i as int),
                    original,
                ),
            decreases partitions@.len() - i,
        {
            proof {
                assert(partitions@.skip(i as int)[0] == partitions@[i as int]);
                assert(partitions@.skip(i as int).skip(1) =~= partitions@.skip(i + 1));
            }
            match self.bimap_virtual_origin.get(topic) {
                None => {
                    return Err(FilterError::UnknownTopic);
                },
                Some(relation) => match relation.get_original_by_virtual(
                    partitions[i].partition,
                ) {
                    None => {
                        return Err(FilterError::UnknownPartition);
                    },
                    Some(o) => {
                        if *o == original {
                            return Ok(partitions[i]);
                        }
                    },
                },
            }
            i += 1;
        }
        Err(FilterError::UnknownPartition)
    }

    /// Makes a delivery of the records of a virtual partition.
    pub fn push_partition_records_to_shared_data(
        &self,
        topic: &String,
        partition: i32,
        fetch_offset: i64,
        records: Vec<u8>,
    ) -> (delivery: Delivery)
        ensures
            delivery.deep_view() == self@.delivery(topic@, partition, fetch_offset, records@),
    {
        let data = FetchResponseData {
            session_id: self.session_id,
            session_epoch: self.session_epoch,
            topic: topic.clone(),
            partition,
            fetch_offset,
            records,
        };
        let key = data.get_shared_data_key();
        let queue = data::make_queue_key(topic, partition);
        let queue_id: Option<u32> = match self.map_queue_vp.get(&queue) {
            Some(id) => Some(*id),
            None => None,
        };
        Delivery { queue_id, key, data }
    }

    /// Delivers what waits for virtual partitions.
    fn flush(
        &self,
        topic: &String,
        virtuals: &Vec<i32>,
        asked: FetchPartition,
        waiting: &mut KeyedMap<(String, i32), Vec<Record>>,
        deliveries: &mut Vec<Delivery>,
    ) -> (r: Result<(), FilterError>)
        ensures
            match r {
                Ok(_) => self@.flushed(topic@, virtuals@, asked, old(waiting)@) matches Ok(f)
                    && final(waiting)@ == f.waiting && final(deliveries).deep_view() == old(
                    deliveries,
                ).deep_view() + f.deliveries,
                Err(e) => self@.flushed(topic@, virtuals@, asked, old(waiting)@) == Err::<
                    Flushed,
                    FilterError,
                >(e),
            },
    {
        let ghost this = self@;
        let ghost start = waiting@;
        let ghost sent = deliveries.deep_view();
        let mut i: usize = 0;
        proof {
            assert(sent + Seq::<DeliveryView>::empty() =~= sent);
            assert(virtuals@.take(0) =~= Seq::<i32>::empty());
        }
        while i < virtuals.len()
            invariant
                this == self@,
                i <= virtuals@.len(),
                this.flushed(topic@, virtuals@.take(i as int), asked, start) matches Ok(f)
                    && waiting@ == f.waiting && deliveries.deep_view() == sent + f.deliveries,
                start == old(waiting)@,
                sent == old(deliveries).deep_view(),
            decreases virtuals@.len() - i,
        {
            let vp: i32 = virtuals[i];
            let ghost before = this.flushed(topic@, virtuals@.take(i as int), asked, start)->Ok_0;
            proof {
                assert(virtuals@.take(i + 1).drop_last() =~= virtuals@.take(i as int));
                assert(virtuals@.take(i + 1).last() == vp);
            }
            if vp != asked.partition {
                let key = (topic.clone(), vp);
                let list: Vec<Record> = match waiting.remove(&key) {
                    Some(list) => list,
                    None => Vec::new(),
                };
                let ghost view = list.deep_view();
                assert(view =~= filter::waiting_for(before.waiting, topic@, vp));
                if batches::records_at_least_size(&list, self.fetch_min_bytes_virtual_partition) {
                    match batches::encode_records(list) {
                        None => {
                            proof {
                                lemma_flush_error_stays(
                                    this,
                                    topic@,
                                    virtuals@,
                                    asked,
                                    start,
                                    i + 1,
                                    FilterError::TooFarApart,
                                );
                            }
                            return Err(FilterError::TooFarApart);
                        },
                        Some(records) => {
                            let ghost now = deliveries.deep_view();
                            let delivery = self.push_partition_records_to_shared_data(
                                topic,
                                vp,
                                asked.fetch_offset,
                                records,
                            );
                            deliveries.push(delivery);
                            let empty: Vec<Record> = Vec::new();
                            proof {
                                assert(empty.deep_view() =~= Seq::empty());
                                assert(deliveries.deep_view() =~= now.push(delivery.deep_view()));
                                assert(deliveries.deep_view() =~= sent + before.deliveries.push(
                                    delivery.deep_view(),
                                ));
                            }
                            waiting.insert(key, empty);
                            assert(waiting@ =~= before.waiting.insert(
                                (topic@, vp),
                                Seq::empty(),
                            ));
                        },
                    }
                } else {
                    waiting.insert(key, list);
                    assert(waiting@ =~= before.waiting.insert((topic@, vp), view));
                }
            }
            i += 1;
        }
        proof {
            assert(virtuals@.take(i as int) =~= virtuals@);
        }
        Ok(())
    }
}

proof fn lemma_flush_error_stays(
    this: FilterView,
    topic: Seq<char>,
    virtuals: Seq<i32>,
    asked: FetchPartition,
    waiting: Waiting,
    n: int,
    e: FilterError,
)
    requires
        0 <= n <= virtuals.len(),
        this.flushed(topic, virtuals.take(n), asked, waiting) == Err::<Flushed, FilterError>(e),
    ensures
        this.flushed(topic, virtuals, asked, waiting) == Err::<Flushed, FilterError>(e),
    decreases virtuals.len() - n,
{
    if n < virtuals.len() {
        assert(virtuals.take(n + 1).drop_last() =~= virtuals.take(n));
        lemma_flush_error_stays(this, topic, virtuals, asked, waiting, n + 1, e);
    } else {
        assert(virtuals.take(n) =~= virtuals);
    }
}

impl AlloyFilter {
    /// Filters a partition of a response.
    fn process_partition(
        &self,
        request: &FetchReading,
        topic: &String,
        partition: &mut FetchedPartition,
        waiting: &mut KeyedMap<(String, i32), Vec<Record>>,
        deliveries: &mut Vec<Delivery>,
    ) -> (r: Result<(), FilterError>)
        ensures
            match r {
                Ok(_) => self@.processed_partition(
                    request@,
                    topic@,
                    old(partition).deep_view(),
                    old(waiting)@,
                ) matches Ok(p) && final(partition).deep_view() == p.0 && final(waiting)@
                    == p.1.waiting && final(deliveries).deep_view() == old(deliveries).deep_view()
                    + p.1.deliveries,
                Err(e) => self@.processed_partition(
                    request@,
                    topic@,
                    old(partition).deep_view(),
                    old(waiting)@,
                ) == Err::<(FetchedPartitionView, Flushed), FilterError>(e),
            },
    {
        let ghost given = partition.deep_view();
        let asked_topic = match find_topic(&request.topics, topic) {
            Some(asked_topic) => asked_topic,
            None => {
                proof {
                    let sent = deliveries.deep_view();
                    assert(sent + Seq::<DeliveryView>::empty() =~= sent);
                }
                return Ok(());
            },
        };
        let asked = match self.find_asked(
            topic,
            &asked_topic.partitions,
            partition.partition_index,
        ) {
            Ok(asked) => asked,
            Err(e) => {
                return Err(e);
            },
        };
        let records = partition.records.take();
        match self.filter_records_optimized(topic, asked.partition, records, waiting) {
            Ok(left) => {
                partition.records = left;
            },
            Err(e) => {
                return Err(e);
            },
        }
        partition.partition_index = asked.partition;
        match self.find_siblings(topic, asked.partition) {
            Ok(virtuals) => self.flush(topic, virtuals, asked, waiting, deliveries),
            Err(e) => Err(e),
        }
    }

    /// Filters the partitions of a topic of a response.
    fn process_partitions(
        &self,
        request: &FetchReading,
        topic: &String,
        partitions: Vec<FetchedPartition>,
        waiting: &mut KeyedMap<(String, i32), Vec<Record>>,
        deliveries: &mut Vec<Delivery>,
    ) -> (r: Result<Vec<FetchedPartition>, FilterError>)
        ensures
            match r {
                Ok(list) => self@.processed_partitions(
                    request@,
                    topic@,
                    partitions.deep_view(),
                    old(waiting)@,
                ) matches Ok(p) && list.deep_view() == p.partitions && final(waiting)@
                    == p.waiting && final(deliveries).deep_view() == old(deliveries).deep_view()
                    + p.deliveries,
                Err(e) => self@.processed_partitions(
                    request@,
                    topic@,
                    partitions.deep_view(),
                    old(waiting)@,
                ) == Err::<ProcessedPartitions, FilterError>(e),
            },
    {
        let ghost this = self@;
        let ghost all = partitions@;
        let ghost views = partitions.deep_view();
        let ghost start = waiting@;
        let ghost sent = deliveries.deep_view();
        let mut list: Vec<FetchedPartition> = Vec::new();
        proof {
            assert(views.take(0) =~= Seq::<FetchedPartitionView>::empty());
            assert(sent + Seq::<DeliveryView>::empty() =~= sent);
            assert(list.deep_view() =~= Seq::<FetchedPartitionView>::empty());
        }
        for entry in it: partitions
            invariant
                it.seq() == all,
                all == partitions@,
                views == partitions.deep_view(),
                this == self@,
                start == old(waiting)@,
                sent == old(deliveries).deep_view(),
                this.processed_partitions(
                    request@,
                    topic@,
                    views.take(it.index() as int),
                    start,
                ) matches Ok(p) && list.deep_view() == p.partitions && waiting@ == p.waiting
                    && deliveries.deep_view() == sent + p.deliveries,
        {
            let ghost i = it.index() as int;
            let ghost before = this.processed_partitions(
                request@,
                topic@,
                views.take(i),
                start,
            )->Ok_0;
            let mut partition = entry;
            proof {
                assert(views.take(i + 1).drop_last() =~= views.take(i));
                assert(views.take(i + 1).last() == partition.deep_view());
            }
            if let Err(e) = self.process_partition(
                request,
                topic,
                &mut partition,
                waiting,
                deliveries,
            ) {
                proof {
                    lemma_partition_error_stays(this, request@, topic@, views, start, i + 1, e);
                }
                return Err(e);
            }
            proof {
                let p = this.processed_partition(request@, topic@, views[i], before.waiting)->Ok_0;
                assert(deliveries.deep_view() =~= sent + (before.deliveries + p.1.deliveries));
            }
            list.push(partition);
            assert(list.deep_view() =~= before.partitions.push(partition.deep_view()));
        }
        proof {
            assert(views.take(views.len() as int) =~= views);
        }
        Ok(list)
    }

    /// Filters the records of a response. What is left of the response is handed out, with
    /// what is to be delivered to virtual partitions.
    pub fn process_records(
        &self,
        request: &FetchReading,
        topics: Vec<FetchedTopic>,
        waiting: &mut KeyedMap<(String, i32), Vec<Record>>,
    ) -> (r: Result<(Vec<FetchedTopic>, Vec<Delivery>), FilterError>)
        ensures
            match r {
                Ok(p) => self@.processed_topics(
                    request@,
                    topics.deep_view(),
                    old(waiting)@,
                ) == Ok::<ProcessedTopics, FilterError>(
                    ProcessedTopics {
                        topics: p.0.deep_view(),
                        waiting: final(waiting)@,
                        deliveries: p.1.deep_view(),
                    },
                ),
                Err(e) => self@.processed_topics(
                    request@,
                    topics.deep_view(),
                    old(waiting)@,
                ) == Err::<ProcessedTopics, FilterError>(e),
            },
    {
        let ghost this = self@;
        let ghost all = topics@;
        let ghost views = topics.deep_view();
        let ghost start = waiting@;
        let mut list: Vec<FetchedTopic> = Vec::new();
        let mut deliveries: Vec<Delivery> = Vec::new();
        proof {
            assert(views.take(0) =~= Seq::<FetchedTopicView>::empty());
            assert(list.deep_view() =~= Seq::<FetchedTopicView>::empty());
            assert(deliveries.deep_view() =~= Seq::<DeliveryView>::empty());
        }
        for entry in it: topics
            invariant
                it.seq() == all,
                all == topics@,
                views == topics.deep_view(),
                this == self@,
                start == old(waiting)@,
                this.processed_topics(request@, views.take(it.index() as int), start) == Ok::<
                    ProcessedTopics,
                    FilterError,
                >(
                    ProcessedTopics {
                        topics: list.deep_view(),
                        waiting: waiting@,
                        deliveries: deliveries.deep_view(),
                    },
                ),
        {
            let ghost i = it.index() as int;
            let ghost before = list.deep_view();
            let mut topic = entry;
            let ghost given = topic.deep_view();
            proof {
                assert(views.take(i + 1).drop_last() =~= views.take(i));
                assert(views.take(i + 1).last() == given);
            }
            let mut partitions: Vec<FetchedPartition> = Vec::new();
            std::mem::swap(&mut partitions, &mut topic.partitions);
            match self.process_partitions(
                request,
                &topic.topic,
                partitions,
                waiting,
                &mut deliveries,
            ) {
                Ok(processed) => {
                    topic.partitions = processed;
                },
                Err(e) => {
                    proof {
                        lemma_topic_error_stays(this, request@, views, start, i + 1, e);
                    }
                    return Err(e);
                },
            }
            list.push(topic);
            assert(list.deep_view() =~= before.push(topic.deep_view()));
        }
        proof {
            assert(views.take(views.len() as int) =~= views);
        }
        Ok((list, deliveries))
    }
}

proof fn lemma_partition_error_stays(
    this: FilterView,
    request: FetchReadingView,
    topic: Seq<char>,
    partitions: Seq<FetchedPartitionView>,
    waiting: Waiting,
    n: int,
    e: FilterError,
)
    requires
        0 <= n <= partitions.len(),
        this.processed_partitions(request, topic, partitions.take(n), waiting) == Err::<
            ProcessedPartitions,
            FilterError,
        >(e),
    ensures
        this.processed_partitions(request, topic, partitions, waiting) == Err::<
            ProcessedPartitions,
            FilterError,
        >(e),
    decreases partitions.len() - n,
{
    if n < partitions.len() {
        assert(partitions.take(n + 1).drop_last() =~= partitions.take(n));
        lemma_partition_error_stays(this, request, topic, partitions, waiting, n + 1, e);
    } else {
        assert(partitions.take(n) =~= partitions);
    }
}

proof fn lemma_topic_error_stays(
    this: FilterView,
    request: FetchReadingView,
    topics: Seq<FetchedTopicView>,
    waiting: Waiting,
    n: int,
    e: FilterError,
)
    requires
        0 <= n <= topics.len(),
        this.processed_topics(request, topics.take(n), waiting) == Err::<
            ProcessedTopics,
            FilterError,
        >(e),
    ensures
        this.processed_topics(request, topics, waiting) == Err::<ProcessedTopics, FilterError>(e),
    decreases topics.len() - n,
{
    if n < topics.len() {
        assert(topics.take(n + 1).drop_last() =~= topics.take(n));
        lemma_topic_error_stays(this, request, topics, waiting, n + 1, e);
    } else {
        assert(topics.take(n) =~= topics);
    }
}

/// What came of storing something for other contexts.
#[derive(PartialEq, Eq, Structural, Debug, Clone, Copy)]
pub enum StoreStatus {
    Stored,
    /// Another context stored something in between.
    CasMismatch,
    Failed,
}

/// What to do after storing something.
#[derive(PartialEq, Eq, Structural, Debug, Clone, Copy)]
pub enum Attempt {
    Done,
    Again,
    GiveUp,
}

/// Tells what to do after storing something: again where another context came in between.
pub fn next_attempt(status: StoreStatus) -> (attempt: Attempt)
    ensures
        attempt is Done <==> status is Stored,
        attempt is Again <==> status is CasMismatch,
        attempt is GiveUp <==> status is Failed,
{
    match status {
        StoreStatus::Stored => Attempt::Done,
        StoreStatus::CasMismatch => Attempt::Again,
        StoreStatus::Failed => Attempt::GiveUp,
    }
}

/// A partition that another context left, with the session that it belongs to.
pub struct Popped {
    pub session_id: i32,
    pub session_epoch: i32,
    pub partition: Option<FetchedPartition>,
}

/// What another context left.
#[verifier::ext_equal]
pub struct PoppedView {
    pub session_id: i32,
    pub session_epoch: i32,
    pub partition: Option<FetchedPartitionView>,
}

impl DeepView for Popped {
    type V = PoppedView;

    open spec fn deep_view(&self) -> PoppedView {
        PoppedView {
            session_id: self.session_id,
            session_epoch: self.session_epoch,
            partition: self.partition.deep_view(),
        }
    }
}

/// What the bytes that another context left say: two numbers, and a partition.
pub open spec fn popped_from(bytes: Seq<u8>, version: i16) -> Result<PoppedView, FilterError> {
    if bytes.len() < 8 {
        Err(FilterError::BadSharedData)
    } else {
        Ok(
            PoppedView {
                session_id: wire::i32_at(bytes, 0) as i32,
                session_epoch: wire::i32_at(bytes, 4) as i32,
                partition: codec::partition_decoded(bytes.skip(8), version),
            },
        )
    }
}

/// Reads the bytes that another context left.
pub fn read_shared_partition(bytes: &Vec<u8>, version: i16) -> (r: Result<Popped, FilterError>)
    ensures
        match r {
            Ok(p) => popped_from(bytes@, version) == Ok::<PoppedView, FilterError>(
                p.deep_view(),
            ),
            Err(e) => popped_from(bytes@, version) == Err::<PoppedView, FilterError>(e),
        },
{
    if bytes.len() < 8 {
        return Err(FilterError::BadSharedData);
    }
    let rest = vstd::slice::slice_subrange(bytes.as_slice(), 8, bytes.len());
    assert(rest@ =~= bytes@.skip(8));
    Ok(
        Popped {
            session_id: wire::read_i32(bytes.as_slice(), 0),
            session_epoch: wire::read_i32(bytes.as_slice(), 4),
            partition: codec::decode_partition(rest, version),
        },
    )
}

/// A response to a fetch to which the virtual partitions of the fetch are being added, topic
/// by topic and partition by partition.
pub struct FetchAssembly {
    pub message: FetchMessage,
    pub collected: Vec<FetchedPartition>,
    pub topic: usize,
    pub partition: usize,
}

/// How far a response has come.
#[verifier::ext_equal]
pub struct AssemblyView {
    pub message: FetchMessageView,
    pub collected: Seq<FetchedPartitionView>,
    pub topic: int,
    pub partition: int,
}

impl View for FetchAssembly {
    type V = AssemblyView;

    open spec fn view(&self) -> AssemblyView {
        AssemblyView {
            message: self.message@,
            collected: self.collected.deep_view(),
            topic: self.topic as int,
            partition: self.partition as int,
        }
    }
}

/// The first fetched topic with a name.
pub open spec fn first_fetched(topics: Seq<FetchedTopicView>, name: Seq<char>) -> Option<
    FetchedTopicView,
>
    decreases topics.len(),
{
    if topics.len() == 0 {
        None
    } else if topics[0].topic == name {
        Some(topics[0])
    } else {
        first_fetched(topics.skip(1), name)
    }
}

/// Whether a response has a partition: whether it is among those of the first topic with
/// the name.
pub open spec fn is_fetched(topics: Seq<FetchedTopicView>, name: Seq<char>, partition: i32) -> bool {
    match first_fetched(topics, name) {
        None => false,
        Some(t) => exists|i: int|
            0 <= i < t.partitions.len() && (#[trigger] t.partitions[i]).partition_index
                == partition,
    }
}

/// A partition of which nothing is there yet.
pub open spec fn missing_partition(asked: FetchPartition) -> FetchedPartitionView {
    FetchedPartitionView {
        records: None,
        rest: Some(codec::partition_with(asked.fetch_offset, asked.fetch_offset, 0, None)),
        ..FetchedPartitionView::fresh(asked.partition)
    }
}

impl AssemblyView {
    /// Whether all topics have been gone through.
    pub open spec fn is_done(self, request: FetchReadingView) -> bool {
        self.topic >= request.topics.len()
    }

    /// The topic that is being gone through.
    pub open spec fn current(self, request: FetchReadingView) -> FetchTopicView {
        request.topics[self.topic]
    }

    /// The response at the start of a topic: it belongs to the session of the fetch.
    pub open spec fn begun(self, request: FetchReadingView) -> AssemblyView {
        if self.partition == 0 {
            AssemblyView {
                message: FetchMessageView {
                    session_id: request.session_id,
                    error_code: 0,
                    ..self.message
                },
                ..self
            }
        } else {
            self
        }
    }

    /// The response at the end of a topic: what was collected is added, and one more entry
    /// for the topic without partitions.
    pub open spec fn ended(self, request: FetchReadingView) -> AssemblyView {
        let topic = self.current(request).topic;
        AssemblyView {
            message: FetchMessageView {
                topics: self.message.topics.push(
                    FetchedTopicView { topic, partitions: self.collected, rest: None },
                ).push(FetchedTopicView { topic, partitions: Seq::empty(), rest: None }),
                ..self.message
            },
            collected: Seq::empty(),
            topic: self.topic + 1,
            partition: 0,
        }
    }

    /// How far the response comes without anything from other contexts: up to the next
    /// partition that it does not have.
    pub open spec fn advanced(self, request: FetchReadingView) -> AssemblyView
        decreases
            request.topics.len() - self.topic,
            self.current(request).partitions.len() - self.partition,
    {
        if self.is_done(request) || self.topic < 0 || self.partition < 0 {
            self
        } else {
            let s = self.begun(request);
            let t = self.current(request);
            if self.partition >= t.partitions.len() {
                s.ended(request).advanced(request)
            } else if is_fetched(
                s.message.topics,
                t.topic,
                t.partitions[self.partition].partition,
            ) {
                AssemblyView { partition: s.partition + 1, ..s }.advanced(request)
            } else {
                s
            }
        }
    }

    /// The partition that the response does not have.
    pub open spec fn asked(self, request: FetchReadingView) -> FetchPartition {
        self.current(request).partitions[self.partition]
    }

    /// Whether the response waits for a partition.
    pub open spec fn is_waiting(self, request: FetchReadingView) -> bool {
        &&& 0 <= self.topic < request.topics.len()
        &&& 0 <= self.partition < self.current(request).partitions.len()
    }

    /// The response with what was left of a partition, or with an empty partition where
    /// nothing was. The session is that of what was left; a tagged field of it can name
    /// another one.
    pub open spec fn supplied(self, request: FetchReadingView, popped: Option<PoppedView>) -> Result<
        AssemblyView,
        FilterError,
    > {
        let (session, part) = match popped {
            Some(PoppedView { session_id, partition: Some(p), .. }) => (session_id, p),
            _ => (self.message.session_id, missing_partition(self.asked(request))),
        };
        if part.tags.contains_key(4) && part.tags[4].len() < 4 {
            Err(FilterError::BadSharedData)
        } else {
            Ok(
                AssemblyView {
                    message: FetchMessageView {
                        session_id: if part.tags.contains_key(4) {
                            wire::little_i32(part.tags[4]) as i32
                        } else {
                            session
                        },
                        ..self.message
                    },
                    collected: self.collected.push(part),
                    partition: self.partition + 1,
                    ..self
                },
            )
        }
    }
}

impl FetchAssembly {
    /// Starts to add virtual partitions to a response.
    pub fn new(message: FetchMessage) -> (assembly: Self)
        ensures
            assembly@ == (AssemblyView {
                message: message@,
                collected: Seq::empty(),
                topic: 0,
                partition: 0,
            }),
    {
        let assembly = FetchAssembly { message, collected: Vec::new(), topic: 0, partition: 0 };
        assert(assembly@.collected =~= Seq::<FetchedPartitionView>::empty());
        assembly
    }

    /// Goes on to the next partition that the response does not have, and tells which it
    /// is; nothing if the response is complete.
    pub fn advance(&mut self, request: &FetchReading) -> (r: Option<FetchRequestDataPartition>)
        ensures
            final(self)@ == old(self)@.advanced(request@),
            match r {
                None => final(self)@.is_done(request@),
                Some(p) => final(self)@.is_waiting(request@) && p.deep_view() == (
                RequestPartitionView {
                    topic: final(self)@.current(request@).topic,
                    partition: final(self)@.asked(request@).partition,
                    fetch_offset: final(self)@.asked(request@).fetch_offset,
                }),
            },
    {
        let ghost target = self@.advanced(request@);
        while self.topic < request.topics.len()
            invariant
                target == old(self)@.advanced(request@),
                self@.advanced(request@) == target,
            decreases
                request.topics@.len() - self.topic,
                request.topics@[self.topic as int].partitions@.len() - self.partition,
        {
            let ghost view = self@;
            let topic = &request.topics[self.topic];
            assert(view.current(request@) == topic.deep_view());
            if self.partition == 0 {
                self.message.session_id = request.session_id;
                self.message.error_code = 0;
            }
            assert(self@ =~= view.begun(request@));
            if self.partition >= topic.partitions.len() {
                let ghost s = self@;
                let mut collected: Vec<FetchedPartition> = Vec::new();
                std::mem::swap(&mut collected, &mut self.collected);
                self.message.topics.push(
                    FetchedTopic { topic: topic.topic.clone(), partitions: collected, rest: None },
                );
                let ghost first = self.message.topics.deep_view();
                self.message.topics.push(
                    FetchedTopic { topic: topic.topic.clone(), partitions: Vec::new(), rest: None },
                );
                self.topic = self.topic + 1;
                self.partition = 0;
                proof {
                    let expected = s.ended(request@);
                    assert(self@.collected =~= expected.collected);
                    assert(self@.message.topics.last().partitions =~= Seq::<
                        FetchedPartitionView,
                    >::empty());
                    assert(self@.message.topics =~= expected.message.topics);
                    assert(self@ =~= expected);
                }
            } else {
                let asked = topic.partitions[self.partition];
                if check_fetched(&self.message.topics, &topic.topic, asked.partition) {
                    self.partition = self.partition + 1;
                } else {
                    return Some(
                        FetchRequestDataPartition {
                            topic: topic.topic.clone(),
                            partition: asked.partition,
                            fetch_offset: asked.fetch_offset,
                        },
                    );
                }
            }
        }
        None
    }

    /// Adds what another context left of the partition that the response waits for.
    pub fn supply(&mut self, request: &FetchReading, popped: Option<Popped>) -> (r: Result<
        (),
        FilterError,
    >)
        requires
            old(self)@.is_waiting(request@),
        ensures
            match r {
                Ok(_) => old(self)@.supplied(request@, popped.deep_view()) == Ok::<
                    AssemblyView,
                    FilterError,
                >(final(self)@),
                Err(e) => old(self)@.supplied(request@, popped.deep_view()) == Err::<
                    AssemblyView,
                    FilterError,
                >(e) && final(self)@ == old(self)@,
            },
    {
        let ghost view = self@;
        let partitions = &request.topics[self.topic].partitions;
        assert(self.partition < partitions.len());
        let asked = partitions[self.partition];
        let mut session: i32 = self.message.session_id;
        let part: FetchedPartition = match popped {
            Some(Popped { session_id, session_epoch: _, partition: Some(part) }) => {
                session = session_id;
                part
            },
            _ => {
                let mut part = FetchedPartition::fresh(asked.partition);
                part.records = None;
                part.rest = Some(
                    codec::make_partition(asked.fetch_offset, asked.fetch_offset, 0, None),
                );
                part
            },
        };
        match part.tags.get(&4) {
            Some(tag) => {
                assert(part.deep_view().tags.contains_key(4));
                if tag.len() < 4 {
                    return Err(FilterError::BadSharedData);
                }
                session = wire::read_little_i32(tag.as_slice());
            },
            None => {
                assert(!part.deep_view().tags.contains_key(4));
            },
        }
        self.message.session_id = session;
        let ghost added = part.deep_view();
        self.collected.push(part);
        self.partition = self.partition + 1;
        assert(self@.collected =~= view.collected.push(added));
        Ok(())
    }
}

/// Whether a partition is listed.
fn has_partition(list: &Vec<FetchedPartition>, partition: i32) -> (r: bool)
    ensures
        r <==> exists|i: int|
            0 <= i < list.deep_view().len() && (#[trigger] list.deep_view()[i]).partition_index
                == partition,
{
    let ghost parts = list.deep_view();
    let mut j: usize = 0;
    while j < list.len()
        invariant
            j <= list@.len(),
            parts == list.deep_view(),
            forall|k: int| 0 <= k < j ==> (#[trigger] parts[k]).partition_index != partition,
        decreases list@.len() - j,
    {
        assert(parts[j as int].partition_index == list@[j as int].partition_index);
        if list[j].partition_index == partition {
            return true;
        }
        j += 1;
    }
    false
}

/// Whether a response has a partition.
fn check_fetched(topics: &Vec<FetchedTopic>, name: &String, partition: i32) -> (r: bool)
    ensures
        r <==> is_fetched(topics.deep_view(), name@, partition),
{
    let ghost views = topics.deep_view();
    let mut i: usize = 0;
    proof {
        assert(views.skip(0) =~= views);
    }
    while i < topics.len()
        invariant
            i <= topics@.len(),
            views == topics.deep_view(),
            first_fetched(views, name@) == first_fetched(views.skip(i as int), name@),
        decreases topics@.len() - i,
    {
        proof {
            assert(views.skip(i as int)[0] == topics@[i as int].deep_view());
            assert(views.skip(i as int).skip(1) =~= views.skip(i + 1));
        }
        if topics[i].topic == *name {
            return has_partition(&topics[i].partitions, partition);
        }
        i += 1;
    }
    false
}

} // verus!
