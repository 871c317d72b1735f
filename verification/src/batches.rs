//! Records: how batches of them are read and written, and how lists of them are thinned.

use crate::frames;
use crate::kafka;
use crate::text;
use crate::wire;
use bytes::Bytes;
use bytes::BytesMut;
use kafka_protocol::records::RecordBatchDecoder;
use kafka_protocol::records::RecordBatchEncoder;
use kafka_protocol::records::RecordEncodeOptions;
use kafka_protocol::records::TimestampType;
use vstd::prelude::*;

verus! {

/// A record.
#[derive(Debug)]
pub struct Record {
    pub transactional: bool,
    pub control: bool,
    pub partition_leader_epoch: i32,
    pub producer_id: i64,
    pub producer_epoch: i16,
    /// Whether the timestamp is the time at which the record was stored.
    pub log_append_time: bool,
    pub offset: i64,
    pub sequence: i32,
    pub timestamp: i64,
    pub key: Option<Vec<u8>>,
    pub value: Option<Vec<u8>>,
    pub headers: Vec<(String, Option<Vec<u8>>)>,
}

/// What a record says.
#[verifier::ext_equal]
pub struct RecordView {
    pub transactional: bool,
    pub control: bool,
    pub partition_leader_epoch: i32,
    pub producer_id: i64,
    pub producer_epoch: i16,
    pub log_append_time: bool,
    pub offset: i64,
    pub sequence: i32,
    pub timestamp: i64,
    pub key: Option<Seq<u8>>,
    pub value: Option<Seq<u8>>,
    pub headers: Seq<(Seq<char>, Option<Seq<u8>>)>,
}

/// Bytes that may be missing.
pub open spec fn optional(bytes: Option<Vec<u8>>) -> Option<Seq<u8>> {
    match bytes {
        Some(b) => Some(b@),
        None => None,
    }
}

/// What the headers of a record say.
pub open spec fn headers_view(headers: Seq<(String, Option<Vec<u8>>)>) -> Seq<
    (Seq<char>, Option<Seq<u8>>),
> {
    Seq::new(headers.len(), |i: int| (headers[i].0@, optional(headers[i].1)))
}

impl DeepView for Record {
    type V = RecordView;

    open spec fn deep_view(&self) -> RecordView {
        RecordView {
            transactional: self.transactional,
            control: self.control,
            partition_leader_epoch: self.partition_leader_epoch,
            producer_id: self.producer_id,
            producer_epoch: self.producer_epoch,
            log_append_time: self.log_append_time,
            offset: self.offset,
            sequence: self.sequence,
            timestamp: self.timestamp,
            key: optional(self.key),
            value: optional(self.value),
            headers: headers_view(self.headers@),
        }
    }
}

fn copy_optional(bytes: &Option<Vec<u8>>) -> (r: Option<Vec<u8>>)
    ensures
        optional(r) == optional(*bytes),
{
    match bytes {
        Some(b) => Some(text::copy_bytes(b)),
        None => None,
    }
}

impl Record {
    pub fn copy(&self) -> (record: Self)
        ensures
            record.deep_view() == self.deep_view(),
    {
        let mut headers: Vec<(String, Option<Vec<u8>>)> = Vec::new();
        let mut i: usize = 0;
        while i < self.headers.len()
            invariant
                i <= self.headers@.len(),
                headers@.len() == i,
                forall|j: int|
                    0 <= j < i ==> headers_view(headers@)[j] == #[trigger] headers_view(
                        self.headers@,
                    )[j],
            decreases self.headers@.len() - i,
        {
            let ghost before = headers@;
            headers.push((self.headers[i].0.clone(), copy_optional(&self.headers[i].1)));
            assert forall|j: int| 0 <= j < i + 1 implies headers_view(headers@)[j]
                == #[trigger] headers_view(self.headers@)[j] by {
                if j < i {
                    assert(headers_view(before)[j] == headers_view(self.headers@)[j]);
                }
            }
            i += 1;
        }
        assert(headers_view(headers@) =~= headers_view(self.headers@));
        Record {
            transactional: self.transactional,
            control: self.control,
            partition_leader_epoch: self.partition_leader_epoch,
            producer_id: self.producer_id,
            producer_epoch: self.producer_epoch,
            log_append_time: self.log_append_time,
            offset: self.offset,
            sequence: self.sequence,
            timestamp: self.timestamp,
            key: copy_optional(&self.key),
            value: copy_optional(&self.value),
            headers,
        }
    }
}

/// The records of a batch, whose bytes are all of the frame; nothing if the frame holds no
/// batch.
pub uninterp spec fn batch_records(frame: Seq<u8>) -> Option<Seq<RecordView>>;

/// The bytes that records are written with, in a version of the format and with a
/// compression.
pub uninterp spec fn records_encoded(
    records: Seq<RecordView>,
    version: i8,
    compression: i16,
) -> Seq<u8>;

/// Whether no two offsets and no two times are too far apart to be subtracted.
pub open spec fn distances_fit(records: Seq<RecordView>) -> bool {
    forall|i: int, j: int|
        0 <= i < records.len() && 0 <= j < records.len() ==> (#[trigger] records[i]).offset - (
        #[trigger] records[j]).offset <= i64::MAX && records[i].timestamp - records[j].timestamp
            <= i64::MAX
}

/// `RecordBatchDecoder::decode` reads the batches that bytes consist of, here a single one. It
/// calls itself for each set of messages that stands in another, and adds the distances of
/// records to the first offset and time without looking whether the sums fit. What it reads has
/// the name `batch_records`.
#[verifier::external_body]
fn decode_frame(frame: &[u8]) -> (r: Option<Vec<Record>>)
    requires
        frames::can_decode(frame@),
    ensures
        match r {
            Some(records) => batch_records(frame@) == Some(records.deep_view()),
            None => batch_records(frame@) is None,
        },
{
    let records = RecordBatchDecoder::decode(&mut Bytes::copy_from_slice(frame)).ok()?;
    Some(records.into_iter().map(|r| Record {
        transactional: r.transactional, control: r.control,
        partition_leader_epoch: r.partition_leader_epoch, producer_id: r.producer_id,
        producer_epoch: r.producer_epoch, offset: r.offset, sequence: r.sequence,
        log_append_time: matches!(r.timestamp_type, TimestampType::LogAppend),
        timestamp: r.timestamp, key: r.key.map(|b| b.to_vec()), value: r.value.map(|b| b.to_vec()),
        headers: r.headers.into_iter().map(|(k, v)| (k.to_string(), v.map(|b| b.to_vec())))
            .collect(),
    }).collect())
}

/// `RecordBatchEncoder::encode` writes records. What it wrote is handed out even where it
/// stopped at an error.
#[verifier::external_body]
fn encode_all(records: Vec<Record>, options: &RecordEncodeOptions) -> (r: Vec<u8>)
    requires
        kafka::options_version(*options) == 2,
        distances_fit(records.deep_view()),
    ensures
        r@ == records_encoded(
            records.deep_view(),
            kafka::options_version(*options),
            kafka::options_compression(*options),
        ),
{
    let list: Vec<_> = records.into_iter().map(|Record { transactional, control, sequence,
        partition_leader_epoch, producer_id, log_append_time, producer_epoch, offset, timestamp,
        key, value, headers }| kafka_protocol::records::Record {
        transactional, control, sequence, partition_leader_epoch, producer_id, producer_epoch,
        timestamp_type: [TimestampType::Creation, TimestampType::LogAppend][log_append_time as usize],
        offset, timestamp, key: key.map(Bytes::from), value: value.map(Bytes::from),
        headers: headers.into_iter().map(|(k, v)| (string::TryFrom::try_from(Bytes::from(k))
            .unwrap_or_default(), v.map(Bytes::from))).collect(),
    }).collect();
    let mut buf = BytesMut::new();
    let _ = RecordBatchEncoder::encode(&mut buf, list.iter(), options);
    buf.to_vec()
}

/// Whether the bytes start with a whole batch that can be read.
pub open spec fn starts_with_batch(data: Seq<u8>) -> bool {
    &&& data.len() >= 17
    &&& 17 <= frames::batch_length(data) <= data.len()
    &&& frames::can_decode(data.take(frames::batch_length(data)))
    &&& batch_records(data.take(frames::batch_length(data))) is Some
}

/// The records of the batches that the bytes start with, up to the first one that is cut
/// off or cannot be read. Of a batch in which one record cannot be read, there are none.
pub open spec fn records_of(data: Seq<u8>) -> Seq<RecordView>
    decreases data.len(),
{
    if starts_with_batch(data) {
        batch_records(data.take(frames::batch_length(data)))->Some_0 + records_of(
            data.skip(frames::batch_length(data)),
        )
    } else {
        Seq::empty()
    }
}

/// Reads the records of the batches that the bytes start with, up to the first one that is
/// cut off or cannot be read. Of a batch in which one record cannot be read, none is handed
/// out, not even those before it: the decoder gives a batch as a whole or not at all.
pub fn decode_records(data: &Vec<u8>) -> (records: Vec<Record>)
    ensures
        records.deep_view() == records_of(data@),
{
    let mut records: Vec<Record> = Vec::new();
    let mut at: usize = 0;
    let n: usize = data.len();
    let ghost all = records_of(data@);
    proof {
        assert(data@.skip(0) =~= data@);
        assert(records.deep_view() + records_of(data@.skip(0)) =~= all);
    }
    while n - at >= 17
        invariant
            n == data@.len(),
            at <= n,
            records.deep_view() + records_of(data@.skip(at as int)) == all,
        ensures
            records.deep_view() == all,
        decreases n - at,
    {
        let ghost rest = data@.skip(at as int);
        let length: i32 = wire::read_i32(data.as_slice(), at + 8);
        assert(wire::i32_at(rest, 8) == length);
        if length < 5 || (length as u64) > (n - at - 12) as u64 {
            proof {
                assert(records.deep_view() + Seq::<RecordView>::empty() =~= records.deep_view());
            }
            break ;
        }
        let end: usize = at + 12 + length as usize;
        let frame = vstd::slice::slice_subrange(data.as_slice(), at, end);
        assert(frame@ =~= rest.take(frames::batch_length(rest)));
        if !frames::check_frame(frame) {
            proof {
                assert(records.deep_view() + Seq::<RecordView>::empty() =~= records.deep_view());
            }
            break ;
        }
        match decode_frame(frame) {
            Some(mut batch) => {
                let ghost before = records.deep_view();
                let ghost added = batch.deep_view();
                records.append(&mut batch);
                proof {
                    assert(records.deep_view() =~= before + added);
                    assert(rest.skip(frames::batch_length(rest)) =~= data@.skip(end as int));
                    assert(records.deep_view() + records_of(data@.skip(end as int)) =~= before + (
                    added + records_of(data@.skip(end as int))));
                }
                at = end;
            },
            None => {
                proof {
                    assert(records.deep_view() + Seq::<RecordView>::empty()
                        =~= records.deep_view());
                }
                break ;
            },
        }
        proof {
            if n - at < 17 {
                assert(!starts_with_batch(data@.skip(at as int)));
                assert(records.deep_view() + Seq::<RecordView>::empty() =~= records.deep_view());
            }
        }
    }
    records
}

/// Writes records, without compression. There is nothing to hand out where two offsets or
/// two times are too far apart.
pub fn encode_records(records: Vec<Record>) -> (r: Option<Vec<u8>>)
    ensures
        r is Some <==> distances_fit(records.deep_view()),
        r matches Some(bytes) ==> bytes@ == records_encoded(records.deep_view(), 2, 0),
{
    if !check_distances(&records) {
        return None;
    }
    let options = kafka::KafkaRoutingProtocol::get_encoding_options();
    Some(encode_all(records, &options))
}

/// Whether no two offsets and no two times are too far apart to be subtracted.
fn check_distances(records: &Vec<Record>) -> (r: bool)
    ensures
        r <==> distances_fit(records.deep_view()),
{
    let ghost view = records.deep_view();
    if records.len() == 0 {
        return true;
    }
    let mut lowest: usize = 0;
    let mut highest: usize = 0;
    let mut earliest: usize = 0;
    let mut latest: usize = 0;
    let mut i: usize = 0;
    while i < records.len()
        invariant
            i <= records@.len(),
            records@.len() > 0,
            view == records.deep_view(),
            lowest < records@.len(),
            highest < records@.len(),
            earliest < records@.len(),
            latest < records@.len(),
            forall|j: int|
                0 <= j < i ==> {
                    &&& view[lowest as int].offset <= (#[trigger] view[j]).offset
                    &&& view[j].offset <= view[highest as int].offset
                    &&& view[earliest as int].timestamp <= view[j].timestamp
                    &&& view[j].timestamp <= view[latest as int].timestamp
                },
        decreases records@.len() - i,
    {
        assert(view[i as int].offset == records@[i as int].offset);
        if records[i].offset < records[lowest].offset {
            lowest = i;
        }
        if records[i].offset > records[highest].offset {
            highest = i;
        }
        if records[i].timestamp < records[earliest].timestamp {
            earliest = i;
        }
        if records[i].timestamp > records[latest].timestamp {
            latest = i;
        }
        i += 1;
    }
    let offsets: i128 = records[highest].offset as i128 - records[lowest].offset as i128;
    let times: i128 = records[latest].timestamp as i128 - records[earliest].timestamp as i128;
    let fits = offsets <= i64::MAX as i128 && times <= i64::MAX as i128;
    proof {
        if distances_fit(view) {
            assert(view[highest as int].offset - view[lowest as int].offset <= i64::MAX);
            assert(view[latest as int].timestamp - view[earliest as int].timestamp <= i64::MAX);
        }
    }
    fits
}

/// Whether a record has a key or a value.
pub open spec fn says_something(record: RecordView) -> bool {
    record.key is Some || record.value is Some
}

/// The records that have a key or a value, and behind them the last one where its offset is
/// not among theirs: it tells the reader how far it has come.
pub open spec fn with_last(records: Seq<RecordView>, last: RecordView) -> Seq<RecordView> {
    let kept = records.filter(|r: RecordView| says_something(r));
    if kept.len() == 0 || kept.last().offset != last.offset {
        kept.push(last)
    } else {
        kept
    }
}

/// Removes the records without key and value, except for the last one. The result tells
/// how many records were removed, and how many are left.
pub fn filter_vector_records(elements: &mut Vec<Record>, last_element: &Record) -> (r: (
    usize,
    usize,
))
    requires
        with_last(old(elements).deep_view(), last_element.deep_view()).len() <= old(
            elements,
        )@.len(),
    ensures
        final(elements).deep_view() == with_last(
            old(elements).deep_view(),
            last_element.deep_view(),
        ),
        r.0 == old(elements)@.len() - final(elements)@.len(),
        r.1 == final(elements)@.len(),
{
    let total: usize = elements.len();
    let ghost before = elements.deep_view();
    let ghost keep = |r: RecordView| says_something(r);
    let mut kept: Vec<Record> = Vec::new();
    let mut rest: Vec<Record> = Vec::new();
    std::mem::swap(&mut rest, elements);
    let ghost list = rest@;
    proof {
        reveal(Seq::filter);
        assert(before.take(0) =~= Seq::<RecordView>::empty());
        assert(kept.deep_view() =~= before.take(0).filter(keep));
    }
    for record in it: rest
        invariant
            it.seq() == list,
            list.len() == before.len(),
            forall|j: int| 0 <= j < list.len() ==> before[j] == (#[trigger] list[j]).deep_view(),
            kept.deep_view() == before.take(it.index() as int).filter(keep),
            keep == (|r: RecordView| says_something(r)),
    {
        let ghost done = it.index() as int;
        let ghost view = record.deep_view();
        proof {
            assert(view == before[done]);
            assert(before.take(done + 1) =~= before.take(done).push(view));
            assert(before.take(done + 1).drop_last() =~= before.take(done));
            reveal(Seq::filter);
        }
        let ghost so_far = kept.deep_view();
        if record.key.is_some() || record.value.is_some() {
            kept.push(record);
            assert(kept.deep_view() =~= so_far.push(view));
        }
    }
    proof {
        assert(before.take(before.len() as int) =~= before);
    }
    let ghost all = kept.deep_view();
    let n: usize = kept.len();
    if n == 0 || kept[n - 1].offset != last_element.offset {
        kept.push(last_element.copy());
        assert(kept.deep_view() =~= all.push(last_element.deep_view()));
    }
    *elements = kept;
    (total - elements.len(), elements.len())
}

/// The number of bytes of a record's key and value.
pub open spec fn size_of(record: RecordView) -> nat {
    (match record.key {
        Some(key) => key.len(),
        None => 0,
    }) + (match record.value {
        Some(value) => value.len(),
        None => 0,
    })
}

/// The number of bytes of the keys and values of records.
pub open spec fn size_of_all(records: Seq<RecordView>) -> nat
    decreases records.len(),
{
    if records.len() == 0 {
        0
    } else {
        size_of_all(records.drop_last()) + size_of(records.last())
    }
}

/// More records are not smaller.
proof fn lemma_size_grows(records: Seq<RecordView>, i: int, j: int)
    requires
        0 <= i <= j <= records.len(),
    ensures
        size_of_all(records.take(i)) <= size_of_all(records.take(j)),
    decreases j - i,
{
    if i < j {
        lemma_size_grows(records, i, j - 1);
        assert(records.take(j).drop_last() =~= records.take(j - 1));
    }
}

fn record_size(record: &Record) -> (n: u128)
    ensures
        n == size_of(record.deep_view()),
        n <= 2 * usize::MAX,
{
    let key: usize = match &record.key {
        Some(key) => key.len(),
        None => 0,
    };
    let value: usize = match &record.value {
        Some(value) => value.len(),
        None => 0,
    };
    key as u128 + value as u128
}

/// Whether the records have more bytes than `max_size`.
pub fn records_at_least_size(records: &Vec<Record>, max_size: usize) -> (r: bool)
    ensures
        r <==> size_of_all(records.deep_view()) > max_size,
{
    let ghost view = records.deep_view();
    let mut total: u128 = 0;
    let mut i: usize = 0;
    proof {
        assert(view.take(0) =~= Seq::<RecordView>::empty());
    }
    while i < records.len()
        invariant
            i <= records@.len(),
            view == records.deep_view(),
            total == size_of_all(view.take(i as int)),
            total <= max_size,
        decreases records@.len() - i,
    {
        let size: u128 = record_size(&records[i]);
        proof {
            assert(view.take(i + 1).drop_last() =~= view.take(i as int));
            assert(view.take(i + 1).last() == records@[i as int].deep_view());
        }
        if total + size > max_size as u128 {
            proof {
                lemma_size_grows(view, i + 1, view.len() as int);
                assert(view.take(view.len() as int) =~= view);
            }
            return true;
        }
        total = total + size;
        i += 1;
    }
    proof {
        assert(view.take(i as int) =~= view);
    }
    false
}

/// Whether `n` is the number of records at the start that fit in `max_size` bytes.
pub open spec fn is_fitting(records: Seq<RecordView>, max_size: int, n: int) -> bool {
    &&& 0 <= n <= records.len()
    &&& size_of_all(records.take(n)) <= max_size
    &&& n < records.len() ==> size_of_all(records.take(n + 1)) > max_size
}

/// Takes the records at the start that fit in `max_size` bytes.
pub fn take_records_within_size(records: &mut Vec<Record>, max_size: usize) -> (taken: Vec<Record>)
    ensures
        exists|n: int|
            #[trigger] is_fitting(old(records).deep_view(), max_size as int, n)
                && taken.deep_view() == old(records).deep_view().take(n)
                && final(records).deep_view() == old(records).deep_view().skip(n),
{
    let ghost view = records.deep_view();
    let mut total: u128 = 0;
    let mut count: usize = 0;
    proof {
        assert(view.take(0) =~= Seq::<RecordView>::empty());
    }
    while count < records.len() && total + record_size(&records[count]) <= max_size as u128
        invariant
            count <= records@.len(),
            view == records.deep_view(),
            total == size_of_all(view.take(count as int)),
            total <= max_size,
        decreases records@.len() - count,
    {
        proof {
            assert(view.take(count + 1).drop_last() =~= view.take(count as int));
        }
        total = total + record_size(&records[count]);
        count += 1;
    }
    proof {
        if count < view.len() {
            assert(view.take(count + 1).drop_last() =~= view.take(count as int));
        }
        assert(is_fitting(view, max_size as int, count as int));
    }
    let mut taken = records.split_off(count);
    std::mem::swap(&mut taken, records);
    assert(taken.deep_view() =~= view.take(count as int));
    assert(records.deep_view() =~= view.skip(count as int));
    taken
}

} // verus!
