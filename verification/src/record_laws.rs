//! How records are read, counted and cut.

use crate::batches;
use crate::batches::RecordView;
use crate::frames;
use crate::wire;
use vstd::prelude::*;

verus! {

/// The bytes of a key or of a value that may be missing.
pub open spec fn length_of(bytes: Option<Seq<u8>>) -> nat {
    if bytes is Some {
        bytes->Some_0.len()
    } else {
        0
    }
}

/// The size of records is that of all of them: each counts the bytes of its key and of its value,
/// and the sizes of lists add up.
pub proof fn every_record_counts(a: Seq<RecordView>, b: Seq<RecordView>, record: RecordView)
    ensures
        batches::size_of_all(seq![record]) == length_of(record.key) + length_of(record.value),
        batches::size_of_all(a + b) == batches::size_of_all(a) + batches::size_of_all(b),
    decreases b.len(),
{
    assert(seq![record].drop_last() =~= Seq::<RecordView>::empty());
    assert(batches::size_of_all(Seq::<RecordView>::empty()) == 0);
    if b.len() == 0 {
        assert(a + b =~= a);
    } else {
        assert((a + b).drop_last() =~= a + b.drop_last());
        assert((a + b).last() == b.last());
        every_record_counts(a, b.drop_last(), record);
    }
}

/// Records are cut where they no longer fit: every start of the list up to there fits, and no
/// longer one does.
pub proof fn records_are_cut_where_they_no_longer_fit(
    records: Seq<RecordView>,
    max_size: int,
    n: int,
    k: int,
)
    requires
        batches::is_fitting(records, max_size, n),
        0 <= k <= records.len(),
    ensures
        0 <= n <= records.len(),
        batches::size_of_all(records.take(k)) <= max_size <==> k <= n,
{
    if k <= n {
        let rest = records.subrange(k, n);
        assert(records.take(n) =~= records.take(k) + rest);
        every_record_counts(records.take(k), rest, records[0]);
    } else {
        let rest = records.subrange(n + 1, k);
        assert(records.take(k) =~= records.take(n + 1) + rest);
        every_record_counts(records.take(n + 1), rest, records[0]);
    }
}

/// Nothing is read behind a batch that is cut off or cannot be read.
pub proof fn nothing_is_read_behind_a_bad_batch(data: Seq<u8>)
    requires
        data.len() < 17 || 12 + wire::i32_at(data, 8) < 17 || 12 + wire::i32_at(data, 8)
            > data.len() || !frames::can_decode(data.take(12 + wire::i32_at(data, 8)))
            || batches::batch_records(data.take(12 + wire::i32_at(data, 8))) is None,
    ensures
        batches::records_of(data).len() == 0,
{
}

/// The records that can be handed to a decoder are checked one after the other: a batch is taken
/// exactly if its first record fits and all behind it do.
pub proof fn every_record_of_a_batch_is_checked(
    data: Seq<u8>,
    count: int,
    offset: int,
    time: int,
    size: int,
    start: int,
)
    requires
        count > 0,
        wire::varint_at(data, 0) == Some((size, start)),
        0 <= size,
        start + size <= data.len(),
    ensures
        frames::records_fit(data, count, offset, time) <==> frames::record_fits(
            data.subrange(start, start + size),
            offset,
            time,
        ) && frames::records_fit(data.skip(start + size), count - 1, offset, time),
{
}

/// The times and the offsets of a record that fits are 64 bit numbers.
pub proof fn a_record_that_fits_has_its_place(
    record: Seq<u8>,
    offset: int,
    time: int,
    later: int,
    a: int,
    further: int,
    b: int,
)
    requires
        frames::record_fits(record, offset, time),
        wire::varint_at(record, 1) == Some((later, a)),
    ensures
        i64::MIN <= time + later <= i64::MAX,
        wire::varint_at(record, a) == Some((further, b)) ==> i64::MIN <= offset + further
            <= i64::MAX,
{
}

/// Messages stand in one another as deep as the deepest of them does, wherever it stands.
pub proof fn the_deepest_message_counts(message: Seq<u8>, rest: Seq<u8>)
    requires
        message.len() >= 12,
        message.len() == 12 + wire::i32_at(message, 8),
    ensures
        frames::nesting(message + rest) >= frames::nesting(message),
        frames::nesting(message + rest) >= frames::nesting(rest),
        frames::nesting(message + rest) == frames::nesting(message) || frames::nesting(
            message + rest,
        ) == frames::nesting(rest),
        frames::inner_set(message) is Some ==> frames::nesting(message) == 1 + frames::nesting(
            frames::inner_set(message)->Some_0,
        ),
        frames::inner_set(message) is None ==> frames::nesting(message) == 0,
{
    let data = message + rest;
    let n = message.len() as int;
    assert(data[8] == message[8] && data[9] == message[9] && data[10] == message[10] && data[11]
        == message[11]);
    assert(frames::batch_length(data) == n);
    assert(data.take(n) =~= message);
    assert(data.skip(n) =~= rest);
    assert(message.take(n) =~= message);
    assert(message.skip(n) =~= Seq::<u8>::empty());
    assert(frames::nesting(Seq::<u8>::empty()) == 0);
}

/// A batch is handed to a decoder exactly if it is as long as it says and, by its format, its
/// numbers can be computed or its messages do not stand in one another too deep.
pub proof fn batches_are_checked_by_their_format(frame: Seq<u8>)
    ensures
        frames::can_decode(frame) ==> frame.len() >= 17 && frame.len() == 12 + wire::i32_at(
            frame,
            8,
        ),
        frames::can_decode(frame) && frame[16] == 2 ==> frames::batch_fits(frame),
        frames::can_decode(frame) && (frame[16] == 0 || frame[16] == 1) ==> frames::nesting(frame)
            <= 128,
        frame.len() >= 17 && frame.len() == 12 + wire::i32_at(frame, 8) && frame[16] == 2
            && frames::batch_fits(frame) ==> frames::can_decode(frame),
        frame.len() >= 17 && frame.len() == 12 + wire::i32_at(frame, 8) && frame[16] < 2
            && frames::nesting(frame) <= 128 ==> frames::can_decode(frame),
{
}

/// A batch without compression fits exactly if it has no more records than bytes for them and
/// each record fits.
pub proof fn a_plain_batch_fits_if_its_records_do(frame: Seq<u8>)
    requires
        frame.len() >= 61,
        frame[22] % 8 == 0,
    ensures
        frames::batch_fits(frame) <==> wire::i32_at(frame, 57) <= frame.len() - 61
            && frames::records_fit(
            frame.skip(61),
            wire::i32_at(frame, 57),
            wire::i64_at(frame, 0),
            wire::i64_at(frame, 27),
        ),
{
}

/// A number of varying length is read back from one byte where it is small: even bytes stand for
/// numbers from zero up, odd ones for those below.
pub proof fn small_numbers_stand_in_one_byte(bytes: Seq<u8>, i: int)
    requires
        0 <= i < bytes.len(),
        bytes[i] < 0x80,
    ensures
        wire::varint_at(bytes, i) is Some,
        wire::varint_at(bytes, i)->Some_0.1 == i + 1,
        bytes[i] % 2 == 0 ==> 2 * wire::varint_at(bytes, i)->Some_0.0 == bytes[i],
        bytes[i] % 2 == 1 ==> 2 * wire::varint_at(bytes, i)->Some_0.0 == -1 - bytes[i],
{
}

/// Numbers with a sign are those without one, but that the upper half stands for numbers below
/// zero.
pub proof fn the_upper_half_is_below_zero(bytes: Seq<u8>, i: int)
    ensures
        bytes[i] < 0x80 ==> wire::i32_at(bytes, i) == wire::u32_at(bytes, i),
        bytes[i] >= 0x80 ==> wire::i32_at(bytes, i) == wire::u32_at(bytes, i) - 0x1_0000_0000,
        bytes[i] < 0x80 ==> wire::i16_at(bytes, i) == bytes[i] * 0x100 + bytes[i + 1],
        bytes[i] >= 0x80 ==> wire::i16_at(bytes, i) == bytes[i] * 0x100 + bytes[i + 1] - 0x1_0000,
        wire::i64_at(bytes, i) == wire::i32_at(bytes, i) * 0x1_0000_0000 + wire::u32_at(
            bytes,
            i + 4,
        ),
{
}

/// The set of messages that stands in a message which is marked as compressed is its value, which
/// stands behind its key, if it has one, and behind a time in the format 1.
pub proof fn the_inner_set_is_the_value(message: Seq<u8>, key: int, size: int)
    requires
        message.len() >= 18,
        message[17] % 8 != 0,
        ({
            let start: int = if message[16] == 0 {
                18
            } else {
                26
            };
            let value = start + 4 + if key < 0 {
                0
            } else {
                key
            };
            &&& start + 4 <= message.len()
            &&& wire::i32_at(message, start) == key
            &&& -1 <= key
            &&& value + 4 + size <= message.len()
            &&& wire::i32_at(message, value) == size
            &&& 0 <= size
        }),
    ensures
        ({
            let start: int = if message[16] == 0 {
                18
            } else {
                26
            };
            let value = start + 4 + if key < 0 {
                0
            } else {
                key
            };
            frames::inner_set(message) == Some(message.subrange(value + 4, value + 4 + size))
        }),
{
}

/// A message that is not marked as compressed has no set of messages in it.
pub proof fn plain_messages_hold_no_set(message: Seq<u8>)
    requires
        message.len() < 18 || message[17] % 8 == 0,
    ensures
        frames::inner_set(message) is None,
{
}

/// A whole record fits exactly if the sums with its distances are 64 bit numbers and it has a
/// byte for each of its headers.
pub proof fn a_whole_record_fits_by_its_numbers(
    record: Seq<u8>,
    offset: int,
    time: int,
    later: (int, int),
    further: (int, int),
    key: (int, int),
    value: (int, int),
    headers: (int, int),
)
    requires
        wire::varint_at(record, 1) == Some(later),
        wire::varint_at(record, later.1) == Some(further),
        wire::varint_at(record, further.1) == Some(key),
        0 <= key.0,
        key.1 + key.0 <= record.len(),
        wire::varint_at(record, key.1 + key.0) == Some(value),
        0 <= value.0,
        value.1 + value.0 <= record.len(),
        wire::varint_at(record, value.1 + value.0) == Some(headers),
    ensures
        frames::record_fits(record, offset, time) <==> {
            &&& i64::MIN <= time + later.0 <= i64::MAX
            &&& i64::MIN <= offset + further.0 <= i64::MAX
            &&& headers.0 <= record.len() - headers.1
        },
{
}

/// A number of varying length goes on behind each byte with its eighth bit set: the other seven
/// are its least significant ones.
pub proof fn longer_numbers_go_on(bytes: Seq<u8>, i: int, groups: nat)
    requires
        0 <= i < bytes.len(),
        bytes[i] >= 0x80,
        groups > 0,
    ensures
        ({
            let rest = wire::groups_at(bytes, i + 1, (groups - 1) as nat);
            let all = wire::groups_at(bytes, i, groups);
            &&& all is Some <==> rest is Some
            &&& all is Some ==> all->Some_0.0 == bytes[i] - 0x80 + 0x80 * rest->Some_0.0
                && all->Some_0.1 == rest->Some_0.1
        }),
{
}

/// What a batch holds is found by the way in which it is compressed; a way that is not known
/// holds nothing.
pub proof fn batches_are_opened_as_they_were_closed(way: u8, bytes: Seq<u8>)
    ensures
        frames::content(0, bytes) == Some(bytes),
        frames::content(1, bytes) == frames::gzip_content(bytes),
        frames::content(2, bytes) == frames::snappy_content(bytes),
        frames::content(3, bytes) == frames::lz4_content(bytes),
        frames::content(4, bytes) == frames::zstd_content(bytes),
        way > 4 ==> frames::content(way, bytes) is None,
{
}

/// A number can also be written with its least significant byte first.
pub proof fn numbers_can_stand_in_reverse(bytes: Seq<u8>)
    requires
        bytes.len() >= 4,
    ensures
        ({
            let n = bytes[0] + bytes[1] * 0x100 + bytes[2] * 0x10000 + bytes[3] * 0x1000000;
            wire::little_i32(bytes) == if bytes[3] < 0x80 {
                n
            } else {
                n - 0x1_0000_0000
            }
        }),
{
}

} // verus!
