//! Batches of records as bytes: how long they are, and which of them a decoder can be given.
//!
//! A batch of the formats 0 and 1 is one message, whose value can be a set of messages again.
//! A batch of the format 2 is a header and its records, which can be compressed as a whole.

use crate::wire;
use bytes::Bytes;
use kafka_protocol::compression::Decompressor;
use kafka_protocol::compression::Gzip;
use kafka_protocol::compression::Lz4;
use kafka_protocol::compression::Snappy;
use kafka_protocol::compression::Zstd;
use vstd::prelude::*;

verus! {

/// How deep sets of messages may stand in one another.
pub const MAX_NESTING: u32 = 128;

/// The length of the first batch: its offset, the number of bytes that follow, and those.
pub open spec fn batch_length(data: Seq<u8>) -> int {
    12 + wire::i32_at(data, 8)
}

/// Where the field of a message ends that starts at a place: its length is four bytes, and -1
/// if there is no field. Nothing if the message is cut off.
pub open spec fn field_end(message: Seq<u8>, at: int) -> Option<int> {
    if at + 4 > message.len() || wire::i32_at(message, at) < -1 {
        None
    } else if wire::i32_at(message, at) == -1 {
        Some(at + 4)
    } else if at + 4 + wire::i32_at(message, at) > message.len() {
        None
    } else {
        Some(at + 4 + wire::i32_at(message, at))
    }
}

/// Where the key of a message starts: in the format 1 there is a time before it.
pub open spec fn key_start(message: Seq<u8>) -> int {
    if message[16] == 0 {
        18
    } else {
        26
    }
}

/// The set of messages that is the value of a message: that of one that is marked as
/// compressed.
pub open spec fn inner_set(message: Seq<u8>) -> Option<Seq<u8>> {
    if message.len() < 18 || message[17] % 8 == 0 {
        None
    } else {
        match field_end(message, key_start(message)) {
            None => None,
            Some(v) => match field_end(message, v) {
                None => None,
                Some(end) => if wire::i32_at(message, v) < 0 {
                    None
                } else {
                    Some(message.subrange(v + 4, end))
                },
            },
        }
    }
}

/// Whether the bytes start with a whole message.
pub open spec fn starts_with_message(data: Seq<u8>) -> bool {
    data.len() >= 12 && 12 <= batch_length(data) <= data.len()
}

/// How deep sets of messages stand in one another in the messages that the bytes start with.
pub open spec fn nesting(data: Seq<u8>) -> nat
    decreases data.len(),
{
    if starts_with_message(data) {
        let own: nat = match inner_set(data.take(batch_length(data))) {
            None => 0,
            Some(set) => 1 + nesting(set),
        };
        let others = nesting(data.skip(batch_length(data)));
        if own < others {
            others
        } else {
            own
        }
    } else {
        0
    }
}

/// Whether a number is one of the 64 bit numbers.
pub open spec fn is_i64(n: int) -> bool {
    i64::MIN <= n <= i64::MAX
}

/// What was compressed with gzip; nothing if the bytes are not such.
pub uninterp spec fn gzip_content(bytes: Seq<u8>) -> Option<Seq<u8>>;

/// What was compressed with snappy; nothing if the bytes are not such.
pub uninterp spec fn snappy_content(bytes: Seq<u8>) -> Option<Seq<u8>>;

/// What was compressed with lz4; nothing if the bytes are not such.
pub uninterp spec fn lz4_content(bytes: Seq<u8>) -> Option<Seq<u8>>;

/// What was compressed with zstd; nothing if the bytes are not such.
pub uninterp spec fn zstd_content(bytes: Seq<u8>) -> Option<Seq<u8>>;

/// Whether the length that bytes announce which are compressed with snappy is one that they can
/// have: no three of them stand for more than 64.
pub open spec fn snappy_fits(bytes: Seq<u8>) -> bool {
    match wire::groups_at(bytes, 0, 5) {
        None => true,
        Some((n, _)) => n <= 32 * bytes.len(),
    }
}

/// What was compressed in one of the ways that a batch can name, the first of which is not to
/// compress; nothing if the bytes are not such.
pub open spec fn content(way: u8, bytes: Seq<u8>) -> Option<Seq<u8>> {
    if way == 0 {
        Some(bytes)
    } else if way == 1 {
        gzip_content(bytes)
    } else if way == 2 {
        snappy_content(bytes)
    } else if way == 3 {
        lz4_content(bytes)
    } else if way == 4 {
        zstd_content(bytes)
    } else {
        None
    }
}

/// Where the field of a record ends that starts at a place: its length is -1 if there is no
/// field. Nothing if the record is cut off.
pub open spec fn varint_field_end(record: Seq<u8>, at: int) -> Option<int> {
    match wire::varint_at(record, at) {
        None => None,
        Some((n, start)) => if n < -1 {
            None
        } else if n == -1 {
            Some(start)
        } else if start + n > record.len() {
            None
        } else {
            Some(start + n)
        },
    }
}

/// Whether a record, as far as it goes, can be read behind a first offset and a first time: the
/// sums with its distances from them are 64 bit numbers, and it has bytes for its headers.
pub open spec fn record_fits(record: Seq<u8>, offset: int, time: int) -> bool {
    match wire::varint_at(record, 1) {
        None => true,
        Some((later, a)) => is_i64(time + later) && match wire::varint_at(record, a) {
            None => true,
            Some((further, b)) => is_i64(offset + further) && match varint_field_end(record, b) {
                None => true,
                Some(c) => match varint_field_end(record, c) {
                    None => true,
                    Some(d) => match wire::varint_at(record, d) {
                        None => true,
                        Some((headers, e)) => headers <= record.len() - e,
                    },
                },
            },
        },
    }
}

/// Whether so many records can be read, up to the first one that is cut off.
pub open spec fn records_fit(data: Seq<u8>, count: int, offset: int, time: int) -> bool
    decreases count,
{
    if count <= 0 {
        true
    } else {
        match wire::varint_at(data, 0) {
            None => true,
            Some((size, start)) => if size < 0 || start + size > data.len() {
                true
            } else {
                record_fits(data.subrange(start, start + size), offset, time) && records_fit(
                    data.skip(start + size),
                    count - 1,
                    offset,
                    time,
                )
            },
        }
    }
}

/// Whether the offsets and times of a batch of the format 2 can be computed, which are written
/// as distances from the first ones, and whether it has bytes for its records.
pub open spec fn batch_fits(frame: Seq<u8>) -> bool {
    let offset = wire::i64_at(frame, 0);
    let time = wire::i64_at(frame, 27);
    let count = wire::i32_at(frame, 57);
    let way = frame[22] % 8;
    let bytes = frame.skip(61);
    if frame.len() < 61 {
        true
    } else if way == 2 && !snappy_fits(bytes) {
        false
    } else {
        match content(way, bytes) {
            None => true,
            Some(data) => count <= data.len() && records_fit(data, count, offset, time),
        }
    }
}

/// Whether a decoder can be given the bytes: they are one batch, whose numbers can be computed
/// and whose messages do not stand in one another too deep.
pub open spec fn can_decode(frame: Seq<u8>) -> bool {
    &&& frame.len() >= 17
    &&& frame.len() == batch_length(frame)
    &&& frame[16] <= 1 ==> nesting(frame) <= MAX_NESTING
    &&& frame[16] == 2 ==> batch_fits(frame)
}

/// Finds where the field of a message ends that starts at a place.
fn find_field_end(message: &[u8], at: usize) -> (r: Option<usize>)
    requires
        at <= message@.len(),
    ensures
        match r {
            None => field_end(message@, at as int) is None,
            Some(end) => field_end(message@, at as int) == Some(end as int),
        },
{
    let n: usize = message.len();
    if n - at < 4 {
        return None;
    }
    let length: i32 = wire::read_i32(message, at);
    if length == -1 {
        return Some(at + 4);
    }
    if length < 0 || length as u64 > (n - at - 4) as u64 {
        return None;
    }
    Some(at + 4 + length as usize)
}

/// Finds where the set of messages starts and ends that is the value of a message.
fn find_inner_set(message: &[u8]) -> (r: Option<(usize, usize)>)
    ensures
        match r {
            None => inner_set(message@) is None,
            Some((start, end)) => 18 <= start <= end <= message@.len() && inner_set(message@)
                == Some(message@.subrange(start as int, end as int)),
        },
{
    let n: usize = message.len();
    if n < 18 || message[17] % 8 == 0 {
        return None;
    }
    let key: usize = if message[16] == 0 {
        18
    } else {
        26
    };
    if key > n {
        return None;
    }
    match find_field_end(message, key) {
        None => None,
        Some(value) => match find_field_end(message, value) {
            None => None,
            Some(end) => if wire::read_i32(message, value) < 0 {
                None
            } else {
                Some((value + 4, end))
            },
        },
    }
}

/// Whether sets of messages stand in one another at most so deep.
pub fn nests_within(data: &[u8], limit: u32) -> (r: bool)
    ensures
        r <==> nesting(data@) <= limit,
    decreases data@.len(),
{
    let n: usize = data.len();
    let mut at: usize = 0;
    proof {
        assert(data@.skip(0) =~= data@);
    }
    while n - at >= 12
        invariant
            n == data@.len(),
            at <= n,
            nesting(data@) <= limit <==> nesting(data@.skip(at as int)) <= limit,
        decreases n - at,
    {
        let ghost rest = data@.skip(at as int);
        let length: i32 = wire::read_i32(data, at + 8);
        assert(wire::i32_at(rest, 8) == length);
        if length < 0 || length as u64 > (n - at - 12) as u64 {
            return true;
        }
        let end: usize = at + 12 + length as usize;
        let message = vstd::slice::slice_subrange(data, at, end);
        proof {
            assert(message@ =~= rest.take(batch_length(rest)));
            assert(data@.skip(end as int) =~= rest.skip(batch_length(rest)));
        }
        if let Some((start, stop)) = find_inner_set(message) {
            if limit == 0 {
                return false;
            }
            let inner = vstd::slice::slice_subrange(message, start, stop);
            if !nests_within(inner, limit - 1) {
                return false;
            }
        }
        at = end;
    }
    true
}

/// Finds where the field of a record ends that starts at a place.
fn find_varint_field_end(record: &[u8], at: usize) -> (r: Option<usize>)
    requires
        at <= record@.len(),
    ensures
        match r {
            None => varint_field_end(record@, at as int) is None,
            Some(end) => end <= record@.len() && varint_field_end(record@, at as int) == Some(
                end as int,
            ),
        },
{
    match wire::read_varint(record, at) {
        None => None,
        Some((length, start)) => {
            if length == -1 {
                Some(start)
            } else if length < 0 || length as u64 > (record.len() - start) as u64 {
                None
            } else {
                Some(start + length as usize)
            }
        },
    }
}

/// Whether the sum of a first number and a distance is a 64 bit number.
fn can_add(first: i64, distance: i32) -> (r: bool)
    ensures
        r <==> is_i64(first + distance),
{
    let sum: i128 = first as i128 + distance as i128;
    i64::MIN as i128 <= sum && sum <= i64::MAX as i128
}

/// Whether a record can be read behind a first offset and a first time.
fn check_record(record: &[u8], offset: i64, time: i64) -> (r: bool)
    ensures
        r <==> record_fits(record@, offset as int, time as int),
{
    if record.len() == 0 {
        return true;
    }
    let (later, a): (i32, usize) = match wire::read_varint(record, 1) {
        None => {
            return true;
        },
        Some(read) => read,
    };
    if !can_add(time, later) {
        return false;
    }
    let (further, b): (i32, usize) = match wire::read_varint(record, a) {
        None => {
            return true;
        },
        Some(read) => read,
    };
    if !can_add(offset, further) {
        return false;
    }
    let c: usize = match find_varint_field_end(record, b) {
        None => {
            return true;
        },
        Some(end) => end,
    };
    let d: usize = match find_varint_field_end(record, c) {
        None => {
            return true;
        },
        Some(end) => end,
    };
    match wire::read_varint(record, d) {
        None => true,
        Some((headers, e)) => headers < 0 || headers as u64 <= (record.len() - e) as u64,
    }
}

/// Whether there are bytes for so many records, and they can be read, up to the first one that
/// is cut off.
fn check_records(data: &[u8], count: i32, offset: i64, time: i64) -> (r: bool)
    ensures
        r <==> count <= data@.len() && records_fit(
            data@,
            count as int,
            offset as int,
            time as int,
        ),
{
    let ghost all = records_fit(data@, count as int, offset as int, time as int);
    let n: usize = data.len();
    if count > 0 && count as u64 > n as u64 {
        return false;
    }
    let mut at: usize = 0;
    let mut left: i32 = count;
    assert(data@.skip(0) =~= data@);
    while left > 0
        invariant
            n == data@.len(),
            at <= n,
            count <= n,
            all == records_fit(data@, count as int, offset as int, time as int),
            all == records_fit(data@.skip(at as int), left as int, offset as int, time as int),
        decreases left,
    {
        let rest = vstd::slice::slice_subrange(data, at, n);
        assert(rest@ =~= data@.skip(at as int));
        let (size, start): (i32, usize) = match wire::read_varint(rest, 0) {
            None => {
                return true;
            },
            Some(read) => read,
        };
        if size < 0 || size as u64 > (rest.len() - start) as u64 {
            return true;
        }
        let end: usize = start + size as usize;
        let record = vstd::slice::slice_subrange(rest, start, end);
        if !check_record(record, offset, time) {
            return false;
        }
        assert(rest@.skip(end as int) =~= data@.skip(at + end));
        at = at + end;
        left = left - 1;
    }
    true
}

/// `Gzip::decompress` gives back what was compressed, or fails.
#[verifier::external_body]
fn read_gzip(bytes: &[u8]) -> (r: Option<Vec<u8>>)
    ensures
        match r {
            Some(data) => gzip_content(bytes@) == Some(data@),
            None => gzip_content(bytes@) is None,
        },
{
    Gzip::decompress(&mut Bytes::copy_from_slice(bytes), |data| Ok(data.to_vec())).ok()
}

/// `Snappy::decompress` gives back what was compressed, or fails. It takes as much memory as the
/// bytes announce before it looks at them.
#[verifier::external_body]
fn read_snappy(bytes: &[u8]) -> (r: Option<Vec<u8>>)
    requires
        snappy_fits(bytes@),
    ensures
        match r {
            Some(data) => snappy_content(bytes@) == Some(data@),
            None => snappy_content(bytes@) is None,
        },
{
    Snappy::decompress(&mut Bytes::copy_from_slice(bytes), |data| Ok(data.to_vec())).ok()
}

/// `Lz4::decompress` gives back what was compressed, or fails.
#[verifier::external_body]
fn read_lz4(bytes: &[u8]) -> (r: Option<Vec<u8>>)
    ensures
        match r {
            Some(data) => lz4_content(bytes@) == Some(data@),
            None => lz4_content(bytes@) is None,
        },
{
    Lz4::decompress(&mut Bytes::copy_from_slice(bytes), |data| Ok(data.to_vec())).ok()
}

/// `Zstd::decompress` gives back what was compressed, or fails.
#[verifier::external_body]
fn read_zstd(bytes: &[u8]) -> (r: Option<Vec<u8>>)
    ensures
        match r {
            Some(data) => zstd_content(bytes@) == Some(data@),
            None => zstd_content(bytes@) is None,
        },
{
    Zstd::decompress(&mut Bytes::copy_from_slice(bytes), |data| Ok(data.to_vec())).ok()
}

/// Whether the length that bytes announce which are compressed with snappy is one that they can
/// have.
fn check_snappy(bytes: &[u8]) -> (r: bool)
    ensures
        r <==> snappy_fits(bytes@),
{
    match wire::read_groups(bytes, 0, 5) {
        None => true,
        Some((n, _)) => n as u128 <= 32 * (bytes.len() as u128),
    }
}

/// Gives back what was compressed in one of the ways that a batch can name.
fn read_content(way: u8, bytes: &[u8]) -> (r: Option<Vec<u8>>)
    requires
        0 < way,
        way == 2 ==> snappy_fits(bytes@),
    ensures
        match r {
            Some(data) => content(way, bytes@) == Some(data@),
            None => content(way, bytes@) is None,
        },
{
    if way == 1 {
        read_gzip(bytes)
    } else if way == 2 {
        read_snappy(bytes)
    } else if way == 3 {
        read_lz4(bytes)
    } else if way == 4 {
        read_zstd(bytes)
    } else {
        None
    }
}

/// Whether the offsets and times of a batch of the format 2 can be computed.
fn check_batch(frame: &[u8]) -> (r: bool)
    ensures
        r <==> batch_fits(frame@),
{
    if frame.len() < 61 {
        return true;
    }
    let offset: i64 = wire::read_i64(frame, 0);
    let time: i64 = wire::read_i64(frame, 27);
    let count: i32 = wire::read_i32(frame, 57);
    let way: u8 = frame[22] % 8;
    let bytes = vstd::slice::slice_subrange(frame, 61, frame.len());
    assert(bytes@ =~= frame@.skip(61));
    if way == 0 {
        return check_records(bytes, count, offset, time);
    }
    if way == 2 && !check_snappy(bytes) {
        return false;
    }
    match read_content(way, bytes) {
        None => true,
        Some(data) => check_records(data.as_slice(), count, offset, time),
    }
}

/// Whether a decoder can be given bytes that are one batch.
pub fn check_frame(frame: &[u8]) -> (r: bool)
    requires
        frame@.len() >= 17,
        frame@.len() == batch_length(frame@),
    ensures
        r <==> can_decode(frame@),
{
    if frame[16] <= 1 {
        nests_within(frame, MAX_NESTING)
    } else if frame[16] == 2 {
        check_batch(frame)
    } else {
        true
    }
}

} // verus!
