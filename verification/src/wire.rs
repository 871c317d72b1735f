//! Numbers in messages: big endian, most significant byte first.

use vstd::prelude::*;

verus! {

/// The unsigned number that the four bytes from position `i` on write.
pub open spec fn u32_at(bytes: Seq<u8>, i: int) -> int {
    bytes[i] * 0x1000000 + bytes[i + 1] * 0x10000 + bytes[i + 2] * 0x100 + bytes[i + 3]
}

/// The signed number that the four bytes from position `i` on write.
pub open spec fn i32_at(bytes: Seq<u8>, i: int) -> int {
    let n = u32_at(bytes, i);
    if n < 0x8000_0000 {
        n
    } else {
        n - 0x1_0000_0000
    }
}

/// The signed number that the two bytes from position `i` on write.
pub open spec fn i16_at(bytes: Seq<u8>, i: int) -> int {
    let n = bytes[i] * 0x100 + bytes[i + 1];
    if n < 0x8000 {
        n
    } else {
        n - 0x1_0000
    }
}

/// The signed number that the eight bytes from position `i` on write.
pub open spec fn i64_at(bytes: Seq<u8>, i: int) -> int {
    i32_at(bytes, i) * 0x1_0000_0000 + u32_at(bytes, i + 4)
}

/// The signed number that the first four bytes write, least significant byte first.
pub open spec fn little_i32(bytes: Seq<u8>) -> int {
    i32_at(seq![bytes[3], bytes[2], bytes[1], bytes[0]], 0)
}

/// The number that at most so many bytes from a position on write, seven bits in each, least
/// significant bits first, and the position behind them; each byte but the last has its eighth
/// bit set. Nothing if there are too few bytes.
pub open spec fn groups_at(bytes: Seq<u8>, i: int, groups: nat) -> Option<(int, int)>
    decreases groups,
{
    if groups == 0 {
        Some((0, i))
    } else if i >= bytes.len() {
        None
    } else if bytes[i] < 0x80 {
        Some((bytes[i] as int, i + 1))
    } else {
        match groups_at(bytes, i + 1, (groups - 1) as nat) {
            None => None,
            Some((n, end)) => Some((bytes[i] - 0x80 + 0x80 * n, end)),
        }
    }
}

/// The signed number of varying length that stands at a position, and the position behind it.
/// Even numbers stand for those from 0 up, odd ones for those from -1 down.
pub open spec fn varint_at(bytes: Seq<u8>, i: int) -> Option<(int, int)> {
    match groups_at(bytes, i, 5) {
        None => None,
        Some((n, end)) => {
            let n = n % 0x1_0000_0000;
            if n % 2 == 0 {
                Some((n / 2, end))
            } else {
                Some((-1 - n / 2, end))
            }
        },
    }
}

/// The four bytes that write a number, without what is above 32 bits.
pub open spec fn u32_bytes(n: int) -> Seq<u8> {
    seq![
        ((n / 0x1000000) % 0x100) as u8,
        ((n / 0x10000) % 0x100) as u8,
        ((n / 0x100) % 0x100) as u8,
        (n % 0x100) as u8,
    ]
}

/// A number below 2 to the 32 is read back from the bytes that write it.
pub proof fn u32_round_trip(n: int)
    requires
        0 <= n < 0x1_0000_0000,
    ensures
        u32_at(u32_bytes(n), 0) == n,
{
}

pub fn read_u32(bytes: &[u8], i: usize) -> (n: u32)
    requires
        i + 4 <= bytes@.len(),
    ensures
        n == u32_at(bytes@, i as int),
{
    bytes[i] as u32 * 0x1000000 + bytes[i + 1] as u32 * 0x10000 + bytes[i + 2] as u32 * 0x100
        + bytes[i + 3] as u32
}

pub fn read_i32(bytes: &[u8], i: usize) -> (n: i32)
    requires
        i + 4 <= bytes@.len(),
    ensures
        n == i32_at(bytes@, i as int),
{
    let n: u32 = read_u32(bytes, i);
    if n < 0x8000_0000 {
        n as i32
    } else {
        (n as i64 - 0x1_0000_0000) as i32
    }
}

pub fn read_i16(bytes: &[u8], i: usize) -> (n: i16)
    requires
        i + 2 <= bytes@.len(),
    ensures
        n == i16_at(bytes@, i as int),
{
    let n: u32 = bytes[i] as u32 * 0x100 + bytes[i + 1] as u32;
    if n < 0x8000 {
        n as i16
    } else {
        (n as i32 - 0x1_0000) as i16
    }
}

pub fn read_i64(bytes: &[u8], i: usize) -> (n: i64)
    requires
        i + 8 <= bytes@.len(),
    ensures
        n == i64_at(bytes@, i as int),
{
    let length: usize = bytes.len();
    assert(i + 8 <= length);
    read_i32(bytes, i) as i64 * 0x1_0000_0000 + read_u32(bytes, i + 4) as i64
}

/// How large a number is that is written with so many groups of seven bits.
pub closed spec fn groups_limit(groups: u8) -> int {
    if groups == 0 {
        1
    } else if groups == 1 {
        0x80
    } else if groups == 2 {
        0x4000
    } else if groups == 3 {
        0x20_0000
    } else if groups == 4 {
        0x1000_0000
    } else {
        0x8_0000_0000
    }
}

/// Reads an unsigned number of varying length with at most so many bytes, and tells the position
/// behind it.
pub(crate) fn read_groups(bytes: &[u8], i: usize, groups: u8) -> (r: Option<(u64, usize)>)
    requires
        i <= bytes@.len(),
        groups <= 5,
    ensures
        match r {
            None => groups_at(bytes@, i as int, groups as nat) is None,
            Some((n, end)) => n < groups_limit(groups) && i <= end <= bytes@.len() && groups_at(
                bytes@,
                i as int,
                groups as nat,
            ) == Some((n as int, end as int)),
        },
    decreases groups,
{
    if groups == 0 {
        return Some((0, i));
    }
    if i == bytes.len() {
        return None;
    }
    let byte: u8 = bytes[i];
    if byte < 0x80 {
        return Some((byte as u64, i + 1));
    }
    match read_groups(bytes, i + 1, groups - 1) {
        None => None,
        Some((n, end)) => Some(((byte - 0x80) as u64 + 0x80 * n, end)),
    }
}

/// Reads a signed number of varying length, and tells the position behind it.
pub fn read_varint(bytes: &[u8], i: usize) -> (r: Option<(i32, usize)>)
    requires
        i <= bytes@.len(),
    ensures
        match r {
            None => varint_at(bytes@, i as int) is None,
            Some((n, end)) => i <= end <= bytes@.len() && varint_at(bytes@, i as int) == Some(
                (n as int, end as int),
            ),
        },
{
    match read_groups(bytes, i, 5) {
        None => None,
        Some((n, end)) => {
            let n: u64 = n % 0x1_0000_0000;
            let half: i64 = (n / 2) as i64;
            if n % 2 == 0 {
                Some((half as i32, end))
            } else {
                Some(((-1 - half) as i32, end))
            }
        },
    }
}

/// Reads a signed number, least significant byte first.
pub fn read_little_i32(bytes: &[u8]) -> (n: i32)
    requires
        bytes@.len() >= 4,
    ensures
        n == little_i32(bytes@),
{
    let turned: Vec<u8> = vec![bytes[3], bytes[2], bytes[1], bytes[0]];
    assert(turned@ =~= seq![bytes@[3], bytes@[2], bytes@[1], bytes@[0]]);
    read_i32(turned.as_slice(), 0)
}

/// Appends the four bytes that write a number, without what is above 32 bits.
pub fn append_u32(to: &mut Vec<u8>, n: usize)
    ensures
        final(to)@ == old(to)@ + u32_bytes(n as int),
{
    let ghost before = to@;
    to.push(((n / 0x1000000) % 0x100) as u8);
    to.push(((n / 0x10000) % 0x100) as u8);
    to.push(((n / 0x100) % 0x100) as u8);
    to.push((n % 0x100) as u8);
    assert(to@ =~= before + u32_bytes(n as int));
}

} // verus!
