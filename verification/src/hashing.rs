//! The hashes by which Flink assigns keys to key groups and Kafka partitions to readers.

use vstd::prelude::*;
use vstd::arithmetic::div_mod::lemma_mod_multiples_vanish;
use vstd::arithmetic::div_mod::lemma_fundamental_div_mod;

verus! {

/// The 32-bit signed integer that is congruent to `x` modulo 2^32.
pub open spec fn wrap_i32(x: int) -> int {
    (x + 0x8000_0000) % 0x1_0000_0000 - 0x8000_0000
}

/// The value of the characters of `s` as a number in base 31, the first one leading.
pub open spec fn base31(s: Seq<char>) -> int
    decreases s.len(),
{
    if s.len() == 0 {
        0
    } else {
        31 * base31(s.drop_last()) + s.last() as int
    }
}

proof fn lemma_wrap_step(p: int, c: int)
    ensures
        wrap_i32(31 * wrap_i32(p) + c) == wrap_i32(31 * p + c),
{
    let m: int = 0x1_0000_0000;
    let q = (p + 0x8000_0000) / m;
    lemma_fundamental_div_mod(p + 0x8000_0000, m);
    assert(31 * p + c + 0x8000_0000 == m * (31 * q) + (31 * wrap_i32(p) + c + 0x8000_0000));
    lemma_mod_multiples_vanish(31 * q, 31 * wrap_i32(p) + c + 0x8000_0000, m);
}

/// A value that takes part in the hash of a composite key.
#[derive(Debug)]
pub enum JavaHashValue<'a> {
    Str(&'a str),
    Integer(i32),
    Long(i64),
}

fn code_point(c: char) -> (r: i32)
    ensures
        r == c as int,
        0 <= r <= 0x10ffff,
{
    c as i32
}

/// The hash that Java gives a string of characters: its base 31 value, cut to 32 bits.
pub fn java_string_hashcode(s: &str) -> (hash: i32)
    ensures
        hash == wrap_i32(base31(s@)),
{
    let mut hash: i32 = 0;
    let ghost chars = s@;
    for c in it: s.chars()
        invariant
            chars == s@,
            it.seq() == chars,
            hash == wrap_i32(base31(chars.take(it.index() as int))),
    {
        proof {
            let i = it.index() as int;
            assert(chars.take(i + 1).drop_last() =~= chars.take(i));
            assert(chars.take(i + 1).last() == c);
            lemma_wrap_step(base31(chars.take(i)), c as int);
            let x = 31 * hash;
            assert(31i32.wrapping_mul(hash) == wrap_i32(x));
            assert(wrap_i32(wrap_i32(x) + c as int) == wrap_i32(x + c as int));
        }
        hash = 31i32.wrapping_mul(hash).wrapping_add(code_point(c));
    }
    assert(chars.take(chars.len() as int) =~= chars);
    hash
}

/// The product of two 32-bit words, cut to 32 bits.
pub open spec fn mul32(a: u32, b: u32) -> u32 {
    ((a * b) % 0x1_0000_0000) as u32
}

/// A 32-bit word turned left by `n` bits.
pub open spec fn rotl32(x: u32, n: u32) -> u32 {
    (x << n) | (x >> ((32 - n) as u32))
}

/// The finalizer of MurmurHash3 on a 32-bit word.
pub open spec fn finalizer32(x: u32) -> u32 {
    let a = mul32(x ^ (x >> 16u32), 0x85eb_ca6b);
    let b = mul32(a ^ (a >> 13u32), 0xc2b2_ae35);
    b ^ (b >> 16u32)
}

/// MurmurHash3 (seed 0) of the four bytes of one 32-bit word.
pub open spec fn murmur32(x: u32) -> u32 {
    let k = mul32(rotl32(mul32(x, 0xcc9e_2d51), 15), 0x1b87_3593);
    let h = ((mul32(rotl32(k, 13), 5) + 0xe654_6b64) % 0x1_0000_0000) as u32;
    finalizer32(h ^ 4)
}

/// The absolute value of a 32-bit word read as a signed integer; zero for the one word
/// whose absolute value does not fit.
pub open spec fn magnitude32(x: u32) -> int {
    if x < 0x8000_0000 {
        x as int
    } else if x > 0x8000_0000 {
        0x1_0000_0000 - x
    } else {
        0
    }
}

/// A signed integer as the 32-bit word with the same bits.
pub open spec fn word_of(x: i32) -> u32 {
    if x >= 0 {
        x as u32
    } else {
        (x + 0x1_0000_0000) as u32
    }
}

fn to_word(x: i32) -> (r: u32)
    ensures
        r == word_of(x),
{
    proof {
        assert(x >= 0 ==> (x as u32) as int == x) by (bit_vector);
        assert(x < 0 ==> (x as u32) as int == x + 0x1_0000_0000) by (bit_vector);
    }
    x as u32
}

fn from_word(x: u32) -> (r: i32)
    ensures
        word_of(r) == x,
{
    proof {
        assert(x < 0x8000_0000u32 ==> (x as i32) as int == x) by (bit_vector);
        assert(x >= 0x8000_0000u32 ==> (x as i32) as int == x - 0x1_0000_0000) by (bit_vector);
    }
    x as i32
}

fn rotate_word(x: u32, n: u32) -> (r: u32)
    requires
        0 < n < 32,
    ensures
        r == rotl32(x, n),
{
    (x << n) | (x >> (32 - n))
}

/// Spreads the bits of a word (the finalizer of MurmurHash3).
pub fn bit_mix(input: i32) -> (r: i32)
    ensures
        word_of(r) == finalizer32(word_of(input)),
{
    let mut x: u32 = to_word(input);
    x = x ^ (x >> 16u32);
    x = x.wrapping_mul(0x85eb_ca6b);
    x = x ^ (x >> 13u32);
    x = x.wrapping_mul(0xc2b2_ae35);
    x = x ^ (x >> 16u32);
    from_word(x)
}

/// The non-negative hash of a 32-bit hash code.
pub fn murmur_hash(code: i32) -> (r: i32)
    ensures
        r == magnitude32(murmur32(word_of(code))),
        0 <= r,
{
    let mut x: u32 = to_word(code).wrapping_mul(0xcc9e_2d51);
    x = rotate_word(x, 15).wrapping_mul(0x1b87_3593);
    x = rotate_word(x, 13).wrapping_mul(5).wrapping_add(0xe654_6b64);
    x = x ^ 4;
    let code: i32 = bit_mix(from_word(x));
    if code >= 0 {
        code
    } else if code != i32::MIN {
        -code
    } else {
        0
    }
}

/// Integer division that drops the fraction, as machine integers divide.
pub open spec fn trunc_div(a: int, b: int) -> int {
    let q = abs(a) / abs(b);
    if (a >= 0) == (b >= 0) {
        q
    } else {
        -q
    }
}

/// The remainder that goes with `trunc_div`: it has the sign of `a`.
pub open spec fn trunc_rem(a: int, b: int) -> int {
    let r = abs(a) % abs(b);
    if a >= 0 {
        r
    } else {
        -r
    }
}

/// The absolute value of an integer.
pub open spec fn abs(a: int) -> int {
    if a >= 0 {
        a
    } else {
        -a
    }
}

fn rem_i32(a: i32, b: i32) -> (r: i32)
    requires
        b != 0,
        !(a == i32::MIN && b == -1),
    ensures
        r == trunc_rem(a as int, b as int),
{
    proof {
        lemma_mod_abs(abs(a as int), b as int);
    }
    a % b
}

fn div_i32(a: i32, b: i32) -> (r: i32)
    requires
        b != 0,
        !(a == i32::MIN && b == -1),
    ensures
        r == trunc_div(a as int, b as int),
{
    proof {
        lemma_div_abs(abs(a as int), b as int);
        lemma_quotient_bound(abs(a as int), abs(b as int));
    }
    (a as i64 / b as i64) as i32
}

/// The remainder does not depend on the sign of the divisor.
pub(crate) proof fn lemma_mod_abs(a: int, b: int)
    requires
        b != 0,
    ensures
        a % b == a % abs(b),
{
    assert(b < 0 ==> a % b == a % (-b)) by (nonlinear_arith)
        requires
            b != 0,
    ;
}

pub(crate) proof fn lemma_quotient_bound(a: int, b: int)
    requires
        0 <= a,
        0 < b,
    ensures
        0 <= a / b <= a,
        b >= 2 ==> 2 * (a / b) <= a,
{
    vstd::arithmetic::div_mod::lemma_div_pos_is_pos(a, b);
    vstd::arithmetic::div_mod::lemma_fundamental_div_mod(a, b);
    assert(0 <= a / b <= a && (b >= 2 ==> 2 * (a / b) <= a)) by (nonlinear_arith)
        requires
            a == b * (a / b) + a % b,
            0 <= a % b,
            0 <= a / b,
            0 < b,
    ;
}

pub(crate) proof fn lemma_div_abs(a: int, b: int)
    requires
        b != 0,
    ensures
        b < 0 ==> a / b == -(a / abs(b)),
{
    assert(b < 0 ==> a / b == -(a / (-b))) by (nonlinear_arith)
        requires
            b != 0,
    ;
}

/// What a `JavaHashValue` holds.
pub enum HashInput {
    Str(Seq<char>),
    Integer(i32),
    Long(i64),
}

impl<'a> View for JavaHashValue<'a> {
    type V = HashInput;

    open spec fn view(&self) -> HashInput {
        match self {
            JavaHashValue::Str(s) => HashInput::Str(s@),
            JavaHashValue::Integer(i) => HashInput::Integer(*i),
            JavaHashValue::Long(l) => HashInput::Long(*l),
        }
    }
}

/// The hash code that Java gives a string, an `int` or a `long`: for a `long`, its two
/// halves exclusive-or one another.
pub open spec fn java_hash_of(value: HashInput) -> i32 {
    match value {
        HashInput::Str(s) => wrap_i32(base31(s)) as i32,
        HashInput::Integer(i) => i,
        HashInput::Long(l) => ((l >> 32) as i32) ^ (l as i32),
    }
}

/// The exclusive-or of the hash codes of all values of a key.
pub open spec fn composite_hash(values: Seq<HashInput>) -> i32
    decreases values.len(),
{
    if values.len() == 0 {
        0
    } else {
        composite_hash(values.drop_last()) ^ java_hash_of(values.last())
    }
}

/// The views of the values of a key.
pub open spec fn hash_inputs(values: Seq<JavaHashValue<'_>>) -> Seq<HashInput> {
    values.map_values(|v: JavaHashValue<'_>| v@)
}

/// The key group of a hash code: its non-negative hash modulo the number of groups.
pub open spec fn keygroup_of(hash: i32, max_parallelism: int) -> int {
    magnitude32(murmur32(word_of(hash))) % abs(max_parallelism)
}

/// The slot of a hash code: key groups are spread over `parallelism` slots in equal runs.
pub open spec fn slot_of(hash: i32, parallelism: int, max_parallelism: int) -> int {
    trunc_div(keygroup_of(hash, max_parallelism) * parallelism, max_parallelism)
}

/// Whether the slot of a hash code is computed without leaving 32 bits.
pub open spec fn slot_fits(hash: i32, parallelism: int, max_parallelism: int) -> bool {
    let product = keygroup_of(hash, max_parallelism) * parallelism;
    &&& max_parallelism != 0
    &&& i32::MIN <= product <= i32::MAX
    &&& !(product == i32::MIN && max_parallelism == -1)
}

/// The reader at which the partitions of a topic start.
pub open spec fn start_index(topic: Seq<char>, num_readers: int) -> int {
    (wrap_i32(31 * wrap_i32(base31(topic))) % 0x8000_0000) % abs(num_readers)
}

/// The reader that owns a partition of a topic.
pub open spec fn split_owner_of(topic: Seq<char>, partition: int, num_readers: int) -> int {
    trunc_rem(start_index(topic, num_readers) + partition, num_readers)
}

impl<'a> JavaHashValue<'a> {
    /// The hash code of one value.
    pub fn java_hash(&self) -> (hash: i32)
        ensures
            hash == java_hash_of(self@),
    {
        match self {
            JavaHashValue::Str(s) => java_string_hashcode(s),
            JavaHashValue::Integer(i) => *i,
            JavaHashValue::Long(l) => {
                let high: i32 = #[verifier::truncate]
                ((*l >> 32) as i32);
                let low: i32 = #[verifier::truncate]
                (*l as i32);
                high ^ low
            },
        }
    }
}

/// The hash code of a key of several values.
pub fn java_composite_hash(values: &[JavaHashValue<'_>]) -> (hash: i32)
    ensures
        hash == composite_hash(hash_inputs(values@)),
{
    let mut acc: i32 = 0;
    let ghost inputs = hash_inputs(values@);
    for i in 0..values.len()
        invariant
            inputs == hash_inputs(values@),
            acc == composite_hash(inputs.take(i as int)),
    {
        proof {
            assert(inputs.take(i + 1).drop_last() =~= inputs.take(i as int));
        }
        acc = acc ^ values[i].java_hash();
    }
    assert(inputs.take(values.len() as int) =~= inputs);
    acc
}

/// The hash code of a key of one value is that of the value.
pub(crate) proof fn lemma_single_value(values: Seq<JavaHashValue<'_>>)
    requires
        values.len() == 1,
    ensures
        composite_hash(hash_inputs(values)) == java_hash_of(values[0]@),
{
    let inputs = hash_inputs(values);
    let hash = java_hash_of(inputs[0]);
    assert(inputs.drop_last() =~= Seq::<HashInput>::empty());
    assert(composite_hash(Seq::<HashInput>::empty()) == 0);
    assert(0i32 ^ hash == hash) by (bit_vector);
}

/// The key group of a key, out of `max_parallelism` groups.
pub fn get_keygroup(v: &[JavaHashValue<'_>], max_parallelism: i32) -> (group: i32)
    requires
        max_parallelism != 0,
    ensures
        group == keygroup_of(composite_hash(hash_inputs(v@)), max_parallelism as int),
        0 <= group < abs(max_parallelism as int),
{
    rem_i32(murmur_hash(java_composite_hash(v)), max_parallelism)
}

/// The slot of a key when `max_parallelism` key groups are spread over `parallelism` slots.
pub fn get_keygroup_slot(
    v: &[JavaHashValue<'_>],
    parallelism: i32,
    max_parallelism: i32,
) -> (slot: i32)
    requires
        slot_fits(composite_hash(hash_inputs(v@)), parallelism as int, max_parallelism as int),
    ensures
        slot == slot_of(
            composite_hash(hash_inputs(v@)),
            parallelism as int,
            max_parallelism as int,
        ),
{
    let group: i32 = get_keygroup(v, max_parallelism);
    div_i32(group * parallelism, max_parallelism)
}

/// The slot of a key, or nothing where it is not computed within 32 bits.
pub fn try_keygroup_slot(
    v: &[JavaHashValue<'_>],
    parallelism: i32,
    max_parallelism: i32,
) -> (slot: Option<i32>)
    ensures
        slot is Some <==> slot_fits(
            composite_hash(hash_inputs(v@)),
            parallelism as int,
            max_parallelism as int,
        ),
        slot matches Some(s) ==> s == slot_of(
            composite_hash(hash_inputs(v@)),
            parallelism as int,
            max_parallelism as int,
        ),
{
    if max_parallelism == 0 {
        return None;
    }
    let group: i32 = get_keygroup(v, max_parallelism);
    assert(group * parallelism <= 0x8000_0000 * 0x8000_0000 && group * parallelism >= -0x8000_0000
        * 0x8000_0000) by (nonlinear_arith)
        requires
            0 <= group < 0x8000_0000,
            -0x8000_0000 <= parallelism < 0x8000_0000,
    ;
    let product: i64 = group as i64 * parallelism as i64;
    if product < i32::MIN as i64 || product > i32::MAX as i64 || (product == i32::MIN as i64
        && max_parallelism == -1) {
        return None;
    }
    Some(get_keygroup_slot(v, parallelism, max_parallelism))
}

/// The reader at which the partitions of a topic start.
pub fn find_start_index(topic: &str, num_readers: i32) -> (r: i32)
    requires
        num_readers != 0,
    ensures
        r == start_index(topic@, num_readers as int),
        0 <= r,
{
    let hash_code: i32 = java_string_hashcode(topic);
    let product: i32 = hash_code.wrapping_mul(31);
    let start: i32 = product & 0x7FFF_FFFF;
    proof {
        assert(product == wrap_i32(31 * hash_code));
        assert(product >= 0 ==> product & 0x7FFF_FFFF == product) by (bit_vector);
        assert(product < 0 ==> product & 0x7FFF_FFFF == product + 0x8000_0000) by (bit_vector);
        assert(start == (product as int) % 0x8000_0000);
    }
    rem_i32(start, num_readers)
}

/// The reader, out of `num_readers`, that owns a partition of a topic.
pub fn get_split_owner(topic: &str, partition: i32, num_readers: i32) -> (owner: i32)
    requires
        num_readers != 0,
        start_index(topic@, num_readers as int) + partition <= i32::MAX,
        !(partition == i32::MIN && num_readers == -1),
    ensures
        owner == split_owner_of(topic@, partition as int, num_readers as int),
{
    let start: i32 = find_start_index(topic, num_readers);
    rem_i32(start + partition, num_readers)
}

/// Every slot lies below the parallelism.
pub proof fn slot_in_range(hash: i32, parallelism: int, max_parallelism: int)
    requires
        0 < parallelism,
        0 < max_parallelism,
    ensures
        0 <= slot_of(hash, parallelism, max_parallelism) < parallelism,
{
    let g = keygroup_of(hash, max_parallelism);
    assert(0 <= g < max_parallelism);
    assert(0 <= g * parallelism && (g * parallelism) / max_parallelism < parallelism)
        by (nonlinear_arith)
        requires
            0 <= g < max_parallelism,
            0 < parallelism,
    ;
    assert((g * parallelism) / max_parallelism >= 0) by (nonlinear_arith)
        requires
            0 <= g * parallelism,
            0 < max_parallelism,
    ;
}

/// Keys of a later key group never go to an earlier slot.
pub proof fn slot_is_monotone(a: i32, b: i32, parallelism: int, max_parallelism: int)
    requires
        0 < parallelism,
        0 < max_parallelism,
        keygroup_of(a, max_parallelism) <= keygroup_of(b, max_parallelism),
    ensures
        slot_of(a, parallelism, max_parallelism) <= slot_of(b, parallelism, max_parallelism),
{
    let x = keygroup_of(a, max_parallelism);
    let y = keygroup_of(b, max_parallelism);
    assert(0 <= x * parallelism <= y * parallelism) by (nonlinear_arith)
        requires
            0 <= x <= y,
            0 < parallelism,
    ;
    vstd::arithmetic::div_mod::lemma_div_is_ordered(
        x * parallelism,
        y * parallelism,
        max_parallelism,
    );
}

/// The partitions of a topic go round the readers: every owner is a reader, and the next
/// partition belongs to the next reader.
pub proof fn split_owners_go_round(topic: Seq<char>, partition: int, num_readers: int)
    requires
        0 < num_readers,
        0 <= partition,
    ensures
        0 <= split_owner_of(topic, partition, num_readers) < num_readers,
        split_owner_of(topic, partition + 1, num_readers) == (split_owner_of(
            topic,
            partition,
            num_readers,
        ) + 1) % num_readers,
{
    let x = start_index(topic, num_readers) + partition;
    vstd::arithmetic::div_mod::lemma_add_mod_noop(x, 1, num_readers);
    vstd::arithmetic::div_mod::lemma_add_mod_noop(x % num_readers, 1, num_readers);
    vstd::arithmetic::div_mod::lemma_mod_twice(x, num_readers);
}

} // verus!
