use alloy::hashing::bit_mix;
use alloy::hashing::find_start_index;
use alloy::hashing::get_keygroup;
use alloy::hashing::get_keygroup_slot;
use alloy::hashing::get_split_owner;
use alloy::hashing::java_composite_hash;
use alloy::hashing::java_string_hashcode;
use alloy::hashing::murmur_hash;
use alloy::hashing::try_keygroup_slot;
use alloy::hashing::JavaHashValue;
use alloy::kafka::KafkaRoutingProtocol;

#[test]
fn strings_hash_as_in_java() {
    assert_eq!(java_string_hashcode(""), 0);
    assert_eq!(java_string_hashcode("a"), 97);
    assert_eq!(java_string_hashcode("hello"), 99162322);
    assert_eq!(java_string_hashcode("bid"), 97533);
    assert_eq!(java_string_hashcode("auction"), -661856701);
}

#[test]
fn numbers_hash_as_in_java() {
    assert_eq!(JavaHashValue::Integer(-5).java_hash(), -5);
    assert_eq!(JavaHashValue::Long(5).java_hash(), 5);
    assert_eq!(JavaHashValue::Long(-1).java_hash(), 0);
    assert_eq!(JavaHashValue::Long(1 << 32).java_hash(), 1);
    assert_eq!(JavaHashValue::Long((7 << 32) | 2).java_hash(), 5);
}

#[test]
fn composite_keys_are_mixed() {
    assert_eq!(java_composite_hash(&[]), 0);
    let values = [JavaHashValue::Str("a"), JavaHashValue::Integer(1), JavaHashValue::Long(2)];
    assert_eq!(java_composite_hash(&values), 97 ^ 1 ^ 2);
}

#[test]
fn bits_are_mixed() {
    assert_eq!(bit_mix(0), 0);
    assert_eq!(bit_mix(1), 1364076727);
    assert_eq!(bit_mix(-1), -2114883783);
    assert_eq!(bit_mix(42), 142593372);
    assert_eq!(bit_mix(2147483647), -104067416);
    assert_eq!(bit_mix(-2147483648), 1832674720);
}

#[test]
fn hash_codes_are_spread() {
    assert_eq!(murmur_hash(0), 593689054);
    assert_eq!(murmur_hash(1), 68075478);
    assert_eq!(murmur_hash(-1), 1982413648);
    assert_eq!(murmur_hash(42), 1134849565);
    assert_eq!(murmur_hash(2147483647), 1653689534);
    assert_eq!(murmur_hash(-2147483648), 1718298732);
}

#[test]
fn keys_have_key_groups_and_slots() {
    assert_eq!(get_keygroup(&[JavaHashValue::Str("a")], 128), 81);
    assert_eq!(get_keygroup(&[JavaHashValue::Str("auction")], 128), 108);
    assert_eq!(get_keygroup(&[JavaHashValue::Integer(42)], 128), 29);
    assert_eq!(get_keygroup_slot(&[JavaHashValue::Str("a")], 4, 128), 2);
    assert_eq!(get_keygroup_slot(&[JavaHashValue::Str("hello")], 4, 128), 1);
    assert_eq!(get_keygroup_slot(&[JavaHashValue::Str("bid")], 4, 128), 0);
    assert_eq!(get_keygroup_slot(&[JavaHashValue::Str("auction")], 4, 128), 3);
    assert_eq!(KafkaRoutingProtocol::get_keygroup("a", 128), 81);
    assert_eq!(KafkaRoutingProtocol::get_keygroup_slot("auction", 4, 128), 3);
    assert!(KafkaRoutingProtocol::filter_key("auction", 3, 4, 128));
    assert!(!KafkaRoutingProtocol::filter_key("auction", 2, 4, 128));
}

#[test]
fn slots_lie_below_the_parallelism_and_grow_with_the_key_group() {
    let mut slots: Vec<(i32, i32)> = (0..1000)
        .map(|i| {
            let key = [JavaHashValue::Integer(i)];
            (get_keygroup(&key, 128), get_keygroup_slot(&key, 5, 128))
        })
        .collect();
    slots.sort();
    assert!(slots.iter().all(|(_, slot)| 0 <= *slot && *slot < 5));
    assert!(slots.windows(2).all(|w| w[0].1 <= w[1].1));
}

#[test]
fn slots_that_do_not_fit_are_left_out() {
    let key = [JavaHashValue::Str("auction")];
    assert_eq!(try_keygroup_slot(&key, 4, 128), Some(3));
    assert_eq!(try_keygroup_slot(&key, 4, 0), None);
    assert_eq!(try_keygroup_slot(&key, i32::MAX, 128), None);
}

#[test]
fn partitions_go_round_the_readers() {
    assert_eq!(find_start_index("bid", 4), 3);
    assert_eq!(find_start_index("bid", 3), 0);
    assert_eq!(find_start_index("auction", 4), 1);
    assert_eq!(find_start_index("person", 3), 2);
    let owners: Vec<i32> = (0..6).map(|p| get_split_owner("bid", p, 4)).collect();
    assert_eq!(owners, vec![3, 0, 1, 2, 3, 0]);
    let owners: Vec<i32> =
        (0..6).map(|p| KafkaRoutingProtocol::get_split_owner("auction", p, 4)).collect();
    assert_eq!(owners, vec![1, 2, 3, 0, 1, 2]);
}
