use alloy::kafka::KafkaRoutingProtocol;
use alloy::partitions::compute_virtual_partitions;
use alloy::partitions::get_partition_original_id;
use alloy::partitions::real_offset_to_virtual;
use alloy::partitions::virtual_offset_to_real;
use alloy::partitions::BiDirectionalMap;

#[test]
fn test_get_partition_splitid() {
    let num_sources = 2;
    let parallelism = 2;
    let virtual_partition = 2;
    let expected = 1;

    // Four sources are dealt out in turn:
    //
    // TM0 - s0 -(0)-> p0
    // TM1 - s1 -(1)-> p1
    // TM0 - s2 -(1)-> p1
    // TM1 - s3 -(0)-> p0
    let split_id = KafkaRoutingProtocol::get_partition_original_id(
        num_sources,
        parallelism,
        virtual_partition,
    );
    assert_eq!(
        split_id, expected,
        "Expected split id to be {:?} for given parameters",
        expected
    );

    let num_sources = 2;
    let parallelism = 2;
    let virtual_partition = 3;
    let expected = 0;

    let split_id = KafkaRoutingProtocol::get_partition_original_id(
        num_sources,
        parallelism,
        virtual_partition,
    );
    assert_eq!(
        split_id, expected,
        "Expected split id to be {:?} for given parameters",
        expected
    );

    // Six sources are dealt out in turn:
    //
    // TM0 - s0 -(0)-> p0
    // TM1 - s1 -(1)-> p1
    // TM2 - s2 -(0)-> p0
    // TM0 - s3 -(1)-> p1
    // TM1 - s4 -(0)-> p0
    // TM2 - s5 -(1)-> p1
    let num_sources = 3;
    let parallelism = 2;
    let virtual_partition = 3;
    let expected = 1;

    let split_id = KafkaRoutingProtocol::get_partition_original_id(
        num_sources,
        parallelism,
        virtual_partition,
    );
    assert_eq!(
        split_id, expected,
        "Expected split id to be {:?} for given parameters",
        expected
    );
}

#[test]
fn partitions_outside_the_table_have_no_original() {
    assert_eq!(get_partition_original_id(2, 2, 4), -1);
    assert_eq!(get_partition_original_id(2, 2, -1), -1);
    assert_eq!(get_partition_original_id(0, 5, 0), -1);
    assert_eq!(get_partition_original_id(-2, 2, 0), -1);
    assert_eq!(get_partition_original_id(-2, -2, 2), 1);
}

#[test]
fn all_originals_of_four_sources_and_four_partitions() {
    let originals: Vec<i32> = (0..16).map(|vp| get_partition_original_id(4, 4, vp)).collect();
    assert_eq!(originals, vec![0, 1, 2, 3, 1, 2, 3, 0, 2, 3, 0, 1, 3, 0, 1, 2]);
}

#[test]
fn the_table_relates_both_ways() {
    let map = compute_virtual_partitions(2, 2);
    assert_eq!(map.get_virtuals_by_original(0), Some(&vec![0, 3]));
    assert_eq!(map.get_virtuals_by_original(1), Some(&vec![1, 2]));
    assert_eq!(map.get_virtuals_by_original(2), None);
    assert_eq!(map.get_original_by_virtual(3), Some(&0));
    assert_eq!(map.get_original_by_virtual(4), None);

    let map = KafkaRoutingProtocol::compute_virtual_partitions(1, 3);
    for p in 0..3 {
        assert_eq!(map.get_virtuals_by_original(p), Some(&vec![p]));
    }
    let map = compute_virtual_partitions(0, 3);
    assert_eq!(map.get_virtuals_by_original(0), None);
}

#[test]
fn each_source_has_one_virtual_partition_of_each_partition() {
    let map = compute_virtual_partitions(3, 5);
    for p in 0..5 {
        let virtuals = map.get_virtuals_by_original(p).unwrap();
        let mut sources: Vec<i32> = virtuals.iter().map(|vp| vp % 3).collect();
        sources.sort();
        assert_eq!(sources, vec![0, 1, 2]);
        let mut ascending = virtuals.clone();
        ascending.sort();
        assert_eq!(&ascending, virtuals);
    }
}

#[test]
fn a_map_grows_by_insertions() {
    let mut map = BiDirectionalMap::new();
    assert_eq!(map.get_virtuals_by_original(7), None);
    map.insert(7, 1);
    map.insert(7, 9);
    map.insert(8, 2);
    assert_eq!(map.get_virtuals_by_original(7), Some(&vec![1, 9]));
    assert_eq!(map.get_original_by_virtual(9), Some(&7));
    assert_eq!(map.get_original_by_virtual(2), Some(&8));
}

#[test]
fn virtual_offsets_are_read_back() {
    assert_eq!(real_offset_to_virtual(4, 10, 3), 43);
    assert_eq!(virtual_offset_to_real(4, 43, 3), 10);
    for offset in 0..20 {
        for split in 0..3 {
            let there = real_offset_to_virtual(3, offset, split);
            assert_eq!(virtual_offset_to_real(3, there, split), offset);
        }
    }
}
