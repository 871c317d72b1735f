use alloy::maps::KeyedMap;
use alloy::settings::check_mentions;
use alloy::settings::find_setting;
use alloy::settings::parse_i32;
use alloy::settings::parse_unsigned;
use alloy::settings::read_root_settings;
use alloy::settings::read_stream_settings;
use alloy::settings::RootSettings;
use alloy::settings::StreamSettings;

fn settings(list: &[(&str, &str)]) -> Option<KeyedMap<String, String>> {
    let mut map = KeyedMap::new();
    for (name, value) in list {
        map.insert(name.to_string(), value.to_string());
    }
    Some(map)
}

#[test]
fn numbers_are_read_as_the_standard_library_reads_them() {
    for text in [
        "0", "7", "007", "+7", "-7", "", "+", "-", "-0", " 7", "7 ", "1e3", "4294967296",
        "2147483647", "2147483648", "-2147483648", "-2147483649", "18446744073709551615",
        "18446744073709551616", "340282366920938463463374607431768211455",
        "340282366920938463463374607431768211456", "\u{663}", "++1",
    ] {
        assert_eq!(parse_i32(text), text.parse::<i32>().ok(), "{}", text);
        assert_eq!(parse_unsigned(text, u128::MAX), text.parse::<u128>().ok(), "{}", text);
        assert_eq!(
            parse_unsigned(text, u64::MAX as u128),
            text.parse::<u64>().ok().map(|n| n as u128),
            "{}",
            text
        );
    }
}

#[test]
fn settings_have_defaults() {
    assert_eq!(read_root_settings(&None), Some(RootSettings { period: 100, max_wait: 1000 }));
    assert_eq!(
        read_stream_settings(&None),
        Some(StreamSettings {
            max_parallelism: 128,
            debug_protocol: 0,
            min_bytes: 1000000,
            remove_empty_records: true,
        })
    );
    assert_eq!(find_setting(&None, "x", "y"), "y");
    assert_eq!(find_setting(&settings(&[("x", "z")]), "x", "y"), "z");
}

#[test]
fn settings_are_taken_over() {
    let given = settings(&[
        ("period_virtual_partition", "5"),
        ("fetch_max_wait_ms_virtual_partition", "6"),
        ("max_parallelism", "-7"),
        ("debug_protocol", "8"),
        ("fetch_min_bytes_virtual_partition", "9"),
        ("remove_empty_records", "false"),
    ]);
    assert_eq!(read_root_settings(&given), Some(RootSettings { period: 5, max_wait: 6 }));
    assert_eq!(
        read_stream_settings(&given),
        Some(StreamSettings {
            max_parallelism: -7,
            debug_protocol: 8,
            min_bytes: 9,
            remove_empty_records: false,
        })
    );
}

#[test]
fn settings_that_are_no_numbers_are_refused() {
    assert_eq!(read_root_settings(&settings(&[("period_virtual_partition", "soon")])), None);
    assert_eq!(
        read_root_settings(&settings(&[("fetch_max_wait_ms_virtual_partition", "-1")])),
        None
    );
    for name in ["max_parallelism", "debug_protocol", "fetch_min_bytes_virtual_partition"] {
        assert_eq!(read_stream_settings(&settings(&[(name, "many")])), None);
    }
}

#[test]
fn empty_records_are_removed_where_the_setting_mentions_it() {
    assert!(check_mentions("true", "true"));
    assert!(check_mentions("untrue!", "true"));
    assert!(!check_mentions("tru", "true"));
    assert!(!check_mentions("yes", "true"));
    assert!(check_mentions("", ""));
    assert!(read_stream_settings(&settings(&[("remove_empty_records", "so true")]))
        .unwrap()
        .remove_empty_records);
}
