use alloy::kafka::KafkaRoutingProtocol;
use alloy::kafka::Protocol;
use alloy::routing::DefaultRoutingProtocol;
use alloy::routing::RequestResponseKind;
use alloy::routing::RequestType;
use alloy::routing::RouteError;
use alloy::routing::RoutingConfiguration;
use alloy::routing::RoutingEntry;
use alloy::routing::RoutingMechanism;
use alloy::routing::RoutingProtocol;
use alloy::routing::RoutingTable;
use std::time::Instant;

fn route(key: Option<&str>, value: Option<&str>, cluster: &str) -> RoutingEntry {
    RoutingEntry {
        key: key.map(String::from),
        key_regex: None,
        value: value.map(String::from),
        value_regex: None,
        cluster: String::from(cluster),
    }
}

fn request(key: i16) -> Vec<u8> {
    let mut bytes = vec![0, 0, 0, 6];
    bytes.extend_from_slice(&key.to_be_bytes());
    bytes.extend_from_slice(&[0, 1, 7, 7]);
    bytes
}

fn deferring(local: &str, default: &str) -> RoutingTable {
    let mut table = RoutingTable::new();
    let mut configuration = RoutingConfiguration::new();
    configuration.local_cluster = Some(local.to_string());
    configuration.default_cluster = Some(default.to_string());
    configuration.routing_mechanism = Some(RoutingMechanism::DeferRemoteLocalCommands);
    table.configure(configuration).unwrap();
    table
}

#[test]
fn test_basic_default_protocol() {
    let protocol = DefaultRoutingProtocol::new();

    let mut routing = RoutingTable::new();
    let mut configuration = RoutingConfiguration::new();
    configuration.type_proxy = Some(String::from("downstream"));
    configuration.add_route(RoutingEntry {
        key: Some(String::from("tomato")),
        key_regex: None,
        value: None,
        value_regex: None,
        cluster: String::from("tomato-cluster"),
    });
    configuration.default_cluster = Some(String::from("tomato-cluster"));
    routing.configure(configuration).unwrap();

    let request = b"*3\r\n$3\r\nSET\r\n$7\r\ntomato1\r\n$5\r\nvalue\r\n";
    routing.register_downstream_request(Some(request.to_vec()));
    let (routes, remaining) = routing.route_request(&protocol);
    let routes = routes.unwrap();
    println!("{:?}", routes.get(&String::from("tomato-cluster")));
    assert_eq!(routes.size(), 1);
    assert_eq!(routes.get(&String::from("tomato-cluster")), Some(&request.to_vec()));
    assert_eq!(remaining, 0);
}

/// Two routes, one of them with a pattern for the value too.
fn vegetables() -> RoutingTable {
    let mut routing = RoutingTable::new();
    let mut configuration = RoutingConfiguration::new();
    configuration.type_proxy = Some(String::from("downstream"));
    configuration.add_route(RoutingEntry {
        key: Some(String::from("tomato")),
        key_regex: None,
        value: None,
        value_regex: None,
        cluster: String::from("tomato-cluster"),
    });
    configuration.add_route(RoutingEntry {
        key: Some(String::from("potato")),
        key_regex: None,
        value: Some(String::from("caution")),
        value_regex: None,
        cluster: String::from("tomato-cluster"),
    });
    configuration.default_cluster = Some(String::from("potato-cluster"));
    configuration.local_cluster = Some(String::from("potato-cluster"));
    routing.configure(configuration).unwrap();
    routing
}

#[test]
fn test_perf_regex() {
    let routing = vegetables();

    let now = Instant::now();
    for _ in 0..1000000 {
        let result = routing.find_entry_by_key(b"1234567890123456789012345678901234567890123456789012345678901234567890123456789012345678901234567890I23456789012345678901234567890123456789012345678901234567890123456789012345678901234567890123456789012345678901234567890123456789012345678901234567890123456789012345678901234567890123456789012345678901234567890123456789012345678901234567890123456789012345678901234567890123456789012345678901234567890123456789012345678901234567890123456789012345678901234567890123456789012345678901234567890123456789012345678901234567890123456789012345678901234567890123456789012345678901234567890123456789012345678901234567890123456789012345678901234567890123456789012345678901234567890123456789012345678901234567890123456789012345678901234567890123456789012345678901234567890123456789012345678901234567890123456789012345678901234567890123456789012345678901234567890123456789012345678901234567890123456789012345678901234567890123456789012345678901234567890123456789012345678901234567890123456789012345678901234567890tomato");
        assert!(result.is_some());
    }
    let elapsed = now.elapsed();
    println!("Elapsed: {:.2?}", elapsed);

    let now = Instant::now();
    for _ in 0..1000000 {
        let result = routing.find_entry(b"1234567890123456789012345678901234567890123456789012345678901234567890123456789012345678901234567890I23456789012345678901234567890123456789012345678901234567890123456789012345678901234567890123456789012345678901234567890123456789012345678901234567890123456789012345678901234567890123456789012345678901234567890123456789012345678901234567890123456789012345678901234567890123456789012345678901234567890123456789012345678901234567890123456789012345678901234567890123456789012345678901234567890123456789012345678901234567890123456789012345678901234567890123456789012345678901234567890123456789012345678901234567890123456789012345678901234567890123456789012345678901234567890123456789012345678901234567890123456789012345678901234567890123456789012345678901234567890123456789012345678901234567890123456789012345678901234567890123456789012345678901234567890123456789012345678901234567890123456789012345678901234567890123456789012345678901234567890123456789012345678901234567890123456789012345678901234567890tomato", b"value");
        assert!(result.is_some());
    }
    let elapsed = now.elapsed();
    println!("Elapsed: {:.2?}", elapsed);

    let now = Instant::now();
    for _ in 0..1000000 {
        let result = routing.find_entry(b"potato", b"caution");
        assert!(result.is_some());
    }
    let elapsed = now.elapsed();
    println!("Elapsed: {:.2?}", elapsed);
}

#[test]
fn test_perf_regex_repeated() {
    let routing = vegetables();

    let now = Instant::now();
    for _ in 0..1000000 {
        let result = routing.find_entry(b"1234567890123456789012345678901234567890123456789012345678901234567890123456789012345678901234567890I23456789012345678901234567890123456789012345678901234567890123456789012345678901234567890123456789012345678901234567890123456789012345678901234567890123456789012345678901234567890123456789012345678901234567890123456789012345678901234567890123456789012345678901234567890123456789012345678901234567890123456789012345678901234567890123456789012345678901234567890123456789012345678901234567890123456789012345678901234567890123456789012345678901234567890123456789012345678901234567890123456789012345678901234567890123456789012345678901234567890123456789012345678901234567890123456789012345678901234567890123456789012345678901234567890123456789012345678901234567890123456789012345678901234567890123456789012345678901234567890123456789012345678901234567890123456789012345678901234567890123456789012345678901234567890123456789012345678901234567890123456789012345678901234567890123456789012345678901234567890tomato", b"value");
        assert!(result.is_some());
    }
    let elapsed = now.elapsed();
    println!("Elapsed: {:.2?}", elapsed);
}

#[test]
fn test_perf_regex_long_value() {
    let routing = vegetables();

    let now = Instant::now();
    for _ in 0..1000000 {
        let result = routing.find_entry(b"potato", b"1234567890123456789012345678901234567890123456789012345678901234567890123456789012345678901234567890I23456789012345678901234567890123456789012345678901234567890123456789012345678901234567890123456789012345678901234567890123456789012345678901234567890123456789012345678901234567890123456789012345678901234567890123456789012345678901234567890123456789012345678901234567890123456789012345678901234567890123456789012345678901234567890123456789012345678901234567890123456789012345678901234567890123456789012345678901234567890123456789012345678901234567890123456789012345678901234567890123456789012345678901234567890123456789012345678901234567890123456789012345678901234567890123456789012345678901234567890123456789012345678901234567890123456789012345678901234567890123456789012345678901234567890123456789012345678901234567890123456789012345678901234567890123456789012345678901234567890123456789012345678901234567890123456789012345678901234567890123456789012345678901234567890123456789012345678901234567890caution");
        assert!(result.is_some());
    }
    let elapsed = now.elapsed();
    println!("Elapsed: {:.2?}", elapsed);
}

#[test]
fn a_needle_is_found_at_its_first_place() {
    let table = RoutingTable::new();
    assert_eq!(table.find_subsequence(b"tomato", b"to"), Some(0));
    assert_eq!(table.find_subsequence(b"potato", b"ato"), Some(3));
    assert_eq!(table.find_subsequence(b"potato", b"o"), Some(1));
    assert_eq!(table.find_subsequence(b"potato", b"toto"), None);
    assert_eq!(table.find_subsequence(b"to", b"tomato"), None);
    assert_eq!(table.find_subsequence(b"", b"a"), None);
}

#[test]
fn the_first_route_that_matches_is_taken() {
    let mut table = RoutingTable::new();
    let mut configuration = RoutingConfiguration::new();
    configuration.add_route(route(Some("^tom"), Some("a|b"), "first"));
    configuration.add_route(route(Some("tomato"), None, "second"));
    configuration.add_route(route(None, Some("^c$"), "third"));
    table.configure(configuration).unwrap();
    let cluster = |key: &[u8], value: &[u8]| table.find_entry(key, value).map(|e| e.cluster.clone());
    assert_eq!(cluster(b"tomato", b"xb"), Some("first".to_string()));
    assert_eq!(cluster(b"tomato", b"x"), Some("second".to_string()));
    assert_eq!(cluster(b"potato", b"c"), Some("third".to_string()));
    assert_eq!(cluster(b"potato", b"cc"), None);
}

#[test]
fn the_first_route_whose_key_is_written_is_taken() {
    let mut table = RoutingTable::new();
    let mut configuration = RoutingConfiguration::new();
    configuration.add_route(route(Some("ato"), None, "first"));
    configuration.add_route(route(Some("t.m"), None, "second"));
    table.configure(configuration).unwrap();
    assert_eq!(table.find_entry_by_key(b"tomato").map(|e| e.cluster.as_str()), Some("first"));
    assert_eq!(table.find_entry_by_key(b"t.m").map(|e| e.cluster.as_str()), Some("second"));
    assert!(table.find_entry_by_key(b"tom").is_none());
}

#[test]
fn a_configuration_is_taken_over() {
    let mut table = RoutingTable::new();
    let mut configuration = RoutingConfiguration::new();
    configuration.type_proxy = Some("edge".to_string());
    configuration.local_cluster = Some("b".to_string());
    configuration.default_cluster = Some("c".to_string());
    configuration.add_route(route(Some("x"), None, "a"));
    configuration.add_route(route(Some("y"), None, "c"));
    configuration.add_route(route(Some("z"), None, "a"));
    table.configure(configuration).unwrap();
    assert_eq!(table.clusters, vec!["a", "b", "c"]);
    assert_eq!(table.layer, "edge");
    assert_eq!(table.routing_mechanism, RoutingMechanism::Synchronous);
    assert_eq!(table.vec.len(), 3);
}

#[test]
fn a_pattern_that_is_none_is_handed_back() {
    let mut table = RoutingTable::new();
    let mut configuration = RoutingConfiguration::new();
    configuration.add_route(route(Some("fine"), Some("("), "a"));
    assert_eq!(table.configure(configuration), Err("(".to_string()));
    assert!(table.vec.is_empty());
    let mut configuration = RoutingConfiguration::new();
    configuration.add_route(route(Some("["), Some("("), "a"));
    assert_eq!(table.configure(configuration), Err("[".to_string()));
}

#[test]
fn a_configuration_is_adopted_exactly_where_its_patterns_were_compiled() {
    let compiled = |text: &str| Some(regex::bytes::Regex::new(text).unwrap());
    let mut table = RoutingTable::new();
    let mut configuration = RoutingConfiguration::new();
    let mut half = route(Some("x"), Some("y+"), "a");
    half.key_regex = compiled("x");
    configuration.add_route(half.clone());
    assert_eq!(table.adopt(configuration), Err("y+".to_string()));
    assert!(table.vec.is_empty());
    half.value_regex = compiled("y+");
    let mut configuration = RoutingConfiguration::new();
    configuration.add_route(half);
    assert_eq!(table.adopt(configuration), Ok(()));
    assert!(table.find_entry(b"x", b"yy").is_some());
    assert!(table.find_entry(b"x", b"z").is_none());
}

#[test]
fn setup_requests_go_to_every_cluster() {
    let protocol = KafkaRoutingProtocol::new(0);
    let mut table = RoutingTable::new();
    let mut configuration = RoutingConfiguration::new();
    configuration.default_cluster = Some("a".to_string());
    configuration.local_cluster = Some("b".to_string());
    configuration.add_route(route(Some("x"), None, "c"));
    table.configure(configuration).unwrap();
    let versions = request(18);
    table.register_downstream_request(Some(versions.clone()));
    let (routes, remaining) = table.route_request(&protocol);
    let routes = routes.unwrap();
    assert_eq!((routes.size(), remaining), (3, 0));
    for cluster in ["a", "b", "c"] {
        assert_eq!(routes.get(&cluster.to_string()), Some(&versions));
    }
    assert_eq!(table.current_request_kind, RequestResponseKind::Local);
    assert_eq!(table.current_request_type, RequestType::RequestResponse);
}

#[test]
fn more_bytes_than_a_message_are_told() {
    let protocol = KafkaRoutingProtocol::new(0);
    let mut table = deferring("l", "d");
    table.routing_mechanism = RoutingMechanism::Synchronous;
    let fetch = request(1);
    let mut both = fetch.clone();
    both.extend_from_slice(&[9, 9, 9]);
    table.register_downstream_request(Some(both));
    let (routes, remaining) = table.route_request(&protocol);
    assert_eq!(remaining, 3);
    assert_eq!(routes.unwrap().get(&"d".to_string()), Some(&fetch));
    assert_eq!(table.origin_request, Some(fetch.clone()));

    table.register_downstream_request(Some(fetch[..9].to_vec()));
    let (routes, remaining) = table.route_request(&protocol);
    assert!(matches!(routes, Err(RouteError::Incomplete)));
    assert_eq!(remaining, 0);
    assert_eq!(table.current_request_type, RequestType::Incomplete);
}

#[test]
fn deferred_setup_requests_go_out_once_and_in_order() {
    let protocol = KafkaRoutingProtocol::new(0);
    let mut table = deferring("local", "remote");
    let remote = "remote".to_string();
    let local = "local".to_string();
    for key in [18, 3] {
        table.register_downstream_request(Some(request(key)));
        let (routes, _) = table.route_request(&protocol);
        let routes = routes.unwrap();
        assert_eq!(routes.size(), 1);
        assert_eq!(routes.get(&local), Some(&request(key)));
    }
    table.register_downstream_request(Some(request(1)));
    let (routes, _) = table.route_request(&protocol);
    let routes = routes.unwrap();
    assert_eq!(routes.size(), 1);
    assert_eq!(routes.get(&remote), Some(&request(18)));
    assert!(!table.check_last_request(&remote));
    assert!(table.check_last_request(&local));
    assert_eq!(table.next_requests().unwrap().get(&remote), Some(&request(3)));
    assert_eq!(table.next_requests().unwrap().get(&remote), Some(&request(1)));
    assert!(table.check_last_request(&remote));
    assert!(table.next_requests().unwrap().is_empty());

    table.register_downstream_request(Some(request(0)));
    let (routes, _) = table.route_request(&protocol);
    assert_eq!(routes.unwrap().get(&remote), Some(&request(0)));
    assert!(table.check_last_request(&remote));

    table.add_future_request(remote.clone(), vec![1]);
    table.add_future_request(remote.clone(), vec![2]);
    assert_eq!(table.next_requests().unwrap().get(&remote), Some(&vec![1]));
    assert_eq!(table.next_requests().unwrap().get(&remote), Some(&vec![2]));
}

#[test]
fn nothing_is_next_where_nothing_was_queued() {
    assert!(RoutingTable::new().next_requests().is_none());
}

#[test]
fn a_response_waits_for_every_cluster() {
    let protocol = DefaultRoutingProtocol::new();
    let mut table = RoutingTable::new();
    table.register_upstream_request(1, "a".to_string(), vec![1]);
    table.register_upstream_request(2, "b".to_string(), vec![1]);
    assert_eq!(table.get_requests().len(), 2);
    let (response, _) = table.route_response(&protocol, 2, vec![22]);
    assert_eq!(response, Err(RouteError::Wait));
    assert_eq!(table.get_responses().len(), 1);
    let (response, _) = table.route_response(&protocol, 1, vec![11]);
    assert_eq!(response, Ok(vec![11]));
    assert!(table.get_responses().is_empty());
    assert!(table.get_requests().is_empty());
}

#[test]
fn pieces_of_a_response_are_put_together() {
    let protocol = KafkaRoutingProtocol::new(1);
    let whole = vec![0, 0, 0, 4, 1, 2, 3, 4];
    let mut table = deferring("l", "d");
    table.register_upstream_request(0, "l".to_string(), vec![1]);
    let (response, _) = table.route_response(&protocol, 0, whole[..5].to_vec());
    assert_eq!(response, Err(RouteError::Incomplete));
    assert_eq!(table.current_response_kind, RequestResponseKind::Incomplete);
    let (response, remaining) = table.route_response(&protocol, 0, whole[5..].to_vec());
    assert_eq!((response, remaining), (Ok(whole), 0));
}

#[test]
fn only_the_first_of_several_messages_is_taken() {
    let protocol = KafkaRoutingProtocol::new(0);
    let mut table = RoutingTable::new();
    table.register_upstream_request(0, "c".to_string(), vec![]);
    let came = vec![0, 0, 0, 1, 5, 9, 9];
    assert_eq!(table.route_response(&protocol, 0, came), (Ok(vec![0, 0, 0, 1, 5]), 2));
    assert!(table.get_responses().is_empty());
    assert!(table.get_requests().is_empty());
}

#[test]
fn the_response_of_the_local_cluster_is_taken() {
    let protocol = Protocol::Kafka(KafkaRoutingProtocol::default());
    let mut table = deferring("l", "d");
    let (a, b) = (vec![0, 0, 0, 1, 1], vec![0, 0, 0, 1, 2]);
    table.register_upstream_request(1, "d".to_string(), vec![1]);
    table.register_upstream_request(2, "l".to_string(), vec![1]);
    table.register_upstream_response(&protocol, 1, a);
    let responses = table.get_responses().clone();
    assert_eq!(responses.len(), 1);
    table.complete_requests = 1;
    let (response, _) = table.route_response(&protocol, 2, b.clone());
    assert_eq!(response, Ok(b));
}

#[test]
fn a_cut_response_is_an_error_where_the_protocol_is_debugged() {
    let table = RoutingTable::new();
    let mut responses = std::collections::BTreeMap::new();
    responses.insert(4, vec![0, 0, 0, 9, 1]);
    assert_eq!(
        KafkaRoutingProtocol::new(1).merge_responses(&table, &responses),
        Err(RouteError::Split)
    );
    assert_eq!(
        KafkaRoutingProtocol::new(0).merge_responses(&table, &responses),
        Ok(vec![0, 0, 0, 9, 1])
    );
}

#[test]
fn errors_are_told_in_words() {
    assert_eq!(RouteError::Incomplete.message(), "incomplete");
    assert_eq!(RouteError::Wait.message(), "wait");
    assert_eq!(RouteError::Split.message(), "split");
}

#[test]
fn the_default_protocol_takes_every_message_as_it_is() {
    let protocol = DefaultRoutingProtocol::new();
    assert_eq!(protocol.payload_compare_size(true, &vec![1, 2]), 0);
    assert_eq!(
        protocol.request_response_type(&vec![]),
        (
            RequestType::RequestResponse,
            RequestResponseKind::Routable,
            RequestResponseKind::Routable
        )
    );
    let mut table = deferring("l", "d");
    table.register_downstream_request(Some(vec![5]));
    let (routes, _) = table.route_request(&protocol);
    assert_eq!(routes.unwrap().get(&"l".to_string()), Some(&vec![5]));
}
