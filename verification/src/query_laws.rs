//! What the filter of a connection is told: settings, criteria, routes, and how the partitions of
//! a topic are related.

use crate::criteria;
use crate::criteria::FieldView;
use crate::criteria::Members;
use crate::data;
use crate::hashing;
use crate::hashing::HashInput;
use crate::identifier;
use crate::json;
use crate::partitions;
use crate::partitions::Relation;
use crate::pattern;
use crate::root;
use crate::root::Criteria;
use crate::routing;
use crate::routing::RouteView;
use crate::routing::RoutingConfiguration;
use crate::routing::TableView;
use crate::settings;
use crate::settings::Given;
use crate::settings::StreamSettings;
use crate::text;
use vstd::prelude::*;

verus! {

proof fn lemma_decimal_value(n: nat)
    ensures
        settings::digits_value(text::decimal_nat(n)) == n,
        settings::all_digits(text::decimal_nat(n)),
    decreases n,
{
    text::decimals_are_digits(n);
    let list = text::decimal_nat(n);
    assert forall|i: int| 0 <= i < list.len() implies settings::is_digit(#[trigger] list[i]) by {
        assert('0' <= list[i] <= '9');
    }
    if n < 10 {
        assert(list.drop_last() =~= Seq::<char>::empty());
        assert(settings::digits_value(Seq::<char>::empty()) == 0);
        assert(list.last() == text::digit(n as int));
    } else {
        lemma_decimal_value(n / 10);
        assert(list.drop_last() =~= text::decimal_nat(n / 10));
        assert(list.last() == text::digit((n % 10) as int));
    }
}

/// A number is read back from its decimals, also with a plus before it.
pub proof fn numbers_are_read_from_their_decimals(n: int)
    ensures
        settings::number_of(text::decimal(n)) == Some(n),
        0 <= n ==> settings::number_of(seq!['+'] + text::decimal(n)) == Some(n),
{
    let digits = text::decimal_nat(if n < 0 {
        (-n) as nat
    } else {
        n as nat
    });
    lemma_decimal_value(if n < 0 {
        (-n) as nat
    } else {
        n as nat
    });
    assert(settings::is_digit(digits[0]));
    if n < 0 {
        assert((seq!['-'] + digits).skip(1) =~= digits);
    } else {
        assert((seq!['+'] + digits).skip(1) =~= digits);
    }
}

/// Each further digit counts once, behind ten times what stands before it.
pub proof fn every_digit_counts(digits: Seq<char>, d: char)
    requires
        settings::all_digits(digits),
        '0' <= d <= '9',
    ensures
        settings::number_of(digits) is Some,
        settings::number_of(digits.push(d)) == Some(
            settings::number_of(digits)->Some_0 * 10 + (d as int - '0' as int),
        ),
{
    let more = digits.push(d);
    assert(settings::is_digit(digits[0]));
    assert(more.drop_last() =~= digits);
    assert forall|i: int| 0 <= i < more.len() implies settings::is_digit(#[trigger] more[i]) by {
        if i < digits.len() {
            assert(more[i] == digits[i]);
        }
    }
    assert(settings::is_digit(more[0]));
}

/// A text with anything but digits behind its first character, or without digits, is no number.
pub proof fn other_texts_are_no_numbers(text: Seq<char>, i: int)
    requires
        text.len() == 0 || (0 <= i < text.len() && !('0' <= text[i] <= '9') && (i > 0 || (text[0]
            != '+' && text[0] != '-') || text.len() == 1)),
    ensures
        settings::number_of(text) is None,
{
    if text.len() > 0 {
        let digits = settings::unsigned_part(text);
        if digits.len() == text.len() - 1 {
            if digits.len() > 0 {
                assert(digits[i - 1] == text[i]);
                assert(!settings::is_digit(digits[i - 1]));
            }
        } else {
            assert(!settings::is_digit(text[i]));
        }
    }
}

/// A setting is taken as a number exactly if it writes one that is not too small or too large;
/// where none is below zero, it has no minus.
pub proof fn numbers_have_their_limits(text: Seq<char>, low: int, high: int)
    ensures
        ({
            let n = settings::number_of(text);
            let fits = n is Some && low <= n->Some_0 <= high && !(low >= 0 && text[0] == '-');
            settings::number_within(text, low, high) == (if fits {
                n
            } else {
                None::<int>
            })
        }),
{
}

/// The text that a setting is given as, or another one where it is not given.
pub open spec fn given_text(given: Given, name: Seq<char>, otherwise: Seq<char>) -> Seq<char> {
    if given is Some && given->Some_0.contains_key(name) {
        given->Some_0[name]
    } else {
        otherwise
    }
}

/// The whole proxy looks at the fetches that wait every hundred milliseconds and lets them wait
/// for a second, or as its settings say.
pub proof fn the_proxy_follows_its_settings(given: Given)
    ensures
        ({
            let period = settings::number_within(
                given_text(given, "period_virtual_partition"@, "100"@),
                0,
                u64::MAX as int,
            );
            let wait = settings::number_within(
                given_text(given, "fetch_max_wait_ms_virtual_partition"@, "1000"@),
                0,
                u128::MAX as int,
            );
            let r = settings::root_settings_of(given);
            &&& r is Some <==> period is Some && wait is Some
            &&& r is Some ==> r->Some_0.period == period->Some_0 && r->Some_0.max_wait
                == wait->Some_0
        }),
{
    numbers_have_their_limits(
        given_text(given, "period_virtual_partition"@, "100"@),
        0,
        u64::MAX as int,
    );
    numbers_have_their_limits(
        given_text(given, "fetch_max_wait_ms_virtual_partition"@, "1000"@),
        0,
        u128::MAX as int,
    );
}

/// A connection has 128 key groups, no debugging, deliveries of more than a million bytes and no
/// empty records, or what its settings say.
pub proof fn connections_follow_their_settings(given: Given, at: int)
    ensures
        ({
            let groups = settings::number_within(
                given_text(given, "max_parallelism"@, "128"@),
                i32::MIN as int,
                i32::MAX as int,
            );
            let debug = settings::number_within(
                given_text(given, "debug_protocol"@, "0"@),
                i32::MIN as int,
                i32::MAX as int,
            );
            let bytes = settings::number_within(
                given_text(given, "fetch_min_bytes_virtual_partition"@, "1000000"@),
                0,
                usize::MAX as int,
            );
            let remove = given_text(given, "remove_empty_records"@, "true"@);
            let r = settings::stream_settings_of(given);
            &&& r is Some <==> groups is Some && debug is Some && bytes is Some
            &&& r is Some ==> {
                &&& r->Some_0.max_parallelism == groups->Some_0
                &&& r->Some_0.debug_protocol == debug->Some_0
                &&& r->Some_0.min_bytes == bytes->Some_0
                &&& 0 <= at && at + 4 <= remove.len() && remove.subrange(at, at + 4) == "true"@
                    ==> r->Some_0.remove_empty_records
                &&& r->Some_0.remove_empty_records ==> exists|i: int|
                    0 <= i && i + 4 <= remove.len() && #[trigger] remove.subrange(i, i + 4)
                        == "true"@
            }
        }),
{
    reveal_strlit("true");
    let remove = given_text(given, "remove_empty_records"@, "true"@);
    assert("true"@.len() == 4);
    if settings::mentions(remove, "true"@) {
        let i = choose|i: int|
            0 <= i && i + "true"@.len() <= remove.len() && #[trigger] remove.subrange(
                i,
                i + "true"@.len(),
            ) == "true"@;
        assert(remove.subrange(i, i + 4) == "true"@);
    }
    if 0 <= at && at + 4 <= remove.len() && remove.subrange(at, at + 4) == "true"@ {
        assert(remove.subrange(at, at + "true"@.len()) == "true"@);
    }
    numbers_have_their_limits(
        given_text(given, "max_parallelism"@, "128"@),
        i32::MIN as int,
        i32::MAX as int,
    );
    numbers_have_their_limits(
        given_text(given, "debug_protocol"@, "0"@),
        i32::MIN as int,
        i32::MAX as int,
    );
    numbers_have_their_limits(
        given_text(given, "fetch_min_bytes_virtual_partition"@, "1000000"@),
        0,
        usize::MAX as int,
    );
}

/// Compiling leaves the criteria of every topic as they are, but that each selection with a value
/// gets that value as its pattern, wherever it stands.
pub proof fn every_selection_is_compiled(criteria: Criteria, topic: Seq<char>)
    ensures
        root::all_compiled(criteria).contains_key(topic) <==> criteria.contains_key(topic),
        criteria.contains_key(topic) ==> {
            let before = criteria[topic];
            let after = root::all_compiled(criteria)[topic];
            &&& after.num_sources == before.num_sources
            &&& after.num_partitions == before.num_partitions
            &&& after.projections == before.projections
            &&& after.partition == before.partition
            &&& after.selections.len() == before.selections.len()
            &&& forall|i: int|
                0 <= i < before.selections.len() ==> {
                    let selection = #[trigger] after.selections[i];
                    &&& selection.attribute == before.selections[i].attribute
                    &&& selection.value == before.selections[i].value
                    &&& before.selections[i].value is Some ==> selection.pattern
                        == before.selections[i].value
                    &&& before.selections[i].value is None ==> selection.pattern
                        == before.selections[i].pattern
                }
        },
{
}

/// Compiling leaves routes as they are, but that the key and the value of each become its
/// patterns.
pub proof fn every_route_is_compiled(list: Seq<RouteView>, i: int)
    requires
        0 <= i < list.len(),
    ensures
        routing::compiled_routes(list).len() == list.len(),
        ({
            let route = routing::compiled_routes(list)[i];
            &&& route.key == list[i].key
            &&& route.value == list[i].value
            &&& route.cluster == list[i].cluster
            &&& route.key_pattern == list[i].key
            &&& route.value_pattern == list[i].value
        }),
{
}

/// A compiled route takes a request exactly if neither its key nor its value, where it has them,
/// fails to match.
pub proof fn a_route_takes_what_its_patterns_match(route: RouteView, key: Seq<u8>, value: Seq<u8>)
    ensures
        route.compiled().takes(key, value) <==> !(route.key is Some && !pattern::regex_matches(
            route.key->Some_0,
            key,
        )) && !(route.value is Some && !pattern::regex_matches(route.value->Some_0, value)),
{
}

/// The filter of a new connection has waited for nothing, knows no session, no request and no
/// reader of a partition, and follows its settings. It speaks Kafka exactly if the workload says
/// so.
pub proof fn a_new_filter_knows_only_what_it_is_told(
    context_id: u32,
    workload: Seq<char>,
    given: StreamSettings,
    criteria: Criteria,
    relations: Map<Seq<char>, Relation>,
    table: TableView,
)
    ensures
        ({
            let f = root::new_filter(context_id, workload, given, criteria, relations, table);
            &&& f.context_id == context_id
            &&& f.protocol is Kafka <==> workload == "kafka-alloy"@
            &&& f.protocol is Kafka ==> f.protocol->Kafka_0.debug_protocol == given.debug_protocol
            &&& f.table == table
            &&& f.criteria == criteria
            &&& f.relations == relations
            &&& f.max_parallelism == given.max_parallelism
            &&& f.remove_empty_records == given.remove_empty_records
            &&& f.fetch_min_bytes == given.min_bytes
            &&& f.request is None
            &&& f.request_header is None
            &&& f.origin_fetch is None
            &&& f.session_id == -1
            &&& f.session_epoch == -1
            &&& f.correlation_id == -1
            &&& f.fetch_request_api_version == -1
            &&& f.data_size == 0
            &&& f.splits == Map::<(Seq<char>, i32), i32>::empty()
            &&& f.query_indexes == Map::<(Seq<char>, i32), i64>::empty()
            &&& f.queues == Map::<Seq<char>, u32>::empty()
        }),
{
}

/// The relation of a topic names an original partition for exactly the virtual ones, which are
/// dealt to the sources in turn, each of which starts at the partition with its number. With each
/// original partition it lists exactly its virtual ones, each once and in ascending order.
pub proof fn a_table_relates_every_virtual_partition(
    relation: Relation,
    num_sources: int,
    num_partitions: int,
    vp: i32,
    p: i32,
)
    requires
        0 < num_sources,
        0 < num_partitions,
        num_sources * num_partitions <= i32::MAX,
        relation.is_table(num_sources, num_partitions),
    ensures
        relation.originals.contains_key(vp) <==> 0 <= vp < num_sources * num_partitions,
        relation.originals.contains_key(vp) ==> relation.originals[vp] == (vp as int % num_sources
            + vp as int / num_sources) % num_partitions,
        relation.virtuals.contains_key(p) <==> exists|v: i32| #[trigger]
            relation.originals.contains_key(v) && relation.originals[v] == p,
        relation.virtuals.contains_key(p) ==> {
            let list = relation.virtuals[p];
            &&& forall|v: i32| #[trigger]
                list.contains(v) <==> relation.originals.contains_key(v) && relation.originals[v]
                    == p
            &&& forall|i: int, j: int|
                0 <= i < j < list.len() ==> (#[trigger] list[i]) < (#[trigger] list[j])
        },
{
    let n = num_sources * num_partitions;
    let list = partitions::virtuals_below(num_sources, num_partitions, n, p as int);
    partitions::virtuals_are_those_of_the_original(num_sources, num_partitions, n, p as int);
    assert forall|v: i32| #[trigger] list.contains(v) <==> relation.originals.contains_key(v)
        && relation.originals[v] == p by {
        assert(relation.originals.contains_key(v) <==> 0 <= v < n);
        if 0 <= v < n {
            assert(relation.originals[v] == partitions::original_of(
                num_sources,
                num_partitions,
                v as int,
            ));
        }
    }
    if relation.virtuals.contains_key(p) {
        assert(list.contains(list[0]));
        assert(relation.originals.contains_key(list[0]));
    }
    if exists|v: i32| #[trigger]
        relation.originals.contains_key(v) && relation.originals[v] == p {
        let v = choose|v: i32| #[trigger]
            relation.originals.contains_key(v) && relation.originals[v] == p;
        assert(list.contains(v));
    }
}

/// Topics are related exactly if they have criteria, as many sources as these say, or one where
/// they are not partitioned by any field.
pub proof fn topics_are_related_by_their_criteria(
    relations: Map<Seq<char>, Relation>,
    criteria: Criteria,
    topic: Seq<char>,
)
    requires
        root::are_tables(relations, criteria),
    ensures
        relations.contains_key(topic) <==> criteria.contains_key(topic),
        criteria.contains_key(topic) ==> relations[topic].is_table(
            if criteria[topic].partition.len() == 0 {
                1
            } else {
                criteria[topic].num_sources as int
            },
            criteria[topic].num_partitions as int,
        ),
{
    assert(relations.contains_key(topic) <==> relations.dom().contains(topic));
    assert(criteria.contains_key(topic) <==> criteria.dom().contains(topic));
}

/// The object of the fields that partition a topic has exactly those of them that the event has,
/// each with its text.
pub proof fn every_field_is_read(members: Members, fields: Seq<FieldView>, name: Seq<char>)
    ensures
        ({
            let has = members is Some && members->Some_0.contains_key(name);
            let listed = exists|i: int|
                0 <= i < fields.len() && (#[trigger] fields[i]).attribute == name;
            let left = criteria::fields_of(members, fields);
            &&& left.contains_key(name) <==> has && listed
            &&& left.contains_key(name) ==> left[name] == members->Some_0[name]
        }),
{
    let has = members is Some && members->Some_0.contains_key(name);
    if has && exists|i: int| 0 <= i < fields.len() && (#[trigger] fields[i]).attribute == name {
        let i = choose|i: int| 0 <= i < fields.len() && (#[trigger] fields[i]).attribute == name;
        assert(fields[i].attribute == name && criteria::has_field(members, fields[i]));
    }
}

/// The hash of a text counts each further character once, behind 31 times what stands before it,
/// and keeps 32 bits of that. The hash of an integer is the integer.
pub proof fn every_character_is_hashed(s: Seq<char>, c: char, i: i32)
    ensures
        hashing::java_hash_of(HashInput::Str(Seq::empty())) == 0,
        ({
            let before = hashing::java_hash_of(HashInput::Str(s)) as int;
            let after = hashing::java_hash_of(HashInput::Str(s.push(c))) as int;
            (after - (31 * before + c as int)) % 0x1_0000_0000 == 0
        }),
        hashing::java_hash_of(HashInput::Integer(i)) == i,
{
    let m: int = 0x1_0000_0000;
    assert(s.push(c).drop_last() =~= s);
    let x = hashing::base31(s);
    let y = 31 * x + c as int;
    assert(hashing::base31(s.push(c)) == y);
    let before = hashing::wrap_i32(x);
    let after = hashing::wrap_i32(y);
    let p = (x + 0x8000_0000) / m;
    let q = (y + 0x8000_0000) / m;
    vstd::arithmetic::div_mod::lemma_fundamental_div_mod(x + 0x8000_0000, m);
    vstd::arithmetic::div_mod::lemma_fundamental_div_mod(y + 0x8000_0000, m);
    assert(after - (31 * before + c as int) == (31 * p - q) * m);
    vstd::arithmetic::div_mod::lemma_mod_multiples_basic(31 * p - q, m);
}

/// Where partitions start, the sources of a topic start by its name: the reader of the first one
/// is the hash of the name times 31, cut to 31 bits, modulo the number of readers.
pub proof fn readers_start_by_the_name(topic: Seq<char>, num_readers: int)
    requires
        0 < num_readers,
    ensures
        hashing::split_owner_of(topic, 0, num_readers) == ((hashing::java_hash_of(
            HashInput::Str(topic),
        ) * 31) % 0x8000_0000) % num_readers,
{
    let h = hashing::wrap_i32(hashing::base31(topic));
    let m: int = 0x1_0000_0000;
    let half: int = 0x8000_0000;
    let x = 31 * h;
    let p = (x + half) / m;
    vstd::arithmetic::div_mod::lemma_fundamental_div_mod(x + half, m);
    assert(hashing::wrap_i32(x) == x - p * m);
    assert(x - p * m == half * (-2 * p) + x);
    vstd::arithmetic::div_mod::lemma_mod_multiples_vanish(-2 * p, x, half);
    let start = (x % half) % num_readers;
    vstd::arithmetic::div_mod::lemma_mod_twice(x % half, num_readers);
}

/// What a value in JSON is can be told by the first character of its text.
pub proof fn values_are_told_by_their_first_character(text: Seq<char>)
    ensures
        ({
            let kind = json::kind_of_text(text);
            let c = text[0];
            &&& kind is String <==> c == '"'
            &&& kind is Object <==> c == '{'
            &&& kind is Array <==> c == '['
            &&& kind is Bool <==> c == 't' || c == 'f'
            &&& kind is Null <==> c == 'n'
            &&& c == '-' || '0' <= c <= '9' ==> kind is Number
        }),
{
}

/// The name of a queue is that of the topic, a dash and the decimals of the partition; behind it
/// stand, in the name of the records, a dash and the decimals of the offset.
pub proof fn queues_are_named_by_topic_and_partition(
    topic: Seq<char>,
    partition: int,
    offset: int,
)
    ensures
        ({
            let queue = data::queue_key(topic, partition);
            let records = data::records_key(topic, partition, offset);
            let n = topic.len() as int;
            &&& topic.is_prefix_of(queue)
            &&& queue[n] == '-'
            &&& queue.len() > n
            &&& settings::number_of(queue.skip(n + 1)) == Some(partition)
            &&& queue.is_prefix_of(records)
            &&& records.len() > queue.len()
            &&& records[queue.len() as int] == '-'
            &&& settings::number_of(records.skip(queue.len() as int + 1)) == Some(offset)
        }),
{
    let queue = data::queue_key(topic, partition);
    let records = data::records_key(topic, partition, offset);
    numbers_are_read_from_their_decimals(partition);
    numbers_are_read_from_their_decimals(offset);
    assert(queue.skip(topic.len() as int + 1) =~= text::decimal(partition));
    assert(records.skip(queue.len() as int + 1) =~= text::decimal(offset));
    assert(queue.take(topic.len() as int) =~= topic);
    assert(records.take(queue.len() as int) =~= queue);
}

/// The virtual partitions can be numbered exactly if those of every topic can.
pub proof fn every_topic_has_to_fit(criteria: Criteria, topic: Seq<char>)
    ensures
        root::all_fit(criteria) && criteria.contains_key(topic) ==> {
            let c = criteria[topic];
            let n = if c.partition.len() == 0 {
                c.num_partitions as int
            } else {
                c.num_partitions * c.num_sources
            };
            i32::MIN <= n <= i32::MAX
        },
        (forall|name: Seq<char>| #[trigger]
            criteria.contains_key(name) ==> 0 <= criteria[name].num_partitions
                && 0 <= criteria[name].num_sources && criteria[name].num_partitions
                * criteria[name].num_sources <= i32::MAX) ==> root::all_fit(criteria),
{
    if criteria.contains_key(topic) {
        let c = criteria[topic];
        vstd::arithmetic::mul::lemma_mul_is_commutative(
            c.num_partitions as int,
            c.num_sources as int,
        );
    }
    if forall|name: Seq<char>| #[trigger]
        criteria.contains_key(name) ==> 0 <= criteria[name].num_partitions
            && 0 <= criteria[name].num_sources && criteria[name].num_partitions
            * criteria[name].num_sources <= i32::MAX {
        assert forall|name: Seq<char>| #[trigger]
            criteria.contains_key(name) implies root::partitions_fit(criteria[name]) by {
            let c = criteria[name];
            let (a, b) = (c.num_sources as int, c.num_partitions as int);
            vstd::arithmetic::mul::lemma_mul_is_commutative(a, b);
            assert(0 <= a * b) by (nonlinear_arith)
                requires
                    0 <= a,
                    0 <= b,
            ;
        }
    }
}

/// A configured table has the clusters of all routes, the default one and the local one, and no
/// others; none of them stands in it twice.
pub proof fn a_table_knows_every_cluster(
    table: TableView,
    before: TableView,
    configuration: RoutingConfiguration,
    list: Seq<RouteView>,
    i: int,
    j: int,
)
    requires
        table.is_configured(before, configuration, list),
    ensures
        table.routes == list,
        table.default_cluster == configuration.default_cluster.deep_view(),
        table.local_cluster == configuration.local_cluster.deep_view(),
        configuration.routing_mechanism is Some ==> table.mechanism
            == configuration.routing_mechanism->Some_0,
        configuration.routing_mechanism is None ==> table.mechanism is Synchronous,
        table.default_cluster is Some ==> table.clusters.contains(table.default_cluster->Some_0),
        table.local_cluster is Some ==> table.clusters.contains(table.local_cluster->Some_0),
        0 <= i < list.len() ==> table.clusters.contains(list[i].cluster),
        0 <= i < table.clusters.len() ==> table.default_cluster == Some(table.clusters[i])
            || table.local_cluster == Some(table.clusters[i]) || exists|k: int|
            0 <= k < list.len() && (#[trigger] list[k]).cluster == table.clusters[i],
        0 <= i < j < table.clusters.len() ==> table.clusters[i] != table.clusters[j],
        table.requests == before.requests,
        table.responses == before.responses,
        table.future_requests == before.future_requests,
        table.local_requests == before.local_requests,
        table.initialised == before.initialised,
{
    if 0 <= i < list.len() {
        assert(list[i].cluster == list[i].cluster);
        assert(table.clusters.contains(list[i].cluster));
    }
    if 0 <= i < table.clusters.len() {
        assert(table.clusters.contains(table.clusters[i]));
    }
    if 0 <= i < j < table.clusters.len() {
        assert(text::text_less(table.clusters[i], table.clusters[j]));
        text::text_order_is_irreflexive(table.clusters[i]);
    }
}

/// A route is named in bytes exactly if its key is not empty and its bytes stand in them at some
/// place.
pub proof fn a_route_is_named_wherever_its_key_stands(route: RouteView, bytes: Seq<u8>, i: int)
    requires
        route.key is Some,
    ensures
        ({
            let needle = vstd::utf8::encode_utf8(route.key->Some_0);
            &&& route.named_in(bytes) ==> route.key->Some_0.len() > 0 && exists|k: int|
                0 <= k && k + needle.len() <= bytes.len() && #[trigger] bytes.subrange(
                    k,
                    k + needle.len(),
                ) == needle
            &&& route.key->Some_0.len() > 0 && 0 <= i && i + needle.len() <= bytes.len()
                && bytes.subrange(i, i + needle.len()) == needle ==> route.named_in(bytes)
        }),
{
    let needle = vstd::utf8::encode_utf8(route.key->Some_0);
    if route.named_in(bytes) {
        let k = choose|k: int| routing::stands_at(bytes, needle, k);
        assert(bytes.subrange(k, k + needle.len()) == needle);
    }
    if 0 <= i && i + needle.len() <= bytes.len() && bytes.subrange(i, i + needle.len())
        == needle {
        assert(routing::stands_at(bytes, needle, i));
    }
}

/// Texts are ordered by the first characters in which they differ, wherever these stand, and a
/// text comes before those that go on where it ends.
pub proof fn texts_are_ordered_by_their_first_difference(
    start: Seq<char>,
    a: char,
    b: char,
    rest: Seq<char>,
    other: Seq<char>,
)
    ensures
        a != b ==> (text::text_less(start + seq![a] + rest, start + seq![b] + other) <==> (a as int)
            < (b as int)),
        text::text_less(start, start + seq![a] + rest),
    decreases start.len(),
{
    let x = start + seq![a] + rest;
    let y = start + seq![b] + other;
    if start.len() > 0 {
        let fewer = start.skip(1);
        texts_are_ordered_by_their_first_difference(fewer, a, b, rest, other);
        assert(x.skip(1) =~= fewer + seq![a] + rest);
        assert(y.skip(1) =~= fewer + seq![b] + other);
    }
}

/// Key groups are spread over the slots in equal runs: a key of the group with a number goes to
/// the slot whose run has that number.
pub proof fn slots_are_equal_runs_of_key_groups(
    hash: i32,
    parallelism: int,
    max_parallelism: int,
)
    requires
        0 < parallelism,
        0 < max_parallelism,
    ensures
        ({
            let group = hashing::keygroup_of(hash, max_parallelism);
            let slot = hashing::slot_of(hash, parallelism, max_parallelism);
            &&& 0 <= group < max_parallelism
            &&& slot * max_parallelism <= group * parallelism
            &&& group * parallelism < (slot + 1) * max_parallelism
        }),
{
    let group = hashing::keygroup_of(hash, max_parallelism);
    let slot = hashing::slot_of(hash, parallelism, max_parallelism);
    assert(0 <= group < max_parallelism);
    assert(0 <= group * parallelism) by (nonlinear_arith)
        requires
            0 <= group,
            0 < parallelism,
    ;
    let x = group * parallelism;
    vstd::arithmetic::div_mod::lemma_fundamental_div_mod(x, max_parallelism);
    assert(slot == x / max_parallelism);
    assert(slot * max_parallelism <= x && x < (slot + 1) * max_parallelism) by (nonlinear_arith)
        requires
            x == max_parallelism * (x / max_parallelism) + x % max_parallelism,
            0 <= x % max_parallelism < max_parallelism,
            slot == x / max_parallelism,
    ;
}

/// A name has a letter or a digit for each byte that it is made of, by the byte alone: bytes that
/// differ by the number of letters and digits have the same one.
pub proof fn names_have_a_letter_for_each_byte(bytes: Seq<u8>, i: int, j: int)
    requires
        0 <= i < bytes.len(),
        0 <= j < bytes.len(),
    ensures
        identifier::named(bytes).len() == bytes.len(),
        pattern::is_plain_char(identifier::named(bytes)[i]),
        bytes[i] as int % 62 == bytes[j] as int % 62 <==> identifier::named(bytes)[i]
            == identifier::named(bytes)[j],
{
    reveal_strlit("ABCDEFGHIJKLMNOPQRSTUVWXYZabcdefghijklmnopqrstuvwxyz0123456789");
    lemma_letter(bytes[i]);
    lemma_letter(bytes[j]);
}

/// The letters and digits, by what they stand for.
proof fn lemma_letter(byte: u8)
    ensures
        ({
            let n = byte as int % 62;
            let c = identifier::letter(byte) as int;
            c == if n < 26 {
                n + 'A' as int
            } else if n < 52 {
                n - 26 + 'a' as int
            } else {
                n - 52 + '0' as int
            }
        }),
{
    reveal_strlit("ABCDEFGHIJKLMNOPQRSTUVWXYZabcdefghijklmnopqrstuvwxyz0123456789");
}

} // verus!
