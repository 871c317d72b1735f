//! Virtual partitions: every source reads its own copy of every Kafka partition, and each
//! such copy is a virtual partition of the topic.

use crate::hashing;
use multimap::MultiMap;
use std::collections::HashMap;
use vstd::arithmetic::div_mod;
use vstd::prelude::*;

verus! {

/// `multimap::MultiMap`, a map from a key to the values inserted under it.
#[verifier::external_type_specification]
#[verifier::external_body]
#[verifier::reject_recursive_types(K)]
#[verifier::reject_recursive_types(V)]
#[verifier::reject_recursive_types(S)]
pub struct ExMultiMap<K, V, S>(MultiMap<K, V, S>);

/// What a `MultiMap` holds: for every key, the values inserted under it, in the order of
/// their insertion.
pub uninterp spec fn multimap_contents(map: MultiMap<i32, i32>) -> Map<i32, Seq<i32>>;

/// `MultiMap::new` makes an empty map.
#[verifier::external_body]
fn multimap_new() -> (r: MultiMap<i32, i32>)
    ensures
        multimap_contents(r) == (Map::<i32, Seq<i32>>::empty()),
{
    MultiMap::new()
}

/// `MultiMap::insert` appends the value to those that the key already has, or gives the
/// key that one value; no other key changes.
#[verifier::external_body]
fn multimap_insert(map: &mut MultiMap<i32, i32>, key: i32, value: i32)
    ensures
        multimap_contents(*final(map)) == multimap_contents(*old(map)).insert(
            key,
            (if multimap_contents(*old(map)).contains_key(key) {
                multimap_contents(*old(map))[key]
            } else {
                Seq::<i32>::empty()
            }).push(value),
        ),
{
    map.insert(key, value)
}

/// `MultiMap::get_vec` hands out the values of a key, or nothing if it has none.
#[verifier::external_body]
fn multimap_get_vec(map: &MultiMap<i32, i32>, key: i32) -> (values: Option<&Vec<i32>>)
    ensures
        values is Some <==> multimap_contents(*map).contains_key(key),
        values matches Some(v) ==> v@ == multimap_contents(*map)[key],
{
    map.get_vec(&key)
}

/// The original partition of a virtual one. Virtual partitions are dealt to the sources in
/// turn; source `s` starts at partition `s` and takes the next one each time its turn comes.
pub open spec fn original_of(num_sources: int, num_partitions: int, vp: int) -> int {
    (vp % hashing::abs(num_sources) + vp / hashing::abs(num_sources)) % hashing::abs(num_partitions)
}

/// Whether `vp` is one of the virtual partitions of a topic.
pub open spec fn is_virtual(num_sources: int, num_partitions: int, vp: int) -> bool {
    0 <= vp < num_sources * num_partitions
}

/// The virtual partitions below `n` that belong to the original partition `p`, in order.
pub open spec fn virtuals_below(
    num_sources: int,
    num_partitions: int,
    n: int,
    p: int,
) -> Seq<i32>
    decreases n,
{
    if n <= 0 {
        Seq::empty()
    } else {
        let before = virtuals_below(num_sources, num_partitions, n - 1, p);
        if original_of(num_sources, num_partitions, n - 1) == p {
            before.push((n - 1) as i32)
        } else {
            before
        }
    }
}

/// The original partition of a virtual partition, or -1 if there is no such virtual
/// partition.
pub fn get_partition_original_id(
    num_sources: i32,
    num_partitions: i32,
    virtual_partition: i32,
) -> (p: i32)
    requires
        i32::MIN <= num_sources * num_partitions <= i32::MAX,
    ensures
        is_virtual(num_sources as int, num_partitions as int, virtual_partition as int) ==> p
            == original_of(num_sources as int, num_partitions as int, virtual_partition as int),
        !is_virtual(num_sources as int, num_partitions as int, virtual_partition as int) ==> p
            == -1,
{
    broadcast use vstd::std_specs::hash::group_hash_axioms;

    let total: i32 = num_sources * num_partitions;
    let ghost a = hashing::abs(num_sources as int);
    let ghost b = hashing::abs(num_partitions as int);
    let ghost mut k: int = 0;
    let mut s: i32 = 0;
    let mut vp: i32 = 0;
    let mut map_partitions: HashMap<i32, i32> = HashMap::new();
    proof {
        lemma_factors(num_sources as int, num_partitions as int);
    }
    while vp < total
        invariant
            total == num_sources * num_partitions,
            a == hashing::abs(num_sources as int),
            b == hashing::abs(num_partitions as int),
            total > 0 ==> 0 < a <= total && 0 < b <= total,
            0 <= k,
            0 <= vp,
            total > 0 ==> vp <= total && 0 <= s < a && vp == k * a + s,
            dealt(map_partitions@, a, b, s as int, k),
            virtual_partition < 0 || virtual_partition >= vp,
        decreases total - vp,
    {
        proof {
            div_mod::lemma_fundamental_div_mod_converse(vp as int, a, k, s as int);
            hashing::lemma_mod_abs(s as int, num_partitions as int);
            div_mod::lemma_add_mod_noop(s + k - 1, 1, b);
            div_mod::lemma_add_mod_noop((s + k - 1) % b, 1, b);
            div_mod::lemma_mod_twice(s + k - 1, b);
            div_mod::lemma_mod_bound(s + k - 1, b);
            hashing::lemma_mod_abs((s + k - 1) % b + 1, num_partitions as int);
            hashing::lemma_mod_abs(s + 1, num_sources as int);
        }
        assert(dealt_to(map_partitions@, b, s as int, k, s));
        let p: i32 = match map_partitions.get(&s) {
            Some(p) => (*p + 1) % num_partitions,
            None => s % num_partitions,
        };
        assert(p == (s + k) % b);
        if vp == virtual_partition {
            return p;
        }
        let ghost so_far = map_partitions@;
        map_partitions.insert(s, p);
        let ghost before = s;
        let ghost turn = k;
        s = (s + 1) % num_sources;
        proof {
            assert(map_partitions@ == so_far.insert(before, p));
            if before + 1 == a {
                div_mod::lemma_mod_self_0(a);
                assert((k + 1) * a == k * a + a) by (nonlinear_arith);
                k = k + 1;
            } else {
                div_mod::lemma_small_mod((before + 1) as nat, a as nat);
            }
            assert(dealt(map_partitions@, a, b, s as int, k)) by {
                lemma_dealt(so_far, a, b, before as int, turn, p);
            }
        }
        vp = vp + 1;
    }
    -1
}

/// Whether the map holds the partition that every source got at its last turn, when source
/// `s` has its turn `k` next.
spec fn dealt(map: Map<i32, i32>, a: int, b: int, s: int, k: int) -> bool {
    forall|j: i32| 0 <= j < a ==> #[trigger] dealt_to(map, b, s, k, j)
}

/// Whether the map holds the partition that source `j` got at its last turn.
spec fn dealt_to(map: Map<i32, i32>, b: int, s: int, k: int, j: i32) -> bool {
    let turn = if j < s {
        k
    } else {
        k - 1
    };
    &&& map.contains_key(j) <==> turn >= 0
    &&& turn >= 0 ==> map[j] == (j + turn) % b
}

proof fn lemma_dealt(map: Map<i32, i32>, a: int, b: int, s: int, k: int, p: i32)
    requires
        dealt(map, a, b, s, k),
        0 <= s < a <= i32::MAX,
        k >= 0,
        p == (s + k) % b,
    ensures
        s + 1 < a ==> dealt(map.insert(s as i32, p), a, b, s + 1, k),
        s + 1 == a ==> dealt(map.insert(s as i32, p), a, b, 0, k + 1),
{
    let after = map.insert(s as i32, p);
    if s + 1 < a {
        assert forall|j: i32| 0 <= j < a implies #[trigger] dealt_to(after, b, s + 1, k, j) by {
            assert(dealt_to(map, b, s, k, j));
        }
    } else {
        assert forall|j: i32| 0 <= j < a implies #[trigger] dealt_to(after, b, 0, k + 1, j) by {
            assert(dealt_to(map, b, s, k, j));
        }
    }
}

/// The virtual partitions of a topic, related to its original ones.
pub fn compute_virtual_partitions(num_sources: i32, num_partitions: i32) -> (map: BiDirectionalMap)
    requires
        i32::MIN <= num_sources * num_partitions <= i32::MAX,
    ensures
        map.deep_view().is_table(num_sources as int, num_partitions as int),
{
    let mut bd_map = BiDirectionalMap::new();
    let total: i32 = num_sources * num_partitions;
    let mut vp: i32 = 0;
    while vp < total
        invariant
            total == num_sources * num_partitions,
            i32::MIN <= num_sources * num_partitions <= i32::MAX,
            0 <= vp,
            total > 0 ==> vp <= total,
            total <= 0 ==> vp == 0,
            bd_map.deep_view().is_table_below(num_sources as int, num_partitions as int, vp as int),
        decreases total - vp,
    {
        let p_origin = get_partition_original_id(num_sources, num_partitions, vp);
        let ghost before = bd_map;
        bd_map.insert(p_origin, vp);
        proof {
            let (ns, np, n) = (num_sources as int, num_partitions as int, vp as int);
            let earlier = before.deep_view();
            let now = bd_map.deep_view();
            assert forall|v: i32| #[trigger] now.originals.contains_key(v) <==> 0 <= v < n + 1 by {
                assert(earlier.originals.contains_key(v) <==> 0 <= v < n);
            }
            assert forall|v: i32| 0 <= v < n + 1 implies #[trigger] now.originals[v] == original_of(
                ns,
                np,
                v as int,
            ) by {
                assert(v < n ==> earlier.originals[v] == original_of(ns, np, v as int));
            }
            assert forall|p: i32| #[trigger]
                now.virtuals.contains_key(p) <==> virtuals_below(
                    ns,
                    np,
                    n + 1,
                    p as int,
                ).len() > 0 by {
                assert(earlier.virtuals.contains_key(p) <==> virtuals_below(
                    ns,
                    np,
                    n,
                    p as int,
                ).len() > 0);
            }
            assert forall|p: i32| #[trigger] now.virtuals.contains_key(p) implies now.virtuals[p]
                == virtuals_below(ns, np, n + 1, p as int) by {
                assert(earlier.virtuals.contains_key(p) ==> earlier.virtuals[p]
                    == virtuals_below(ns, np, n, p as int));
                if !earlier.virtuals.contains_key(p) {
                    assert(virtuals_below(ns, np, n, p as int) =~= Seq::<i32>::empty());
                }
            }
        }
        vp = vp + 1;
    }
    proof {
        assert(total <= 0 ==> bd_map.deep_view().is_table_below(
            num_sources as int,
            num_partitions as int,
            total as int,
        )) by {
            assert(forall|p: int|
                total <= 0 ==> virtuals_below(
                    num_sources as int,
                    num_partitions as int,
                    total as int,
                    p,
                ) == virtuals_below(num_sources as int, num_partitions as int, 0, p));
        }
    }
    bd_map
}

/// The offset in a virtual partition of the record at `offset` in the original one.
pub fn real_offset_to_virtual(num_sources: i64, offset: i64, split_id: i64) -> (r: i64)
    requires
        i64::MIN <= offset * num_sources <= i64::MAX,
        i64::MIN <= offset * num_sources + split_id <= i64::MAX,
    ensures
        r == offset * num_sources + split_id,
{
    offset * num_sources + split_id
}

/// The offset in the original partition of the record at `offset` in a virtual one.
pub fn virtual_offset_to_real(num_sources: i64, offset: i64, split_id: i64) -> (r: i64)
    requires
        num_sources != 0,
        i64::MIN <= offset - split_id <= i64::MAX,
        !(offset - split_id == i64::MIN && num_sources == -1),
    ensures
        r == hashing::trunc_div(offset - split_id, num_sources as int),
{
    let steps: i64 = offset - split_id;
    proof {
        hashing::lemma_div_abs(hashing::abs(steps as int), num_sources as int);
        hashing::lemma_quotient_bound(hashing::abs(steps as int), hashing::abs(num_sources as int));
    }
    (steps as i128 / num_sources as i128) as i64
}

/// Reading a virtual offset back gives the offset that it was made from.
pub proof fn offsets_round_trip(num_sources: int, offset: int, split_id: int)
    requires
        num_sources != 0,
    ensures
        hashing::trunc_div((offset * num_sources + split_id) - split_id, num_sources) == offset,
{
    let a = hashing::abs(offset);
    let b = hashing::abs(num_sources);
    assert(hashing::abs(offset * num_sources) == a * b) by (nonlinear_arith)
        requires
            a == hashing::abs(offset),
            b == hashing::abs(num_sources),
    ;
    div_mod::lemma_fundamental_div_mod_converse(a * b, b, a, 0);
    assert(offset * num_sources >= 0 <==> offset == 0 || (offset >= 0) == (num_sources >= 0))
        by (nonlinear_arith)
        requires
            num_sources != 0,
    ;
}

/// Every source has exactly one virtual partition of every original partition.
pub proof fn each_source_covers_each_partition(
    num_sources: int,
    num_partitions: int,
    source: int,
    partition: int,
)
    requires
        0 <= source < num_sources,
        0 <= partition < num_partitions,
    ensures
        exists|vp: int|
            is_virtual(num_sources, num_partitions, vp) && vp % num_sources == source
                && #[trigger] original_of(num_sources, num_partitions, vp) == partition,
        forall|v: int, w: int|
            is_virtual(num_sources, num_partitions, v) && is_virtual(num_sources, num_partitions, w)
                && v % num_sources == source && w % num_sources == source
                && #[trigger] original_of(num_sources, num_partitions, v) == partition
                && #[trigger] original_of(num_sources, num_partitions, w) == partition ==> v == w,
{
    let a = num_sources;
    let b = num_partitions;
    let k = (partition - source) % b;
    let vp = k * a + source;
    div_mod::lemma_fundamental_div_mod_converse(vp, a, k, source);
    div_mod::lemma_add_mod_noop(source, partition - source, b);
    div_mod::lemma_add_mod_noop(source, k, b);
    div_mod::lemma_mod_twice(partition - source, b);
    div_mod::lemma_small_mod(partition as nat, b as nat);
    assert(original_of(a, b, vp) == partition);
    assert(0 <= k * a + source < a * b) by (nonlinear_arith)
        requires
            0 <= k < b,
            0 <= source < a,
    ;
    assert forall|v: int, w: int|
        is_virtual(a, b, v) && is_virtual(a, b, w) && v % a == source && w % a == source
            && #[trigger] original_of(a, b, v) == partition && #[trigger] original_of(a, b, w)
            == partition implies v == w by {
        div_mod::lemma_fundamental_div_mod(v, a);
        div_mod::lemma_fundamental_div_mod(w, a);
        let j = v / a;
        let k = w / a;
        div_mod::lemma_fundamental_div_mod(source + j, b);
        div_mod::lemma_fundamental_div_mod(source + k, b);
        let x = (source + j) / b;
        let y = (source + k) / b;
        assert(0 <= j < b) by (nonlinear_arith)
            requires
                0 <= a * j + source < a * b,
                0 <= source < a,
        ;
        assert(0 <= k < b) by (nonlinear_arith)
            requires
                0 <= a * k + source < a * b,
                0 <= source < a,
        ;
        assert(x == y) by (nonlinear_arith)
            requires
                0 <= j < b,
                0 <= k < b,
                source + j == b * x + partition,
                source + k == b * y + partition,
        ;
    }
}

/// The virtual partitions listed for an original partition are those that belong to it,
/// in ascending order.
pub proof fn virtuals_are_those_of_the_original(
    num_sources: int,
    num_partitions: int,
    n: int,
    p: int,
)
    requires
        n <= i32::MAX,
    ensures
        forall|vp: i32|
            #[trigger] virtuals_below(num_sources, num_partitions, n, p).contains(vp) <==> (0 <= vp
                < n && original_of(num_sources, num_partitions, vp as int) == p),
        forall|i: int, j: int|
            0 <= i < j < virtuals_below(num_sources, num_partitions, n, p).len() ==> (
            #[trigger] virtuals_below(num_sources, num_partitions, n, p)[i]) < (
            #[trigger] virtuals_below(num_sources, num_partitions, n, p)[j]),
    decreases n,
{
    if n > 0 {
        virtuals_are_those_of_the_original(num_sources, num_partitions, n - 1, p);
        let before = virtuals_below(num_sources, num_partitions, n - 1, p);
        let list = virtuals_below(num_sources, num_partitions, n, p);
        assert forall|i: int| 0 <= i < before.len() implies before[i] < n - 1 by {
            assert(before.contains(before[i]));
        }
        assert forall|vp: i32| #[trigger] list.contains(vp) <==> (0 <= vp < n && original_of(
            num_sources,
            num_partitions,
            vp as int,
        ) == p) by {
            if list != before {
                assert(list[before.len() as int] == n - 1);
                if before.contains(vp) {
                    let i = choose|i: int| 0 <= i < before.len() && before[i] == vp;
                    assert(list[i] == vp);
                }
                if list.contains(vp) && vp != n - 1 {
                    let i = choose|i: int| 0 <= i < list.len() && list[i] == vp;
                    assert(before[i] == vp);
                }
            }
        }
    }
}

/// The factors of a positive product are not larger than the product.
proof fn lemma_factors(x: int, y: int)
    ensures
        x * y > 0 ==> 0 < hashing::abs(x) <= x * y && 0 < hashing::abs(y) <= x * y,
{
    assert(x * y > 0 ==> 0 < hashing::abs(x) <= x * y && 0 < hashing::abs(y) <= x * y) by (nonlinear_arith);
}

/// The virtual partitions of original partitions, and the original ones of virtual ones.
pub struct BiDirectionalMap {
    original_to_virtuals: MultiMap<i32, i32>,
    virtual_to_original: HashMap<i32, i32>,
}

/// What is related to what.
#[verifier::ext_equal]
pub struct Relation {
    pub virtuals: Map<i32, Seq<i32>>,
    pub originals: Map<i32, i32>,
}

impl Relation {
    /// Whether exactly the virtual partitions below `n` of a topic are related to their
    /// original ones.
    pub open spec fn is_table_below(self, num_sources: int, num_partitions: int, n: int) -> bool {
        &&& forall|vp: i32| #[trigger] self.originals.contains_key(vp) <==> 0 <= vp < n
        &&& forall|vp: i32|
            0 <= vp < n ==> #[trigger] self.originals[vp] == original_of(
                num_sources,
                num_partitions,
                vp as int,
            )
        &&& forall|p: i32| #[trigger]
            self.virtuals.contains_key(p) <==> virtuals_below(
                num_sources,
                num_partitions,
                n,
                p as int,
            ).len() > 0
        &&& forall|p: i32| #[trigger]
            self.virtuals.contains_key(p) ==> self.virtuals[p] == virtuals_below(
                num_sources,
                num_partitions,
                n,
                p as int,
            )
    }

    /// Whether all virtual partitions of a topic are related to their original ones.
    pub open spec fn is_table(self, num_sources: int, num_partitions: int) -> bool {
        self.is_table_below(num_sources, num_partitions, num_sources * num_partitions)
    }
}

impl DeepView for BiDirectionalMap {
    type V = Relation;

    open spec fn deep_view(&self) -> Relation {
        Relation { virtuals: self.virtuals(), originals: self.originals() }
    }
}

impl BiDirectionalMap {
    /// The virtual partitions of every original partition.
    pub closed spec fn virtuals(&self) -> Map<i32, Seq<i32>> {
        multimap_contents(self.original_to_virtuals)
    }

    /// The original partition of every virtual partition.
    pub closed spec fn originals(&self) -> Map<i32, i32> {
        self.virtual_to_original@
    }

    pub fn new() -> (map: Self)
        ensures
            map.virtuals() == Map::<i32, Seq<i32>>::empty(),
            map.originals() == Map::<i32, i32>::empty(),
    {
        BiDirectionalMap {
            original_to_virtuals: multimap_new(),
            virtual_to_original: HashMap::new(),
        }
    }

    /// Relates a virtual partition to an original one.
    pub fn insert(&mut self, original_index: i32, virtual_index: i32)
        ensures
            final(self).originals() == old(self).originals().insert(virtual_index, original_index),
            final(self).virtuals() == old(self).virtuals().insert(
                original_index,
                (if old(self).virtuals().contains_key(original_index) {
                    old(self).virtuals()[original_index]
                } else {
                    Seq::<i32>::empty()
                }).push(virtual_index),
            ),
    {
        broadcast use vstd::std_specs::hash::group_hash_axioms;
        multimap_insert(&mut self.original_to_virtuals, original_index, virtual_index);
        self.virtual_to_original.insert(virtual_index, original_index);
    }

    pub fn get_virtuals_by_original(&self, original_index: i32) -> (r: Option<&Vec<i32>>)
        ensures
            r is Some <==> self.virtuals().contains_key(original_index),
            r matches Some(v) ==> v@ == self.virtuals()[original_index],
    {
        multimap_get_vec(&self.original_to_virtuals, original_index)
    }

    pub fn get_original_by_virtual(&self, virtual_index: i32) -> (r: Option<&i32>)
        ensures
            r is Some <==> self.originals().contains_key(virtual_index),
            r matches Some(p) ==> *p == self.originals()[virtual_index],
    {
        broadcast use vstd::std_specs::hash::group_hash_axioms;
        self.virtual_to_original.get(&virtual_index)
    }
}

} // verus!
