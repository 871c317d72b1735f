//! What the proxy filters by: selections, projections, and the fields that partition a topic.

use crate::hashing;
use crate::hashing::HashInput;
use crate::hashing::JavaHashValue;
use crate::json;
use crate::maps::KeyedMap;
use crate::pattern;
use regex::bytes::Regex;
use serde_json::Value;
use vstd::prelude::*;

verus! {

/// A selection: the attribute must match the pattern.
#[derive(Debug, Clone)]
pub struct FilterEntry {
    pub attribute: Option<String>,
    pub value: Option<String>,
    pub value_regex: Option<Regex>,
}

/// What a selection says.
#[verifier::ext_equal]
pub struct FilterEntryView {
    pub attribute: Option<Seq<char>>,
    pub value: Option<Seq<char>>,
    pub pattern: Option<Seq<char>>,
}

impl DeepView for FilterEntry {
    type V = FilterEntryView;

    open spec fn deep_view(&self) -> FilterEntryView {
        FilterEntryView {
            attribute: self.attribute.deep_view(),
            value: self.value.deep_view(),
            pattern: pattern::pattern_of(self.value_regex),
        }
    }
}

/// The criteria of every topic.
pub struct MapAlloyFilterCriteria {
    pub alloy_filters: Option<KeyedMap<String, AlloyFilterCriteria>>,
}

/// The type of a field.
#[derive(PartialEq, Eq, Structural, Debug, Clone, Copy)]
pub enum FieldType {
    String,
    Integer,
    Long,
}

/// A field that a topic is partitioned by.
#[derive(PartialEq, Eq, Debug, Clone)]
pub struct Field {
    pub attribute: String,
    pub field_type: FieldType,
}

/// What is known of a field.
pub struct FieldView {
    pub attribute: Seq<char>,
    pub field_type: FieldType,
}

impl DeepView for Field {
    type V = FieldView;

    open spec fn deep_view(&self) -> FieldView {
        FieldView { attribute: self.attribute@, field_type: self.field_type }
    }
}

/// The criteria of a topic.
#[derive(Debug, Clone)]
pub struct AlloyFilterCriteria {
    pub num_sources: i32,
    pub num_partitions: i32,
    pub selections: Vec<FilterEntry>,
    pub projections: Vec<String>,
    pub partition: Vec<Field>,
}

/// What the criteria of a topic say.
#[verifier::ext_equal]
pub struct CriteriaView {
    pub num_sources: i32,
    pub num_partitions: i32,
    pub selections: Seq<FilterEntryView>,
    pub projections: Seq<String>,
    pub partition: Seq<FieldView>,
}

impl DeepView for AlloyFilterCriteria {
    type V = CriteriaView;

    open spec fn deep_view(&self) -> CriteriaView {
        CriteriaView {
            num_sources: self.num_sources,
            num_partitions: self.num_partitions,
            selections: self.selections.deep_view(),
            projections: self.projections@,
            partition: self.partition.deep_view(),
        }
    }
}

impl AlloyFilterCriteria {
    /// One source, one partition, and nothing to filter by.
    pub fn new() -> (criteria: AlloyFilterCriteria)
        ensures
            criteria.num_sources == 1,
            criteria.num_partitions == 1,
            criteria.selections@.len() == 0,
            criteria.projections@.len() == 0,
            criteria.partition@.len() == 0,
    {
        AlloyFilterCriteria {
            num_sources: 1,
            num_partitions: 1,
            selections: Vec::new(),
            projections: Vec::new(),
            partition: Vec::new(),
        }
    }
}

/// The members of a JSON value as text.
pub type Members = Option<Map<Seq<char>, Seq<char>>>;

/// The 32 low bits of a number, as a signed number.
pub open spec fn low_half(n: i64) -> i32 {
    n as i32
}

/// What a field of a value is hashed as: the empty text or zero where the value is of
/// another type.
pub open spec fn hash_input(field: FieldView, text: Seq<char>) -> HashInput {
    match field.field_type {
        FieldType::String => HashInput::Str(
            match json::json_string(text) {
                Some(s) => s,
                None => Seq::empty(),
            },
        ),
        FieldType::Integer => HashInput::Integer(low_half(integer_or_zero(text))),
        FieldType::Long => HashInput::Long(integer_or_zero(text)),
    }
}

/// The integer with a text, or zero.
pub open spec fn integer_or_zero(text: Seq<char>) -> i64 {
    match json::json_integer(text) {
        Some(n) => n,
        None => 0,
    }
}

/// Whether the value has the field.
pub open spec fn has_field(members: Members, field: FieldView) -> bool {
    members matches Some(m) && m.contains_key(field.attribute)
}

/// What the fields of a value are hashed as; those that it does not have are left out.
pub open spec fn hash_inputs_of(members: Members, fields: Seq<FieldView>) -> Seq<HashInput>
    decreases fields.len(),
{
    if fields.len() == 0 {
        Seq::empty()
    } else {
        let before = hash_inputs_of(members, fields.drop_last());
        let field = fields.last();
        if has_field(members, field) {
            before.push(hash_input(field, members->Some_0[field.attribute]))
        } else {
            before
        }
    }
}

/// The fields that a value has, with their texts.
pub open spec fn fields_of(members: Members, fields: Seq<FieldView>) -> Map<
    Seq<char>,
    Seq<char>,
> {
    Map::new(
        |name: Seq<char>|
            exists|i: int|
                0 <= i < fields.len() && #[trigger] fields[i].attribute == name && has_field(
                    members,
                    fields[i],
                ),
        |name: Seq<char>| members->Some_0[name],
    )
}

/// Reads a field.
fn hashable<'a>(field: &Field, value: &'a Value) -> (r: JavaHashValue<'a>)
    ensures
        r@ == hash_input(field.deep_view(), json::json_text(*value)),
{
    match field.field_type {
        FieldType::String => match json::as_str(value) {
            Some(s) => JavaHashValue::Str(s),
            None => {
                proof {
                    reveal_strlit("");
                    assert(""@ =~= Seq::<char>::empty());
                }
                JavaHashValue::Str("")
            },
        },
        FieldType::Integer => {
            let n: i64 = match json::as_i64(value) {
                Some(n) => n,
                None => 0,
            };
            JavaHashValue::Integer(
                #[verifier::truncate]
                (n as i32),
            )
        },
        FieldType::Long => JavaHashValue::Long(
            match json::as_i64(value) {
                Some(n) => n,
                None => 0,
            },
        ),
    }
}

/// Reads the fields that partition a topic out of a value.
pub fn extract<'a>(json_value: &'a Value, criteria: &'a AlloyFilterCriteria) -> (r: Vec<
    JavaHashValue<'a>,
>)
    ensures
        hashing::hash_inputs(r@) == hash_inputs_of(
            json::json_members(*json_value),
            criteria.partition.deep_view(),
        ),
{
    let ghost members = json::json_members(*json_value);
    let ghost fields = criteria.partition.deep_view();
    let mut fields_to_hash: Vec<JavaHashValue<'a>> = Vec::new();
    let mut i: usize = 0;
    proof {
        assert(hashing::hash_inputs(fields_to_hash@) =~= hash_inputs_of(members, fields.take(0)));
    }
    while i < criteria.partition.len()
        invariant
            i <= criteria.partition@.len(),
            members == json::json_members(*json_value),
            fields == criteria.partition.deep_view(),
            hashing::hash_inputs(fields_to_hash@) == hash_inputs_of(
                members,
                fields.take(i as int),
            ),
        decreases criteria.partition@.len() - i,
    {
        let field = &criteria.partition[i];
        let ghost before = fields_to_hash@;
        proof {
            assert(fields.take(i + 1).drop_last() =~= fields.take(i as int));
            assert(fields.take(i + 1).last() == field.deep_view());
        }
        if let Some(value) = json::member(json_value, field.attribute.as_str()) {
            let input = hashable(field, value);
            fields_to_hash.push(input);
            assert(hashing::hash_inputs(fields_to_hash@) =~= hashing::hash_inputs(before).push(
                input@,
            ));
        }
        i += 1;
    }
    proof {
        assert(fields.take(i as int) =~= fields);
    }
    fields_to_hash
}

/// Reads the fields that partition a topic out of a value: their hash code, and an object
/// of them.
pub fn extract_and_hash(json_value: &Value, criteria: &AlloyFilterCriteria) -> (r: (i32, Value))
    ensures
        r.0 == hashing::composite_hash(
            hash_inputs_of(json::json_members(*json_value), criteria.partition.deep_view()),
        ),
        json::json_members(r.1) == Some(
            fields_of(json::json_members(*json_value), criteria.partition.deep_view()),
        ),
        json::json_text(r.1) == json::json_object_text(
            fields_of(json::json_members(*json_value), criteria.partition.deep_view()),
        ),
{
    let ghost members = json::json_members(*json_value);
    let ghost fields = criteria.partition.deep_view();
    let mut object = json::new_object();
    let mut i: usize = 0;
    proof {
        assert(fields_of(members, fields.take(0)) =~= Map::<Seq<char>, Seq<char>>::empty());
    }
    while i < criteria.partition.len()
        invariant
            i <= criteria.partition@.len(),
            members == json::json_members(*json_value),
            fields == criteria.partition.deep_view(),
            json::json_members(object) == Some(fields_of(members, fields.take(i as int))),
            json::json_text(object) == json::json_object_text(
                fields_of(members, fields.take(i as int)),
            ),
        decreases criteria.partition@.len() - i,
    {
        let field = &criteria.partition[i];
        let ghost so_far = fields.take(i as int);
        let ghost next = fields.take(i + 1);
        proof {
            assert(next =~= so_far.push(field.deep_view()));
        }
        match json::member(json_value, field.attribute.as_str()) {
            Some(value) => {
                json::insert(&mut object, field.attribute.as_str(), value.clone());
                proof {
                    let name = field.attribute@;
                    assert forall|n: Seq<char>|
                        fields_of(members, next).contains_key(n) <==> fields_of(
                            members,
                            so_far,
                        ).contains_key(n) || n == name by {
                        assert(next[i as int].attribute == name);
                        if fields_of(members, so_far).contains_key(n) {
                            let j = choose|j: int|
                                0 <= j < so_far.len() && #[trigger] so_far[j].attribute == n
                                    && has_field(members, so_far[j]);
                            assert(next[j].attribute == n);
                        }
                        if fields_of(members, next).contains_key(n) && n != name {
                            let j = choose|j: int|
                                0 <= j < next.len() && #[trigger] next[j].attribute == n
                                    && has_field(members, next[j]);
                            assert(so_far[j].attribute == n);
                        }
                    }
                    assert(fields_of(members, next) =~= fields_of(members, so_far).insert(
                        name,
                        json::json_text(*value),
                    ));
                }
            },
            None => {
                proof {
                    assert forall|n: Seq<char>|
                        fields_of(members, next).contains_key(n) <==> fields_of(
                            members,
                            so_far,
                        ).contains_key(n) by {
                        if fields_of(members, so_far).contains_key(n) {
                            let j = choose|j: int|
                                0 <= j < so_far.len() && #[trigger] so_far[j].attribute == n
                                    && has_field(members, so_far[j]);
                            assert(next[j].attribute == n);
                        }
                        if fields_of(members, next).contains_key(n) {
                            let j = choose|j: int|
                                0 <= j < next.len() && #[trigger] next[j].attribute == n
                                    && has_field(members, next[j]);
                            assert(so_far[j].attribute == n);
                        }
                    }
                    assert(fields_of(members, next) =~= fields_of(members, so_far));
                }
            },
        }
        i += 1;
    }
    proof {
        assert(fields.take(i as int) =~= fields);
    }
    let values = extract(json_value, criteria);
    (hashing::java_composite_hash(values.as_slice()), object)
}

} // verus!
