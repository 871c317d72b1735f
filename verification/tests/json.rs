use alloy::criteria::extract;
use alloy::criteria::extract_and_hash;
use alloy::criteria::AlloyFilterCriteria;
use alloy::criteria::Field;
use alloy::criteria::FieldType;
use alloy::hashing::JavaHashValue;
use alloy::json::filter_json_in_place;
use alloy::json::is_listed;
use serde_json::Value;

fn object(text: &str) -> Value {
    serde_json::from_str(text).unwrap()
}

fn field(attribute: &str, field_type: FieldType) -> Field {
    Field { attribute: attribute.to_string(), field_type }
}

#[test]
fn test_serde_json() {
    let mut members = serde_json::Map::new();
    members.insert("id".to_string(), Value::from(2));
    members.insert("label".to_string(), Value::from("BLABLA"));
    members.insert("price".to_string(), Value::from(1.2564));
    let mut json = Value::Object(members);
    let mut field_set = Vec::new();
    field_set.push("label".to_string());
    println!("{:?}", serde_json::to_string(&json).unwrap());
    filter_json_in_place(&mut json, &field_set, false);
    assert_eq!(serde_json::to_string(&json).unwrap(), "{\"label\":\"BLABLA\"}");
}

#[test]
fn only_listed_members_are_left_of_an_object() {
    let names = vec!["b".to_string(), "a".to_string(), "missing".to_string()];
    assert!(is_listed(&names, &"a".to_string()));
    assert!(!is_listed(&names, &"c".to_string()));
    for reordering in [false, true] {
        let mut value = object("{\"c\":[1,2],\"b\":{\"c\":3},\"a\":null}");
        filter_json_in_place(&mut value, &names, reordering);
        assert_eq!(value.to_string(), "{\"a\":null,\"b\":{\"c\":3}}");
    }
}

#[test]
fn other_values_stay_as_they_are() {
    let mut value = object("[{\"a\":1}]");
    filter_json_in_place(&mut value, &vec![], true);
    assert_eq!(value.to_string(), "[{\"a\":1}]");
}

#[test]
fn fields_are_read_by_their_types() {
    let mut criteria = AlloyFilterCriteria::new();
    criteria.partition = vec![
        field("name", FieldType::String),
        field("id", FieldType::Integer),
        field("time", FieldType::Long),
        field("missing", FieldType::Long),
        field("price", FieldType::String),
        field("name", FieldType::Integer),
    ];
    let value =
        object("{\"id\":4294967298,\"name\":\"bid\",\"price\":1.5,\"time\":8589934593,\"x\":0}");
    let values = extract(&value, &criteria);
    assert_eq!(values.len(), 5);
    assert!(matches!(values[0], JavaHashValue::Str("bid")));
    assert!(matches!(values[1], JavaHashValue::Integer(2)));
    assert!(matches!(values[2], JavaHashValue::Long(8589934593)));
    assert!(matches!(values[3], JavaHashValue::Str("")));
    assert!(matches!(values[4], JavaHashValue::Integer(0)));

    let (hash, left) = extract_and_hash(&value, &criteria);
    assert_eq!(hash, 97533 ^ 2 ^ (2 ^ 1));
    assert_eq!(
        left.to_string(),
        "{\"id\":4294967298,\"name\":\"bid\",\"price\":1.5,\"time\":8589934593}"
    );
}

#[test]
fn new_criteria_filter_nothing() {
    let criteria = AlloyFilterCriteria::new();
    assert_eq!((criteria.num_sources, criteria.num_partitions), (1, 1));
    assert!(criteria.selections.is_empty());
    assert!(criteria.projections.is_empty());
    assert!(criteria.partition.is_empty());
    let (hash, left) = extract_and_hash(&object("{\"a\":1}"), &criteria);
    assert_eq!((hash, left.to_string()), (0, "{}".to_string()));
}
