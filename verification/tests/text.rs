use alloy::text::append_decimal;
use alloy::text::chars_of;
use alloy::text::comes_before;
use alloy::text::copy_bytes;
use alloy::text::insert_ascending;
use alloy::text::same_text;

#[test]
fn texts_are_taken_apart_and_told_apart() {
    assert_eq!(chars_of("h\u{e9}"), vec!['h', '\u{e9}']);
    assert!(same_text("topic", "topic"));
    assert!(!same_text("topic", "topics"));
    assert_eq!(copy_bytes(&vec![1, 2]), vec![1, 2]);
}

#[test]
fn texts_have_an_order() {
    assert!(comes_before("", "a"));
    assert!(comes_before("a", "b"));
    assert!(comes_before("a", "ab"));
    assert!(!comes_before("a", "a"));
    assert!(!comes_before("b", "ab"));
    assert!(comes_before("a", "c"));
}

#[test]
fn texts_are_listed_in_order_and_once() {
    let mut list: Vec<String> = Vec::new();
    for text in ["b", "c", "a", "b"] {
        insert_ascending(&mut list, &text.to_string());
    }
    assert_eq!(list, vec!["a", "b", "c"]);
}

#[test]
fn numbers_are_written_in_decimal() {
    for n in [0i64, 7, 10, 42, 100, -1, -90, i64::MAX, i64::MIN] {
        let mut text = String::from("n=");
        append_decimal(&mut text, n);
        assert_eq!(text, format!("n={}", n));
    }
}
