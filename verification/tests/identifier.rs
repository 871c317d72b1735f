use alloy::identifier::get_random_string;
use alloy::identifier::name_drawn;
use alloy::identifier::name_of;

#[test]
fn bytes_make_letters_and_digits() {
    assert_eq!(name_of(&vec![0, 25, 26, 51, 52, 61, 62, 255]), "AZaz09AH");
    assert_eq!(name_of(&vec![]), "");
}

#[test]
fn a_name_needs_bytes_to_be_drawn() {
    assert_eq!(name_drawn(Some(vec![0, 1, 2, 3, 4, 5, 6, 7])), Some("ABCDEFGH".to_string()));
    assert_eq!(name_drawn(None), None);
}

#[test]
fn random_names_differ() {
    let a = get_random_string().unwrap();
    let b = get_random_string().unwrap();
    assert_eq!(a.len(), 8);
    assert!(a.chars().all(|c| c.is_ascii_alphanumeric()));
    assert_ne!(a, b);
}
