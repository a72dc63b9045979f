use rust_dtw_algorithm::my_add;
use rust_dtw_algorithm::text::{is_hidden_name, same_text, signature_file_name};

#[test]
fn same_text_compares_characters() {
    assert!(same_text("user_1", "user_1"));
    assert!(!same_text("user_1", "user_2"));
    assert!(!same_text("user", "user_1"));
    assert!(same_text("", ""));
    assert!(same_text("héllo", "héllo"));
    assert!(!same_text("héllo", "hello"));
}

#[test]
fn hidden_names_start_with_dot() {
    assert!(is_hidden_name(".DS_Store"));
    assert!(is_hidden_name("."));
    assert!(!is_hidden_name("user_0"));
    assert!(!is_hidden_name(""));
    assert!(!is_hidden_name("a.b"));
}

#[test]
fn my_add_adds() {
    assert_eq!(my_add(2, 3), 5);
    assert_eq!(my_add(-7, 3), -4);
    assert_eq!(my_add(i32::MAX, 0), i32::MAX);
}

#[test]
fn signature_file_names() {
    assert_eq!(signature_file_name(0), "signature_0.csv");
    assert_eq!(signature_file_name(24), "signature_24.csv");
    assert_eq!(signature_file_name(4294967296), "signature_4294967296.csv");
}
