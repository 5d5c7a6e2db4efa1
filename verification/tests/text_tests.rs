use pda_to_cfg::text::{contains_name, fresh_name, push_decimal};

fn names(list: &[&str]) -> Vec<String> {
    list.iter().map(|n| n.to_string()).collect()
}

fn decimal_of(n: usize) -> String {
    let mut s = String::new();
    push_decimal(&mut s, n);
    s
}

#[test]
fn contains_name_finds_equal_strings_only() {
    let v = names(&["q0", "q1", "q10"]);
    assert!(contains_name(&v, &"q1".to_string()));
    assert!(contains_name(&v, &"q10".to_string()));
    assert!(!contains_name(&v, &"q".to_string()));
    assert!(!contains_name(&v, &"q2".to_string()));
    assert!(!contains_name(&Vec::new(), &"q0".to_string()));
}

#[test]
fn fresh_name_keeps_a_free_name() {
    let v = names(&["q0", "q1"]);
    assert_eq!(fresh_name(&v, "qS".to_string()), "qS");
    assert_eq!(fresh_name(&Vec::new(), "".to_string()), "");
}

#[test]
fn fresh_name_appends_primes_until_free() {
    let v = names(&["qS", "q0", "qS''", "qS'"]);
    assert_eq!(fresh_name(&v, "qS".to_string()), "qS'''");
    let w = names(&["qS", "qS''"]);
    assert_eq!(fresh_name(&w, "qS".to_string()), "qS'");
}

#[test]
fn push_decimal_writes_single_digits() {
    let expected = ["0", "1", "2", "3", "4", "5", "6", "7", "8", "9"];
    for (n, text) in expected.iter().enumerate() {
        assert_eq!(decimal_of(n), *text);
    }
}

#[test]
fn push_decimal_writes_longer_numbers() {
    assert_eq!(decimal_of(10), "10");
    assert_eq!(decimal_of(11), "11");
    assert_eq!(decimal_of(99), "99");
    assert_eq!(decimal_of(100), "100");
    assert_eq!(decimal_of(1234567890), "1234567890");
    assert_eq!(decimal_of(65535), 65535usize.to_string());
    assert_eq!(decimal_of(usize::MAX), usize::MAX.to_string());
}

#[test]
fn push_decimal_appends_to_what_is_there() {
    let mut s = "q_P".to_string();
    push_decimal(&mut s, 42);
    assert_eq!(s, "q_P42");
}
