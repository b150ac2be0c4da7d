use filesets::hashing::{content_digest, short_form};
use filesets::lex::{sort_unique, str_lt};

#[test]
fn digest_of_known_contents() {
    assert_eq!(content_digest(&b"hello".to_vec()), "5d41402abc4b2a76b9719d911017c592");
    assert_eq!(content_digest(&Vec::new()), "d41d8cd98f00b204e9800998ecf8427e");
}

#[test]
fn short_form_takes_eight_characters() {
    assert_eq!(short_form(&"0bc0878606ed744ae45696e6faad0c03".to_string()), "0bc08786");
    assert_eq!(short_form(&"abc".to_string()), "abc");
}

#[test]
fn lexicographic_order_of_strings() {
    assert!(str_lt(&"a".to_string(), &"b".to_string()));
    assert!(str_lt(&"ab".to_string(), &"abc".to_string()));
    assert!(!str_lt(&"abc".to_string(), &"abc".to_string()));
    assert!(!str_lt(&"b".to_string(), &"abc".to_string()));
    assert!(str_lt(&"".to_string(), &"a".to_string()));
}

#[test]
fn sort_unique_sorts_and_drops_repeats() {
    let v: Vec<String> = vec!["c", "a", "b", "a", "c"].into_iter().map(String::from).collect();
    let expected: Vec<String> = vec!["a", "b", "c"].into_iter().map(String::from).collect();
    assert_eq!(sort_unique(&v), expected);
}
