use regex::Regex;
use vodchat::filter::{keep_matching, passes};
use vodchat::Message;

fn message(user: &str, body: &str, timestamp: u64) -> Message {
    Message { user: user.to_string(), body: body.to_string(), timestamp }
}

fn bodies(messages: &[Message]) -> Vec<String> {
    messages.iter().map(|m| m.body.clone()).collect()
}

#[test]
fn passes_tests_the_body() {
    let filter = Regex::new("h").unwrap();
    assert!(passes(&filter, &message("alice", "hello", 5)));
    assert!(!passes(&filter, &message("bob", "world", 65)));
}

#[test]
fn passes_ignores_the_user() {
    let filter = Regex::new("h").unwrap();
    assert!(!passes(&filter, &message("hannah", "world", 1)));
    assert!(passes(&filter, &message("bob", "oh", 1)));
}

#[test]
fn passes_is_case_sensitive() {
    let filter = Regex::new("h").unwrap();
    assert!(!passes(&filter, &message("alice", "HELLO", 5)));
}

#[test]
fn passes_matches_anywhere_unless_anchored() {
    let anywhere = Regex::new("ell").unwrap();
    let anchored = Regex::new("^ell").unwrap();
    let m = message("alice", "hello", 5);
    assert!(passes(&anywhere, &m));
    assert!(!passes(&anchored, &m));
}

#[test]
fn keep_matching_keeps_order_and_repeats() {
    let filter = Regex::new("h").unwrap();
    let batch = vec![
        message("a", "hello", 1),
        message("b", "world", 2),
        message("c", "hi", 3),
        message("a", "hello", 1),
        message("d", "no", 4),
        message("e", "ah", 5),
    ];
    let survivors = keep_matching(batch, &filter);
    assert_eq!(bodies(&survivors), vec!["hello", "hi", "hello", "ah"]);
    assert_eq!(survivors[0].user, "a");
    assert_eq!(survivors[1].timestamp, 3);
}

#[test]
fn keep_matching_of_nothing_is_nothing() {
    let filter = Regex::new("h").unwrap();
    assert!(keep_matching(Vec::new(), &filter).is_empty());
}

#[test]
fn keep_matching_can_drop_everything() {
    let filter = Regex::new("z").unwrap();
    let batch = vec![message("a", "hello", 1), message("b", "world", 2)];
    assert!(keep_matching(batch, &filter).is_empty());
}

#[test]
fn keep_matching_can_keep_everything() {
    let filter = Regex::new("").unwrap();
    let batch = vec![message("a", "hello", 1), message("b", "", 2)];
    assert_eq!(bodies(&keep_matching(batch, &filter)), vec!["hello", ""]);
}

#[test]
fn batch_boundaries_do_not_matter() {
    let filter = Regex::new("h").unwrap();
    let whole = vec![message("a", "hello", 1), message("b", "world", 2), message("c", "hi", 3)];
    let first = vec![message("a", "hello", 1)];
    let second = vec![message("b", "world", 2), message("c", "hi", 3)];
    let mut joined = keep_matching(first, &filter);
    joined.extend(keep_matching(second, &filter));
    assert_eq!(bodies(&joined), bodies(&keep_matching(whole, &filter)));
}
