use vodchat::message::clock;
use vodchat::Message;

fn message(user: &str, body: &str, timestamp: u64) -> Message {
    Message { user: user.to_string(), body: body.to_string(), timestamp }
}

#[test]
fn clock_pads_each_part_to_two_digits() {
    assert_eq!(clock(0), "00:00:00");
    assert_eq!(clock(5), "00:00:05");
    assert_eq!(clock(59), "00:00:59");
    assert_eq!(clock(60), "00:01:00");
    assert_eq!(clock(65), "00:01:05");
    assert_eq!(clock(3599), "00:59:59");
    assert_eq!(clock(3600), "01:00:00");
    assert_eq!(clock(3661), "01:01:01");
    assert_eq!(clock(35999), "09:59:59");
    assert_eq!(clock(36000), "10:00:00");
}

#[test]
fn clock_lets_hours_grow_past_two_digits() {
    assert_eq!(clock(360000), "100:00:00");
    assert_eq!(clock(359999), "99:59:59");
}

#[test]
fn clock_at_the_end_of_the_signed_range() {
    assert_eq!(clock(9223372036854775807), "2562047788015215:30:07");
}

#[test]
fn clock_past_the_signed_range_stays_positive() {
    assert_eq!(clock(9223372036854775808), "2562047788015215:30:08");
    assert_eq!(clock(u64::MAX), "5124095576030431:00:15");
}

#[test]
fn render_is_clock_user_body() {
    assert_eq!(message("alice", "hello", 5).render(), "[00:00:05][alice]: hello");
    assert_eq!(message("bob", "world", 65).render(), "[00:01:05][bob]: world");
    assert_eq!(message("carol", "hi", 1).render(), "[00:00:01][carol]: hi");
}

#[test]
fn render_keeps_empty_and_unusual_fields() {
    assert_eq!(message("", "", 0).render(), "[00:00:00][]: ");
    assert_eq!(message("a]b", "x: [y]", 7200).render(), "[02:00:00][a]b]: x: [y]");
    assert_eq!(message("zoë", "grüß dich", 61).render(), "[00:01:01][zoë]: grüß dich");
}

#[test]
fn render_leaves_the_message_as_it_was() {
    let m = message("alice", "hello", 5);
    let first = m.render();
    let second = m.render();
    assert_eq!(first, second);
    assert_eq!(m.user, "alice");
    assert_eq!(m.body, "hello");
    assert_eq!(m.timestamp, 5);
}
