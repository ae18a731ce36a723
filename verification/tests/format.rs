use signal_mailbox::names::{
    attachment_file_name, body_accepts, is_message_file_name, marker_file_name, message_file_name,
    message_stem, reply_file_name, reply_payload,
};
use signal_mailbox::text::{find_first_newline, str_eq, trim};
use signal_mailbox::{current_timestamp_string, timestamp_string};

#[test]
fn file_names_from_stem() {
    assert_eq!(marker_file_name("1700000000000"), "1700000000000.lock");
    assert_eq!(message_file_name("1700000000000"), "1700000000000.signalmessage");
    assert_eq!(attachment_file_name("7"), "7.signalattachment");
    assert_eq!(reply_file_name("7"), "7.signalreply");
}

#[test]
fn message_file_names_are_recognized() {
    assert!(is_message_file_name("123.signalmessage"));
    assert!(is_message_file_name("a.b.signalmessage"));
    assert!(!is_message_file_name("123.signalattachment"));
    assert!(!is_message_file_name("123.lock"));
    assert!(!is_message_file_name("signalmessage"));
    assert!(!is_message_file_name(".signalmessage"));
    assert!(!is_message_file_name(""));
}

#[test]
fn stem_strips_the_extension_only() {
    assert_eq!(message_stem("123.signalmessage"), "123");
    assert_eq!(message_stem("a.b.signalmessage"), "a.b");
}

#[test]
fn reply_payload_is_two_part() {
    assert_eq!(reply_payload("1700000000000", "thanks"), "1700000000000\nthanks");
    assert_eq!(reply_payload("", ""), "\n");
}

#[test]
fn prefix_filter_rules() {
    // Empty identifier accepts everything.
    assert!(body_accepts("anything\nat all", ""));
    // First line must match after trimming.
    assert!(body_accepts("mine\nrest", "mine"));
    assert!(body_accepts("  mine \nrest", "mine"));
    assert!(!body_accepts("other\nrest", "mine"));
    // No newline: the whole body is the first line.
    assert!(!body_accepts("single line", "mine"));
    assert!(body_accepts("  mine \t", "mine"));
    // The identifier itself is not trimmed.
    assert!(!body_accepts("mine\nrest", " mine"));
}

#[test]
fn trim_matches_std() {
    assert_eq!(trim("  a b\t"), "a b");
    assert_eq!(trim("\n\r x \u{a0}"), "x");
    assert_eq!(trim("   "), "");
    assert_eq!(trim(""), "");
    assert_eq!(trim("xy"), "xy");
    for s in ["  a b\t", "\u{2003}q\u{3000}", "a", " \t\r\n"] {
        assert_eq!(trim(s), s.trim());
    }
}

#[test]
fn first_newline_index() {
    assert_eq!(find_first_newline("ab\ncd"), 2);
    assert_eq!(find_first_newline("\nx"), 0);
    assert_eq!(find_first_newline("abc"), 3);
}

#[test]
fn string_equality() {
    assert!(str_eq("abc", "abc"));
    assert!(!str_eq("abc", "abd"));
    assert!(!str_eq("abc", "ab"));
}

#[test]
fn timestamps_render_in_decimal() {
    assert_eq!(timestamp_string(1700000000000), "1700000000000");
    assert_eq!(timestamp_string(0), "0");
    assert_eq!(timestamp_string(7), "7");
    assert_eq!(timestamp_string(-5), "-5");
    assert_eq!(timestamp_string(i64::MAX), "9223372036854775807");
    assert_eq!(timestamp_string(i64::MIN), "-9223372036854775808");
}

#[test]
fn current_timestamp_is_a_decimal_number() {
    let ts = current_timestamp_string();
    let parsed: i64 = ts.parse().expect("decimal timestamp");
    // The clock stands well past the epoch.
    assert!(parsed > 0);
    assert_eq!(timestamp_string(parsed), ts);
}
