use signal_mailbox::{Directory, EnqueueError, SignalInterface};

#[test]
fn it_works() {
    let _result = SignalInterface::new("test".to_string(), "".to_string());
}

fn present_dir() -> Directory {
    let mut d = Directory::new();
    d.ensure_present();
    d
}

#[test]
fn enqueue_message_creates_payload_and_no_marker() {
    // Client "alice" under root "/tmp/mb": the payload lands in
    // /tmp/mb/to-send/alice/<ts>.signalmessage and no .lock survives.
    let iface = SignalInterface::new("alice".to_string(), "/tmp/mb".to_string());
    assert_eq!(iface.to_send_dir(), "/tmp/mb/to-send/alice");
    assert_eq!(iface.received_dir(), "/tmp/mb/received/alice");
    let mut d = Directory::new();
    let r = iface.add_message_to_send(&mut d, "1700000000000", "hi".to_string());
    assert!(r.is_ok());
    assert!(d.is_present());
    assert_eq!(d.file_count(), 1);
    assert!(d.contains_name("1700000000000.signalmessage"));
    assert!(!d.contains_name("1700000000000.lock"));
    assert_eq!(d.read_file("1700000000000.signalmessage"), "hi");
    assert_eq!(
        signal_mailbox::file_path(&iface.to_send_dir(), "1700000000000.signalmessage"),
        "/tmp/mb/to-send/alice/1700000000000.signalmessage"
    );
}

#[test]
fn enqueue_attachment_stores_path_string() {
    let iface = SignalInterface::new("alice".to_string(), "/tmp/mb".to_string());
    let mut d = Directory::new();
    let r = iface.add_attachment_to_send(&mut d, "7", "/path/to/picture.png");
    assert!(r.is_ok());
    assert_eq!(d.read_file("7.signalattachment"), "/path/to/picture.png");
    assert!(!d.contains_name("7.lock"));
}

#[test]
fn enqueue_reply_payload_is_quoted_timestamp_newline_body() {
    let iface = SignalInterface::new("alice".to_string(), "/tmp/mb".to_string());
    let mut d = Directory::new();
    let r = iface.add_reply_to_message(&mut d, "1700000000001", "thanks".to_string(), "1700000000000");
    assert!(r.is_ok());
    assert_eq!(d.read_file("1700000000001.signalreply"), "1700000000000\nthanks");
    assert!(!d.contains_name("1700000000001.lock"));
}

#[test]
fn enqueue_marker_collision_leaves_directory_unchanged() {
    let iface = SignalInterface::new("a".to_string(), "/r".to_string());
    let mut d = present_dir();
    assert!(d.create_new("42.lock", ""));
    let r = iface.add_message_to_send(&mut d, "42", "x".to_string());
    assert_eq!(r, Err(EnqueueError::MarkerCollision));
    assert_eq!(d.file_count(), 1);
    assert!(!d.contains_name("42.signalmessage"));
}

#[test]
fn enqueue_payload_collision_leaves_marker_residue() {
    let iface = SignalInterface::new("a".to_string(), "/r".to_string());
    let mut d = present_dir();
    assert!(d.create_new("42.signalmessage", "old"));
    let r = iface.add_message_to_send(&mut d, "42", "new".to_string());
    assert_eq!(r, Err(EnqueueError::PayloadCollision));
    // The aborted write leaves its marker behind, and the old payload intact.
    assert!(d.contains_name("42.lock"));
    assert_eq!(d.read_file("42.signalmessage"), "old");
}

#[test]
fn drain_removes_accepted_items_and_their_markers() {
    let iface = SignalInterface::new("a".to_string(), "/r".to_string());
    let mut d = present_dir();
    assert!(d.create_new("100.signalmessage", "first"));
    assert!(d.create_new("200.signalmessage", "second"));
    let out = iface.access_received_messages(&mut d, "".to_string());
    assert_eq!(out.len(), 2);
    assert_eq!(out[0].timestamp, "100");
    assert_eq!(out[0].message, "first");
    assert_eq!(out[1].timestamp, "200");
    assert_eq!(out[1].message, "second");
    // No residue on success: payloads and markers are gone.
    assert_eq!(d.file_count(), 0);
    assert!(!d.contains_name("100.signalmessage"));
    assert!(!d.contains_name("100.lock"));
}

#[test]
fn drain_skips_claimed_item_and_second_drain_finds_nothing_new() {
    let iface = SignalInterface::new("a".to_string(), "/r".to_string());
    let mut d = present_dir();
    assert!(d.create_new("100.signalmessage", "held"));
    // Another consumer holds the claim: the marker exists.
    assert!(d.create_new("100.lock", ""));
    let out = iface.access_received_messages(&mut d, "".to_string());
    assert_eq!(out.len(), 0);
    assert_eq!(d.read_file("100.signalmessage"), "held");
    assert!(d.contains_name("100.lock"));
    // The claim is released: now one drain consumes the item, and a second
    // drain never returns it again.
    d.remove_file("100.lock");
    let out = iface.access_received_messages(&mut d, "".to_string());
    assert_eq!(out.len(), 1);
    assert_eq!(out[0].message, "held");
    let again = iface.access_received_messages(&mut d, "".to_string());
    assert_eq!(again.len(), 0);
}

#[test]
fn drain_prefix_mismatch_leaves_payload_for_other_consumers() {
    let iface = SignalInterface::new("a".to_string(), "/r".to_string());
    let mut d = present_dir();
    assert!(d.create_new("100.signalmessage", "other\nhi"));
    let out = iface.access_received_messages(&mut d, "mine".to_string());
    assert_eq!(out.len(), 0);
    // Payload intact, marker removed.
    assert_eq!(d.read_file("100.signalmessage"), "other\nhi");
    assert!(!d.contains_name("100.lock"));
    // Retrievable by the matching identifier; the body keeps its prefix line.
    let out = iface.access_received_messages(&mut d, "other".to_string());
    assert_eq!(out.len(), 1);
    assert_eq!(out[0].message, "other\nhi");
    assert_eq!(d.file_count(), 0);
}

#[test]
fn drain_prefix_line_is_trimmed_before_comparison() {
    let iface = SignalInterface::new("a".to_string(), "/r".to_string());
    let mut d = present_dir();
    assert!(d.create_new("5.signalmessage", "  mine \t\nbody"));
    let out = iface.access_received_messages(&mut d, "mine".to_string());
    assert_eq!(out.len(), 1);
    assert_eq!(out[0].message, "  mine \t\nbody");
}

#[test]
fn drain_single_line_body_is_its_own_first_line() {
    // A body without a newline is judged whole: left on disk under a
    // different identifier, accepted under the matching one.
    let iface = SignalInterface::new("a".to_string(), "/r".to_string());
    let mut d = present_dir();
    assert!(d.create_new("5.signalmessage", "no newline here"));
    let out = iface.access_received_messages(&mut d, "mine".to_string());
    assert_eq!(out.len(), 0);
    assert_eq!(d.read_file("5.signalmessage"), "no newline here");
    assert!(!d.contains_name("5.lock"));
    let out = iface.access_received_messages(&mut d, "no newline here".to_string());
    assert_eq!(out.len(), 1);
    assert_eq!(out[0].message, "no newline here");
    assert_eq!(d.file_count(), 0);
}

#[test]
fn drain_on_absent_directory_returns_empty_and_does_not_create_it() {
    let iface = SignalInterface::new("a".to_string(), "/r".to_string());
    let mut d = Directory::new();
    let out = iface.access_received_messages(&mut d, "".to_string());
    assert_eq!(out.len(), 0);
    assert!(!d.is_present());
}

#[test]
fn drain_skips_entries_of_other_kinds() {
    let iface = SignalInterface::new("a".to_string(), "/r".to_string());
    let mut d = present_dir();
    assert!(d.create_new("1.signalattachment", "/a/b"));
    assert!(d.create_new("2.signalreply", "3\nr"));
    assert!(d.create_new("notes.txt", "n"));
    assert!(d.create_new(".signalmessage", "hidden"));
    let out = iface.access_received_messages(&mut d, "".to_string());
    assert_eq!(out.len(), 0);
    assert_eq!(d.file_count(), 4);
}

#[test]
fn round_trip_message_to_received_and_back() {
    // Enqueue "hello", move the payload file into the received directory,
    // drain with no identifier: exactly one item with body "hello".
    let iface = SignalInterface::new("alice".to_string(), "/tmp/mb".to_string());
    let mut outgoing = Directory::new();
    let r = iface.add_message_to_send(&mut outgoing, "123", "hello".to_string());
    assert!(r.is_ok());
    let body = outgoing.read_file("123.signalmessage");
    outgoing.remove_file("123.signalmessage");
    let mut incoming = present_dir();
    assert!(incoming.create_new("123.signalmessage", &body));
    let out = iface.access_received_messages(&mut incoming, "".to_string());
    assert_eq!(out.len(), 1);
    assert_eq!(out[0].timestamp, "123");
    assert_eq!(out[0].message, "hello");
    assert_eq!(incoming.file_count(), 0);
    assert_eq!(outgoing.file_count(), 0);
}
