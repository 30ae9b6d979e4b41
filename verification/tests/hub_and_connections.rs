use seating::conn::{step, Action, Connection, Event};
use seating::hub::{copy_row, BroadcastHub};

fn row(text: &str) -> Vec<String> {
    text.split(',').map(String::from).collect()
}

fn drain(hub: &mut BroadcastHub, handle: u64) -> Vec<Vec<String>> {
    let mut got = Vec::new();
    while let Some(next) = hub.next(handle) {
        got.push(next);
    }
    got
}

fn line_of(action: Action) -> String {
    match action {
        Action::Send(line) => line,
        other => panic!("expected a line, got {:?}", other),
    }
}

#[test]
fn a_new_hub_shows_what_it_was_made_with() {
    let hub = BroadcastHub::new(row("a,b"), 4);
    assert_eq!(hub.snapshot(), row("a,b"));
    assert!(hub.has_room());
    assert!(!hub.is_subscribed(0));
}

#[test]
fn subscriber_gets_the_snapshot_then_every_publish_in_order() {
    let mut hub = BroadcastHub::new(row("start"), 8);
    hub.publish(row("before"));
    let (snapshot, handle) = hub.subscribe();
    assert_eq!(snapshot, row("before"));
    assert_eq!(hub.next(handle), None);
    hub.publish(row("one"));
    hub.publish(row("two"));
    hub.publish(row("three"));
    assert_eq!(hub.next(handle), Some(row("one")));
    assert_eq!(hub.next(handle), Some(row("two")));
    hub.publish(row("four"));
    assert_eq!(hub.next(handle), Some(row("three")));
    assert_eq!(hub.next(handle), Some(row("four")));
    assert_eq!(hub.next(handle), None);
    assert_eq!(hub.snapshot(), row("four"));
}

#[test]
fn two_viewers_receive_the_same_rows_in_the_same_order() {
    let mut hub = BroadcastHub::new(row("start"), 8);
    let (first_snapshot, first) = hub.subscribe();
    let (second_snapshot, second) = hub.subscribe();
    assert_ne!(first, second);
    assert_eq!(first_snapshot, second_snapshot);
    hub.publish(row("one,1"));
    hub.publish(row("two,2"));
    hub.publish(row("three,3"));
    let to_first = drain(&mut hub, first);
    let to_second = drain(&mut hub, second);
    assert_eq!(to_first, vec![row("one,1"), row("two,2"), row("three,3")]);
    assert_eq!(to_first, to_second);
}

#[test]
fn a_late_subscriber_starts_from_the_row_that_is_current() {
    let mut hub = BroadcastHub::new(row("start"), 8);
    let (_, early) = hub.subscribe();
    hub.publish(row("one"));
    let (snapshot, late) = hub.subscribe();
    assert_eq!(snapshot, row("one"));
    hub.publish(row("two"));
    assert_eq!(drain(&mut hub, early), vec![row("one"), row("two")]);
    assert_eq!(drain(&mut hub, late), vec![row("two")]);
}

#[test]
fn a_full_queue_loses_its_oldest_rows_and_keeps_the_order() {
    let mut hub = BroadcastHub::new(row("start"), 3);
    let (_, slow) = hub.subscribe();
    for text in ["1", "2", "3", "4", "5"] {
        hub.publish(row(text));
    }
    assert_eq!(drain(&mut hub, slow), vec![row("3"), row("4"), row("5")]);
    assert_eq!(hub.snapshot(), row("5"));
}

#[test]
fn a_queue_of_one_keeps_the_newest_row() {
    let mut hub = BroadcastHub::new(row("start"), 1);
    let (_, handle) = hub.subscribe();
    hub.publish(row("1"));
    hub.publish(row("2"));
    assert_eq!(drain(&mut hub, handle), vec![row("2")]);
}

#[test]
fn a_slow_viewer_does_not_cost_the_others_anything() {
    let mut hub = BroadcastHub::new(row("start"), 2);
    let (_, slow) = hub.subscribe();
    let (_, quick) = hub.subscribe();
    let mut to_quick = Vec::new();
    for text in ["1", "2", "3", "4"] {
        hub.publish(row(text));
        to_quick.extend(drain(&mut hub, quick));
    }
    assert_eq!(to_quick, vec![row("1"), row("2"), row("3"), row("4")]);
    assert_eq!(drain(&mut hub, slow), vec![row("3"), row("4")]);
}

#[test]
fn unsubscribe_twice_is_unsubscribe_once() {
    let mut hub = BroadcastHub::new(row("start"), 4);
    let (_, stays) = hub.subscribe();
    let (_, leaves) = hub.subscribe();
    hub.publish(row("one"));
    hub.unsubscribe(leaves);
    assert!(!hub.is_subscribed(leaves));
    assert!(hub.is_subscribed(stays));
    hub.unsubscribe(leaves);
    hub.unsubscribe(77);
    assert!(hub.is_subscribed(stays));
    assert_eq!(hub.next(leaves), None);
    hub.publish(row("two"));
    assert_eq!(hub.next(leaves), None);
    assert_eq!(drain(&mut hub, stays), vec![row("one"), row("two")]);
}

#[test]
fn handles_are_never_given_out_twice() {
    let mut hub = BroadcastHub::new(row("start"), 4);
    let (_, a) = hub.subscribe();
    hub.unsubscribe(a);
    let (_, b) = hub.subscribe();
    let (_, c) = hub.subscribe();
    assert_eq!((a, b, c), (0, 1, 2));
    assert!(!hub.is_subscribed(a));
    assert!(hub.is_subscribed(b));
    assert!(hub.is_subscribed(c));
}

#[test]
fn next_for_a_stranger_is_nothing() {
    let mut hub = BroadcastHub::new(row("start"), 4);
    hub.publish(row("one"));
    assert_eq!(hub.next(0), None);
    assert_eq!(hub.snapshot(), row("one"));
}

#[test]
fn copy_row_copies_every_entry() {
    assert_eq!(copy_row(&row("a,,b")), row("a,,b"));
    assert_eq!(copy_row(&Vec::new()), Vec::<String>::new());
}

#[test]
fn a_connection_gets_the_snapshot_first() {
    let mut hub = BroadcastHub::new(row("Ada,,Bo"), 4);
    let (conn, action) = step(&mut hub, Connection::Handshaking, Event::HandshakeDone);
    assert_eq!(conn, Connection::Streaming { handle: 0 });
    assert_eq!(line_of(action), "Ada,,Bo");
    assert!(hub.is_subscribed(0));
}

#[test]
fn a_failed_handshake_closes_without_subscribing() {
    let mut hub = BroadcastHub::new(row("Ada,,Bo"), 4);
    for event in [Event::HandshakeFailed, Event::Sent, Event::SendFailed, Event::Published] {
        let (conn, action) = step(&mut hub, Connection::Handshaking, event);
        assert_eq!(conn, Connection::Closed);
        assert!(matches!(action, Action::Close));
    }
    let (_, handle) = hub.subscribe();
    assert_eq!(handle, 0);
}

#[test]
fn a_streaming_connection_sends_what_waits_and_then_waits() {
    let mut hub = BroadcastHub::new(row("start"), 4);
    let (conn, first) = step(&mut hub, Connection::Handshaking, Event::HandshakeDone);
    assert_eq!(line_of(first), "start");
    let (conn, action) = step(&mut hub, conn, Event::Sent);
    assert!(matches!(action, Action::Wait));
    hub.publish(row("Ada,Bo"));
    hub.publish(row("Bo,Ada"));
    let (conn, action) = step(&mut hub, conn, Event::Published);
    assert_eq!(line_of(action), "Ada,Bo");
    let (conn, action) = step(&mut hub, conn, Event::Sent);
    assert_eq!(line_of(action), "Bo,Ada");
    let (conn, action) = step(&mut hub, conn, Event::Sent);
    assert!(matches!(action, Action::Wait));
    assert_eq!(conn, Connection::Streaming { handle: 0 });
}

#[test]
fn a_failed_send_unsubscribes_and_closes() {
    let mut hub = BroadcastHub::new(row("start"), 4);
    let (conn, _) = step(&mut hub, Connection::Handshaking, Event::HandshakeDone);
    let (other, _) = step(&mut hub, Connection::Handshaking, Event::HandshakeDone);
    hub.publish(row("one"));
    let (conn, action) = step(&mut hub, conn, Event::SendFailed);
    assert_eq!(conn, Connection::Closed);
    assert!(matches!(action, Action::Close));
    assert!(!hub.is_subscribed(0));
    assert!(hub.is_subscribed(1));
    let (_, action) = step(&mut hub, other, Event::Sent);
    assert_eq!(line_of(action), "one");
}

#[test]
fn a_closed_connection_stays_closed() {
    let mut hub = BroadcastHub::new(row("start"), 4);
    for event in [
        Event::HandshakeDone,
        Event::HandshakeFailed,
        Event::Sent,
        Event::SendFailed,
        Event::Published,
    ] {
        let (conn, action) = step(&mut hub, Connection::Closed, event);
        assert_eq!(conn, Connection::Closed);
        assert!(matches!(action, Action::Close));
    }
    assert!(!hub.is_subscribed(0));
}

#[test]
fn two_connections_are_sent_the_same_lines() {
    let mut hub = BroadcastHub::new(row("start"), 8);
    let (mut a, first_a) = step(&mut hub, Connection::Handshaking, Event::HandshakeDone);
    let (mut b, first_b) = step(&mut hub, Connection::Handshaking, Event::HandshakeDone);
    let mut to_a = vec![line_of(first_a)];
    let mut to_b = vec![line_of(first_b)];
    for text in ["x,y", "y,x", "x,,y"] {
        hub.publish(row(text));
    }
    loop {
        let (conn, action) = step(&mut hub, a, Event::Sent);
        a = conn;
        match action {
            Action::Send(line) => to_a.push(line),
            _ => break,
        }
    }
    loop {
        let (conn, action) = step(&mut hub, b, Event::Sent);
        b = conn;
        match action {
            Action::Send(line) => to_b.push(line),
            _ => break,
        }
    }
    assert_eq!(to_a, vec!["start", "x,y", "y,x", "x,,y"]);
    assert_eq!(to_a, to_b);
}
