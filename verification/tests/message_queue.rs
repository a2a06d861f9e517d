use appserver::config::MessageQueueConfig;
use appserver::helpers::id_text::format_id;
use appserver::helpers::id_text::parse_id_text;
use appserver::message_queue::MessageID;
use appserver::message_queue::MessageQueue;
use appserver::helpers::id_text::ParseIdError;
use appserver::message_queue::Reception;

fn start_message_queue(config: Option<MessageQueueConfig>) -> MessageQueue<String, u32> {
    let config = match config {
        Some(config) => config,
        None => MessageQueueConfig {
            database_schema: None,
            message_expiry: None,
            message_limit: None,
        },
    };
    MessageQueue::new(config)
}

#[test]
fn unique_message_ids() {
    let message_ids = (0..256)
        .map(|_| MessageID::new())
        .collect::<Vec<MessageID>>();
    for i in &message_ids {
        assert_eq!(message_ids.iter().filter(|x| *x == i).count(), 1);
    }
}

#[test]
fn empty_message_queue() {
    let mut message_queue = start_message_queue(None);

    // newly created message queue must be empty
    let result = message_queue.get_messages(vec![], None);
    assert_eq!(result.len(), 0, "New message queue must be empty");

    // child element of message queue must be empty
    let result = message_queue.get_messages(vec![String::from("test")], None);
    assert_eq!(
        result.len(),
        0,
        "Child element of message queue must be empty"
    );
}

#[test]
fn empty_message_queue_child() {
    let mut message_queue = start_message_queue(None);

    // child element of message queue must be empty
    let result = message_queue.get_messages(vec![String::from("test")], None);
    assert_eq!(
        result.len(),
        0,
        "Child of message queue must be empty with no messages"
    );
}

#[test]
fn empty_message_queue_previous_message() {
    let mut message_queue = start_message_queue(None);

    // no messages returned with no messages and random previous message id
    let result = message_queue.get_messages(vec![], Some(MessageID::new()));
    assert_eq!(
        result.len(),
        0,
        "Messages returned with no messages in queue and random previous message id"
    );
}

#[test]
fn message_queue_root() {
    let mut message_queue = start_message_queue(None);

    // send message to root
    message_queue.send(vec![], String::from("test1"));

    // ensure message sent at root gets returned at root
    let result = message_queue.get_messages(vec![], None);
    assert_eq!(result.len(), 1, "Only 1 message should be in root");
    assert_eq!(
        result[0].message,
        String::from("test1"),
        "Message \"test1\" expected in index 0"
    );

    // ensure no messages are returned after the last message
    let result = message_queue.get_messages(vec![], Some(result[0].message_id));
    assert_eq!(result.len(), 0, "No message must be after the last message");

    // ensure message sent at root is not visible to child
    let result = message_queue.get_messages(vec![String::from("test1")], None);
    assert_eq!(result.len(), 0, "Message sent to root is visible to child");
}

#[test]
fn message_queue_child() {
    let mut message_queue = start_message_queue(None);

    // send message to child
    message_queue.send(vec![String::from("test")], String::from("test1"));

    // ensure message sent at child is visible to root
    let result = message_queue.get_messages(vec![String::from("test")], None);
    assert_eq!(
        result.len(),
        1,
        "1 message sent to child must be visible to child"
    );
    assert_eq!(
        result[0].message,
        String::from("test1"),
        "Message \"test1\" sent to child must be visible to child"
    );

    // ensure message sent at child gets returned at child
    let result = message_queue.get_messages(vec![], None);
    assert_eq!(
        result.len(),
        1,
        "1 message sent to child must be visible to root"
    );
    assert_eq!(
        result[0].message,
        String::from("test1"),
        "Message \"test1\" sent to child must be visible to root"
    );

    let message_id = result[0].message_id;

    // ensure no messages are returned after the last message for child
    let result = message_queue.get_messages(vec![], Some(message_id));
    assert_eq!(
        result.len(),
        0,
        "Must return no messages from root after last sent message"
    );

    // ensure no messages are returned after the last message for child
    let result = message_queue.get_messages(vec![String::from("test")], Some(message_id));
    assert_eq!(
        result.len(),
        0,
        "Must return no messages from child after last sent message"
    );
}

#[test]
fn message_queue_multiple() {
    let mut message_queue = start_message_queue(None);

    // send first message to root
    message_queue.send(vec![], String::from("test1"));

    // ensure message is received
    let result = message_queue.get_messages(vec![], None);
    assert_eq!(result.len(), 1, "1 message must be received");
    assert_eq!(
        result[0].message,
        String::from("test1"),
        "Message \"test1\" must be received"
    );

    let message_1_id = result[0].message_id;

    // send second message to root
    message_queue.send(vec![], String::from("test2"));

    // ensure both messages are in queue in order
    let result = message_queue.get_messages(vec![], None);
    assert_eq!(result.len(), 2, "1 message must be received");
    assert_eq!(
        result[0].message,
        String::from("test1"),
        "Message \"test1\" must be received first"
    );
    assert_eq!(
        result[1].message,
        String::from("test2"),
        "Message \"test2\" must be received second"
    );

    let message_2_id = result[1].message_id;

    // ensure both messages are sent when passing random message id (simulating missed message)
    let result = message_queue.get_messages(vec![], Some(MessageID::new()));
    assert_eq!(result.len(), 2, "2 messages must be received");
    assert_eq!(
        result[0].message,
        String::from("test1"),
        "Message \"test1\" must be received first"
    );
    assert_eq!(
        result[1].message,
        String::from("test2"),
        "Message \"test2\" must be received second"
    );

    // ensure only second message is present when passing first message id
    let result = message_queue.get_messages(vec![], Some(message_1_id));
    assert_eq!(
        result.len(),
        1,
        "1 message must be present when getting messages after first message"
    );
    assert_eq!(
        result[0].message,
        String::from("test2"),
        "Message \"test2\" must be first message when getting messages after first message"
    );

    // ensure no message is present when passing second message id
    let result = message_queue.get_messages(vec![], Some(message_2_id));
    assert_eq!(
        result.len(),
        0,
        "0 messages must be present when getting messages after second message"
    );
}

#[test]
fn message_queue_wait() {
    let mut message_queue = start_message_queue(None);

    // the receiver comes first and has to wait
    let reception = message_queue.recv(vec![], None, 7);
    assert!(matches!(reception, Reception::Waiting));

    // the send hands the receiver back together with the message
    let delivery = message_queue.send(vec![], String::from("test1"));
    assert_eq!(delivery.subscriptions, vec![7], "Did not receive any message");
    assert_eq!(
        delivery.message.message,
        String::from("test1"),
        "Received incorrect message"
    );

    // the receiver waits no longer
    let delivery = message_queue.send(vec![], String::from("test2"));
    assert_eq!(delivery.subscriptions.len(), 0);

    // a receiver that names the first message is owed the second at once
    let first = message_queue.get_messages(vec![], None)[0].message_id;
    match message_queue.recv(vec![], Some(first), 8) {
        Reception::Ready {
            messages,
            subscription,
        } => {
            assert_eq!(subscription, 8);
            assert_eq!(messages.len(), 1);
            assert_eq!(messages[0].message, String::from("test2"));
        }
        Reception::Waiting => panic!("the second message was owed"),
    }
}

#[test]
fn a_receiver_without_cursor_is_owed_what_is_kept() {
    let mut message_queue = start_message_queue(None);
    message_queue.send(vec![], String::from("test1"));
    match message_queue.recv(vec![], None, 1) {
        Reception::Ready { messages, .. } => assert_eq!(messages.len(), 1),
        Reception::Waiting => panic!("the message was owed"),
    }
}

#[test]
fn waiters_are_told_deepest_place_first_and_last_come_first() {
    let mut queue = start_message_queue(None);
    let a = vec![String::from("a")];
    let ab = vec![String::from("a"), String::from("b")];
    assert!(matches!(queue.recv(vec![], None, 1), Reception::Waiting));
    assert!(matches!(queue.recv(a.clone(), None, 2), Reception::Waiting));
    assert!(matches!(queue.recv(a.clone(), None, 3), Reception::Waiting));
    assert!(matches!(queue.recv(ab.clone(), None, 4), Reception::Waiting));
    assert!(matches!(
        queue.recv(vec![String::from("c")], None, 5),
        Reception::Waiting
    ));
    let delivery = queue.send(ab.clone(), String::from("m"));
    assert_eq!(delivery.subscriptions, vec![4, 3, 2, 1]);
    assert_eq!(delivery.message.path, ab);
    // the waiter at the other branch still waits
    let delivery = queue.send(vec![String::from("c")], String::from("n"));
    assert_eq!(delivery.subscriptions, vec![5]);
}

#[test]
fn a_send_is_seen_at_prefixes_only() {
    let mut queue = start_message_queue(None);
    let ab = vec![String::from("a"), String::from("b")];
    queue.send_message(ab.clone(), String::from("m"), MessageID::from_u128(1), 10);
    assert_eq!(queue.get_sent_messages(&vec![], &None, 10).len(), 1);
    assert_eq!(
        queue
            .get_sent_messages(&vec![String::from("a")], &None, 10)
            .len(),
        1
    );
    assert_eq!(queue.get_sent_messages(&ab, &None, 10).len(), 1);
    assert_eq!(
        queue
            .get_sent_messages(&vec![String::from("b")], &None, 10)
            .len(),
        0
    );
    assert_eq!(
        queue
            .get_sent_messages(
                &vec![String::from("a"), String::from("b"), String::from("c")],
                &None,
                10
            )
            .len(),
        0
    );
    assert_eq!(
        queue
            .get_sent_messages(&vec![String::from("a"), String::from("c")], &None, 10)
            .len(),
        0
    );
}

#[test]
fn the_count_limit_keeps_the_newest_messages() {
    let mut queue = start_message_queue(Some(MessageQueueConfig {
        database_schema: None,
        message_expiry: None,
        message_limit: Some(2),
    }));
    for n in 1..=5u128 {
        queue.send_message(vec![], format!("m{}", n), MessageID::from_u128(n), n as i64);
    }
    let kept = queue.get_sent_messages(&vec![], &None, 5);
    assert_eq!(kept.len(), 2);
    assert_eq!(kept[0].message, "m4");
    assert_eq!(kept[1].message, "m5");
    // a cursor that was trimmed away counts as not found: everything kept is owed
    let kept = queue.get_sent_messages(&vec![], &Some(MessageID::from_u128(1)), 5);
    assert_eq!(kept.len(), 2);
}

#[test]
fn a_limit_of_zero_keeps_nothing_but_still_tells_waiters() {
    let mut queue = start_message_queue(Some(MessageQueueConfig {
        database_schema: None,
        message_expiry: None,
        message_limit: Some(0),
    }));
    assert!(matches!(queue.recv(vec![], None, 1), Reception::Waiting));
    let delivery = queue.send(vec![], String::from("m"));
    assert_eq!(delivery.subscriptions, vec![1]);
    assert_eq!(queue.get_messages(vec![], None).len(), 0);
}

#[test]
fn messages_expire_by_age_in_seconds() {
    let mut queue = start_message_queue(Some(MessageQueueConfig {
        database_schema: None,
        message_expiry: Some(2),
        message_limit: None,
    }));
    queue.send_message(vec![], String::from("old"), MessageID::from_u128(1), 0);
    queue.send_message(vec![], String::from("new"), MessageID::from_u128(2), 1_500_000);
    // exactly two seconds after the first message it is still kept
    assert_eq!(queue.get_sent_messages(&vec![], &None, 2_000_000).len(), 2);
    // one microsecond later it is gone
    let kept = queue.get_sent_messages(&vec![], &None, 2_000_001);
    assert_eq!(kept.len(), 1);
    assert_eq!(kept[0].message, "new");
    // and it stays gone, whatever time is named later
    assert_eq!(queue.get_sent_messages(&vec![], &None, 0).len(), 1);
}

#[test]
fn the_newest_of_equal_identifiers_is_the_cursor() {
    let mut queue = start_message_queue(None);
    let same = MessageID::from_u128(5);
    queue.send_message(vec![], String::from("a"), same, 0);
    queue.send_message(vec![], String::from("b"), MessageID::from_u128(6), 0);
    queue.send_message(vec![], String::from("c"), same, 0);
    queue.send_message(vec![], String::from("d"), MessageID::from_u128(7), 0);
    let owed = queue.get_sent_messages(&vec![], &Some(same), 0);
    assert_eq!(owed.len(), 1);
    assert_eq!(owed[0].message, "d");
}

#[test]
fn message_id_is_written_as_32_lowercase_hex_digits() {
    assert_eq!(
        MessageID::from_u128(0).to_string(),
        "00000000000000000000000000000000"
    );
    assert_eq!(
        MessageID::from_u128(0xABCDEF).to_string(),
        "00000000000000000000000000abcdef"
    );
    assert_eq!(
        MessageID::from_u128(u128::MAX).to_string(),
        "ffffffffffffffffffffffffffffffff"
    );
    assert_eq!(
        format_id(0x0123456789abcdef_fedcba9876543210),
        "0123456789abcdeffedcba9876543210"
    );
    assert_eq!(MessageID::none().as_u128(), 0);
}

#[test]
fn message_id_is_read_from_hex_digits() {
    assert_eq!(MessageID::parse("ff").map(|id| id.as_u128()), Ok(255));
    assert_eq!(MessageID::parse("+Ff").map(|id| id.as_u128()), Ok(255));
    assert_eq!(MessageID::parse("0").map(|id| id.as_u128()), Ok(0));
    assert_eq!(
        parse_id_text("ffffffffffffffffffffffffffffffff"),
        Ok(u128::MAX)
    );
    assert_eq!(
        parse_id_text("000ffffffffffffffffffffffffffffffff"),
        Ok(u128::MAX)
    );
    assert_eq!(parse_id_text(""), Err(ParseIdError::Empty));
    assert_eq!(parse_id_text("+"), Err(ParseIdError::InvalidDigit));
    assert_eq!(parse_id_text("-1"), Err(ParseIdError::InvalidDigit));
    assert_eq!(parse_id_text("12g4"), Err(ParseIdError::InvalidDigit));
    assert_eq!(parse_id_text(" 12"), Err(ParseIdError::InvalidDigit));
    assert_eq!(parse_id_text("1_2"), Err(ParseIdError::InvalidDigit));
    assert_eq!(
        parse_id_text("100000000000000000000000000000000"),
        Err(ParseIdError::Overflow)
    );
    // the first failure from the left decides
    assert_eq!(
        parse_id_text("100000000000000000000000000000000g"),
        Err(ParseIdError::Overflow)
    );
    assert_eq!(
        parse_id_text("g100000000000000000000000000000000"),
        Err(ParseIdError::InvalidDigit)
    );
}

#[test]
fn written_identifiers_read_back() {
    for _ in 0..32 {
        let id = MessageID::new();
        assert_eq!(MessageID::parse(&id.to_string()), Ok(id));
    }
}

#[test]
fn parsing_agrees_with_the_standard_library() {
    let samples = [
        "", "+", "-", "0", "+0", "-0", "7f", "7F", "+7f", "++7", "zz", "12 ", "é",
        "ffffffffffffffffffffffffffffffff", "1ffffffffffffffffffffffffffffffff",
        "00000000000000000000000000000000000001",
    ];
    for text in samples {
        assert_eq!(
            parse_id_text(text).ok(),
            u128::from_str_radix(text, 16).ok(),
            "on {:?}",
            text
        );
    }
}

#[test]
fn a_sweep_cuts_every_place_down() {
    let mut queue = start_message_queue(Some(MessageQueueConfig {
        database_schema: None,
        message_expiry: Some(1),
        message_limit: None,
    }));
    let a = vec![String::from("a")];
    let b = vec![String::from("b")];
    queue.send_message(a.clone(), String::from("old"), MessageID::from_u128(1), 0);
    queue.send_message(b.clone(), String::from("new"), MessageID::from_u128(2), 900_000);
    assert!(matches!(queue.recv(vec![String::from("c")], None, 9), Reception::Waiting));
    // at 1.5 s the first message is stale everywhere, the second nowhere
    queue.sweep_at(1_500_000);
    // reading at an earlier time shows what the sweep left
    let at_root = queue.get_sent_messages(&vec![], &None, 0);
    assert_eq!(at_root.len(), 1);
    assert_eq!(at_root[0].message, "new");
    assert_eq!(queue.get_sent_messages(&a, &None, 0).len(), 0);
    assert_eq!(queue.get_sent_messages(&b, &None, 0).len(), 1);
    // those who wait are not touched
    let delivery = queue.send(vec![String::from("c")], String::from("m"));
    assert_eq!(delivery.subscriptions, vec![9]);
    // a sweep by the clock keeps what is fresh now
    queue.sweep();
    assert_eq!(queue.get_messages(vec![String::from("c")], None).len(), 1);
}

#[test]
fn a_clock_that_steps_back_brings_back_no_stale_message() {
    let mut queue = start_message_queue(Some(MessageQueueConfig {
        database_schema: None,
        message_expiry: Some(10),
        message_limit: None,
    }));
    let late = queue.send_message(vec![], String::from("late"), MessageID::from_u128(1), 100_000_000);
    let early = queue.send_message(vec![], String::from("early"), MessageID::from_u128(2), 0);
    assert_eq!(late.message.timestamp, 100_000_000);
    // the second message is stamped with the latest time given so far
    assert_eq!(early.message.timestamp, 100_000_000);
    let found = queue.get_sent_messages(&vec![], &None, 100_000_000);
    assert_eq!(found.len(), 2);
    for message in &found {
        assert!(100_000_000 - message.timestamp <= 10_000_000);
    }
    // a place that got no message yet goes by the same time
    let below = queue.send_message(
        vec![String::from("a")],
        String::from("below"),
        MessageID::from_u128(3),
        5,
    );
    assert_eq!(below.message.timestamp, 100_000_000);
    // ten seconds and a microsecond later all three are stale
    assert_eq!(queue.get_sent_messages(&vec![], &None, 110_000_001).len(), 0);
    assert_eq!(
        queue
            .get_sent_messages(&vec![String::from("a")], &None, 110_000_001)
            .len(),
        0
    );
}

#[test]
fn the_time_of_messages_never_runs_backwards() {
    let mut queue = start_message_queue(None);
    let by_clock = queue.send(vec![], String::from("one"));
    let given = queue.send_message(vec![], String::from("two"), MessageID::from_u128(2), 0);
    assert_eq!(given.message.timestamp, by_clock.message.timestamp);
    let later = queue.send_message(
        vec![],
        String::from("three"),
        MessageID::from_u128(3),
        i64::MAX,
    );
    assert_eq!(later.message.timestamp, i64::MAX);
    let found = queue.get_sent_messages(&vec![], &None, 0);
    for pair in found.windows(2) {
        assert!(pair[0].timestamp <= pair[1].timestamp);
    }
}
