use embly_wrapper::broker::{Broker, Incoming};
use embly_wrapper::error::Error;
use embly_wrapper::events::{count_of, remove_first};
use embly_wrapper::message::Message;

fn data_message(from: u64, data: &[u8]) -> Message {
    let mut msg = Message::new();
    msg.set_from(from);
    msg.set_to(8700);
    msg.set_data(data.to_vec());
    msg
}

#[test]
fn fifo_one_byte_at_a_time() {
    let mut broker = Broker::new(8700, 8701);
    assert_eq!(broker.save_msg(data_message(300, b"A")), Ok(2));
    assert_eq!(broker.save_msg(data_message(300, b"B")), Ok(2));
    let mut buf = [0u8; 1];
    assert_eq!(broker.read(2, &mut buf), 1);
    assert_eq!(buf[0], b'A');
    assert_eq!(broker.read(2, &mut buf), 1);
    assert_eq!(buf[0], b'B');
    assert_eq!(broker.read(2, &mut buf), 0);
}

#[test]
fn fifo_longer_messages_byte_by_byte() {
    let mut broker = Broker::new(8700, 8701);
    broker.save_msg(data_message(300, b"AAA")).unwrap();
    broker.save_msg(data_message(300, b"BB")).unwrap();
    let mut seen = Vec::new();
    let mut buf = [0u8; 1];
    for _ in 0..5 {
        assert_eq!(broker.read(2, &mut buf), 1);
        seen.push(buf[0]);
    }
    assert_eq!(seen, b"AAABB".to_vec());
    assert_eq!(broker.read(2, &mut buf), 0);
}

#[test]
fn partial_read_leaves_the_remainder_queued() {
    let mut broker = Broker::new(8700, 8701);
    broker.save_msg(data_message(8701, b"hello world")).unwrap();
    let mut buf = [0u8; 4];
    let mut total = 0;
    let mut seen = Vec::new();
    assert_eq!(broker.read(1, &mut buf), 4);
    seen.extend_from_slice(&buf[..4]);
    total += 4;
    assert_eq!(broker.read(1, &mut buf), 4);
    seen.extend_from_slice(&buf[..4]);
    total += 4;
    assert_eq!(broker.read(1, &mut buf), 3);
    seen.extend_from_slice(&buf[..3]);
    total += 3;
    assert_eq!(broker.read(1, &mut buf), 0);
    assert_eq!(total, 11);
    assert_eq!(seen, b"hello world".to_vec());
}

#[test]
fn read_keeps_the_tail_of_the_buffer() {
    let mut broker = Broker::new(8700, 8701);
    broker.save_msg(data_message(8701, b"ab")).unwrap();
    let mut buf = [9u8; 5];
    assert_eq!(broker.read(1, &mut buf), 2);
    assert_eq!(buf, [b'a', b'b', 9, 9, 9]);
}

#[test]
fn read_never_spans_two_messages() {
    let mut broker = Broker::new(8700, 8701);
    broker.save_msg(data_message(8701, b"ab")).unwrap();
    broker.save_msg(data_message(8701, b"cd")).unwrap();
    let mut buf = [0u8; 16];
    assert_eq!(broker.read(1, &mut buf), 2);
    assert_eq!(&buf[..2], b"ab");
    assert_eq!(broker.read(1, &mut buf), 2);
    assert_eq!(&buf[..2], b"cd");
}

#[test]
fn read_into_an_empty_buffer_takes_nothing() {
    let mut broker = Broker::new(8700, 8701);
    broker.save_msg(data_message(8701, b"ab")).unwrap();
    let mut none: [u8; 0] = [];
    assert_eq!(broker.read(1, &mut none), 0);
    let mut buf = [0u8; 2];
    assert_eq!(broker.read(1, &mut buf), 2);
    assert_eq!(&buf, b"ab");
}

#[test]
fn message_without_data_is_dropped_by_one_read() {
    let mut broker = Broker::new(8700, 8701);
    broker.save_msg(data_message(8701, b"")).unwrap();
    broker.save_msg(data_message(8701, b"x")).unwrap();
    let mut buf = [0u8; 4];
    assert_eq!(broker.read(1, &mut buf), 0);
    assert_eq!(broker.read(1, &mut buf), 1);
    assert_eq!(buf[0], b'x');
}

#[test]
fn empty_mailbox_reads_zero() {
    let mut broker = Broker::new(8700, 8701);
    let mut buf = [1u8; 4];
    assert_eq!(broker.read(1, &mut buf), 0);
    assert_eq!(broker.read(2, &mut buf), 0);
    assert_eq!(broker.read(i32::MAX, &mut buf), 0);
    assert_eq!(broker.read(i32::MIN, &mut buf), 0);
    assert_eq!(buf, [1u8; 4]);
}

#[test]
fn mailboxes_are_kept_apart() {
    let mut broker = Broker::new(8700, 8701);
    assert_eq!(broker.save_msg(data_message(20, b"from20")), Ok(2));
    assert_eq!(broker.save_msg(data_message(21, b"from21")), Ok(3));
    assert_eq!(broker.save_msg(data_message(8701, b"master")), Ok(1));
    let mut buf = [0u8; 8];
    assert_eq!(broker.read(3, &mut buf), 6);
    assert_eq!(&buf[..6], b"from21");
    assert_eq!(broker.read(1, &mut buf), 6);
    assert_eq!(&buf[..6], b"master");
    assert_eq!(broker.read(2, &mut buf), 6);
    assert_eq!(&buf[..6], b"from20");
}

#[test]
fn events_are_not_coalesced() {
    let mut broker = Broker::new(8700, 8701);
    broker.save_msg(data_message(20, b"1")).unwrap();
    broker.save_msg(data_message(20, b"2")).unwrap();
    broker.save_msg(data_message(8701, b"3")).unwrap();
    broker.save_msg(data_message(20, b"4")).unwrap();
    assert_eq!(broker.events(), vec![2, 2, 1, 2]);
    assert_eq!(broker.events(), Vec::<i32>::new());
}

#[test]
fn events_limited_takes_from_the_front() {
    let mut broker = Broker::new(8700, 8701);
    for from in [10u64, 11, 12, 13, 14] {
        broker.save_msg(data_message(from, b"e")).unwrap();
    }
    assert_eq!(broker.events_limited(2), vec![2, 3]);
    assert_eq!(broker.events_limited(0), Vec::<i32>::new());
    assert_eq!(broker.events_limited(100), vec![4, 5, 6]);
    assert_eq!(broker.events_limited(1), Vec::<i32>::new());
}

#[test]
fn descriptors_are_stable_and_distinct() {
    let mut broker = Broker::new(8700, 8701);
    let addresses = [900u64, 17, 0, u64::MAX, 5];
    let mut given = Vec::new();
    for a in addresses {
        given.push(broker.add_address(a).unwrap());
    }
    assert_eq!(given, vec![2, 3, 4, 5, 6]);
    for (i, a) in addresses.iter().enumerate() {
        assert_eq!(broker.add_address(*a), Some(given[i]));
        assert_eq!(broker.address_map().get_value(given[i]), Some(*a));
        assert_eq!(broker.address_map().get_key(*a), Some(given[i]));
    }
    assert_eq!(broker.address_count(), 6);
}

#[test]
fn broker_write_unknown_descriptor() {
    let mut broker = Broker::new(8700, 8701);
    assert_eq!(broker.write(5, b"x"), Err(Error::UnknownDescriptor));
    assert_eq!(broker.take_outbound(), Vec::<u8>::new());
}

#[test]
fn broker_write_exact_frame() {
    let mut broker = Broker::new(2, 3);
    assert_eq!(broker.write(1, &[0xaa, 0xbb]), Ok(2));
    assert_eq!(
        broker.take_outbound(),
        vec![8, 0, 0, 0, 0x08, 0x02, 0x10, 0x03, 0x1a, 0x02, 0xaa, 0xbb]
    );
}

#[test]
fn broker_exit_exact_frame() {
    let mut broker = Broker::new(2, 3);
    assert_eq!(broker.exit(1), Ok(()));
    assert_eq!(
        broker.take_outbound(),
        vec![6, 0, 0, 0, 0x08, 0x01, 0x10, 0x01, 0x30, 0x01]
    );
}

#[test]
fn broker_spawn_at_exact_frame() {
    let mut broker = Broker::new(2, 3);
    assert_eq!(broker.spawn_at("w", 300), Ok(2));
    assert_eq!(
        broker.take_outbound(),
        vec![10, 0, 0, 0, 0x08, 0x02, 0x10, 0x01, 0x22, 0x01, b'w', 0x28, 0xac, 0x02]
    );
    assert_eq!(broker.address_map().get_value(2), Some(300));
}

#[test]
fn broker_address_and_flagged() {
    let mut broker = Broker::new(8700, 8701);
    assert_eq!(broker.address(), 8700);
    assert_eq!(broker.flagged(), 0);
    broker.save_msg(Message::new()).unwrap();
    assert_eq!(broker.flagged(), 1);
    assert_eq!(broker.address_map().get_key(0), Some(2));
}

#[test]
fn take_in_follows_what_the_channel_gave() {
    let mut broker = Broker::new(8700, 8701);
    assert_eq!(broker.take_in(Incoming::Nothing), Ok(false));
    assert_eq!(
        broker.take_in(Incoming::Message(data_message(40, b"m"))),
        Ok(true)
    );
    assert_eq!(broker.take_in(Incoming::Closed), Err(Error::Disconnected));
    assert_eq!(broker.events(), vec![2]);
    let mut buf = [0u8; 2];
    assert_eq!(broker.read(2, &mut buf), 1);
    assert_eq!(buf[0], b'm');
}

#[test]
fn event_queue_never_names_more_than_is_unread() {
    let mut broker = Broker::new(8700, 8701);
    broker.save_msg(data_message(300, b"ab")).unwrap();
    broker.save_msg(data_message(8701, b"m")).unwrap();
    broker.save_msg(data_message(300, b"cd")).unwrap();
    let mut buf = [0u8; 8];
    assert_eq!(broker.read(2, &mut buf), 2);
    assert_eq!(broker.read(2, &mut buf), 2);
    assert_eq!(broker.events(), vec![1]);
    assert_eq!(broker.read(1, &mut buf), 1);
    assert_eq!(broker.events(), Vec::<i32>::new());
}

#[test]
fn partial_read_keeps_the_event() {
    let mut broker = Broker::new(8700, 8701);
    broker.save_msg(data_message(8701, b"abc")).unwrap();
    let mut buf = [0u8; 2];
    assert_eq!(broker.read(1, &mut buf), 2);
    assert_eq!(broker.events_limited(0), Vec::<i32>::new());
    assert_eq!(broker.read(1, &mut buf), 1);
    assert_eq!(broker.events(), Vec::<i32>::new());
}

#[test]
fn event_that_was_handed_out_is_not_taken_again() {
    let mut broker = Broker::new(8700, 8701);
    broker.save_msg(data_message(300, b"a")).unwrap();
    broker.save_msg(data_message(300, b"b")).unwrap();
    assert_eq!(broker.events_limited(1), vec![2]);
    let mut buf = [0u8; 4];
    // one event is still queued and two messages are unread: the event stays
    assert_eq!(broker.read(2, &mut buf), 1);
    assert_eq!(broker.events_limited(0), Vec::<i32>::new());
    // the last message goes, and the event with it
    assert_eq!(broker.read(2, &mut buf), 1);
    assert_eq!(broker.events(), Vec::<i32>::new());
}

#[test]
fn oldest_event_of_the_descriptor_goes_first() {
    let mut broker = Broker::new(8700, 8701);
    broker.save_msg(data_message(300, b"a")).unwrap();
    broker.save_msg(data_message(301, b"b")).unwrap();
    broker.save_msg(data_message(300, b"c")).unwrap();
    let mut buf = [0u8; 4];
    assert_eq!(broker.read(2, &mut buf), 1);
    assert_eq!(broker.events(), vec![3, 2]);
}

#[test]
fn counting_and_taking_out_events() {
    let mut events = vec![2, 3, 2, 1, 2];
    assert_eq!(count_of(&events, 2), 3);
    assert_eq!(count_of(&events, 1), 1);
    assert_eq!(count_of(&events, 9), 0);
    remove_first(&mut events, 2);
    assert_eq!(events, vec![3, 2, 1, 2]);
    remove_first(&mut events, 1);
    assert_eq!(events, vec![3, 2, 2]);
    remove_first(&mut events, 9);
    assert_eq!(events, vec![3, 2, 2]);
    let mut none: Vec<i32> = Vec::new();
    remove_first(&mut none, 1);
    assert_eq!(count_of(&none, 1), 0);
}
