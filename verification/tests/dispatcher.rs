use embly_wrapper::dispatcher::{wait_for, EmblyCtx, Wait};
use embly_wrapper::error::Error;
use embly_wrapper::frame::next_message;
use embly_wrapper::message::Message;
use std::str;
use std::sync::mpsc;
use std::sync::mpsc::channel;
use std::time;

const FUNC_ADDRESS: u64 = 8700;
const MASTER: u64 = 8701;

fn new_ctx() -> (EmblyCtx, mpsc::Sender<Message>) {
    let (sender, receiver) = channel();
    let ctx = EmblyCtx::new(receiver, FUNC_ADDRESS, MASTER);
    (ctx, sender)
}

fn data_from(from: u64, data: &[u8]) -> Message {
    let mut msg = Message::new();
    msg.set_data(data.to_vec());
    msg.set_from(from);
    msg.set_to(FUNC_ADDRESS);
    msg
}

fn assert_send_and_read(
    id: i32,
    from: u64,
    to: u64,
    ctx: &mut EmblyCtx,
    sender: mpsc::Sender<Message>,
) {
    let mut msg = Message::new();
    msg.set_data(b"hello".to_vec());
    msg.set_from(from);
    msg.set_to(to);
    sender.send(msg).unwrap();

    let events = ctx.events(Some(time::Duration::new(0, 0))).unwrap();
    println!("{:?}", events);
    assert_eq!(1, events.len());
    let mut buf = vec![0; 4096];
    let ln = ctx.read(id, &mut buf).unwrap() as usize;
    println!("{}", ln);
    assert_eq!(str::from_utf8(&buf[..ln]).unwrap(), "hello");
}

#[test]
fn test_basic_read() {
    let (mut ctx, sender) = new_ctx();

    assert_eq!(
        0,
        ctx.events(Some(time::Duration::new(0, 0))).unwrap().len()
    );

    assert_send_and_read(1, MASTER, FUNC_ADDRESS, &mut ctx, sender);
}

#[test]
fn test_spawn() {
    let (mut ctx, sender) = new_ctx();

    let addr = ctx.spawn("name").unwrap();

    let stream = ctx.take_outbound();
    let (msg, end) = next_message(&stream).unwrap();
    assert_eq!(end, stream.len());
    assert_eq!(msg.spawn, "name");
    let spawn_addr = msg.spawn_address;
    assert_eq!(msg.spawn_address, ctx.address_map().get_value(addr).unwrap());

    assert_send_and_read(addr, spawn_addr, FUNC_ADDRESS, &mut ctx, sender);
}

#[test]
fn new_dispatcher_knows_the_master_as_descriptor_one() {
    let (ctx, _sender) = new_ctx();
    assert_eq!(ctx.address(), FUNC_ADDRESS);
    assert_eq!(ctx.address_count(), 1);
    assert_eq!(ctx.address_map().get_value(1), Some(MASTER));
    assert_eq!(ctx.address_map().get_key(MASTER), Some(1));
    assert_eq!(ctx.flagged(), 0);
}

#[test]
fn events_drains_everything_that_waits_in_arrival_order() {
    let (mut ctx, sender) = new_ctx();
    sender.send(data_from(50, b"a")).unwrap();
    sender.send(data_from(MASTER, b"b")).unwrap();
    sender.send(data_from(50, b"c")).unwrap();
    let events = ctx.events(Some(time::Duration::new(0, 0))).unwrap();
    assert_eq!(events, vec![2, 1, 2]);
    assert_eq!(
        ctx.events(Some(time::Duration::new(0, 0))).unwrap(),
        Vec::<i32>::new()
    );
}

#[test]
fn closed_channel_is_an_error_and_does_not_wait() {
    let (mut ctx, sender) = new_ctx();
    drop(sender);
    assert_eq!(ctx.process_messages(None), Err(Error::Disconnected));
    assert_eq!(
        ctx.process_messages(Some(time::Duration::new(5, 0))),
        Err(Error::Disconnected)
    );
    assert_eq!(ctx.events(None), Err(Error::Disconnected));
    assert_eq!(
        ctx.events(Some(time::Duration::new(0, 0))),
        Err(Error::Disconnected)
    );
    assert_eq!(
        ctx.events_limited(Some(time::Duration::new(0, 0)), 4),
        Err(Error::Disconnected)
    );
    let mut buf = vec![3u8; 4];
    assert_eq!(ctx.read(1, &mut buf), Err(Error::Disconnected));
    assert_eq!(buf, vec![3u8; 4]);
}

#[test]
fn closed_channel_still_delivers_what_was_drained() {
    let (mut ctx, sender) = new_ctx();
    sender.send(data_from(77, b"x")).unwrap();
    sender.send(data_from(MASTER, b"yz")).unwrap();
    drop(sender);
    assert_eq!(ctx.events(None), Ok(vec![2, 1]));
    assert_eq!(ctx.address_count(), 2);
    let mut buf = vec![0u8; 4];
    assert_eq!(ctx.read_buffered(2, &mut buf), 1);
    assert_eq!(buf[0], b'x');
    assert_eq!(ctx.read_buffered(1, &mut buf), 2);
    assert_eq!(&buf[..2], b"yz");
    assert_eq!(ctx.events(None), Err(Error::Disconnected));
}

#[test]
fn read_on_a_closed_channel_still_reads_what_was_drained() {
    let (mut ctx, sender) = new_ctx();
    sender.send(data_from(MASTER, b"last")).unwrap();
    drop(sender);
    let mut buf = vec![0u8; 8];
    assert_eq!(ctx.read(1, &mut buf), Ok(4));
    assert_eq!(&buf[..4], b"last");
    assert_eq!(ctx.read(1, &mut buf), Err(Error::Disconnected));
}

#[test]
fn wait_follows_what_was_drained_and_the_timeout() {
    let limit = time::Duration::new(2, 5);
    assert_eq!(wait_for(true, Some(limit)), Wait::No);
    assert_eq!(wait_for(true, None), Wait::No);
    assert_eq!(wait_for(false, Some(limit)), Wait::Within(limit));
    assert_eq!(wait_for(false, None), Wait::Unbounded);
}

#[test]
fn read_to_the_end_takes_the_event_with_it() {
    let (mut ctx, sender) = new_ctx();
    sender.send(data_from(MASTER, b"x")).unwrap();
    let mut buf = vec![0u8; 4];
    assert_eq!(ctx.read(1, &mut buf), Ok(1));
    assert_eq!(
        ctx.events(Some(time::Duration::new(0, 0))),
        Ok(Vec::<i32>::new())
    );
    assert_eq!(ctx.read(1, &mut buf), Ok(0));
}

#[test]
fn process_messages_records_what_waits() {
    let (mut ctx, sender) = new_ctx();
    sender.send(data_from(77, b"x")).unwrap();
    sender.send(data_from(78, b"y")).unwrap();
    assert_eq!(ctx.process_messages(None), Ok(()));
    assert_eq!(ctx.take_events(10), vec![2, 3]);
    assert_eq!(
        ctx.process_messages(Some(time::Duration::from_millis(5))),
        Ok(())
    );
    assert_eq!(ctx.take_events(10), Vec::<i32>::new());
}

#[test]
fn timed_out_events_returns_nothing() {
    let (mut ctx, _sender) = new_ctx();
    let events = ctx.events(Some(time::Duration::from_millis(10))).unwrap();
    assert_eq!(events.len(), 0);
}

#[test]
fn read_picks_up_what_waits_on_the_channel() {
    let (mut ctx, sender) = new_ctx();
    sender.send(data_from(MASTER, b"fresh")).unwrap();
    let mut buf = vec![0u8; 16];
    let n = ctx.read(1, &mut buf).unwrap();
    assert_eq!(&buf[..n], b"fresh");
}

#[test]
fn read_of_an_empty_mailbox_returns_zero_at_once() {
    let (mut ctx, _sender) = new_ctx();
    let mut buf = vec![7u8; 8];
    assert_eq!(ctx.read(1, &mut buf).unwrap(), 0);
    assert_eq!(ctx.read(42, &mut buf).unwrap(), 0);
    assert_eq!(ctx.read(0, &mut buf).unwrap(), 0);
    assert_eq!(ctx.read(-3, &mut buf).unwrap(), 0);
    assert_eq!(buf, vec![7u8; 8]);
}

#[test]
fn event_then_read_gives_bytes() {
    let (mut ctx, sender) = new_ctx();
    sender.send(data_from(90, b"one")).unwrap();
    sender.send(data_from(91, b"two")).unwrap();
    let events = ctx.events(Some(time::Duration::new(0, 0))).unwrap();
    assert_eq!(events, vec![2, 3]);
    for id in events {
        let mut buf = vec![0u8; 1];
        assert!(ctx.read(id, &mut buf).unwrap() > 0);
    }
}

#[test]
fn events_limited_pages_through_five_events() {
    let (mut ctx, sender) = new_ctx();
    for from in [10u64, 11, 12, 13, 14] {
        sender.send(data_from(from, b"p")).unwrap();
    }
    let zero = Some(time::Duration::new(0, 0));
    let first = ctx.events_limited(zero, 2).unwrap();
    assert_eq!(first, vec![2, 3]);
    let second = ctx.events_limited(zero, 2).unwrap();
    assert_eq!(second, vec![4, 5]);
    let third = ctx.events_limited(zero, 2).unwrap();
    assert_eq!(third, vec![6]);
    assert_eq!(ctx.events_limited(zero, 2).unwrap().len(), 0);
}

#[test]
fn events_limited_second_call_with_room_returns_the_remaining_three() {
    let (mut ctx, sender) = new_ctx();
    for from in [10u64, 11, 12, 13, 14] {
        sender.send(data_from(from, b"p")).unwrap();
    }
    let zero = Some(time::Duration::new(0, 0));
    let mut all = ctx.events_limited(zero, 2).unwrap();
    assert_eq!(all.len(), 2);
    let rest = ctx.events_limited(zero, 3).unwrap();
    assert_eq!(rest.len(), 3);
    all.extend(rest);
    assert_eq!(all, vec![2, 3, 4, 5, 6]);
}

#[test]
fn events_limited_with_limit_zero_keeps_everything_queued() {
    let (mut ctx, sender) = new_ctx();
    sender.send(data_from(10, b"p")).unwrap();
    let zero = Some(time::Duration::new(0, 0));
    assert_eq!(ctx.events_limited(zero, 0).unwrap().len(), 0);
    assert_eq!(ctx.events_limited(zero, 9).unwrap(), vec![2]);
}

#[test]
fn write_to_unknown_descriptor_fails_and_writes_nothing() {
    let (mut ctx, _sender) = new_ctx();
    assert_eq!(ctx.write(2, b"data"), Err(Error::UnknownDescriptor));
    assert_eq!(ctx.write(0, b"data"), Err(Error::UnknownDescriptor));
    assert_eq!(ctx.write(-1, b"data"), Err(Error::UnknownDescriptor));
    assert_eq!(ctx.take_outbound().len(), 0);
}

#[test]
fn write_frames_a_message_for_the_resolved_address() {
    let (mut ctx, _sender) = new_ctx();
    assert_eq!(ctx.write(1, b"payload"), Ok(7));
    let stream = ctx.take_outbound();
    let (msg, end) = next_message(&stream).unwrap();
    assert_eq!(end, stream.len());
    assert_eq!(msg.from, FUNC_ADDRESS);
    assert_eq!(msg.to, MASTER);
    assert_eq!(msg.data, b"payload".to_vec());
    assert_eq!(msg.spawn, "");
    assert_eq!(msg.exit, 0);
    assert_eq!(ctx.take_outbound().len(), 0);
}

#[test]
fn write_of_no_bytes_is_accepted() {
    let (mut ctx, _sender) = new_ctx();
    assert_eq!(ctx.write(1, b""), Ok(0));
    let stream = ctx.take_outbound();
    let (msg, _) = next_message(&stream).unwrap();
    assert_eq!(msg.to, MASTER);
    assert_eq!(msg.data.len(), 0);
}

#[test]
fn spawn_round_trip() {
    let (mut ctx, _sender) = new_ctx();
    let id = ctx.spawn("worker").unwrap();
    assert_eq!(id, 2);
    let stream = ctx.take_outbound();
    let (msg, _) = next_message(&stream).unwrap();
    assert_eq!(msg.to, 1);
    assert_eq!(msg.from, FUNC_ADDRESS);
    assert_eq!(msg.spawn, "worker");
    assert_eq!(ctx.address_map().get_value(id), Some(msg.spawn_address));
    assert_eq!(ctx.address_map().get_key(msg.spawn_address), Some(id));
}

#[test]
fn spawn_at_a_known_address_returns_its_descriptor() {
    let (mut ctx, _sender) = new_ctx();
    assert_eq!(ctx.spawn_at("again", MASTER), Ok(1));
    assert_eq!(ctx.address_count(), 1);
    let stream = ctx.take_outbound();
    let (msg, _) = next_message(&stream).unwrap();
    assert_eq!(msg.spawn_address, MASTER);
    assert_eq!(msg.spawn, "again");
}

#[test]
fn spawned_unit_can_be_written_to() {
    let (mut ctx, _sender) = new_ctx();
    let id = ctx.spawn_at("child", 555).unwrap();
    let _ = ctx.take_outbound();
    assert_eq!(ctx.write(id, b"hi"), Ok(2));
    let stream = ctx.take_outbound();
    let (msg, _) = next_message(&stream).unwrap();
    assert_eq!(msg.to, 555);
    assert_eq!(msg.data, b"hi".to_vec());
}

#[test]
fn exit_notice_goes_from_and_to_the_master() {
    let (mut ctx, _sender) = new_ctx();
    assert_eq!(ctx.exit(3), Ok(()));
    let stream = ctx.take_outbound();
    let (msg, _) = next_message(&stream).unwrap();
    assert_eq!(msg.to, 1);
    assert_eq!(msg.from, 1);
    assert_eq!(msg.exit, 3);
}

#[test]
fn add_address_twice_returns_the_same_descriptor() {
    let (mut ctx, _sender) = new_ctx();
    let first = ctx.add_address(4242);
    let second = ctx.add_address(4242);
    assert_eq!(first, Some(2));
    assert_eq!(second, Some(2));
    assert_eq!(ctx.add_address(MASTER), Some(1));
    assert_eq!(ctx.add_address(4243), Some(3));
    assert_eq!(ctx.address_count(), 3);
}

#[test]
fn save_msg_records_in_mailbox_and_event_queue() {
    let (mut ctx, _sender) = new_ctx();
    assert_eq!(ctx.save_msg(data_from(31, b"abc")), Ok(2));
    assert_eq!(ctx.save_msg(data_from(31, b"def")), Ok(2));
    assert_eq!(ctx.take_events(10), vec![2, 2]);
    let mut buf = vec![0u8; 8];
    assert_eq!(ctx.read_buffered(2, &mut buf), 3);
    assert_eq!(&buf[..3], b"abc");
    assert_eq!(ctx.read_buffered(2, &mut buf), 3);
    assert_eq!(&buf[..3], b"def");
    assert_eq!(ctx.read_buffered(2, &mut buf), 0);
}

#[test]
fn message_without_sender_or_receiver_is_recorded_and_flagged() {
    let (mut ctx, _sender) = new_ctx();
    let mut no_to = Message::new();
    no_to.set_from(MASTER);
    no_to.set_data(b"x".to_vec());
    assert_eq!(ctx.save_msg(no_to), Ok(1));
    assert_eq!(ctx.flagged(), 1);
    let mut no_from = Message::new();
    no_from.set_to(FUNC_ADDRESS);
    no_from.set_data(b"y".to_vec());
    assert_eq!(ctx.save_msg(no_from), Ok(2));
    assert_eq!(ctx.flagged(), 2);
    assert_eq!(ctx.save_msg(data_from(MASTER, b"z")), Ok(1));
    assert_eq!(ctx.flagged(), 2);
    assert_eq!(ctx.take_events(10), vec![1, 2, 1]);
    let mut buf = vec![0u8; 4];
    assert_eq!(ctx.read_buffered(2, &mut buf), 1);
    assert_eq!(buf[0], b'y');
}

#[test]
fn write_msg_frames_any_message() {
    let (mut ctx, _sender) = new_ctx();
    let mut msg = Message::new();
    msg.set_to(9);
    msg.set_from(8);
    msg.set_exit(-1);
    assert_eq!(ctx.write_msg(&msg), Ok(()));
    let stream = ctx.take_outbound();
    let (back, _) = next_message(&stream).unwrap();
    assert_eq!(back, msg);
}

#[test]
fn outbound_frames_queue_in_order() {
    let (mut ctx, _sender) = new_ctx();
    assert_eq!(ctx.write(1, b"first"), Ok(5));
    assert_eq!(ctx.write(1, b"second"), Ok(6));
    let stream = ctx.take_outbound();
    let (a, end) = next_message(&stream).unwrap();
    let (b, end2) = next_message(&stream[end..]).unwrap();
    assert_eq!(a.data, b"first".to_vec());
    assert_eq!(b.data, b"second".to_vec());
    assert_eq!(end + end2, stream.len());
}

#[test]
fn new_senders_get_descriptors_in_arrival_order() {
    let (mut ctx, sender) = new_ctx();
    assert_eq!(ctx.add_address(500), Some(2));
    let fresh = [41u64, 7, 900, 12, 3000];
    for from in fresh {
        sender.send(data_from(from, b"n")).unwrap();
    }
    assert_eq!(
        ctx.process_messages(Some(time::Duration::new(0, 0))),
        Ok(())
    );
    for (i, from) in fresh.iter().enumerate() {
        assert_eq!(ctx.address_map().get_key(*from), Some(3 + i as i32));
        assert_eq!(ctx.address_map().get_value(3 + i as i32), Some(*from));
    }
    assert_eq!(ctx.address_map().get_key(MASTER), Some(1));
    assert_eq!(ctx.address_map().get_key(500), Some(2));
    assert_eq!(ctx.address_count(), 7);
}

#[test]
fn repeated_reads_sum_to_the_payload() {
    let (mut ctx, sender) = new_ctx();
    let payload: Vec<u8> = (0u8..23).collect();
    sender.send(data_from(MASTER, &payload)).unwrap();
    sender.send(data_from(MASTER, b"next")).unwrap();
    let mut buf = vec![0u8; 5];
    let mut seen = Vec::new();
    let mut counts = Vec::new();
    for _ in 0..5 {
        let n = ctx.read(1, &mut buf).unwrap();
        counts.push(n);
        seen.extend_from_slice(&buf[..n]);
    }
    assert_eq!(counts, vec![5, 5, 5, 5, 3]);
    assert_eq!(seen, payload);
    assert_eq!(ctx.read(1, &mut buf), Ok(4));
    assert_eq!(&buf[..4], b"next");
}
