use embly_wrapper::directory::AddressDirectory;
use embly_wrapper::error::Error;
use embly_wrapper::host::{check_startup, pad_events, timeout_for};
use embly_wrapper::message::Message;
use std::time::Duration;

fn first_message(parent: u64, your: u64) -> Message {
    let mut msg = Message::new();
    msg.parent_address = parent;
    msg.your_address = your;
    msg
}

#[test]
fn startup_accepts_the_configured_address() {
    assert_eq!(check_startup(&first_message(8701, 8700), 8700), Ok((8700, 8701)));
}

#[test]
fn startup_rejects_missing_addresses() {
    assert_eq!(
        check_startup(&first_message(0, 8700), 8700),
        Err(Error::InvalidStartup)
    );
    assert_eq!(
        check_startup(&first_message(8701, 0), 8700),
        Err(Error::InvalidStartup)
    );
    assert_eq!(
        check_startup(&first_message(8701, 0), 0),
        Err(Error::InvalidStartup)
    );
    assert_eq!(
        check_startup(&Message::new(), 8700),
        Err(Error::InvalidStartup)
    );
}

#[test]
fn startup_rejects_another_units_address() {
    assert_eq!(
        check_startup(&first_message(8701, 8702), 8700),
        Err(Error::InvalidStartup)
    );
}

#[test]
fn timeout_follows_the_blocking_mode() {
    assert_eq!(timeout_for(0, 5, 6), None);
    assert_eq!(timeout_for(1, 5, 6), Some(Duration::new(5, 6)));
    assert_eq!(timeout_for(255, 0, 0), Some(Duration::new(0, 0)));
    assert_eq!(
        timeout_for(1, 1, 2_500_000_000),
        Some(Duration::new(3, 500_000_000))
    );
}

#[test]
fn timeout_too_long_for_the_clock_is_the_longest() {
    assert_eq!(
        timeout_for(1, u64::MAX, 1_000_000_000),
        Some(Duration::new(u64::MAX, 999_999_999))
    );
    assert_eq!(
        timeout_for(1, u64::MAX, 999_999_999),
        Some(Duration::new(u64::MAX, 999_999_999))
    );
    assert_eq!(timeout_for(0, u64::MAX, u32::MAX), None);
}

#[test]
fn unused_slots_hold_zero() {
    assert_eq!(pad_events(vec![3, 4], 5), vec![3, 4, 0, 0, 0]);
    assert_eq!(pad_events(vec![], 3), vec![0, 0, 0]);
    assert_eq!(pad_events(vec![1, 2, 3], 3), vec![1, 2, 3]);
    assert_eq!(pad_events(vec![], 0), Vec::<i32>::new());
}

#[test]
fn events_beyond_the_slots_are_left_out() {
    assert_eq!(pad_events(vec![1, 2, 3], 2), vec![1, 2]);
    assert_eq!(pad_events(vec![1], 0), Vec::<i32>::new());
}

#[test]
fn directory_hands_out_descriptors_from_one() {
    let mut dir = AddressDirectory::new();
    assert_eq!(dir.len(), 0);
    assert_eq!(dir.get_value(1), None);
    assert_eq!(dir.get_key(77), None);
    assert_eq!(dir.add_address(77), Some(1));
    assert_eq!(dir.add_address(78), Some(2));
    assert_eq!(dir.add_address(77), Some(1));
    assert_eq!(dir.len(), 2);
    assert_eq!(dir.get_value(1), Some(77));
    assert_eq!(dir.get_value(2), Some(78));
    assert_eq!(dir.get_value(3), None);
    assert_eq!(dir.get_value(0), None);
    assert_eq!(dir.get_value(-1), None);
    assert_eq!(dir.get_key(78), Some(2));
    assert_eq!(dir.get_key(79), None);
}

#[test]
fn invalid_message_is_reported() {
    let mut msg = Message::new();
    assert_eq!(msg.check_addressed(), Err(Error::InvalidMessage));
    msg.set_from(1);
    assert_eq!(msg.check_addressed(), Err(Error::InvalidMessage));
    msg.set_to(2);
    assert_eq!(msg.check_addressed(), Ok(()));
    msg.set_from(0);
    assert_eq!(msg.check_addressed(), Err(Error::InvalidMessage));
}
