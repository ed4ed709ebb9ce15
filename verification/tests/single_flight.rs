use proton_stream::ring::BlockKey;
use proton_stream::single_flight::{waiter_step, SingleFlight, WaitStep};
use proton_stream::stream_error::Error;
use proton_stream::uid::NodeUid;

fn key(index: usize) -> BlockKey {
    BlockKey::new(&NodeUid::new("vol", "link"), "rev1", index)
}

/// The point of it all: several callers, one execution.
#[test]
fn concurrent_callers_of_one_key_run_the_work_once() {
    let mut flight: SingleFlight<BlockKey, u32> = SingleFlight::new();
    let mut runs = 0;
    for _ in 0..8 {
        if flight.running(&key(7)).is_none() {
            flight.lead(key(7), 42);
            runs += 1;
        }
        assert_eq!(flight.running(&key(7)), Some(&42));
    }
    for _ in 0..8 {
        assert!(matches!(waiter_step(Some(Ok(42)), false), WaitStep::Done(Ok(42))));
    }
    assert_eq!(runs, 1, "work ran more than once");
}

#[test]
fn a_second_caller_of_one_key_waits_for_the_first() {
    let mut flights: SingleFlight<BlockKey, u32> = SingleFlight::new();
    assert!(flights.running(&key(0)).is_none());
    flights.lead(key(0), 7);
    assert_eq!(flights.running(&key(0)), Some(&7));
    flights.finish(&key(0));
    assert!(flights.running(&key(0)).is_none(), "the key is free again");
}

/// Different keys must not serialize against each other.
#[test]
fn different_keys_run_independently() {
    let mut flight: SingleFlight<BlockKey, usize> = SingleFlight::new();
    let mut runs = 0;
    for index in 0..4 {
        assert!(flight.running(&key(index)).is_none());
        flight.lead(key(index), index * 2);
        runs += 1;
    }
    assert_eq!(runs, 4);
    flight.finish(&key(0));
    assert!(flight.running(&key(0)).is_none());
    for index in 1..4 {
        let value = flight.running(&key(index)).expect("value");
        assert_eq!(*value, index * 2);
    }
}

/// A waiter gets the leader's message, not a success and not a hang.
#[test]
fn a_waiter_sees_the_leaders_failure() {
    assert!(matches!(waiter_step::<u8>(None, false), WaitStep::Wait));
    let leader = Error::NotFound("no such block".into());
    match waiter_step::<u8>(Some(Err(leader.message())), false) {
        WaitStep::Done(Err(error)) => {
            assert!(matches!(error, Error::Shared(_)));
            assert_eq!(error.message(), "no such block");
        }
        _ => panic!("waiter must fail too"),
    }
    assert!(matches!(waiter_step(Some(Ok(5)), true), WaitStep::Done(Ok(5))));
}

/// A failed call must not poison the key: the next caller retries.
#[test]
fn a_failed_call_leaves_the_key_retryable() {
    let mut flight: SingleFlight<BlockKey, u32> = SingleFlight::new();
    flight.lead(key(1), 1);
    let failure = Error::NotFound("transient".into());
    assert_eq!(failure.message(), "transient");
    flight.finish(&key(1));

    assert!(flight.running(&key(1)).is_none());
    flight.lead(key(1), 9);
    assert_eq!(*flight.running(&key(1)).expect("retry"), 9);
}

/// A dropped leader must not leave the key marked in flight forever.
#[test]
fn a_cancelled_leader_does_not_wedge_the_key() {
    let mut flight: SingleFlight<BlockKey, u32> = SingleFlight::new();
    flight.lead(key(1), 0);
    flight.finish(&key(1));
    assert!(
        flight.running(&key(1)).is_none(),
        "entry outlived the cancelled call"
    );
    flight.lead(key(1), 5);
    assert_eq!(*flight.running(&key(1)).expect("retry"), 5);

    match waiter_step::<u8>(None, true) {
        WaitStep::Done(Err(error)) => assert_eq!(
            error.message(),
            "the task loading this was cancelled before it finished"
        ),
        _ => panic!("told that the leader is gone"),
    }
}
