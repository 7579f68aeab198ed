use data_structures::mpmc_channel::{MpMcChannel, RecvStep, SendStep};

#[test]
fn channel_starts_empty() {
    let mut ch: MpMcChannel<i32> = MpMcChannel::new(3);
    assert_eq!(ch.len(), 0);
    assert!(matches!(ch.recv_step(), RecvStep::Empty));
}

#[test]
fn channel_is_first_in_first_out() {
    let mut ch = MpMcChannel::new(3);
    assert!(matches!(ch.send_step(10), SendStep::Sent));
    assert!(matches!(ch.send_step(20), SendStep::Sent));
    assert!(matches!(ch.send_step(30), SendStep::Sent));
    assert!(matches!(ch.recv_step(), RecvStep::Received(10)));
    assert!(matches!(ch.recv_step(), RecvStep::Received(20)));
    assert!(matches!(ch.recv_step(), RecvStep::Received(30)));
    assert!(matches!(ch.recv_step(), RecvStep::Empty));
}

#[test]
fn channel_full_hands_message_back() {
    let mut ch = MpMcChannel::new(1);
    assert!(matches!(ch.send_step(1), SendStep::Sent));
    assert!(matches!(ch.send_step(2), SendStep::Full(2)));
    assert_eq!(ch.len(), 1);
    assert!(matches!(ch.recv_step(), RecvStep::Received(1)));
    assert!(matches!(ch.send_step(2), SendStep::Sent));
}

#[test]
fn channel_of_zero_is_always_full() {
    let mut ch = MpMcChannel::new(0);
    assert!(matches!(ch.send_step(5), SendStep::Full(5)));
    assert_eq!(ch.len(), 0);
}

#[test]
fn channel_shutdown_refuses_sends_and_drains() {
    let mut ch = MpMcChannel::new(3);
    assert!(matches!(ch.send_step(10), SendStep::Sent));
    assert!(matches!(ch.send_step(20), SendStep::Sent));
    assert_eq!(ch.shutdown(), Some(()));
    assert!(matches!(ch.send_step(30), SendStep::Closed));
    assert_eq!(ch.len(), 2);
    assert!(matches!(ch.recv_step(), RecvStep::Received(10)));
    assert!(matches!(ch.recv_step(), RecvStep::Received(20)));
    assert!(matches!(ch.recv_step(), RecvStep::Closed));
    assert!(matches!(ch.recv_step(), RecvStep::Closed));
}

#[test]
fn channel_shutdown_twice() {
    let mut ch: MpMcChannel<i32> = MpMcChannel::new(2);
    assert_eq!(ch.shutdown(), Some(()));
    assert_eq!(ch.shutdown(), Some(()));
    assert!(matches!(ch.recv_step(), RecvStep::Closed));
}

#[test]
fn channel_interleaved_sends_and_receives_keep_order() {
    let mut ch = MpMcChannel::new(2);
    let mut received = Vec::new();
    assert!(matches!(ch.send_step(1), SendStep::Sent));
    assert!(matches!(ch.send_step(2), SendStep::Sent));
    assert!(matches!(ch.send_step(3), SendStep::Full(3)));
    if let RecvStep::Received(x) = ch.recv_step() {
        received.push(x);
    }
    assert!(matches!(ch.send_step(3), SendStep::Sent));
    assert!(matches!(ch.send_step(4), SendStep::Full(4)));
    for _ in 0..2 {
        if let RecvStep::Received(x) = ch.recv_step() {
            received.push(x);
        }
    }
    assert!(matches!(ch.send_step(4), SendStep::Sent));
    ch.shutdown();
    while let RecvStep::Received(x) = ch.recv_step() {
        received.push(x);
    }
    assert_eq!(received, vec![1, 2, 3, 4]);
}
