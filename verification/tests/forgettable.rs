use concurrency_kit::forgettable::{
    forgettable_channel, Forgettable, ForgettableReceiver, ForgettableSender,
};

#[test]
fn a_channel_can_send_data() {
    let (sender, receiver) = forgettable_channel::<i32>();
    assert!(sender.send(42).is_some());
    assert_eq!(receiver.recv().unwrap(), 42);
}

#[test]
fn a_channel_can_send_multiple_data() {
    let (sender, receiver) = forgettable_channel::<i32>();
    assert!(sender.send(42).is_some());
    assert!(sender.send(43).is_some());
    assert_eq!(receiver.recv().unwrap(), 42);
    assert_eq!(receiver.recv().unwrap(), 43);
}

#[test]
fn when_the_sender_is_dropped_the_receiver_unblocks() {
    let (sender, receiver) = forgettable_channel::<i32>();
    assert!(sender.send(42).is_some());
    drop(sender);
    assert_eq!(receiver.recv().unwrap(), 42);
    assert!(receiver.recv().is_none());
}

#[test]
fn when_the_receiver_is_dropped_the_sender_returns_none() {
    let (sender, receiver) = forgettable_channel::<i32>();
    drop(receiver);
    assert!(sender.send(42).is_none());
}

#[test]
fn receiver_drains_queue_before_returning_none() {
    let (sender, receiver) = forgettable_channel::<i32>();
    for i in 0..10 {
        assert!(sender.send(i).is_some());
    }
    drop(sender);
    let received: Vec<i32> = std::iter::from_fn(|| receiver.recv()).collect();
    assert_eq!(received, (0..10).collect::<Vec<_>>());
}

#[test]
fn a_channel_can_forget_its_messages() {
    let (sender, receiver) = forgettable_channel::<i32>();
    let handle = sender.send(42).unwrap();
    assert!(handle.forget());
    drop(sender);
    assert!(receiver.recv().is_none());
}

#[test]
fn invoking_forget_after_receiving_a_message_returns_false() {
    let (sender, receiver) = forgettable_channel::<i32>();
    let handle = sender.send(42).unwrap();
    assert_eq!(receiver.recv().unwrap(), 42);
    assert!(!handle.forget());
    drop(sender);
    assert!(receiver.recv().is_none());
}

#[test]
fn forget_returns_true_when_channel_is_dropped() {
    let (sender, receiver) = forgettable_channel::<i32>();
    let handle = sender.send(42).unwrap();
    drop(sender);
    drop(receiver);
    assert!(handle.forget());
}

#[test]
fn a_forgotten_message_is_skipped_and_the_next_one_delivered() {
    let (sender, receiver) = forgettable_channel::<i32>();
    let first = sender.send(1).unwrap();
    assert!(sender.send(2).is_some());
    assert!(first.forget());
    assert_eq!(receiver.recv(), Some(2));
}

#[test]
fn a_clone_of_the_sender_feeds_the_same_receiver() {
    let (sender, receiver) = forgettable_channel::<i32>();
    let other = sender.clone();
    assert!(other.send(7).is_some());
    assert!(sender.send(8).is_some());
    drop(sender);
    drop(other);
    assert_eq!(receiver.recv(), Some(7));
    assert_eq!(receiver.recv(), Some(8));
    assert_eq!(receiver.recv(), None);
}
