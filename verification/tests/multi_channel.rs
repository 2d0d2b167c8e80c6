use concurrency_kit::multi_channel::{MultiChannel, SendError};

#[test]
fn sending_without_subscribers_fails_with_the_byte() {
    let mut c = MultiChannel::new();
    assert_eq!(c.send(7), Err(SendError(7)));
}

#[test]
fn every_subscriber_receives_every_byte() {
    let mut c = MultiChannel::new();
    let rx1 = c.subscribe();
    let rx2 = c.subscribe();
    assert_eq!(c.send(10), Ok(()));
    assert_eq!(c.send(20), Ok(()));
    assert_eq!(rx1.try_recv(), Ok(10));
    assert_eq!(rx1.try_recv(), Ok(20));
    assert_eq!(rx2.try_recv(), Ok(10));
    assert_eq!(rx2.try_recv(), Ok(20));
}

#[test]
fn a_subscriber_gets_only_bytes_sent_after_it_subscribed() {
    let mut c = MultiChannel::new();
    let rx1 = c.subscribe();
    assert_eq!(c.send(1), Ok(()));
    let rx2 = c.subscribe();
    assert_eq!(c.send(2), Ok(()));
    assert_eq!(rx1.try_iter().collect::<Vec<u8>>(), vec![1, 2]);
    assert_eq!(rx2.try_iter().collect::<Vec<u8>>(), vec![2]);
}

#[test]
fn dropped_subscribers_are_forgotten() {
    let mut c = MultiChannel::new();
    let rx1 = c.subscribe();
    let rx2 = c.subscribe();
    drop(rx1);
    assert_eq!(c.send(1), Ok(()));
    assert_eq!(rx2.try_recv(), Ok(1));
    drop(rx2);
    assert_eq!(c.send(2), Err(SendError(2)));
    assert_eq!(c.send(3), Err(SendError(3)));
}

#[test]
fn sending_fails_when_the_only_receiver_was_dropped() {
    let mut m = MultiChannel::new();
    let rx = m.subscribe();
    drop(rx);
    assert_eq!(m.send(7), Err(SendError(7)));
}
