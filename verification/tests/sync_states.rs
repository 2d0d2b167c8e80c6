use concurrency_kit::blocking::Step;
use concurrency_kit::bounded_channel::{Item, MyChannel};
use concurrency_kit::count_down::{doubled, CountDownLock};
use concurrency_kit::forgettable::{Delivery, MessageState};
use concurrency_kit::latch::{CancelableLatch, CancelableLatchImpl, WaitResult};
use concurrency_kit::ranking_barrier::RankingBarrier;

#[test]
fn count_down_lock_opens_after_n_count_downs() {
    let mut l = CountDownLock::new(3);
    assert_eq!(l.wait(), Step::Block);
    assert!(!l.count_down());
    assert!(!l.count_down());
    assert_eq!(l.wait_timeout(false), Step::Block);
    assert_eq!(l.wait_timeout(true), Step::Return(true));
    assert!(l.count_down());
    assert_eq!(l.counter, 0);
    assert_eq!(l.wait(), Step::Return(()));
    assert_eq!(l.wait_timeout(true), Step::Return(false));
    // further count-downs keep it at zero and wake again
    assert!(l.count_down());
    assert_eq!(l.counter, 0);
}

#[test]
fn latch_succeeds_once_all_tasks_are_done() {
    let mut l = CancelableLatchImpl::new(2);
    assert_eq!(l.wait(), Step::Block);
    assert!(!l.count_down());
    assert!(l.count_down());
    assert_eq!(l.wait(), Step::Return(WaitResult::Success));
    assert_eq!(l.wait_timeout(true), Step::Return(WaitResult::Success));
    assert!(!l.count_down());
}

#[test]
fn latch_cancel_takes_precedence() {
    let mut l = CancelableLatchImpl::new(5);
    l.cancel();
    assert_eq!(l.wait(), Step::Return(WaitResult::Canceled));
    assert!(!l.count_down());
    assert_eq!(l.count, 5);
    assert_eq!(l.wait_timeout(false), Step::Return(WaitResult::Canceled));
}

#[test]
fn latch_wait_with_deadline_times_out() {
    let l = CancelableLatchImpl::new(2);
    assert_eq!(l.wait_timeout(false), Step::Block);
    assert_eq!(l.wait_timeout(true), Step::Return(WaitResult::Timeout));
}

#[test]
fn barrier_ranks_threads_by_arrival_and_restarts() {
    let mut b = RankingBarrier::new(3);
    assert_eq!(b.wait(), (1, false));
    assert!(!b.is_released());
    assert_eq!(b.wait(), (2, false));
    assert_eq!(b.wait(), (3, true));
    assert!(b.is_released());
    assert_eq!(b.wait(), (1, false));
    assert!(!b.is_released());
}

#[test]
fn channel_hands_out_values_in_order_then_closes() {
    let mut c: MyChannel<u8> = MyChannel::new(2);
    assert!(c.must_wait_to_read());
    assert!(c.write(Item::Value(1)).is_ok());
    assert!(c.write(Item::Value(2)).is_ok());
    assert!(c.is_full());
    assert!(matches!(c.read(), Ok(Item::Value(1))));
    c.close();
    assert!(c.is_closed());
    assert!(c.write(Item::Value(3)).is_err());
    assert!(!c.must_wait_to_read());
    assert!(matches!(c.read(), Ok(Item::Value(2))));
    assert!(c.read().is_err());
    assert!(c.read().is_err());
}

#[test]
fn a_stop_written_on_an_open_channel_is_delivered() {
    let mut c: MyChannel<u8> = MyChannel::new(3);
    assert!(c.write(Item::Stop).is_ok());
    assert!(matches!(c.read(), Ok(Item::Stop)));
    assert!(c.write(Item::Value(7)).is_ok());
    assert!(matches!(c.read(), Ok(Item::Value(7))));
}

#[test]
fn a_writer_waiting_on_a_full_channel_fails_once_it_is_closed() {
    let mut c: MyChannel<u8> = MyChannel::new(1);
    assert!(c.write(Item::Value(1)).is_ok());
    assert!(c.must_wait_to_write());
    c.close();
    assert!(!c.must_wait_to_write());
    assert!(c.write(Item::Value(2)).is_err());
    assert!(matches!(c.read(), Ok(Item::Value(1))));
    assert!(c.read().is_err());
}

#[test]
fn forgetting_and_receiving_exclude_each_other() {
    let mut s = MessageState::Pending;
    assert!(s.forget());
    assert_eq!(s, MessageState::Forgotten);
    assert!(s.forget());
    assert_eq!(s.receive(), Delivery::Skip);

    let mut s = MessageState::Pending;
    assert_eq!(s.receive(), Delivery::Deliver);
    assert_eq!(s, MessageState::Received);
    assert!(!s.forget());
    assert_eq!(s.receive(), Delivery::Stop);
}

#[test]
fn doubling_a_cell_value() {
    assert_eq!(doubled(2), 4);
    assert_eq!(doubled(-7), -14);
    assert_eq!(doubled(0x3fff_ffff), 0x7fff_fffe);
}
