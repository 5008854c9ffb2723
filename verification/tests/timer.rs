use terribledb::message::TimerEvent;
use terribledb::timer::{Scheduled, TimerAction, TimerQueue, TimerSignal};

#[test]
fn empty_queue_waits_for_a_signal() {
    let mut queue: TimerQueue<u32> = TimerQueue::new();
    assert_eq!(queue.len(), 0);
    assert_eq!(queue.next_deadline(), None);
    assert_eq!(queue.poll(1_000), TimerAction::WaitForSignal);
}

#[test]
fn once_fires_at_its_deadline_and_not_before() {
    let mut queue: TimerQueue<u32> = TimerQueue::new();
    queue.schedule_once(100, 7);
    assert_eq!(queue.next_deadline(), Some(100));
    assert_eq!(queue.poll(0), TimerAction::WaitFor(100));
    assert_eq!(queue.poll(99), TimerAction::WaitFor(1));
    assert_eq!(queue.len(), 1);
    assert_eq!(queue.poll(100), TimerAction::Emit(7));
    assert_eq!(queue.len(), 0);
    assert_eq!(queue.poll(100), TimerAction::WaitForSignal);
}

#[test]
fn once_fires_when_polled_late() {
    let mut queue: TimerQueue<u32> = TimerQueue::new();
    queue.schedule_once(100, 7);
    assert_eq!(queue.poll(5_000), TimerAction::Emit(7));
    assert_eq!(queue.poll(5_000), TimerAction::WaitForSignal);
}

#[test]
fn events_fire_in_deadline_order() {
    let mut queue: TimerQueue<u32> = TimerQueue::new();
    queue.schedule_once(300, 3);
    queue.schedule_once(100, 1);
    queue.schedule_once(200, 2);
    assert_eq!(queue.next_deadline(), Some(100));
    assert_eq!(queue.poll(1_000), TimerAction::Emit(1));
    assert_eq!(queue.poll(1_000), TimerAction::Emit(2));
    assert_eq!(queue.poll(1_000), TimerAction::Emit(3));
    assert_eq!(queue.poll(1_000), TimerAction::WaitForSignal);
}

#[test]
fn equal_deadlines_fire_in_scheduling_order() {
    let mut queue: TimerQueue<u32> = TimerQueue::new();
    queue.schedule_once(50, 10);
    queue.schedule_once(50, 20);
    queue.schedule_once(50, 30);
    assert_eq!(queue.poll(50), TimerAction::Emit(10));
    assert_eq!(queue.poll(50), TimerAction::Emit(20));
    assert_eq!(queue.poll(50), TimerAction::Emit(30));
}

#[test]
fn recurring_fires_every_period() {
    let mut queue: TimerQueue<TimerEvent> = TimerQueue::new();
    queue.schedule_recurring(1_000, 50, TimerEvent::HeartbeatTimeout);
    assert_eq!(queue.next_deadline(), Some(1_050));
    assert_eq!(queue.poll(1_000), TimerAction::WaitFor(50));
    assert_eq!(queue.poll(1_050), TimerAction::Emit(TimerEvent::HeartbeatTimeout));
    assert_eq!(queue.next_deadline(), Some(1_100));
    assert_eq!(queue.poll(1_050), TimerAction::WaitFor(50));
    assert_eq!(queue.poll(1_100), TimerAction::Emit(TimerEvent::HeartbeatTimeout));
    assert_eq!(queue.next_deadline(), Some(1_150));
    assert_eq!(queue.len(), 1);
}

#[test]
fn recurring_polled_late_keeps_its_grid() {
    let mut queue: TimerQueue<u32> = TimerQueue::new();
    queue.schedule_recurring(0, 10, 1);
    assert_eq!(queue.poll(35), TimerAction::Emit(1));
    assert_eq!(queue.next_deadline(), Some(20));
    assert_eq!(queue.poll(35), TimerAction::Emit(1));
    assert_eq!(queue.poll(35), TimerAction::Emit(1));
    assert_eq!(queue.next_deadline(), Some(40));
    assert_eq!(queue.poll(35), TimerAction::WaitFor(5));
}

#[test]
fn recurring_with_zero_period_fires_once() {
    let mut queue: TimerQueue<u32> = TimerQueue::new();
    queue.schedule_recurring(10, 0, 4);
    assert_eq!(queue.poll(10), TimerAction::Emit(4));
    assert_eq!(queue.poll(10), TimerAction::WaitForSignal);
}

#[test]
fn recurring_stops_at_the_end_of_time() {
    let mut queue: TimerQueue<u32> = TimerQueue::new();
    queue.schedule_recurring(u64::MAX - 5, 10, 1);
    assert_eq!(queue.len(), 0);
    queue.schedule_recurring(u64::MAX - 15, 10, 2);
    assert_eq!(queue.next_deadline(), Some(u64::MAX - 5));
    assert_eq!(queue.poll(u64::MAX), TimerAction::Emit(2));
    assert_eq!(queue.len(), 0);
}

#[test]
fn clear_drops_everything() {
    let mut queue: TimerQueue<u32> = TimerQueue::new();
    queue.schedule_once(10, 1);
    queue.schedule_recurring(0, 5, 2);
    queue.clear();
    assert_eq!(queue.len(), 0);
    assert_eq!(queue.poll(1_000), TimerAction::WaitForSignal);
}

#[test]
fn signals_change_the_queue_and_stop_ends_it() {
    let mut queue: TimerQueue<u32> = TimerQueue::new();
    assert!(queue.signal(TimerSignal::Once(30, 3), 0));
    assert!(queue.signal(TimerSignal::Recurring(20, 2), 0));
    assert_eq!(queue.len(), 2);
    assert_eq!(queue.next_deadline(), Some(20));
    assert!(!queue.signal(TimerSignal::Stop, 0));
    assert_eq!(queue.len(), 2);
    assert!(queue.signal(TimerSignal::Clear, 0));
    assert_eq!(queue.len(), 0);
}

#[test]
fn scheduled_events_compare_by_their_fields() {
    let a = Scheduled { at: 1, period: 0, payload: 9u8 };
    let b = Scheduled { at: 1, period: 0, payload: 9u8 };
    assert_eq!(a, b);
}
