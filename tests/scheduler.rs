use bettermq::worker::{TaskItem, Worker};

fn id(n: u64) -> Vec<u8> {
    n.to_be_bytes().to_vec()
}

fn task(priority: i32, timestamp: u64, n: u64) -> TaskItem {
    TaskItem { priority, timestamp, message_id: id(n) }
}

#[test]
fn fetch_orders_by_priority_then_due_then_id() {
    let mut w = Worker::new();
    w.add_task(task(1, 10, 3), 100);
    w.add_task(task(0, 50, 4), 100);
    w.add_task(task(1, 10, 2), 100);
    w.add_task(task(1, 5, 9), 100);
    w.add_task(task(-1, 99, 7), 100);
    let got = w.fetch_tasks(10);
    let ids: Vec<Vec<u8>> = got.iter().map(|t| t.message_id.clone()).collect();
    assert_eq!(ids, vec![id(7), id(4), id(9), id(2), id(3)]);
    assert_eq!(got[1].priority, 0);
    assert_eq!(got[1].timestamp, 50);
}

#[test]
fn fetch_hands_out_at_most_count() {
    let mut w = Worker::new();
    for n in 1..=5u64 {
        w.add_task(task(0, 1, n), 10);
    }
    assert_eq!(w.fetch_tasks(2).len(), 2);
    assert_eq!(w.stats().ready_size, 3);
    assert_eq!(w.fetch_tasks(0).len(), 0);
    assert_eq!(w.fetch_tasks(100).len(), 3);
    assert_eq!(w.fetch_tasks(1).len(), 0);
}

#[test]
fn delayed_task_waits_for_its_due_time() {
    let mut w = Worker::new();
    w.add_task(task(-1, 2000, 1), 0);
    assert_eq!(w.stats().ready_size, 0);
    assert_eq!(w.stats().delayed_size, 1);
    assert!(w.tick(1999));
    assert_eq!(w.fetch_tasks(1).len(), 0);
    assert!(w.tick(2000));
    let got = w.fetch_tasks(1);
    assert_eq!(got.len(), 1);
    assert_eq!(got[0].message_id, id(1));
    assert_eq!(w.stats().delayed_size, 0);
}

#[test]
fn adding_a_waiting_id_again_changes_nothing() {
    let mut w = Worker::new();
    w.add_task(task(3, 5, 1), 10);
    w.add_task(task(0, 6, 1), 10);
    assert_eq!(w.stats().ready_size, 1);
    let got = w.fetch_tasks(5);
    assert_eq!(got[0].priority, 3);
    w.add_task(task(3, 50, 2), 10);
    w.add_task(task(0, 60, 2), 10);
    assert_eq!(w.stats().delayed_size, 1);
}

#[test]
fn delaying_a_ready_id_moves_it_to_the_wheel() {
    let mut w = Worker::new();
    w.add_task(task(0, 5, 1), 10);
    w.add_task(task(0, 50, 1), 10);
    assert_eq!(w.stats().ready_size, 0);
    assert_eq!(w.stats().delayed_size, 1);
    w.add_task(task(0, 5, 1), 10);
    assert_eq!(w.stats().ready_size, 1);
    assert_eq!(w.stats().delayed_size, 0);
}

#[test]
fn cancel_removes_only_delayed_ids() {
    let mut w = Worker::new();
    w.add_task(task(0, 500, 1), 10);
    w.add_task(task(0, 5, 2), 10);
    assert!(w.cancel_task(&id(1)));
    assert!(!w.cancel_task(&id(1)));
    assert!(!w.cancel_task(&id(2)));
    assert!(w.tick(1000));
    let got = w.fetch_tasks(10);
    assert_eq!(got.len(), 1);
    assert_eq!(got[0].message_id, id(2));
}

#[test]
fn same_due_time_keeps_all_entries() {
    let mut w = Worker::new();
    w.add_task(task(2, 100, 1), 0);
    w.add_task(task(1, 100, 2), 0);
    w.add_task(task(1, 100, 3), 0);
    assert!(w.tick(100));
    let got = w.fetch_tasks(3);
    let ids: Vec<Vec<u8>> = got.iter().map(|t| t.message_id.clone()).collect();
    assert_eq!(ids, vec![id(2), id(3), id(1)]);
}

#[test]
fn stopped_scheduler_no_longer_ticks() {
    let mut w = Worker::new();
    w.add_task(task(0, 10, 1), 0);
    w.stop();
    assert!(!w.tick(100));
    assert_eq!(w.stats().delayed_size, 1);
}

#[test]
fn leases_then_acks_leave_nothing_behind() {
    let mut w = Worker::new();
    for n in 1..=4u64 {
        w.add_task(task(0, 1, n), 1);
    }
    let got = w.fetch_tasks(4);
    for t in &got {
        w.add_task(t.delayed_copy(1000, 1), 1);
    }
    assert_eq!(w.stats().delayed_size, 4);
    for t in &got {
        assert!(w.cancel_task(&t.message_id));
    }
    assert_eq!(w.stats().ready_size, 0);
    assert_eq!(w.stats().delayed_size, 0);
    assert!(w.tick(5000));
    assert_eq!(w.fetch_tasks(10).len(), 0);
}

#[test]
fn delayed_copy_moves_the_due_time() {
    let t = task(4, 7, 9);
    let c = t.delayed_copy(250, 1000);
    assert_eq!(c.priority, 4);
    assert_eq!(c.message_id, id(9));
    assert_eq!(c.timestamp, 1250);
    assert_eq!(t.delayed_copy(-5, 1000).timestamp, 1000);
    assert_eq!(t.delayed_copy(10, u64::MAX - 3).timestamp, u64::MAX);
}
