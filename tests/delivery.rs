use mmqp::{MmqpMessage, MmqpNormalisedMessage, PendingMode, Queue, Receivable};

fn at(text: &str, received: u128, available: u128) -> MmqpNormalisedMessage {
    let mut p = MmqpMessage::new();
    p.message = text.to_string();
    let mut m = p.normalise(received, [1u8; 64]);
    m.available_time = available;
    m
}

#[test]
fn deferred_message_waits_for_clock() {
    let mut q = Queue::new("q1".to_string(), PendingMode::Read, 4, 1024);
    q.receive_message(at("later", 50, 100), 50);
    assert_eq!(q.pending_message_count(), 1);
    assert_eq!(q.approximate_message_count(), 0);
    assert!(q.read_next(60).is_none());
    assert!(q.read_next(99).is_none());
    let m = q.read_next(100).unwrap();
    assert_eq!(m.message, "later");
    assert_eq!(m.receive_count, 1);
    assert_eq!(q.pending_message_count(), 0);
    assert!(q.read_next(200).is_none());
}

#[test]
fn ready_messages_and_counts() {
    let mut q = Queue::new("q1".to_string(), PendingMode::Read, 2, 300);
    q.receive_message(at("a", 10, 10), 10);
    q.receive_message(at("b", 11, 11), 11);
    q.receive_message(at("c", 12, 500), 12);
    assert_eq!(q.approximate_message_count(), 2);
    assert_eq!(q.pending_message_count(), 1);
    assert_eq!(q.read_next(13).unwrap().message, "a");
    assert_eq!(q.approximate_message_count(), 1);
    assert_eq!(q.read_next(14).unwrap().message, "b");
    assert_eq!(q.approximate_message_count(), 0);
    assert!(q.read_next(15).is_none());
    assert_eq!(q.approximate_message_count(), 0);
    assert_eq!(q.read_next(500).unwrap().message, "c");
    assert_eq!(q.pending_message_count(), 0);
}

#[test]
fn read_mode_takes_due_deferred_first() {
    let mut q = Queue::new("q".to_string(), PendingMode::Read, 4, 1024);
    q.receive_message(at("deferred", 0, 100), 0);
    q.receive_message(at("ready", 1, 1), 1);
    assert_eq!(q.read_next(150).unwrap().message, "deferred");
    assert_eq!(q.read_next(150).unwrap().message, "ready");
}

#[test]
fn push_mode_moves_due_deferred_behind_ready() {
    let mut q = Queue::new("q".to_string(), PendingMode::Push, 4, 1024);
    q.receive_message(at("deferred", 0, 100), 0);
    q.receive_message(at("ready", 1, 1), 1);
    assert_eq!(q.read_next(150).unwrap().message, "ready");
    assert_eq!(q.pending_message_count(), 0);
    assert_eq!(q.approximate_message_count(), 1);
    assert_eq!(q.read_next(150).unwrap().message, "deferred");
}

#[test]
fn bucket_keeps_every_message_in_arrival_order() {
    let mut q = Queue::new("q".to_string(), PendingMode::Read, 4, 1024);
    q.receive_message(at("x1", 0, 100), 0);
    q.receive_message(at("y", 0, 50), 0);
    q.receive_message(at("x2", 0, 100), 0);
    assert_eq!(q.pending_message_count(), 3);
    assert_eq!(q.read_next(100).unwrap().message, "y");
    assert_eq!(q.read_next(100).unwrap().message, "x1");
    assert_eq!(q.read_next(100).unwrap().message, "x2");
    assert!(q.read_next(100).is_none());
}

#[test]
fn flush_moves_only_due_messages() {
    let mut q = Queue::new("q".to_string(), PendingMode::Read, 4, 1024);
    q.receive_message(at("m30", 0, 30), 0);
    q.receive_message(at("m10", 0, 10), 0);
    q.receive_message(at("m20", 0, 20), 0);
    q.flush_pending(20);
    assert_eq!(q.pending_message_count(), 1);
    assert_eq!(q.approximate_message_count(), 2);
    assert_eq!(q.readers().num_buffers, 4);
    assert_eq!(q.pending_received().len(), 1);
    assert_eq!(q.read_next(20).unwrap().message, "m10");
    assert_eq!(q.read_next(20).unwrap().message, "m20");
    assert!(q.read_next(20).is_none());
    assert_eq!(q.read_next(30).unwrap().message, "m30");
}

#[test]
fn queue_getters() {
    let q = Queue::new("orders".to_string(), PendingMode::Push, 1, 64);
    assert_eq!(q.name(), "orders");
    assert_eq!(q.pending_mode(), PendingMode::Push);
    assert_eq!(q.approximate_message_count(), 0);
    assert_eq!(q.pending_message_count(), 0);
}

#[test]
fn delivery_count_saturates() {
    let mut q = Queue::new("q".to_string(), PendingMode::Read, 1, 1024);
    let mut m = at("old", 0, 0);
    m.receive_count = u32::MAX;
    q.receive_message(m, 0);
    assert_eq!(q.read_next(0).unwrap().receive_count, u32::MAX);
}

#[test]
fn handed_out_messages_wait_for_delete() {
    let mut q = Queue::new("q".to_string(), PendingMode::Read, 2, 1024);
    let mut a = at("a", 0, 0);
    a.message_id = [1u8; 64];
    let mut b = at("b", 0, 0);
    b.message_id = [2u8; 64];
    q.receive_message(a, 0);
    q.receive_message(b, 0);
    assert!(q.pending_sent().is_empty());
    q.read_next(1).unwrap();
    q.read_next(1).unwrap();
    assert_eq!(q.pending_sent().len(), 2);
    assert_eq!(q.pending_sent()[0].message, "a");
    assert_eq!(q.pending_sent()[0].receive_count, 1);
    assert!(q.delete_message(&[2u8; 64]));
    assert_eq!(q.pending_sent().len(), 1);
    assert_eq!(q.pending_sent()[0].message, "a");
    assert!(!q.delete_message(&[9u8; 64]));
    assert!(q.delete_message(&[1u8; 64]));
    assert!(q.pending_sent().is_empty());
    assert!(q.read_next(1).is_none());
    assert!(q.pending_sent().is_empty());
}

#[test]
fn flush_leaves_nothing_due() {
    let mut q = Queue::new("q".to_string(), PendingMode::Push, 2, 1024);
    q.receive_message(at("m5", 0, 5), 0);
    q.receive_message(at("m9", 0, 9), 0);
    q.receive_message(at("m7", 0, 7), 0);
    q.flush_pending(8);
    assert_eq!(q.pending_received().len(), 1);
    assert!(q.pending_received().iter().all(|m| m.available_time > 8));
    assert_eq!(q.read_next(8).unwrap().message, "m5");
    assert_eq!(q.read_next(8).unwrap().message, "m7");
    assert!(q.read_next(8).is_none());
}
