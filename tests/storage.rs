use mmqp::{
    MmqpMessage, MmqpNormalisedMessage, MmqpSerialisable, ReadBuffer, Receivable,
    RotatingReadBuffers, SerialisationStrategy,
};

fn numbered(i: usize) -> MmqpNormalisedMessage {
    let mut p = MmqpMessage::new();
    p.message = format!("message number {}", i);
    p.normalise(i as u128, [i as u8; 64])
}

#[test]
fn four_messages_in_small_pool() {
    let mut pool: RotatingReadBuffers<MmqpNormalisedMessage> = RotatingReadBuffers::new(4, 150);
    for i in 0..4 {
        pool.push_value(numbered(i));
    }
    for i in 0..4 {
        let m = pool.next().unwrap();
        assert_eq!(m.message, format!("message number {}", i));
        assert_eq!(m.received_time, i as u128);
    }
    assert!(pool.next().is_none());
}

#[test]
fn rotation_keeps_fifo_order() {
    let mut pool: RotatingReadBuffers<MmqpNormalisedMessage> = RotatingReadBuffers::new(2, 300);
    for i in 0..20 {
        pool.push_value(numbered(i));
    }
    assert!(pool.num_buffers > 2);
    assert!(pool.has_next());
    for i in 0..20 {
        assert_eq!(pool.next().unwrap().message, format!("message number {}", i));
    }
    assert!(!pool.has_next());
    assert!(pool.next().is_none());
}

#[test]
fn interleaved_reads_and_writes_keep_order() {
    let mut pool: RotatingReadBuffers<MmqpNormalisedMessage> = RotatingReadBuffers::new(3, 260);
    let mut next_in = 0usize;
    let mut next_out = 0usize;
    for round in 0..30 {
        for _ in 0..(round % 4) {
            pool.push_value(numbered(next_in));
            next_in += 1;
        }
        for _ in 0..(round % 3) {
            match pool.next() {
                Some(m) => {
                    assert_eq!(m.message, format!("message number {}", next_out));
                    next_out += 1;
                }
                None => assert_eq!(next_out, next_in),
            }
        }
    }
    while let Some(m) = pool.next() {
        assert_eq!(m.message, format!("message number {}", next_out));
        next_out += 1;
    }
    assert_eq!(next_out, next_in);
}

#[test]
fn single_arena_grows_when_full() {
    let mut pool: RotatingReadBuffers<MmqpMessage> = RotatingReadBuffers::new(0, 10);
    assert_eq!(pool.num_buffers, 1);
    pool.push_value(MmqpMessage::new());
    pool.push_value(MmqpMessage::new());
    assert_eq!(pool.num_buffers, 3);
    assert_eq!(pool.current_write_buffer, 2);
    assert!(pool.next().is_some());
    assert!(pool.next().is_some());
    assert!(pool.next().is_none());
}

#[test]
fn raw_frames_come_back_verbatim() {
    let mut pool: RotatingReadBuffers<MmqpNormalisedMessage> = RotatingReadBuffers::new(2, 200);
    let a = numbered(1).serialise(SerialisationStrategy::Storage);
    let b = numbered(2).serialise(SerialisationStrategy::Storage);
    pool.push_raw(a.clone());
    pool.push_raw(b.clone());
    assert_eq!(pool.next_raw().unwrap(), a.to_vec());
    assert_eq!(pool.next().unwrap().message, "message number 2");
    assert!(pool.next_raw().is_none());
}

#[test]
fn ring_indices() {
    let mut pool: RotatingReadBuffers<MmqpMessage> = RotatingReadBuffers::new(3, 100);
    assert_eq!(pool.next_write_buffer(), 1);
    assert_eq!(pool.next_read_buffer(), 1);
    pool.go_next();
    assert_eq!(pool.current_write_buffer, 1);
    pool.go_next();
    assert_eq!(pool.next_write_buffer(), 0);
    pool.add_and_go_next();
    assert_eq!(pool.num_buffers, 4);
    assert_eq!(pool.current_write_buffer, 3);
    assert_eq!(pool.get_writer().buffer.len(), 0);
    assert_eq!(pool.current_read_buffer, 0);
}

#[test]
fn push_lands_in_write_then_next_arena() {
    let mut pool: RotatingReadBuffers<MmqpMessage> = RotatingReadBuffers::new(3, 100);
    assert_eq!((pool.current_read_buffer, pool.current_write_buffer), (0, 0));
    pool.push_value(MmqpMessage::new());
    pool.push_value(MmqpMessage::new());
    assert_eq!(pool.current_write_buffer, 0);
    assert_eq!(pool.buffers[0].buffer.len(), 88);
    pool.push_value(MmqpMessage::new());
    assert_eq!(pool.current_write_buffer, 1);
    assert_eq!(pool.buffers[1].buffer.len(), 44);
    assert_eq!(pool.buffers[0].cursor, 0);
    assert_eq!(pool.current_read_buffer, 0);
}

#[test]
fn new_arena_goes_before_read_arena() {
    let mut pool: RotatingReadBuffers<MmqpMessage> = RotatingReadBuffers::new(2, 50);
    pool.push_value(MmqpMessage::new());
    pool.push_value(MmqpMessage::new());
    assert_eq!(pool.current_write_buffer, 1);
    pool.push_value(MmqpMessage::new());
    assert_eq!(pool.num_buffers, 3);
    assert_eq!(pool.current_write_buffer, 2);
    assert_eq!(pool.current_read_buffer, 0);
    assert_eq!(pool.buffers[0].buffer.len(), 44);
    for _ in 0..3 {
        assert_eq!(pool.next().unwrap(), MmqpMessage::new());
    }
    assert!(pool.next().is_none());
}

#[test]
fn arena_capacity_and_reads() {
    let mut arena: ReadBuffer<MmqpMessage> = ReadBuffer::new(100);
    assert!(arena.has_capacity(100));
    assert!(!arena.has_capacity(101));
    arena.push_value(MmqpMessage::new());
    assert_eq!(arena.buffer.len(), 44);
    assert!(arena.has_capacity(56));
    assert!(!arena.has_capacity(57));
    let raw = MmqpMessage::new().serialise(SerialisationStrategy::Storage);
    arena.push_raw(raw.clone());
    assert_eq!(arena.next().unwrap(), MmqpMessage::new());
    assert_eq!(arena.cursor, 44);
    assert_eq!(arena.next_raw().unwrap(), raw[2..].to_vec());
    assert_eq!(arena.cursor, 88);
    assert!(arena.next().is_none());
    assert_eq!(arena.buffer.len(), 0);
    assert_eq!(arena.cursor, 0);
}
