use mmqp::reply::{poll_reply, queue_not_found_reply};
use mmqp::{MmqpMessage, MmqpNormalisedMessage, MmqpSerialisable, Receivable, SerialisationStrategy};

#[test]
fn queue_not_found_reply_bytes() {
    let mut expected = b"MMQP|0.1|R|QUEUE_NOT_FOUND|orders|".to_vec();
    expected.push(0);
    assert_eq!(queue_not_found_reply(&"orders".to_string()), expected);
}

#[test]
fn empty_poll_reply() {
    let mut expected = b"MMQP|0.1|M|".to_vec();
    expected.push(0);
    assert_eq!(poll_reply(&Vec::new()), expected);
}

#[test]
fn poll_reply_holds_storage_frames() {
    let a: MmqpNormalisedMessage = MmqpMessage::new().normalise(1, [1u8; 64]);
    let b: MmqpNormalisedMessage = MmqpMessage::new().normalise(2, [2u8; 64]);
    let mut expected = b"MMQP|0.1|M|".to_vec();
    expected.extend(a.serialise(SerialisationStrategy::Storage).to_vec());
    expected.extend(b.serialise(SerialisationStrategy::Storage).to_vec());
    expected.push(0);
    assert_eq!(poll_reply(&vec![a, b]), expected);
}
