use mmqp::serialiser::MmqpMessage as Publish;
use mmqp::{
    MmqpError, MmqpMessage, MmqpNormalisedMessage, MmqpSerialisable, Receivable,
    SerialisationStrategy,
};

fn publish(queue: &str, message: &str, group: &str) -> Publish {
    MmqpMessage {
        version_major: 0,
        version_minor: 1,
        username: "user".to_string(),
        password: "secret".to_string(),
        target_queue: queue.to_string(),
        message: message.to_string(),
        message_group: group.to_string(),
    }
}

fn normalised(text: &str, available: u128) -> MmqpNormalisedMessage {
    let mut id = [0u8; 64];
    for (i, b) in id.iter_mut().enumerate() {
        *b = i as u8;
    }
    let mut m = publish("q", text, "grp").normalise(1_000, id);
    m.available_time = available;
    m.receive_count = 3;
    m
}

#[test]
fn sample_message_fields() {
    let m = MmqpMessage::new();
    assert_eq!((m.version_major, m.version_minor), (0, 1));
    assert_eq!(m.username, "");
    assert_eq!(m.password, "");
    assert_eq!(m.message, "A message");
    assert_eq!(m.message_group, "mg1");
    assert_eq!(m.target_queue, "queue1");
}

#[test]
fn publish_wire_layout_and_size() {
    let m = MmqpMessage::new();
    let bytes = m.serialise(SerialisationStrategy::Wire).to_vec();
    assert_eq!(m.get_size(), 42);
    assert_eq!(bytes.len(), 42);
    assert_eq!(&bytes[..11], b"MMQP|\x00.\x01|M|");
    assert_eq!(bytes[11], 0);
    assert_eq!(bytes[12], b':');
    assert_eq!(*bytes.last().unwrap(), 0);
    let storage = m.serialise(SerialisationStrategy::Storage).to_vec();
    assert_eq!(storage[..2], [1u8, 42]);
    assert_eq!(&storage[2..], &bytes[..]);
}

#[test]
fn publish_wire_round_trip() {
    let m = publish("q1", "hello", "g");
    let bytes = m.serialise(SerialisationStrategy::Wire).to_vec();
    let mut cursor = 0usize;
    let back = MmqpMessage::deserialise(&bytes, &mut cursor, SerialisationStrategy::Wire).unwrap();
    assert_eq!(back, m);
    assert_eq!(cursor, bytes.len());
}

#[test]
fn publish_empty_fields_round_trip() {
    let m = publish("", "", "");
    let bytes = m.serialise(SerialisationStrategy::Wire).to_vec();
    assert_eq!(bytes.len(), 33);
    let mut cursor = 0usize;
    let back = MmqpMessage::deserialise(&bytes, &mut cursor, SerialisationStrategy::Wire).unwrap();
    assert_eq!(back, m);
}

#[test]
fn publish_bad_marker_is_refused() {
    let mut bytes = publish("q1", "hello", "g").serialise(SerialisationStrategy::Wire).to_vec();
    bytes[0] = b'X';
    let mut cursor = 0usize;
    assert_eq!(
        MmqpMessage::deserialise(&bytes, &mut cursor, SerialisationStrategy::Wire),
        Err(MmqpError::InvalidEncoding)
    );
    assert_eq!(cursor, 0);
}

#[test]
fn publish_truncated_is_refused() {
    let bytes = publish("q1", "hello", "g").serialise(SerialisationStrategy::Wire).to_vec();
    let mut cursor = 0usize;
    assert_eq!(
        MmqpMessage::deserialise(&bytes[..bytes.len() - 1], &mut cursor, SerialisationStrategy::Wire),
        Err(MmqpError::TruncatedMessage)
    );
    assert_eq!(
        MmqpMessage::deserialise(&bytes[..5], &mut cursor, SerialisationStrategy::Wire),
        Err(MmqpError::TruncatedMessage)
    );
}

#[test]
fn storage_length_mismatch_is_refused() {
    let mut bytes = publish("q1", "hello", "g").serialise(SerialisationStrategy::Storage).to_vec();
    bytes[1] += 1;
    bytes.push(0);
    let mut cursor = 0usize;
    assert_eq!(
        MmqpMessage::deserialise(&bytes, &mut cursor, SerialisationStrategy::Storage),
        Err(MmqpError::InvalidEncoding)
    );
}

#[test]
fn normalised_storage_round_trip() {
    let m = normalised("payload", 5_000);
    let bytes = m.serialise(SerialisationStrategy::Storage).to_vec();
    let mut cursor = 0usize;
    let back =
        MmqpNormalisedMessage::deserialise(&bytes, &mut cursor, SerialisationStrategy::Storage)
            .unwrap();
    assert_eq!(cursor, bytes.len());
    assert_eq!(back.message, m.message);
    assert_eq!(back.message_id, m.message_id);
    assert_eq!(back.message_group_id, m.message_group_id);
    assert_eq!(back.received_time, 1_000);
    assert_eq!(back.available_time, 5_000);
    assert_eq!(back.receive_count, 3);
}

#[test]
fn normalised_layout_and_size() {
    let m = MmqpNormalisedMessage::new(MmqpMessage::new(), 500, [5u8; 64]);
    assert_eq!(m.message_id, [5u8; 64]);
    assert_eq!(m.message, "A message");
    assert_eq!(m.message_group_id, "mg1");
    assert_eq!((m.received_time, m.available_time, m.receive_count), (500, 500, 0));
    assert_eq!(m.get_size(), 117);
    let wire = m.serialise(SerialisationStrategy::Wire).to_vec();
    assert_eq!(wire.len(), 117);
    assert_eq!(&wire[..64], &[5u8; 64]);
    assert_eq!(wire[79], 0xF4);
    assert_eq!(wire[78], 0x01);
    assert_eq!(wire[99], 0);
    let mut t = normalised("x", 0x0102);
    t.received_time = u128::MAX;
    let wire = t.serialise(SerialisationStrategy::Wire).to_vec();
    assert_eq!(&wire[64..80], &[255u8; 16]);
    assert_eq!(wire[94], 1);
    assert_eq!(wire[95], 2);
}

#[test]
fn normalise_sets_times_and_count() {
    let n = publish("q", "text", "grp").normalise(42, [9u8; 64]);
    assert_eq!(n.message, "text");
    assert_eq!(n.message_group_id, "grp");
    assert_eq!((n.received_time, n.available_time, n.receive_count), (42, 42, 0));
    assert_eq!(n.message_id, [9u8; 64]);
    let direct = publish("q", "text", "grp").normalise_serialised(42, [9u8; 64]).to_vec();
    assert_eq!(direct, n.serialise(SerialisationStrategy::Wire).to_vec());
}

#[test]
fn storage_frames_back_to_back() {
    let a = normalised("first", 10);
    let b = normalised("second", 20);
    let mut buffer = a.serialise(SerialisationStrategy::Storage).to_vec();
    buffer.extend(b.serialise(SerialisationStrategy::Storage).to_vec());
    let mut cursor = 0usize;
    let x = MmqpNormalisedMessage::deserialise(&buffer, &mut cursor, SerialisationStrategy::Storage)
        .unwrap();
    let y = MmqpNormalisedMessage::deserialise(&buffer, &mut cursor, SerialisationStrategy::Storage)
        .unwrap();
    assert_eq!(x.message, "first");
    assert_eq!(y.message, "second");
    assert_eq!(cursor, buffer.len());
}

#[test]
fn raw_takes_envelope_of_frame() {
    let a = publish("q", "one", "g").serialise(SerialisationStrategy::Storage).to_vec();
    let b = publish("q", "two", "g").serialise(SerialisationStrategy::Storage).to_vec();
    let mut buffer = a.clone();
    buffer.extend(b.clone());
    let mut cursor = 0usize;
    let wire_a = publish("q", "one", "g").serialise(SerialisationStrategy::Wire).to_vec();
    let wire_b = publish("q", "two", "g").serialise(SerialisationStrategy::Wire).to_vec();
    assert_eq!(MmqpMessage::raw(&buffer, &mut cursor), Ok(wire_a));
    assert_eq!(cursor, a.len());
    assert_eq!(MmqpMessage::raw(&buffer, &mut cursor), Ok(wire_b));
    assert_eq!(cursor, buffer.len());
    assert_eq!(
        MmqpMessage::raw(&a[..a.len() - 1], &mut 0),
        Err(MmqpError::TruncatedMessage)
    );
}

#[test]
fn normalised_raw_keeps_prefix() {
    let f = normalised("kept", 1).serialise(SerialisationStrategy::Storage).to_vec();
    let mut cursor = 0usize;
    assert_eq!(MmqpNormalisedMessage::raw(&f, &mut cursor), Ok(f.clone()));
    assert_eq!(cursor, f.len());
}
