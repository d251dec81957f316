use mmqp::{parse_tcp_request, MmqpEncoding, MmqpMessage, MmqpSerialisable, MmqpTcpFormat, SerialisationStrategy};

#[test]
fn test_string_parse() {
    let magic = b"MMQP";
    let version_major = 0u8;
    let delimiter = b".";
    let version_minor = 1u8;

    let version_bytes = [version_major, delimiter[0], version_minor];
    let username = "myusername".to_string().to_mmqp_binary().unwrap();
    let password = "password".to_string().to_mmqp_binary().unwrap();
    let queuename = "myqueuename".to_string().to_mmqp_binary().unwrap();
    let message = "mymessage".to_string().to_mmqp_binary().unwrap();

    let mut bytes = Vec::new();
    bytes.extend_from_slice(magic);
    bytes.extend(b"|");
    bytes.extend_from_slice(&version_bytes);
    bytes.extend(b"|");
    bytes.extend(b"M");
    bytes.extend(b"|");
    bytes.extend(username);
    bytes.extend(b":");
    bytes.extend(password);
    bytes.extend(b"|");
    bytes.extend(queuename);
    bytes.extend(b"|");
    bytes.extend(message);

    let res: MmqpTcpFormat = parse_tcp_request(bytes);

    match res {
        MmqpTcpFormat::Message(m) => {
            assert_eq!(m.username, "myusername");
            assert_eq!(m.password, "password");
            assert_eq!(m.target_queue, "myqueuename");
            assert_eq!(m.message, "mymessage");
            assert_eq!(m.message_group, "main");
            assert_eq!((m.version_major, m.version_minor), (0, 1));
        }
        _ => {
            assert!(false);
        }
    }
}

#[test]
fn test_object_parse() {
    let message: MmqpMessage = MmqpMessage {
        version_major: 0,
        version_minor: 1,
        username: "myusername".to_string(),
        password: "password".to_string(),
        target_queue: "myqueuename".to_string(),
        message: "mymessage".to_string(),
        message_group: "".to_string(),
    };

    let bytes = message.serialise(SerialisationStrategy::Storage);
    let encl = bytes[0];
    //skip the number of bytes listed by encl
    let mut bytes = &bytes[1..];
    bytes = &bytes[encl as usize..];

    let res: MmqpTcpFormat = parse_tcp_request(Vec::from(bytes));

    match res {
        MmqpTcpFormat::Message(m) => {
            assert_eq!(m, message);
        }
        _ => {
            println!("{:?}", res);
            assert!(false);
        }
    }
}

#[test]
fn publish_scenario_parses_back() {
    let message = MmqpMessage {
        version_major: 0,
        version_minor: 1,
        username: "u".to_string(),
        password: "p".to_string(),
        target_queue: "q1".to_string(),
        message: "hello".to_string(),
        message_group: "g".to_string(),
    };
    let bytes = message.serialise(SerialisationStrategy::Wire).to_vec();
    match parse_tcp_request(bytes) {
        MmqpTcpFormat::Message(m) => {
            assert_eq!(m.target_queue, "q1");
            assert_eq!(m.message, "hello");
            assert_eq!(m.message_group, "g");
        }
        other => panic!("expected a publish request, got {:?}", other),
    }
}

#[test]
fn unknown_command_is_ping() {
    let mut bytes = b"MMQP|0.1|X|".to_vec();
    bytes.extend(b"rest");
    assert!(matches!(parse_tcp_request(bytes), MmqpTcpFormat::Ping));
}

#[test]
fn short_or_malformed_request_is_ping() {
    assert!(matches!(parse_tcp_request(b"MMQP".to_vec()), MmqpTcpFormat::Ping));
    let mut bytes = b"MMQP|0.1|M|".to_vec();
    bytes.push(9);
    assert!(matches!(parse_tcp_request(bytes), MmqpTcpFormat::Ping));
}

fn poll_bytes(queue: &str, count: usize) -> Vec<u8> {
    let mut bytes = b"MMQP|0.1|P|".to_vec();
    bytes.extend(queue.to_string().to_mmqp_binary().unwrap());
    bytes.push(b'|');
    bytes.extend(count.to_mmqp_binary().unwrap());
    bytes
}

#[test]
fn poll_request_parses() {
    match parse_tcp_request(poll_bytes("orders", 5)) {
        MmqpTcpFormat::Poll(queue, count) => {
            assert_eq!(queue, "orders");
            assert_eq!(count, 5);
        }
        other => panic!("expected a poll request, got {:?}", other),
    }
}

#[test]
fn poll_count_beyond_u32_is_ping() {
    let bytes = poll_bytes("orders", (u32::MAX as usize) + 1);
    assert!(matches!(parse_tcp_request(bytes), MmqpTcpFormat::Ping));
}
