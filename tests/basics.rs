use mmqp::{
    MmqpEncoding, MmqpMessage, MmqpNormalisedMessage, MmqpSerialisable, Receivable,
    RotatingReadBuffers, SerialisationStrategy,
};

const LONG: &str = "This is a string i wish to encode!This is a string i wish to encode!This is a string i wish to encode!This is a string i wish to encode!This is a string i wish to encode!This is a string i wish to encode!This is a string i wish to encode!This is a string i wish to encode!This is a string i wish to encode!This is a string i wish to encode!This is a string i wish to encode!This is a string i wish to encode!This is a string i wish to encode!This is a string i wish to encode!This is a string i wish to encode!This is a string i wish to encode!This is a string i wish to encode!This is a string i wish to encode!This is a string i wish to encode!This is a string i wish to encode!This is a string i wish to encode!This is a string i wish to encode!This is a string i wish to encode!This is a string i wish to encode!This is a string i wish to encode!";

fn sample_normalised() -> MmqpNormalisedMessage {
    MmqpMessage::new().normalise(1_700_000_000_000, [7u8; 64])
}

#[test]
fn test() {
    println!("compiles")
}

#[test]
fn push_messages() {
    let mut readers: RotatingReadBuffers<MmqpMessage> = RotatingReadBuffers::new(4, 65536);

    readers.push_value(MmqpMessage::new());
    let val = readers.next();
    assert_eq!(val.is_some(), true, "A message exists. should be some");

    let val = readers.next();
    assert_eq!(val.is_none(), true, "The message has been read. There are none left. Should be none");

    readers.push_value(MmqpMessage::new());
    assert_ne!(val.is_some(), true, "Another message has been added. Should be some");
}

#[test]
fn test_serialise_size() {
    let message = sample_normalised();

    let bytes = message.serialise(SerialisationStrategy::Storage);

    println!("size after serialise {}", bytes.len());

    let raw = MmqpNormalisedMessage::raw(&bytes.to_vec(), &mut 0).unwrap();

    assert_eq!(raw.len(), bytes.len());
}

#[test]
fn raw_receive() {
    let message = sample_normalised();

    let bytes = message.serialise(SerialisationStrategy::Storage).to_vec();

    let raw = MmqpNormalisedMessage::raw(&bytes, &mut 0).unwrap();

    let mut readers: RotatingReadBuffers<MmqpNormalisedMessage> = RotatingReadBuffers::new(4, 65536);

    readers.push_value(message);
    let val = readers.next_raw();
    assert_eq!(val.is_some(), true, "A message exists. should be some");
    let v = val.unwrap();
    assert_eq!(v.len(), raw.len(), "Read raw length should be same as the raw length taken directly");

    let val = readers.next_raw();
    assert_eq!(val.is_none(), true, "The message has been read. There are none left. Should be none");

    readers.push_value(sample_normalised());
    readers.push_value(sample_normalised());
    readers.push_value(sample_normalised());
    readers.push_value(sample_normalised());

    for _ in 0..4 {
        let val = readers.next();
        assert_eq!(val.is_some(), true, "should have 4 messages here");
    }

    for _ in 0..7 {
        let val = readers.next();
        assert_eq!(val.is_none(), true, "The message has been read. There are none left. Should be none");
    }
}

#[test]
fn it_works() {
    let result = 2 + 2;
    assert_eq!(result, 4);
}

#[test]
fn check_string() {
    let string: String = LONG.to_string();
    let bytes = string.to_mmqp_binary();

    println!("{:?}", bytes)
}

#[test]
fn decode_string() {
    let first: String = LONG.to_string().repeat(150).repeat(50);
    let second: String = "this string is appended to the previous on the packed binary format"
        .to_string()
        .repeat(55)
        .repeat(13);

    println!("length: {:?}", first.clone().to_mmqp_binary().unwrap().len());
    let mut bytes = first.to_mmqp_binary().unwrap();
    bytes.extend(second.to_mmqp_binary().unwrap());
    let mut cursor = 0usize;
    let string2 = String::from_mmqp_binary(&bytes, &mut cursor).unwrap();
    let string3 = String::from_mmqp_binary(&bytes, &mut cursor).unwrap();

    assert_eq!(string2.to_mmqp_binary().unwrap().len(), string2.mmqp_binary_size());

    assert_eq!(first, string2, "The first string is not properly extracted");
    assert_eq!(string3, second, "The first string is not properly extracted");
    assert_eq!(cursor, bytes.len(), "The cursor is not at the end of the second string after extracting both");
}

#[test]
fn encode_message() {
    let message = MmqpMessage {
        username: "testusername".to_string(),
        password: "testpassword".to_string(),
        target_queue: "testqueue".to_string(),
        message: "this is a message".to_string(),
        version_major: 0,
        version_minor: 1,
        message_group: "mainmessagegroup".to_string(),
    };

    let binary = message.serialise(SerialisationStrategy::Storage);
    let mut cursor = 0usize;
    let recreated =
        MmqpMessage::deserialise(&binary.to_vec(), &mut cursor, SerialisationStrategy::Storage)
            .unwrap();

    assert_eq!(message, recreated)
}

#[test]
fn compiles() {
    println!("compiles");
}
