//! Turns a raw request into a typed request.
use crate::encoding::{
    decode_length, decode_string, encode_string, lemma_decode_length_bound, lemma_decode_string_at,
    read_length, read_string,
};
use crate::serialiser::{
    decode_field, encode_field, expect_byte, lemma_decode_field_advances, lemma_decode_field_at,
    lemma_split_at, publish_envelope, publish_header, read_expected, read_field, MmqpMessage,
    PublishView, COLON, MARK_M, MARK_P, PIPE, PUBLISH_HEADER_LEN, TERMINATOR,
};
use vstd::prelude::*;

verus! {

/// A request as the broker receives it.
#[derive(Debug)]
pub enum MmqpTcpFormat {
    /// Place a message in the queue that it names.
    Message(MmqpMessage),
    Admin,
    /// Keep the connection for a number of seconds, waiting on a queue.
    LongPoll(u32, String),
    /// Queue and message identifier.
    Del(String, String),
    /// Queue and the largest number of messages to hand out.
    Poll(String, u32),
    Ping,
}

/// The content of a request.
pub enum RequestView {
    Message(PublishView),
    Admin,
    LongPoll(u32, Seq<char>),
    Del(Seq<char>, Seq<char>),
    Poll(Seq<char>, u32),
    Ping,
}

impl View for MmqpTcpFormat {
    type V = RequestView;

    open spec fn view(&self) -> RequestView {
        match self {
            MmqpTcpFormat::Message(m) => RequestView::Message(m@),
            MmqpTcpFormat::Admin => RequestView::Admin,
            MmqpTcpFormat::LongPoll(d, q) => RequestView::LongPoll(*d, q@),
            MmqpTcpFormat::Del(q, id) => RequestView::Del(q@, id@),
            MmqpTcpFormat::Poll(q, c) => RequestView::Poll(q@, *c),
            MmqpTcpFormat::Ping => RequestView::Ping,
        }
    }
}

/// Position of the command byte.
pub const COMMAND_POS: usize = 9;

/// The group of a published message whose request names none.
pub open spec fn default_group() -> Seq<char> {
    "main"@
}

/// The body of a publish request at `pos`: `username:password|target_queue|`,
/// then either `message_group|message` or just `message`.
#[verifier::opaque]
pub open spec fn parse_publish_body(b: Seq<u8>, pos: int, major: u8, minor: u8) -> Option<
    PublishView,
> {
    match decode_field(b, pos, COLON) {
        Err(_) => None,
        Ok((username, e1)) => match decode_field(b, e1, PIPE) {
            Err(_) => None,
            Ok((password, e2)) => match decode_field(b, e2, PIPE) {
                Err(_) => None,
                Ok((target_queue, e3)) => match decode_string(b, e3) {
                    Err(_) => None,
                    Ok((x, e4)) => if expect_byte(b, e4, PIPE) is Ok {
                        match decode_string(b, e4 + 1) {
                            Err(_) => None,
                            Ok((message, _)) => Some(
                                PublishView {
                                    version_major: major,
                                    version_minor: minor,
                                    username,
                                    password,
                                    target_queue,
                                    message,
                                    message_group: x,
                                },
                            ),
                        }
                    } else {
                        Some(
                            PublishView {
                                version_major: major,
                                version_minor: minor,
                                username,
                                password,
                                target_queue,
                                message: x,
                                message_group: default_group(),
                            },
                        )
                    },
                },
            },
        },
    }
}

/// The body of a poll request at `pos`: `target_queue|` and the largest
/// number of messages to hand out, as an encoded integer.
#[verifier::opaque]
pub open spec fn parse_poll_body(b: Seq<u8>, pos: int) -> Option<(Seq<char>, u32)> {
    match decode_field(b, pos, PIPE) {
        Err(_) => None,
        Ok((queue, e1)) => match decode_length(b, e1) {
            Ok((count, _)) => if count <= u32::MAX {
                Some((queue, count as u32))
            } else {
                None
            },
            Err(_) => None,
        },
    }
}

/// What a raw request asks for. The marker and separators of the header are
/// skipped unread. The command `M` publishes and `P` polls; anything else,
/// and any body that does not parse, is a ping.
pub open spec fn parse_request(b: Seq<u8>) -> RequestView {
    if b.len() < PUBLISH_HEADER_LEN {
        RequestView::Ping
    } else if b[COMMAND_POS as int] == MARK_M {
        match parse_publish_body(b, PUBLISH_HEADER_LEN as int, b[5], b[7]) {
            Some(m) => RequestView::Message(m),
            None => RequestView::Ping,
        }
    } else if b[COMMAND_POS as int] == MARK_P {
        match parse_poll_body(b, PUBLISH_HEADER_LEN as int) {
            Some((queue, count)) => RequestView::Poll(queue, count),
            None => RequestView::Ping,
        }
    } else {
        RequestView::Ping
    }
}

/// Parses a raw request. Anything that is not a well-formed publish or poll
/// request is taken as a ping.
pub fn parse_tcp_request(request: Vec<u8>) -> (r: MmqpTcpFormat)
    ensures
        r@ == parse_request(request@),
{
    if request.len() < PUBLISH_HEADER_LEN {
        return MmqpTcpFormat::Ping;
    }
    if request[COMMAND_POS] == MARK_M {
        let version_major = request[5];
        let version_minor = request[7];
        match parse_as_message(request.as_slice(), version_major, version_minor) {
            Some(m) => MmqpTcpFormat::Message(m),
            None => MmqpTcpFormat::Ping,
        }
    } else if request[COMMAND_POS] == MARK_P {
        match parse_as_poll(request.as_slice()) {
            Some((queue, count)) => MmqpTcpFormat::Poll(queue, count),
            None => MmqpTcpFormat::Ping,
        }
    } else {
        MmqpTcpFormat::Ping
    }
}

fn parse_as_poll(b: &[u8]) -> (r: Option<(String, u32)>)
    requires
        b@.len() >= PUBLISH_HEADER_LEN,
    ensures
        match parse_poll_body(b@, PUBLISH_HEADER_LEN as int) {
            Some((queue, count)) => r matches Some((q, c)) && q@ == queue && c == count,
            None => r is None,
        },
{
    reveal(parse_poll_body);
    let mut cursor: usize = PUBLISH_HEADER_LEN;
    proof {
        lemma_decode_field_advances(b@, PUBLISH_HEADER_LEN as int, PIPE);
    }
    let queue = match read_field(b, &mut cursor, PIPE) {
        Ok(s) => s,
        Err(_) => return None,
    };
    proof {
        lemma_decode_length_bound(b@, cursor as int);
    }
    match read_length(b, &mut cursor) {
        Ok(count) => {
            if count <= u32::MAX as u64 {
                Some((queue, count as u32))
            } else {
                None
            }
        },
        Err(_) => None,
    }
}

fn parse_as_message(b: &[u8], version_major: u8, version_minor: u8) -> (r: Option<MmqpMessage>)
    requires
        b@.len() >= PUBLISH_HEADER_LEN,
    ensures
        match parse_publish_body(b@, PUBLISH_HEADER_LEN as int, version_major, version_minor) {
            Some(m) => r matches Some(x) && x@ == m,
            None => r is None,
        },
{
    reveal(parse_publish_body);
    let mut cursor: usize = PUBLISH_HEADER_LEN;
    proof {
        lemma_decode_field_advances(b@, PUBLISH_HEADER_LEN as int, COLON);
    }
    let username = match read_field(b, &mut cursor, COLON) {
        Ok(s) => s,
        Err(_) => return None,
    };
    let password = match read_field(b, &mut cursor, PIPE) {
        Ok(s) => s,
        Err(_) => return None,
    };
    let target_queue = match read_field(b, &mut cursor, PIPE) {
        Ok(s) => s,
        Err(_) => return None,
    };
    proof {
        lemma_decode_length_bound(b@, cursor as int);
    }
    let x = match read_string(b, &mut cursor) {
        Ok(s) => s,
        Err(_) => return None,
    };
    match read_expected(b, &mut cursor, PIPE) {
        Ok(()) => {
            let message = match read_string(b, &mut cursor) {
                Ok(s) => s,
                Err(_) => return None,
            };
            Some(
                MmqpMessage {
                    version_major,
                    version_minor,
                    username,
                    password,
                    target_queue,
                    message,
                    message_group: x,
                },
            )
        },
        Err(_) => Some(
            MmqpMessage {
                version_major,
                version_minor,
                username,
                password,
                target_queue,
                message: x,
                message_group: "main".to_owned(),
            },
        ),
    }
}

/// The body parses to a message where its five fields decode in turn.
proof fn lemma_body_of_fields(b: Seq<u8>, m: PublishView, e1: int, e2: int, e3: int, e4: int, e5: int)
    requires
        decode_field(b, e1, COLON) == Ok::<(Seq<char>, int), crate::MmqpError>((m.username, e2)),
        decode_field(b, e2, PIPE) == Ok::<(Seq<char>, int), crate::MmqpError>((m.password, e3)),
        decode_field(b, e3, PIPE) == Ok::<(Seq<char>, int), crate::MmqpError>((m.target_queue, e4)),
        decode_field(b, e4, PIPE) == Ok::<(Seq<char>, int), crate::MmqpError>((m.message_group, e5)),
        decode_string(b, e5) matches Ok((x, _)) && x == m.message,
    ensures
        parse_publish_body(b, e1, m.version_major, m.version_minor) == Some(m),
{
    reveal(parse_publish_body);
    let (g, q) = decode_string(b, e4)->Ok_0;
    assert(expect_byte(b, q, PIPE) == Ok::<int, crate::MmqpError>(e5));
}

/// A publish message serialised for the wire parses back as a request to
/// publish that same message.
pub proof fn law_parse_wire_publish(m: PublishView)
    requires
        publish_envelope(m).len() <= u64::MAX,
    ensures
        parse_request(publish_envelope(m)) == RequestView::Message(m),
{
    let b = publish_envelope(m);
    let h = publish_header(m.version_major, m.version_minor);
    let f1 = encode_field(m.username, COLON);
    let f2 = encode_field(m.password, PIPE);
    let f3 = encode_field(m.target_queue, PIPE);
    let f4 = encode_field(m.message_group, PIPE);
    let f5 = encode_field(m.message, TERMINATOR);
    let e1 = h.len() as int;
    let e2 = e1 + f1.len();
    let e3 = e2 + f2.len();
    let e4 = e3 + f3.len();
    let e5 = e4 + f4.len();
    assert(b.subrange(0, b.len() as int) =~= b);
    lemma_split_at(b, 0, h, f1 + (f2 + (f3 + (f4 + f5))));
    lemma_split_at(b, e1, f1, f2 + (f3 + (f4 + f5)));
    lemma_split_at(b, e2, f2, f3 + (f4 + f5));
    lemma_split_at(b, e3, f3, f4 + f5);
    lemma_split_at(b, e4, f4, f5);
    assert(b[5] == h[5] && b[7] == h[7] && b[9] == h[9]);
    lemma_decode_field_at(b, e1, m.username, COLON);
    lemma_decode_field_at(b, e2, m.password, PIPE);
    lemma_decode_field_at(b, e3, m.target_queue, PIPE);
    lemma_decode_field_at(b, e4, m.message_group, PIPE);
    let s = encode_string(m.message);
    assert(s + seq![TERMINATOR] =~= f5);
    lemma_split_at(b, e5, s, seq![TERMINATOR]);
    lemma_decode_string_at(b, e5, m.message);
    lemma_body_of_fields(b, m, e1, e2, e3, e4, e5);
}

} // verus!
