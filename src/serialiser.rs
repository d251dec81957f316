//! Envelopes: the messages that travel on the wire and sit in storage.
use crate::encoding::{
    decode_length, decode_string, encode_length, encode_string, lemma_decode_length_at,
    lemma_decode_length_bound, lemma_decode_string_at, decode_payload, read_length, read_payload, read_string, string_size,
    write_length, write_string,
};
use vstd::utf8::encode_utf8;
use crate::MmqpError;
use vstd::prelude::*;

verus! {

/// `Wire` sends the envelope bytes as they are; `Storage` puts the encoded
/// envelope length in front so that envelopes can stand back to back.
#[derive(Debug, Clone, Copy, PartialEq, Eq, Structural)]
pub enum SerialisationStrategy {
    Wire,
    Storage,
}

pub const MARK_M: u8 = 77;

pub const MARK_Q: u8 = 81;

pub const MARK_P: u8 = 80;

pub const PIPE: u8 = 124;

pub const DOT: u8 = 46;

pub const COLON: u8 = 58;

pub const TERMINATOR: u8 = 0;

/// The bytes of an envelope as the strategy frames them.
pub open spec fn frame(payload: Seq<u8>, strategy: SerialisationStrategy) -> Seq<u8> {
    match strategy {
        SerialisationStrategy::Wire => payload,
        SerialisationStrategy::Storage => encode_length(payload.len()) + payload,
    }
}

/// A storage frame at `pos`, taken verbatim with its length prefix, and the position after it.
pub open spec fn decode_frame(b: Seq<u8>, pos: int) -> Result<(Seq<u8>, int), MmqpError> {
    match decode_length(b, pos) {
        Ok((len, p)) => if p + len > b.len() {
            Err(MmqpError::TruncatedMessage)
        } else {
            Ok((b.subrange(pos, p + len), p + len))
        },
        Err(e) => Err(e),
    }
}

/// The bytes `b` are one whole storage frame.
pub open spec fn is_frame(b: Seq<u8>) -> bool {
    decode_frame(b, 0) == Ok::<(Seq<u8>, int), MmqpError>((b, b.len() as int))
}

/// One byte that must be `x` at `pos`; the position after it.
pub open spec fn expect_byte(b: Seq<u8>, pos: int, x: u8) -> Result<int, MmqpError> {
    if pos < 0 || pos >= b.len() {
        Err(MmqpError::TruncatedMessage)
    } else if b[pos] != x {
        Err(MmqpError::InvalidEncoding)
    } else {
        Ok(pos + 1)
    }
}

/// An encoded string followed by the byte `sep`.
pub open spec fn encode_field(s: Seq<char>, sep: u8) -> Seq<u8> {
    encode_string(s).push(sep)
}

/// Decoding of an encoded string followed by the byte `sep`.
pub open spec fn decode_field(b: Seq<u8>, pos: int, sep: u8) -> Result<(Seq<char>, int), MmqpError> {
    match decode_string(b, pos) {
        Ok((s, p)) => match expect_byte(b, p, sep) {
            Ok(end) => Ok((s, end)),
            Err(e) => Err(e),
        },
        Err(e) => Err(e),
    }
}

/// Where `x + y` stands at `pos`, `x` stands at `pos` and `y` right after it.
pub proof fn lemma_split_at(b: Seq<u8>, pos: int, x: Seq<u8>, y: Seq<u8>)
    requires
        0 <= pos,
        pos + (x + y).len() <= b.len(),
        b.subrange(pos, pos + (x + y).len()) == x + y,
    ensures
        b.subrange(pos, pos + x.len()) == x,
        b.subrange(pos + x.len(), pos + x.len() + y.len()) == y,
{
    assert(b.subrange(pos, pos + x.len()) =~= (x + y).subrange(0, x.len() as int));
    assert(b.subrange(pos + x.len(), pos + x.len() + y.len()) =~= (x + y).subrange(
        x.len() as int,
        (x + y).len() as int,
    ));
}

pub proof fn lemma_decode_field_at(b: Seq<u8>, pos: int, s: Seq<char>, sep: u8)
    requires
        encode_utf8(s).len() <= u64::MAX,
        0 <= pos,
        pos + encode_field(s, sep).len() <= b.len(),
        b.subrange(pos, pos + encode_field(s, sep).len()) == encode_field(s, sep),
    ensures
        decode_field(b, pos, sep) == Ok::<(Seq<char>, int), MmqpError>(
            (s, pos + encode_field(s, sep).len()),
        ),
{
    assert(encode_string(s) + seq![sep] =~= encode_field(s, sep));
    lemma_split_at(b, pos, encode_string(s), seq![sep]);
    lemma_decode_string_at(b, pos, s);
    assert(b[pos + encode_string(s).len()] == b.subrange(
        pos + encode_string(s).len(),
        pos + encode_string(s).len() + 1,
    )[0]);
}

/// A message envelope with a binary form.
pub trait MmqpSerialisable: Sized + View {
    /// The envelope bytes of a message whose view is `m`, with no outer prefix.
    spec fn spec_envelope(m: Self::V) -> Seq<u8>;

    /// What reading an envelope at `pos` gives: the message and the position after it.
    spec fn spec_parse_envelope(b: Seq<u8>, pos: int) -> Result<(Self::V, int), MmqpError>;

    /// The views that values of the type have.
    spec fn spec_valid(m: Self::V) -> bool;

    /// Reading an envelope where the envelope of `m` stands gives `m` and moves past it.
    proof fn lemma_parse_envelope(b: Seq<u8>, pos: int, m: Self::V)
        requires
            Self::spec_valid(m),
            Self::spec_envelope(m).len() <= u64::MAX,
            0 <= pos,
            pos + Self::spec_envelope(m).len() <= b.len(),
            b.subrange(pos, pos + Self::spec_envelope(m).len()) == Self::spec_envelope(m),
        ensures
            Self::spec_parse_envelope(b, pos) == Ok::<(Self::V, int), MmqpError>(
                (m, pos + Self::spec_envelope(m).len()),
            ),
    ;

    fn serialise(&self, strategy: SerialisationStrategy) -> (r: Box<[u8]>)
        ensures
            r@ == frame(Self::spec_envelope(self@), strategy),
            Self::spec_valid(self@),
    ;

    fn deserialise(message_binary: &[u8], cursor: &mut usize, strategy: SerialisationStrategy) -> (r:
        Result<Self, MmqpError>)
        ensures
            match parse_framed_by(
                message_binary@,
                *old(cursor) as int,
                strategy,
                |p: int| Self::spec_parse_envelope(message_binary@, p),
            ) {
                Ok((m, end)) => r matches Ok(x) && x@ == m && *final(cursor) == end,
                Err(e) => r matches Err(x) && x == e && *final(cursor) == *old(cursor),
            },
    ;

    /// What `raw` takes at `pos` from a storage frame there, and the position after the frame.
    spec fn spec_raw(b: Seq<u8>, pos: int) -> Result<(Seq<u8>, int), MmqpError>;

    /// From a whole storage frame `raw` takes something, and consumes the whole frame.
    proof fn lemma_raw_of_frame(f: Seq<u8>)
        requires
            is_frame(f),
        ensures
            Self::spec_raw(f, 0) matches Ok((_, end)) && end == f.len(),
    ;

    /// Takes the storage frame at the cursor without decoding the message in it.
    fn raw(message_binary: &[u8], cursor: &mut usize) -> (r: Result<Vec<u8>, MmqpError>)
        ensures
            match Self::spec_raw(message_binary@, *old(cursor) as int) {
                Ok((bytes, end)) => r matches Ok(x) && x@ == bytes && *final(cursor) == end,
                Err(e) => r == Err::<Vec<u8>, MmqpError>(e) && *final(cursor) == *old(cursor),
            },
    ;

    /// Number of envelope bytes, without any outer prefix.
    fn get_size(&self) -> (r: usize)
        requires
            Self::spec_envelope(self@).len() <= usize::MAX,
        ensures
            r == Self::spec_envelope(self@).len(),
    ;
}

/// What deserialising at `pos` gives under a strategy, where `envelope_at(p)`
/// is what reading an envelope at `p` gives. A storage frame must hold
/// exactly one envelope.
pub open spec fn parse_framed_by<V>(
    b: Seq<u8>,
    pos: int,
    strategy: SerialisationStrategy,
    envelope_at: spec_fn(int) -> Result<(V, int), MmqpError>,
) -> Result<(V, int), MmqpError> {
    match strategy {
        SerialisationStrategy::Wire => envelope_at(pos),
        SerialisationStrategy::Storage => match decode_length(b, pos) {
            Ok((len, p)) => match envelope_at(p) {
                Ok((m, end)) => if end == p + len {
                    Ok((m, end))
                } else {
                    Err(MmqpError::InvalidEncoding)
                },
                Err(e) => Err(e),
            },
            Err(e) => Err(e),
        },
    }
}

/// What deserialising a `T` at `pos` gives under a strategy.
pub open spec fn parse_framed<T: MmqpSerialisable>(
    b: Seq<u8>,
    pos: int,
    strategy: SerialisationStrategy,
) -> Result<(T::V, int), MmqpError> {
    parse_framed_by(b, pos, strategy, |p: int| T::spec_parse_envelope(b, p))
}

/// The message that a whole storage frame holds, if it holds one.
pub open spec fn frame_value<T: MmqpSerialisable>(f: Seq<u8>) -> Option<T::V> {
    match parse_framed::<T>(f, 0, SerialisationStrategy::Storage) {
        Ok((m, end)) => if end == f.len() {
            Some(m)
        } else {
            None
        },
        Err(_) => None,
    }
}

/// Deserialising where a serialised message stands gives the message back
/// and moves exactly past it, under either strategy.
pub proof fn lemma_parse_framed_at<T: MmqpSerialisable>(
    b: Seq<u8>,
    pos: int,
    m: T::V,
    strategy: SerialisationStrategy,
)
    requires
        T::spec_valid(m),
        frame(T::spec_envelope(m), strategy).len() <= u64::MAX,
        0 <= pos,
        pos + frame(T::spec_envelope(m), strategy).len() <= b.len(),
        b.subrange(pos, pos + frame(T::spec_envelope(m), strategy).len()) == frame(
            T::spec_envelope(m),
            strategy,
        ),
    ensures
        parse_framed::<T>(b, pos, strategy) == Ok::<(T::V, int), MmqpError>(
            (m, pos + frame(T::spec_envelope(m), strategy).len()),
        ),
{
    let env = T::spec_envelope(m);
    match strategy {
        SerialisationStrategy::Wire => {
            T::lemma_parse_envelope(b, pos, m);
        },
        SerialisationStrategy::Storage => {
            let hdr = encode_length(env.len());
            lemma_split_at(b, pos, hdr, env);
            lemma_decode_length_at(b, pos, env.len());
            T::lemma_parse_envelope(b, pos + hdr.len(), m);
        },
    }
}

/// A storage frame of a serialised message is one whole frame, and it holds that message.
pub proof fn lemma_storage_frame<T: MmqpSerialisable>(m: T::V)
    requires
        T::spec_valid(m),
        frame(T::spec_envelope(m), SerialisationStrategy::Storage).len() <= u64::MAX,
    ensures
        is_frame(frame(T::spec_envelope(m), SerialisationStrategy::Storage)),
        frame_value::<T>(frame(T::spec_envelope(m), SerialisationStrategy::Storage)) == Some(m),
{
    let f = frame(T::spec_envelope(m), SerialisationStrategy::Storage);
    let env = T::spec_envelope(m);
    let hdr = encode_length(env.len());
    assert(f.subrange(0, f.len() as int) =~= f);
    lemma_parse_framed_at::<T>(f, 0, m, SerialisationStrategy::Storage);
    lemma_split_at(f, 0, hdr, env);
    lemma_decode_length_at(f, 0, env.len());
}

/// Relies on `Vec::into_boxed_slice`: the boxed slice holds the same bytes.
#[verifier::external_body]
fn into_boxed(v: Vec<u8>) -> (r: Box<[u8]>)
    ensures
        r@ == v@,
{
    v.into_boxed_slice()
}

/// Frames envelope bytes as the strategy asks.
pub fn frame_envelope(envelope: Vec<u8>, strategy: SerialisationStrategy) -> (r: Box<[u8]>)
    ensures
        r@ == frame(envelope@, strategy),
{
    match strategy {
        SerialisationStrategy::Wire => into_boxed(envelope),
        SerialisationStrategy::Storage => {
            let mut prefix: Vec<u8> = Vec::new();
            write_length(&mut prefix, envelope.len() as u64);
            let ghost hdr = prefix@;
            let mut i: usize = 0;
            while i < envelope.len()
                invariant
                    i <= envelope@.len(),
                    prefix@ == hdr + envelope@.subrange(0, i as int),
                decreases envelope@.len() - i,
            {
                prefix.push(envelope[i]);
                i = i + 1;
                assert(prefix@ =~= hdr + envelope@.subrange(0, i as int));
            }
            assert(envelope@.subrange(0, envelope@.len() as int) =~= envelope@);
            into_boxed(prefix)
        },
    }
}

/// Reads a storage frame at the cursor verbatim and moves the cursor past it.
/// On failure the cursor stays where it was.
pub fn read_frame(b: &[u8], cursor: &mut usize) -> (r: Result<Vec<u8>, MmqpError>)
    ensures
        match decode_frame(b@, *old(cursor) as int) {
            Ok((bytes, end)) => r matches Ok(x) && x@ == bytes && *final(cursor) == end,
            Err(e) => r == Err::<Vec<u8>, MmqpError>(e) && *final(cursor) == *old(cursor),
        },
{
    let start = *cursor;
    proof {
        lemma_decode_length_bound(b@, start as int);
    }
    let len = match read_length(b, cursor) {
        Ok(len) => len,
        Err(e) => return Err(e),
    };
    let p = *cursor;
    if len > (b.len() - p) as u64 {
        *cursor = start;
        return Err(MmqpError::TruncatedMessage);
    }
    let end = p + len as usize;
    let mut out: Vec<u8> = Vec::new();
    let mut i: usize = start;
    while i < end
        invariant
            start <= i <= end <= b@.len(),
            out@ == b@.subrange(start as int, i as int),
        decreases end - i,
    {
        out.push(b[i]);
        i = i + 1;
        assert(out@ =~= b@.subrange(start as int, i as int));
    }
    *cursor = end;
    Ok(out)
}

/// Reads one byte that must be `x` and moves the cursor past it.
/// On failure the cursor stays where it was.
pub fn read_expected(b: &[u8], cursor: &mut usize, x: u8) -> (r: Result<(), MmqpError>)
    ensures
        match expect_byte(b@, *old(cursor) as int, x) {
            Ok(end) => r is Ok && *final(cursor) == end,
            Err(e) => r == Err::<(), MmqpError>(e) && *final(cursor) == *old(cursor),
        },
{
    if *cursor >= b.len() {
        return Err(MmqpError::TruncatedMessage);
    }
    if b[*cursor] != x {
        return Err(MmqpError::InvalidEncoding);
    }
    *cursor = *cursor + 1;
    Ok(())
}

/// Reading a field moves forward and stays within the bytes.
pub proof fn lemma_decode_field_advances(b: Seq<u8>, pos: int, sep: u8)
    ensures
        decode_field(b, pos, sep) matches Ok((_, end)) ==> pos < end <= b.len(),
{
    lemma_decode_length_bound(b, pos);
}

/// Reads a string followed by the byte `sep` and moves the cursor past both.
/// On failure the cursor stays where it was.
pub fn read_field(b: &[u8], cursor: &mut usize, sep: u8) -> (r: Result<String, MmqpError>)
    ensures
        r is Ok ==> *old(cursor) < *final(cursor) <= b@.len(),
        match decode_field(b@, *old(cursor) as int, sep) {
            Ok((s, end)) => r matches Ok(x) && x@ == s && *final(cursor) == end,
            Err(e) => r matches Err(x) && x == e && *final(cursor) == *old(cursor),
        },
{
    let start = *cursor;
    proof {
        lemma_decode_field_advances(b@, start as int, sep);
    }
    let s = match read_string(b, cursor) {
        Ok(s) => s,
        Err(e) => return Err(e),
    };
    match read_expected(b, cursor, sep) {
        Ok(()) => Ok(s),
        Err(e) => {
            *cursor = start;
            Err(e)
        },
    }
}

/// Appends an encoded string followed by the byte `sep`.
pub fn write_field(out: &mut Vec<u8>, s: &String, sep: u8)
    ensures
        final(out)@ == old(out)@ + encode_field(s@, sep),
{
    write_string(out, s);
    out.push(sep);
    assert(out@ =~= old(out)@ + encode_field(s@, sep));
}


/// A message as a client publishes it.
#[derive(Debug, Clone, PartialEq, Eq)]
pub struct MmqpMessage {
    pub version_major: u8,
    pub version_minor: u8,
    pub username: String,
    pub password: String,
    pub target_queue: String,
    pub message: String,
    pub message_group: String,
}

/// The content of an `MmqpMessage`.
pub struct PublishView {
    pub version_major: u8,
    pub version_minor: u8,
    pub username: Seq<char>,
    pub password: Seq<char>,
    pub target_queue: Seq<char>,
    pub message: Seq<char>,
    pub message_group: Seq<char>,
}

impl View for MmqpMessage {
    type V = PublishView;

    open spec fn view(&self) -> PublishView {
        PublishView {
            version_major: self.version_major,
            version_minor: self.version_minor,
            username: self.username@,
            password: self.password@,
            target_queue: self.target_queue@,
            message: self.message@,
            message_group: self.message_group@,
        }
    }
}

/// Bytes before the first field: `MMQP|`, the version as `major.minor`, then `|M|`.
pub const PUBLISH_HEADER_LEN: usize = 11;

/// Fixed bytes of a publish envelope: the header, four separators and the terminator.
pub const PUBLISH_FIXED_LEN: usize = 16;

pub open spec fn publish_header(major: u8, minor: u8) -> Seq<u8> {
    seq![MARK_M, MARK_M, MARK_Q, MARK_P, PIPE, major, DOT, minor, PIPE, MARK_M, PIPE]
}

/// `MMQP|major.minor|M|username:password|target_queue|message_group|message` and a zero byte.
pub open spec fn publish_envelope(m: PublishView) -> Seq<u8> {
    publish_header(m.version_major, m.version_minor) + (encode_field(m.username, COLON) + (
    encode_field(m.password, PIPE) + (encode_field(m.target_queue, PIPE) + (encode_field(
        m.message_group,
        PIPE,
    ) + encode_field(m.message, TERMINATOR)))))
}

/// The fixed header bytes stand at `pos`; the two version bytes may be anything.
pub open spec fn publish_header_at(b: Seq<u8>, pos: int) -> bool {
    &&& b[pos] == MARK_M
    &&& b[pos + 1] == MARK_M
    &&& b[pos + 2] == MARK_Q
    &&& b[pos + 3] == MARK_P
    &&& b[pos + 4] == PIPE
    &&& b[pos + 6] == DOT
    &&& b[pos + 8] == PIPE
    &&& b[pos + 9] == MARK_M
    &&& b[pos + 10] == PIPE
}

/// Reading a publish envelope at `pos`.
#[verifier::opaque]
pub open spec fn parse_publish(b: Seq<u8>, pos: int) -> Result<(PublishView, int), MmqpError> {
    if pos < 0 || pos + PUBLISH_HEADER_LEN > b.len() {
        Err(MmqpError::TruncatedMessage)
    } else if !publish_header_at(b, pos) {
        Err(MmqpError::InvalidEncoding)
    } else {
        match decode_field(b, pos + PUBLISH_HEADER_LEN, COLON) {
            Err(e) => Err(e),
            Ok((username, e1)) => match decode_field(b, e1, PIPE) {
                Err(e) => Err(e),
                Ok((password, e2)) => match decode_field(b, e2, PIPE) {
                    Err(e) => Err(e),
                    Ok((target_queue, e3)) => match decode_field(b, e3, PIPE) {
                        Err(e) => Err(e),
                        Ok((message_group, e4)) => match decode_field(b, e4, TERMINATOR) {
                            Err(e) => Err(e),
                            Ok((message, e5)) => Ok(
                                (
                                    PublishView {
                                        version_major: b[pos + 5],
                                        version_minor: b[pos + 7],
                                        username,
                                        password,
                                        target_queue,
                                        message,
                                        message_group,
                                    },
                                    e5,
                                ),
                            ),
                        },
                    },
                },
            },
        }
    }
}

impl MmqpMessage {
    /// A sample message: version 0.1 to `queue1`, group `mg1`, with empty credentials.
    pub fn new() -> (r: MmqpMessage)
        ensures
            r.version_major == 0,
            r.version_minor == 1,
            r.username@ == Seq::<char>::empty(),
            r.password@ == Seq::<char>::empty(),
            r.message@ == "A message"@,
            r.message_group@ == "mg1"@,
            r.target_queue@ == "queue1"@,
    {
        MmqpMessage {
            password: String::new(),
            username: String::new(),
            message: "A message".to_owned(),
            version_minor: 1,
            version_major: 0,
            message_group: "mg1".to_owned(),
            target_queue: "queue1".to_owned(),
        }
    }
}

/// Reads a publish envelope at the cursor and moves the cursor past it.
/// On failure the cursor stays where it was.
fn read_publish(b: &[u8], cursor: &mut usize) -> (r: Result<MmqpMessage, MmqpError>)
    ensures
        r is Ok ==> *old(cursor) < *final(cursor) <= b@.len(),
        match parse_publish(b@, *old(cursor) as int) {
            Ok((m, end)) => r matches Ok(x) && x@ == m && *final(cursor) == end,
            Err(e) => r matches Err(x) && x == e && *final(cursor) == *old(cursor),
        },
{
    reveal(parse_publish);
    let start = *cursor;
    if start > b.len() || b.len() - start < PUBLISH_HEADER_LEN {
        return Err(MmqpError::TruncatedMessage);
    }
    if !(b[start] == MARK_M && b[start + 1] == MARK_M && b[start + 2] == MARK_Q && b[start + 3]
        == MARK_P && b[start + 4] == PIPE && b[start + 6] == DOT && b[start + 8] == PIPE && b[start
        + 9] == MARK_M && b[start + 10] == PIPE) {
        return Err(MmqpError::InvalidEncoding);
    }
    let version_major = b[start + 5];
    let version_minor = b[start + 7];
    let mut pos = start + PUBLISH_HEADER_LEN;
    let username = match read_field(b, &mut pos, COLON) {
        Ok(s) => s,
        Err(e) => return Err(e),
    };
    let password = match read_field(b, &mut pos, PIPE) {
        Ok(s) => s,
        Err(e) => return Err(e),
    };
    let target_queue = match read_field(b, &mut pos, PIPE) {
        Ok(s) => s,
        Err(e) => return Err(e),
    };
    let message_group = match read_field(b, &mut pos, PIPE) {
        Ok(s) => s,
        Err(e) => return Err(e),
    };
    let message = match read_field(b, &mut pos, TERMINATOR) {
        Ok(s) => s,
        Err(e) => return Err(e),
    };
    *cursor = pos;
    Ok(
        MmqpMessage {
            version_major,
            version_minor,
            username,
            password,
            target_queue,
            message,
            message_group,
        },
    )
}

impl MmqpSerialisable for MmqpMessage {
    open spec fn spec_envelope(m: PublishView) -> Seq<u8> {
        publish_envelope(m)
    }

    open spec fn spec_parse_envelope(b: Seq<u8>, pos: int) -> Result<(PublishView, int), MmqpError> {
        parse_publish(b, pos)
    }

    open spec fn spec_valid(m: PublishView) -> bool {
        true
    }

    proof fn lemma_parse_envelope(b: Seq<u8>, pos: int, m: PublishView) {
        reveal(parse_publish);
        let h = publish_header(m.version_major, m.version_minor);
        let f1 = encode_field(m.username, COLON);
        let f2 = encode_field(m.password, PIPE);
        let f3 = encode_field(m.target_queue, PIPE);
        let f4 = encode_field(m.message_group, PIPE);
        let f5 = encode_field(m.message, TERMINATOR);
        let e1 = pos + h.len();
        let e2 = e1 + f1.len();
        let e3 = e2 + f2.len();
        let e4 = e3 + f3.len();
        let e5 = e4 + f4.len();
        lemma_split_at(b, pos, h, f1 + (f2 + (f3 + (f4 + f5))));
        lemma_split_at(b, e1, f1, f2 + (f3 + (f4 + f5)));
        lemma_split_at(b, e2, f2, f3 + (f4 + f5));
        lemma_split_at(b, e3, f3, f4 + f5);
        lemma_split_at(b, e4, f4, f5);
        assert(b.subrange(pos, e1)[0] == b[pos]);
        assert(b.subrange(pos, e1)[1] == b[pos + 1]);
        assert(b.subrange(pos, e1)[2] == b[pos + 2]);
        assert(b.subrange(pos, e1)[3] == b[pos + 3]);
        assert(b.subrange(pos, e1)[4] == b[pos + 4]);
        assert(b.subrange(pos, e1)[5] == b[pos + 5]);
        assert(b.subrange(pos, e1)[6] == b[pos + 6]);
        assert(b.subrange(pos, e1)[7] == b[pos + 7]);
        assert(b.subrange(pos, e1)[8] == b[pos + 8]);
        assert(b.subrange(pos, e1)[9] == b[pos + 9]);
        assert(b.subrange(pos, e1)[10] == b[pos + 10]);
        lemma_decode_field_at(b, e1, m.username, COLON);
        lemma_decode_field_at(b, e2, m.password, PIPE);
        lemma_decode_field_at(b, e3, m.target_queue, PIPE);
        lemma_decode_field_at(b, e4, m.message_group, PIPE);
        lemma_decode_field_at(b, e5, m.message, TERMINATOR);
    }

    fn serialise(&self, strategy: SerialisationStrategy) -> (r: Box<[u8]>) {
        let mut b: Vec<u8> = Vec::new();
        b.push(MARK_M);
        b.push(MARK_M);
        b.push(MARK_Q);
        b.push(MARK_P);
        b.push(PIPE);
        b.push(self.version_major);
        b.push(DOT);
        b.push(self.version_minor);
        b.push(PIPE);
        b.push(MARK_M);
        b.push(PIPE);
        let ghost h = b@;
        assert(h =~= publish_header(self.version_major, self.version_minor));
        write_field(&mut b, &self.username, COLON);
        write_field(&mut b, &self.password, PIPE);
        write_field(&mut b, &self.target_queue, PIPE);
        write_field(&mut b, &self.message_group, PIPE);
        write_field(&mut b, &self.message, TERMINATOR);
        assert(b@ =~= publish_envelope(self@));
        frame_envelope(b, strategy)
    }

    fn deserialise(message_binary: &[u8], cursor: &mut usize, strategy: SerialisationStrategy) -> (r:
        Result<MmqpMessage, MmqpError>) {
        let start = *cursor;
        let mut pos = start;
        proof {
            lemma_decode_length_bound(message_binary@, start as int);
        }
        match strategy {
            SerialisationStrategy::Wire => {
                let m = read_publish(message_binary, &mut pos);
                if m.is_ok() {
                    *cursor = pos;
                }
                m
            },
            SerialisationStrategy::Storage => {
                let len = match read_length(message_binary, &mut pos) {
                    Ok(len) => len,
                    Err(e) => return Err(e),
                };
                let envelope_start = pos;
                let m = match read_publish(message_binary, &mut pos) {
                    Ok(m) => m,
                    Err(e) => return Err(e),
                };
                if (pos - envelope_start) as u64 != len {
                    return Err(MmqpError::InvalidEncoding);
                }
                *cursor = pos;
                Ok(m)
            },
        }
    }

    /// The envelope in the frame, without the length prefix.
    open spec fn spec_raw(b: Seq<u8>, pos: int) -> Result<(Seq<u8>, int), MmqpError> {
        decode_payload(b, pos)
    }

    proof fn lemma_raw_of_frame(f: Seq<u8>) {
    }

    fn raw(message_binary: &[u8], cursor: &mut usize) -> (r: Result<Vec<u8>, MmqpError>) {
        read_payload(message_binary, cursor)
    }

    fn get_size(&self) -> (r: usize) {
        proof {
            assert(publish_envelope(self@).len() == PUBLISH_FIXED_LEN + encode_string(
                self.username@,
            ).len() + encode_string(self.password@).len() + encode_string(self.target_queue@).len()
                + encode_string(self.message_group@).len() + encode_string(self.message@).len());
        }
        let mut s: usize = PUBLISH_FIXED_LEN;
        s = s + string_size(&self.password);
        s = s + string_size(&self.target_queue);
        s = s + string_size(&self.username);
        s = s + string_size(&self.message_group);
        s = s + string_size(&self.message);
        s
    }
}


/// Envelope round trip: deserialising what `serialise` gives, under the same
/// strategy, gives the message back and consumes exactly those bytes.
pub proof fn law_envelope_round_trip<T: MmqpSerialisable>(m: T::V, strategy: SerialisationStrategy)
    requires
        T::spec_valid(m),
        frame(T::spec_envelope(m), strategy).len() <= u64::MAX,
    ensures
        parse_framed::<T>(frame(T::spec_envelope(m), strategy), 0, strategy) == Ok::<
            (T::V, int),
            MmqpError,
        >((m, frame(T::spec_envelope(m), strategy).len() as int)),
{
    let f = frame(T::spec_envelope(m), strategy);
    assert(f.subrange(0, f.len() as int) =~= f);
    lemma_parse_framed_at::<T>(f, 0, m, strategy);
}

/// Concatenation: two storage frames back to back are read in order from
/// position 0, and the second read ends at the end of the buffer.
pub proof fn law_storage_concatenation<T: MmqpSerialisable>(m1: T::V, m2: T::V)
    requires
        T::spec_valid(m1),
        T::spec_valid(m2),
        frame(T::spec_envelope(m1), SerialisationStrategy::Storage).len() + frame(
            T::spec_envelope(m2),
            SerialisationStrategy::Storage,
        ).len() <= u64::MAX,
    ensures
        ({
            let f1 = frame(T::spec_envelope(m1), SerialisationStrategy::Storage);
            let f2 = frame(T::spec_envelope(m2), SerialisationStrategy::Storage);
            &&& parse_framed::<T>(f1 + f2, 0, SerialisationStrategy::Storage) == Ok::<
                (T::V, int),
                MmqpError,
            >((m1, f1.len() as int))
            &&& parse_framed::<T>(f1 + f2, f1.len() as int, SerialisationStrategy::Storage) == Ok::<
                (T::V, int),
                MmqpError,
            >((m2, (f1 + f2).len() as int))
        }),
{
    let f1 = frame(T::spec_envelope(m1), SerialisationStrategy::Storage);
    let f2 = frame(T::spec_envelope(m2), SerialisationStrategy::Storage);
    let b = f1 + f2;
    assert(b.subrange(0, f1.len() as int) =~= f1);
    assert(b.subrange(f1.len() as int, (f1.len() + f2.len()) as int) =~= f2);
    lemma_parse_framed_at::<T>(b, 0, m1, SerialisationStrategy::Storage);
    lemma_parse_framed_at::<T>(b, f1.len() as int, m2, SerialisationStrategy::Storage);
}

/// A whole frame that stands at `pos` is what reading a frame there gives.
pub proof fn lemma_decode_frame_at(b: Seq<u8>, pos: int, f: Seq<u8>)
    requires
        is_frame(f),
        0 <= pos,
        pos + f.len() <= b.len(),
        b.subrange(pos, pos + f.len()) == f,
    ensures
        decode_frame(b, pos) == Ok::<(Seq<u8>, int), MmqpError>((f, pos + f.len())),
        f.len() > 0,
{
    lemma_decode_length_bound(f, 0);
    let c = f[0];
    assert(b[pos] == f[0]);
    assert(b.subrange(pos + 1, pos + 1 + c) =~= f.subrange(1, 1 + c as int));
    assert(b.subrange(pos, pos + f.len()) =~= f);
}

} // verus!
