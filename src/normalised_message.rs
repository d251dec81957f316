//! The envelope in which a queue stores a message.
use crate::encoding::{
    be_bytes, be_value, decode_string, encode_string, lemma_be_round_trip, lemma_decode_length_bound,
    lemma_decode_string_at, lemma_pow256_sixteen, pow256, push_be_bytes, read_be, read_length,
    read_string, string_size, write_string,
};
use crate::serialiser::{
    decode_field, decode_frame, encode_field, frame, frame_envelope, lemma_decode_field_at,
    lemma_split_at, read_field, read_frame, MmqpMessage,
    MmqpSerialisable, SerialisationStrategy, TERMINATOR,
};
use crate::MmqpError;
use vstd::prelude::*;

verus! {

/// A message as a queue holds it.
pub struct MmqpNormalisedMessage {
    /// The text of the published message.
    pub message: String,
    /// An identifier that the receiving side supplies.
    pub message_id: [u8; 64],
    pub message_group_id: String,
    /// Milliseconds since the epoch.
    pub received_time: u128,
    /// Milliseconds since the epoch; the message is not delivered before it.
    pub available_time: u128,
    /// How many times the message has been handed to a consumer.
    pub receive_count: u32,
}

/// The content of an `MmqpNormalisedMessage`.
pub struct NormalisedView {
    pub message: Seq<char>,
    pub message_id: Seq<u8>,
    pub message_group_id: Seq<char>,
    pub received_time: u128,
    pub available_time: u128,
    pub receive_count: u32,
}

impl View for MmqpNormalisedMessage {
    type V = NormalisedView;

    open spec fn view(&self) -> NormalisedView {
        NormalisedView {
            message: self.message@,
            message_id: self.message_id@,
            message_group_id: self.message_group_id@,
            received_time: self.received_time,
            available_time: self.available_time,
            receive_count: self.receive_count,
        }
    }
}

pub const MESSAGE_ID_LEN: usize = 64;

/// Identifier, two 16-byte times and a 4-byte count.
pub const NORMALISED_FIXED_LEN: usize = 100;

/// The identifier, the two times and the count in big-endian form, the group,
/// the message, and a zero byte.
pub open spec fn normalised_envelope(m: NormalisedView) -> Seq<u8> {
    m.message_id + (be_bytes(m.received_time as nat, 16) + (be_bytes(m.available_time as nat, 16) + (
    be_bytes(m.receive_count as nat, 4) + (encode_string(m.message_group_id) + encode_field(
        m.message,
        TERMINATOR,
    )))))
}

/// Reading a stored envelope at `pos`.
#[verifier::opaque]
pub open spec fn parse_normalised(b: Seq<u8>, pos: int) -> Result<(NormalisedView, int), MmqpError> {
    if pos < 0 || pos + NORMALISED_FIXED_LEN > b.len() {
        Err(MmqpError::TruncatedMessage)
    } else {
        match decode_string(b, pos + NORMALISED_FIXED_LEN) {
            Err(e) => Err(e),
            Ok((message_group_id, e1)) => match decode_field(b, e1, TERMINATOR) {
                Err(e) => Err(e),
                Ok((message, e2)) => Ok(
                    (
                        NormalisedView {
                            message,
                            message_id: b.subrange(pos, pos + 64),
                            message_group_id,
                            received_time: be_value(b.subrange(pos + 64, pos + 80)) as u128,
                            available_time: be_value(b.subrange(pos + 80, pos + 96)) as u128,
                            receive_count: be_value(b.subrange(pos + 96, pos + 100)) as u32,
                        },
                        e2,
                    ),
                ),
            },
        }
    }
}

impl MmqpNormalisedMessage {
    /// Takes the text and the group of a published message received at
    /// `now_ms`, with the identifier that the receiving side supplies; both
    /// times are the time of receipt and it has not been delivered yet.
    pub fn new(message: MmqpMessage, now_ms: u128, message_id: [u8; 64]) -> (r:
        MmqpNormalisedMessage)
        ensures
            r@ == normalised_from(message@, now_ms, message_id@),
    {
        MmqpNormalisedMessage {
            message: message.message,
            message_id,
            message_group_id: message.message_group,
            received_time: now_ms,
            available_time: now_ms,
            receive_count: 0,
        }
    }
}

/// Reads a stored envelope at the cursor and moves the cursor past it.
/// On failure the cursor stays where it was.
fn read_normalised(b: &[u8], cursor: &mut usize) -> (r: Result<MmqpNormalisedMessage, MmqpError>)
    ensures
        r is Ok ==> *old(cursor) < *final(cursor) <= b@.len(),
        match parse_normalised(b@, *old(cursor) as int) {
            Ok((m, end)) => r matches Ok(x) && x@ == m && *final(cursor) == end,
            Err(e) => r matches Err(x) && x == e && *final(cursor) == *old(cursor),
        },
{
    reveal(parse_normalised);
    let start = *cursor;
    if start > b.len() || b.len() - start < NORMALISED_FIXED_LEN {
        return Err(MmqpError::TruncatedMessage);
    }
    let mut message_id = [0u8; 64];
    let mut i: usize = 0;
    let n = b.len();
    while i < MESSAGE_ID_LEN
        invariant
            i <= 64,
            start + 100 <= b@.len() == n,
            message_id@.len() == 64,
            forall|j: int| 0 <= j < i ==> message_id@[j] == b@[start + j],
        decreases 64 - i,
    {
        message_id[i] = b[start + i];
        i = i + 1;
    }
    assert(message_id@ =~= b@.subrange(start as int, start + 64));
    let received_time = read_be(b, start + 64, 16);
    let available_time = read_be(b, start + 80, 16);
    let count = read_be(b, start + 96, 4);
    proof {
        crate::encoding::lemma_be_value_bound(b@.subrange(start + 96, start + 100));
        reveal_with_fuel(pow256, 5);
    }
    let mut pos = start + NORMALISED_FIXED_LEN;
    proof {
        lemma_decode_length_bound(b@, pos as int);
    }
    let message_group_id = match read_string(b, &mut pos) {
        Ok(s) => s,
        Err(e) => return Err(e),
    };
    let message = match read_field(b, &mut pos, TERMINATOR) {
        Ok(s) => s,
        Err(e) => return Err(e),
    };
    *cursor = pos;
    Ok(
        MmqpNormalisedMessage {
            message,
            message_id,
            message_group_id,
            received_time,
            available_time,
            receive_count: count as u32,
        },
    )
}

impl MmqpSerialisable for MmqpNormalisedMessage {
    open spec fn spec_envelope(m: NormalisedView) -> Seq<u8> {
        normalised_envelope(m)
    }

    open spec fn spec_parse_envelope(b: Seq<u8>, pos: int) -> Result<(NormalisedView, int), MmqpError> {
        parse_normalised(b, pos)
    }

    open spec fn spec_valid(m: NormalisedView) -> bool {
        m.message_id.len() == 64
    }

    proof fn lemma_parse_envelope(b: Seq<u8>, pos: int, m: NormalisedView) {
        reveal(parse_normalised);
        let id = m.message_id;
        let t1 = be_bytes(m.received_time as nat, 16);
        let t2 = be_bytes(m.available_time as nat, 16);
        let c = be_bytes(m.receive_count as nat, 4);
        let g = encode_string(m.message_group_id);
        let f = encode_field(m.message, TERMINATOR);
        lemma_pow256_sixteen();
        reveal_with_fuel(pow256, 5);
        lemma_be_round_trip(m.received_time as nat, 16);
        lemma_be_round_trip(m.available_time as nat, 16);
        lemma_be_round_trip(m.receive_count as nat, 4);
        lemma_split_at(b, pos, id, t1 + (t2 + (c + (g + f))));
        lemma_split_at(b, pos + 64, t1, t2 + (c + (g + f)));
        lemma_split_at(b, pos + 80, t2, c + (g + f));
        lemma_split_at(b, pos + 96, c, g + f);
        lemma_split_at(b, pos + 100, g, f);
        lemma_decode_string_at(b, pos + 100, m.message_group_id);
        lemma_decode_field_at(b, pos + 100 + g.len(), m.message, TERMINATOR);
    }

    fn serialise(&self, strategy: SerialisationStrategy) -> (r: Box<[u8]>) {
        let mut b: Vec<u8> = Vec::new();
        let mut i: usize = 0;
        while i < MESSAGE_ID_LEN
            invariant
                i <= 64,
                self.message_id@.len() == 64,
                b@ == self.message_id@.subrange(0, i as int),
            decreases 64 - i,
        {
            b.push(self.message_id[i]);
            i = i + 1;
            assert(b@ =~= self.message_id@.subrange(0, i as int));
        }
        assert(self.message_id@.subrange(0, 64) =~= self.message_id@);
        push_be_bytes(&mut b, self.received_time, 16);
        push_be_bytes(&mut b, self.available_time, 16);
        push_be_bytes(&mut b, self.receive_count as u128, 4);
        write_string(&mut b, &self.message_group_id);
        crate::serialiser::write_field(&mut b, &self.message, TERMINATOR);
        assert(b@ =~= normalised_envelope(self@));
        frame_envelope(b, strategy)
    }

    fn deserialise(message_binary: &[u8], cursor: &mut usize, strategy: SerialisationStrategy) -> (r:
        Result<MmqpNormalisedMessage, MmqpError>) {
        let start = *cursor;
        let mut pos = start;
        proof {
            lemma_decode_length_bound(message_binary@, start as int);
        }
        match strategy {
            SerialisationStrategy::Wire => {
                let m = read_normalised(message_binary, &mut pos);
                if m.is_ok() {
                    *cursor = pos;
                }
                m
            },
            SerialisationStrategy::Storage => {
                let len = match read_length(message_binary, &mut pos) {
                    Ok(len) => len,
                    Err(e) => return Err(e),
                };
                let envelope_start = pos;
                let m = match read_normalised(message_binary, &mut pos) {
                    Ok(m) => m,
                    Err(e) => return Err(e),
                };
                if (pos - envelope_start) as u64 != len {
                    return Err(MmqpError::InvalidEncoding);
                }
                *cursor = pos;
                Ok(m)
            },
        }
    }

    /// The whole frame, length prefix included, ready to be pushed again verbatim.
    open spec fn spec_raw(b: Seq<u8>, pos: int) -> Result<(Seq<u8>, int), MmqpError> {
        decode_frame(b, pos)
    }

    proof fn lemma_raw_of_frame(f: Seq<u8>) {
    }

    fn raw(message_binary: &[u8], cursor: &mut usize) -> (r: Result<Vec<u8>, MmqpError>) {
        read_frame(message_binary, cursor)
    }

    fn get_size(&self) -> (r: usize) {
        proof {
            lemma_be_round_trip(0, 0);
            crate::encoding::lemma_be_bytes_len(self.received_time as nat, 16);
            crate::encoding::lemma_be_bytes_len(self.available_time as nat, 16);
            crate::encoding::lemma_be_bytes_len(self.receive_count as nat, 4);
        }
        let mut size: usize = 1;
        size = size + NORMALISED_FIXED_LEN;
        size = size + string_size(&self.message_group_id);
        size = size + string_size(&self.message);
        size
    }
}

/// What normalising gives: the text and group of the message, both times set
/// to the time of receipt, the supplied identifier and a count of zero.
pub open spec fn normalised_from(m: crate::serialiser::PublishView, now_ms: u128, message_id: Seq<u8>) -> NormalisedView {
    NormalisedView {
        message: m.message,
        message_id,
        message_group_id: m.message_group,
        received_time: now_ms,
        available_time: now_ms,
        receive_count: 0,
    }
}

/// A message that a queue can take in. The clock reading and the identifier
/// come from the caller.
pub trait Receivable: View {
    spec fn spec_normalise(m: Self::V, now_ms: u128, message_id: Seq<u8>) -> NormalisedView;

    fn normalise(&self, now_ms: u128, message_id: [u8; 64]) -> (r: MmqpNormalisedMessage)
        ensures
            r@ == Self::spec_normalise(self@, now_ms, message_id@),
    ;

    fn normalise_serialised(&self, now_ms: u128, message_id: [u8; 64]) -> (r: Box<[u8]>)
        ensures
            r@ == frame(
                normalised_envelope(Self::spec_normalise(self@, now_ms, message_id@)),
                SerialisationStrategy::Wire,
            ),
    ;
}

impl Receivable for MmqpMessage {
    open spec fn spec_normalise(m: crate::serialiser::PublishView, now_ms: u128, message_id: Seq<u8>) -> NormalisedView {
        normalised_from(m, now_ms, message_id)
    }

    fn normalise(&self, now_ms: u128, message_id: [u8; 64]) -> (r: MmqpNormalisedMessage) {
        MmqpNormalisedMessage {
            message: self.message.clone(),
            available_time: now_ms,
            received_time: now_ms,
            message_id,
            message_group_id: self.message_group.clone(),
            receive_count: 0,
        }
    }

    fn normalise_serialised(&self, now_ms: u128, message_id: [u8; 64]) -> (r: Box<[u8]>) {
        self.normalise(now_ms, message_id).serialise(SerialisationStrategy::Wire)
    }
}

} // verus!
