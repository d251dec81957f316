//! Replies that the broker sends back to clients.
use crate::memory_storage::{concat, lemma_concat_push};
use crate::normalised_message::{normalised_envelope, MmqpNormalisedMessage, NormalisedView};
use crate::serialiser::{frame, MmqpSerialisable, SerialisationStrategy, MARK_M, MARK_P, MARK_Q, PIPE, TERMINATOR};
use vstd::prelude::*;
use vstd::utf8::encode_utf8;

verus! {

pub const DIGIT_ZERO: u8 = 48;

pub const DIGIT_ONE: u8 = 49;

pub const DOT_TEXT: u8 = 46;

pub const MARK_R: u8 = 82;

/// `MMQP|0.1|` followed by a reply kind and a separator.
pub open spec fn reply_header(kind: u8) -> Seq<u8> {
    seq![MARK_M, MARK_M, MARK_Q, MARK_P, PIPE, DIGIT_ZERO, DOT_TEXT, DIGIT_ONE, PIPE, kind, PIPE]
}

/// `MMQP|0.1|M|`, the storage frame of each message in turn, and a zero byte.
pub open spec fn poll_reply_bytes(messages: Seq<NormalisedView>) -> Seq<u8> {
    reply_header(MARK_M) + concat(
        messages.map_values(
            |m: NormalisedView| frame(normalised_envelope(m), SerialisationStrategy::Storage),
        ),
    ) + seq![TERMINATOR]
}

/// `MMQP|0.1|R|QUEUE_NOT_FOUND|`, the queue name, `|` and a zero byte.
pub open spec fn queue_not_found_bytes(name: Seq<char>) -> Seq<u8> {
    reply_header(MARK_R) + encode_utf8("QUEUE_NOT_FOUND"@) + seq![PIPE] + encode_utf8(name)
        + seq![PIPE, TERMINATOR]
}

fn push_reply_header(out: &mut Vec<u8>, kind: u8)
    ensures
        final(out)@ == old(out)@ + reply_header(kind),
{
    out.push(MARK_M);
    out.push(MARK_M);
    out.push(MARK_Q);
    out.push(MARK_P);
    out.push(PIPE);
    out.push(DIGIT_ZERO);
    out.push(DOT_TEXT);
    out.push(DIGIT_ONE);
    out.push(PIPE);
    out.push(kind);
    out.push(PIPE);
    assert(out@ =~= old(out)@ + reply_header(kind));
}

fn push_bytes(out: &mut Vec<u8>, bytes: &[u8])
    ensures
        final(out)@ == old(out)@ + bytes@,
{
    let ghost start = out@;
    let mut i: usize = 0;
    while i < bytes.len()
        invariant
            i <= bytes@.len(),
            out@ == start + bytes@.subrange(0, i as int),
        decreases bytes@.len() - i,
    {
        out.push(bytes[i]);
        i = i + 1;
        assert(out@ =~= start + bytes@.subrange(0, i as int));
    }
    assert(bytes@.subrange(0, bytes@.len() as int) =~= bytes@);
}

/// The reply to a poll that hands out `messages`.
pub fn poll_reply(messages: &Vec<MmqpNormalisedMessage>) -> (r: Vec<u8>)
    ensures
        r@ == poll_reply_bytes(messages@.map_values(|m: MmqpNormalisedMessage| m@)),
{
    let ghost views = messages@.map_values(|m: MmqpNormalisedMessage| m@);
    let ghost frames = views.map_values(
        |m: NormalisedView| frame(normalised_envelope(m), SerialisationStrategy::Storage),
    );
    let mut out: Vec<u8> = Vec::new();
    push_reply_header(&mut out, MARK_M);
    let ghost head = out@;
    let mut i: usize = 0;
    proof {
        assert(frames.subrange(0, 0) =~= Seq::<Seq<u8>>::empty());
    }
    while i < messages.len()
        invariant
            i <= messages@.len(),
            views == messages@.map_values(|m: MmqpNormalisedMessage| m@),
            frames == views.map_values(
                |m: NormalisedView| frame(normalised_envelope(m), SerialisationStrategy::Storage),
            ),
            head == reply_header(MARK_M),
            out@ == head + concat(frames.subrange(0, i as int)),
        decreases messages@.len() - i,
    {
        let bytes = messages[i].serialise(SerialisationStrategy::Storage);
        push_bytes(&mut out, &bytes);
        proof {
            assert(frames.subrange(0, i + 1) =~= frames.subrange(0, i as int).push(frames[i as int]));
            lemma_concat_push(frames.subrange(0, i as int), frames[i as int]);
        }
        i = i + 1;
    }
    proof {
        assert(frames.subrange(0, messages@.len() as int) =~= frames);
    }
    out.push(TERMINATOR);
    out
}

/// The reply to a request that names no queue of the broker.
pub fn queue_not_found_reply(name: &String) -> (r: Vec<u8>)
    ensures
        r@ == queue_not_found_bytes(name@),
{
    let mut out: Vec<u8> = Vec::new();
    push_reply_header(&mut out, MARK_R);
    push_bytes(&mut out, "QUEUE_NOT_FOUND".as_bytes());
    out.push(PIPE);
    push_bytes(&mut out, name.as_str().as_bytes());
    out.push(PIPE);
    out.push(TERMINATOR);
    assert(out@ =~= queue_not_found_bytes(name@));
    out
}

} // verus!
