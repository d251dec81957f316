//! The length-prefixed binary form: `[count][count big-endian bytes][payload]`.
use crate::MmqpError;
use vstd::prelude::*;
use vstd::utf8::*;

verus! {

/// `256^k`.
pub open spec fn pow256(k: nat) -> nat
    decreases k,
{
    if k == 0 {
        1
    } else {
        256 * pow256((k - 1) as nat)
    }
}

/// Number of big-endian bytes needed to hold `n` (0 for 0).
pub open spec fn byte_count(n: nat) -> nat
    decreases n,
{
    if n == 0 {
        0
    } else {
        1 + byte_count(n / 256)
    }
}

/// The `k` low-order bytes of `n`, most significant first.
pub open spec fn be_bytes(n: nat, k: nat) -> Seq<u8>
    decreases k,
{
    if k == 0 {
        Seq::empty()
    } else {
        be_bytes(n / 256, (k - 1) as nat).push((n % 256) as u8)
    }
}

/// The unsigned integer that a big-endian byte sequence denotes.
pub open spec fn be_value(s: Seq<u8>) -> nat
    decreases s.len(),
{
    if s.len() == 0 {
        0
    } else {
        be_value(s.drop_last()) * 256 + s.last() as nat
    }
}

/// Encoding of an unsigned integer: its minimal byte count, then those bytes.
pub open spec fn encode_length(n: nat) -> Seq<u8> {
    seq![byte_count(n) as u8] + be_bytes(n, byte_count(n))
}

/// Decoding of an unsigned integer at `pos`: the value and the position after it.
pub open spec fn decode_length(b: Seq<u8>, pos: int) -> Result<(nat, int), MmqpError> {
    if pos < 0 || pos >= b.len() {
        Err(MmqpError::TruncatedMessage)
    } else if b[pos] > 8 {
        Err(MmqpError::InvalidEncoding)
    } else if pos + 1 + b[pos] > b.len() {
        Err(MmqpError::TruncatedMessage)
    } else {
        Ok((be_value(b.subrange(pos + 1, pos + 1 + b[pos])), pos + 1 + b[pos]))
    }
}

pub proof fn lemma_pow256_positive(k: nat)
    ensures
        pow256(k) >= 1,
    decreases k,
{
    if k > 0 {
        lemma_pow256_positive((k - 1) as nat);
    }
}

pub proof fn lemma_pow256_monotone(j: nat, k: nat)
    requires
        j <= k,
    ensures
        pow256(j) <= pow256(k),
    decreases k,
{
    if j < k {
        lemma_pow256_monotone(j, (k - 1) as nat);
        lemma_pow256_positive((k - 1) as nat);
    }
}

/// `n` fits in `byte_count(n)` bytes, and needs all of them.
pub proof fn lemma_byte_count_bounds(n: nat)
    ensures
        n < pow256(byte_count(n)),
        byte_count(n) > 0 ==> pow256((byte_count(n) - 1) as nat) <= n,
    decreases n,
{
    if n > 0 {
        lemma_byte_count_bounds(n / 256);
        lemma_pow256_positive(byte_count(n / 256));
    }
}

/// A value below `256^k` takes at most `k` bytes.
pub proof fn lemma_byte_count_at_most(n: nat, k: nat)
    requires
        n < pow256(k),
    ensures
        byte_count(n) <= k,
{
    lemma_byte_count_bounds(n);
    if byte_count(n) > k {
        lemma_pow256_monotone(k, (byte_count(n) - 1) as nat);
    }
}

pub proof fn lemma_be_bytes_len(n: nat, k: nat)
    ensures
        be_bytes(n, k).len() == k,
    decreases k,
{
    if k > 0 {
        lemma_be_bytes_len(n / 256, (k - 1) as nat);
    }
}

/// Reading back `k` big-endian bytes of `n < 256^k` gives `n`.
pub proof fn lemma_be_round_trip(n: nat, k: nat)
    requires
        n < pow256(k),
    ensures
        be_value(be_bytes(n, k)) == n,
        be_bytes(n, k).len() == k,
    decreases k,
{
    lemma_be_bytes_len(n, k);
    if k > 0 {
        let km = (k - 1) as nat;
        assert(n / 256 < pow256(km));
        lemma_be_round_trip(n / 256, km);
        assert(be_bytes(n, k).drop_last() =~= be_bytes(n / 256, km));
    }
}

/// A big-endian value of `k` bytes is below `256^k`.
pub proof fn lemma_be_value_bound(s: Seq<u8>)
    ensures
        be_value(s) < pow256(s.len()),
    decreases s.len(),
{
    if s.len() > 0 {
        lemma_be_value_bound(s.drop_last());
    }
}

pub proof fn lemma_pow256_eight()
    ensures
        pow256(8) == 0x1_0000_0000_0000_0000,
{
    reveal_with_fuel(pow256, 9);
}

/// The encoding of a 64-bit value is at most nine bytes, and its count byte is at most 8.
pub proof fn lemma_encode_length_len(n: nat)
    requires
        n <= u64::MAX,
    ensures
        byte_count(n) <= 8,
        encode_length(n).len() == 1 + byte_count(n),
        encode_length(n)[0] == byte_count(n),
{
    lemma_pow256_eight();
    lemma_byte_count_at_most(n, 8);
    lemma_be_bytes_len(n, byte_count(n));
}

/// Decoding at `pos` where the encoding of `n` stands gives `n` and moves past it.
pub proof fn lemma_decode_length_at(b: Seq<u8>, pos: int, n: nat)
    requires
        n <= u64::MAX,
        0 <= pos,
        pos + encode_length(n).len() <= b.len(),
        b.subrange(pos, pos + encode_length(n).len()) == encode_length(n),
    ensures
        decode_length(b, pos) == Ok::<(nat, int), MmqpError>((n, pos + encode_length(n).len())),
{
    lemma_encode_length_len(n);
    let k = byte_count(n);
    let enc = encode_length(n);
    assert(b[pos] == enc[0]);
    assert(b.subrange(pos + 1, pos + 1 + k) =~= enc.subrange(1, 1 + k as int));
    assert(enc.subrange(1, 1 + k as int) =~= be_bytes(n, k));
    lemma_byte_count_bounds(n);
    lemma_be_round_trip(n, k);
}


pub proof fn lemma_pow256_sixteen()
    ensures
        pow256(16) == 0x1_0000_0000_0000_0000_0000_0000_0000_0000,
{
    reveal_with_fuel(pow256, 17);
}

/// What a count-prefixed field holds at `pos`: its payload bytes and the position after it.
/// For an integer the payload is its big-endian bytes.
pub open spec fn decode_count_field(b: Seq<u8>, pos: int) -> Result<(Seq<u8>, int), MmqpError> {
    match decode_length(b, pos) {
        Ok((_, end)) => Ok((b.subrange(pos + 1, end), end)),
        Err(e) => Err(e),
    }
}

/// What a length-prefixed byte string holds at `pos`: its payload and the position after it.
pub open spec fn decode_payload(b: Seq<u8>, pos: int) -> Result<(Seq<u8>, int), MmqpError> {
    match decode_length(b, pos) {
        Ok((len, p)) => if p + len > b.len() {
            Err(MmqpError::TruncatedMessage)
        } else {
            Ok((b.subrange(p, p + len), p + len))
        },
        Err(e) => Err(e),
    }
}

/// Encoding of a string: the length of its UTF-8 form, then that form.
/// The empty string is the single byte 0.
pub open spec fn encode_string(s: Seq<char>) -> Seq<u8> {
    encode_length(encode_utf8(s).len()) + encode_utf8(s)
}

/// Decoding of a string at `pos`: its characters and the position after it.
pub open spec fn decode_string(b: Seq<u8>, pos: int) -> Result<(Seq<char>, int), MmqpError> {
    match decode_payload(b, pos) {
        Ok((bytes, end)) => if valid_utf8(bytes) {
            Ok((decode_utf8(bytes), end))
        } else {
            Err(MmqpError::InvalidEncoding)
        },
        Err(e) => Err(e),
    }
}

/// Decoding a string at `pos` where the encoding of `s` stands gives `s` and moves past it.
pub proof fn lemma_decode_string_at(b: Seq<u8>, pos: int, s: Seq<char>)
    requires
        encode_utf8(s).len() <= u64::MAX,
        0 <= pos,
        pos + encode_string(s).len() <= b.len(),
        b.subrange(pos, pos + encode_string(s).len()) == encode_string(s),
    ensures
        decode_string(b, pos) == Ok::<(Seq<char>, int), MmqpError>(
            (s, pos + encode_string(s).len()),
        ),
{
    let bytes = encode_utf8(s);
    let hdr = encode_length(bytes.len());
    let p = pos + hdr.len();
    assert(b.subrange(pos, p) =~= encode_string(s).subrange(0, hdr.len() as int));
    assert(encode_string(s).subrange(0, hdr.len() as int) =~= hdr);
    lemma_decode_length_at(b, pos, bytes.len());
    assert(b.subrange(p, p + bytes.len()) =~= encode_string(s).subrange(
        hdr.len() as int,
        encode_string(s).len() as int,
    ));
    assert(b.subrange(p, p + bytes.len()) =~= bytes);
    encode_utf8_valid_utf8(s);
    encode_utf8_decode_utf8(s);
}

/// Appends the `k` low-order bytes of `n`, most significant first.
pub fn push_be_bytes(out: &mut Vec<u8>, n: u128, k: usize)
    ensures
        final(out)@ == old(out)@ + be_bytes(n as nat, k as nat),
    decreases k,
{
    if k > 0 {
        let ghost before = out@;
        push_be_bytes(out, n / 256, k - 1);
        out.push((n % 256) as u8);
        assert(before + be_bytes(n as nat, k as nat) =~= (before + be_bytes(
            (n / 256) as nat,
            (k - 1) as nat,
        )).push((n % 256) as u8));
    }
}

/// Reads `k` big-endian bytes at `pos`.
pub fn read_be(b: &[u8], pos: usize, k: usize) -> (r: u128)
    requires
        k <= 16,
        pos + k <= b@.len(),
    ensures
        r == be_value(b@.subrange(pos as int, pos + k)),
{
    let mut v: u128 = 0;
    let mut i: usize = 0;
    let n = b.len();
    proof {
        assert(b@.subrange(pos as int, pos as int) =~= Seq::<u8>::empty());
        lemma_pow256_sixteen();
    }
    while i < k
        invariant
            i <= k <= 16,
            pos + k <= b@.len() == n,
            v == be_value(b@.subrange(pos as int, pos + i)),
            v < pow256(i as nat),
            pow256(16) == 0x1_0000_0000_0000_0000_0000_0000_0000_0000,
        decreases k - i,
    {
        proof {
            lemma_pow256_monotone((i + 1) as nat, 16);
            assert(b@.subrange(pos as int, pos + i + 1).drop_last() =~= b@.subrange(
                pos as int,
                pos + i,
            ));
        }
        v = v * 256 + b[pos + i] as u128;
        i = i + 1;
    }
    v
}

/// Number of big-endian bytes needed to hold `n`.
pub fn count_bytes(n: u64) -> (k: u8)
    ensures
        k == byte_count(n as nat),
        k <= 8,
{
    proof {
        lemma_encode_length_len(n as nat);
    }
    let mut k: u8 = 0;
    let mut rest: u64 = n;
    while rest > 0
        invariant
            byte_count(n as nat) == k + byte_count(rest as nat),
            byte_count(n as nat) <= 8,
        decreases rest,
    {
        rest = rest / 256;
        k = k + 1;
    }
    k
}

/// Appends the encoding of `n`.
pub fn write_length(out: &mut Vec<u8>, n: u64)
    ensures
        final(out)@ == old(out)@ + encode_length(n as nat),
{
    let ghost before = out@;
    let k = count_bytes(n);
    out.push(k);
    push_be_bytes(out, n as u128, k as usize);
    assert(out@ =~= before + encode_length(n as nat));
}

/// A decoded integer fits in 64 bits.
pub proof fn lemma_decode_length_bound(b: Seq<u8>, pos: int)
    ensures
        decode_length(b, pos) matches Ok((v, end)) ==> v <= u64::MAX && pos < end <= b.len(),
{
    if decode_length(b, pos) is Ok {
        let c = b[pos];
        lemma_be_value_bound(b.subrange(pos + 1, pos + 1 + c));
        lemma_pow256_monotone(c as nat, 8);
        lemma_pow256_eight();
    }
}

/// Reads an encoded integer at the cursor and moves the cursor past it.
/// On failure the cursor stays where it was.
pub fn read_length(b: &[u8], cursor: &mut usize) -> (r: Result<u64, MmqpError>)
    ensures
        match decode_length(b@, *old(cursor) as int) {
            Ok((v, end)) => r == Ok::<u64, MmqpError>(v as u64) && *final(cursor) == end,
            Err(e) => r == Err::<u64, MmqpError>(e) && *final(cursor) == *old(cursor),
        },
{
    let pos = *cursor;
    if pos >= b.len() {
        return Err(MmqpError::TruncatedMessage);
    }
    let c = b[pos];
    if c > 8 {
        return Err(MmqpError::InvalidEncoding);
    }
    if c as usize > b.len() - pos - 1 {
        return Err(MmqpError::TruncatedMessage);
    }
    let v = read_be(b, pos + 1, c as usize);
    proof {
        lemma_be_value_bound(b@.subrange(pos + 1, pos + 1 + c));
        lemma_pow256_monotone(c as nat, 8);
        lemma_pow256_eight();
    }
    *cursor = pos + 1 + c as usize;
    Ok(v as u64)
}

/// Reads a length-prefixed byte string at the cursor and moves the cursor past it.
/// On failure the cursor stays where it was.
pub fn read_payload(b: &[u8], cursor: &mut usize) -> (r: Result<Vec<u8>, MmqpError>)
    ensures
        match decode_payload(b@, *old(cursor) as int) {
            Ok((bytes, end)) => r matches Ok(v) && v@ == bytes && *final(cursor) == end,
            Err(e) => r == Err::<Vec<u8>, MmqpError>(e) && *final(cursor) == *old(cursor),
        },
{
    let start = *cursor;
    proof {
        lemma_decode_length_bound(b@, start as int);
    }
    let len = match read_length(b, cursor) {
        Ok(len) => len,
        Err(e) => return Err(e),
    };
    let p = *cursor;
    if len > (b.len() - p) as u64 {
        *cursor = start;
        return Err(MmqpError::TruncatedMessage);
    }
    let end = p + len as usize;
    let mut out: Vec<u8> = Vec::new();
    let mut i: usize = p;
    while i < end
        invariant
            p <= i <= end <= b@.len(),
            out@ == b@.subrange(p as int, i as int),
        decreases end - i,
    {
        out.push(b[i]);
        i = i + 1;
        assert(out@ =~= b@.subrange(p as int, i as int));
    }
    *cursor = end;
    Ok(out)
}

/// Relies on `String::from_utf8`: it succeeds exactly on valid UTF-8, and the
/// string then holds the characters that the bytes encode.
#[verifier::external_body]
fn utf8_to_string(bytes: Vec<u8>) -> (r: Option<String>)
    ensures
        match r {
            Some(s) => valid_utf8(bytes@) && s@ == decode_utf8(bytes@),
            None => !valid_utf8(bytes@),
        },
{
    String::from_utf8(bytes).ok()
}


/// Round trip of strings: decoding the encoding of any string gives it back
/// and consumes exactly the encoding.
pub proof fn law_string_round_trip(s: Seq<char>)
    requires
        encode_utf8(s).len() <= u64::MAX,
    ensures
        decode_string(encode_string(s), 0) == Ok::<(Seq<char>, int), MmqpError>(
            (s, encode_string(s).len() as int),
        ),
{
    let e = encode_string(s);
    assert(e.subrange(0, e.len() as int) =~= e);
    lemma_decode_string_at(e, 0, s);
}

/// Round trip of integers: decoding the encoding of any 64-bit value gives it
/// back and consumes exactly the encoding.
pub proof fn law_length_round_trip(n: nat)
    requires
        n <= u64::MAX,
    ensures
        decode_length(encode_length(n), 0) == Ok::<(nat, int), MmqpError>(
            (n, encode_length(n).len() as int),
        ),
{
    let e = encode_length(n);
    assert(e.subrange(0, e.len() as int) =~= e);
    lemma_decode_length_at(e, 0, n);
}

/// A field with the length-prefixed binary form.
pub trait MmqpEncoding: Sized + View {
    /// The bytes that encode a value whose view is `v`.
    spec fn spec_encoding(v: Self::V) -> Seq<u8>;

    /// What decoding at `pos` gives: the value and the position after it.
    spec fn spec_decoding(b: Seq<u8>, pos: int) -> Result<(Self::V, int), MmqpError>;

    /// What reading the field at `pos` without decoding it gives: its payload
    /// bytes and the position after it.
    spec fn spec_raw(b: Seq<u8>, pos: int) -> Result<(Seq<u8>, int), MmqpError>;

    fn to_mmqp_binary(&self) -> (r: Result<Vec<u8>, MmqpError>)
        ensures
            r matches Ok(bytes) && bytes@ == Self::spec_encoding(self@),
    ;

    fn from_mmqp_binary(message_binary: &[u8], cursor: &mut usize) -> (r: Result<Self, MmqpError>)
        ensures
            match Self::spec_decoding(message_binary@, *old(cursor) as int) {
                Ok((v, end)) => r matches Ok(x) && x@ == v && *final(cursor) == end,
                Err(e) => r matches Err(x) && x == e && *final(cursor) == *old(cursor),
            },
    ;

    fn mmqp_binary_size(&self) -> (r: usize)
        requires
            Self::spec_encoding(self@).len() <= usize::MAX,
        ensures
            r == Self::spec_encoding(self@).len(),
    ;

    fn raw(message_binary: &[u8], cursor: &mut usize) -> (r: Result<Vec<u8>, MmqpError>)
        ensures
            match Self::spec_raw(message_binary@, *old(cursor) as int) {
                Ok((bytes, end)) => r matches Ok(x) && x@ == bytes && *final(cursor) == end,
                Err(e) => r == Err::<Vec<u8>, MmqpError>(e) && *final(cursor) == *old(cursor),
            },
    ;
}

impl MmqpEncoding for usize {
    open spec fn spec_encoding(v: usize) -> Seq<u8> {
        encode_length(v as nat)
    }

    /// A value beyond `usize` is refused as too large.
    open spec fn spec_decoding(b: Seq<u8>, pos: int) -> Result<(usize, int), MmqpError> {
        match decode_length(b, pos) {
            Ok((v, end)) => if v <= usize::MAX {
                Ok((v as usize, end))
            } else {
                Err(MmqpError::EncodingTooLarge)
            },
            Err(e) => Err(e),
        }
    }

    open spec fn spec_raw(b: Seq<u8>, pos: int) -> Result<(Seq<u8>, int), MmqpError> {
        decode_count_field(b, pos)
    }

    fn to_mmqp_binary(&self) -> (r: Result<Vec<u8>, MmqpError>) {
        let mut binary: Vec<u8> = Vec::new();
        write_length(&mut binary, *self as u64);
        Ok(binary)
    }

    fn from_mmqp_binary(message_binary: &[u8], cursor: &mut usize) -> (r: Result<usize, MmqpError>) {
        let start = *cursor;
        proof {
            lemma_decode_length_bound(message_binary@, start as int);
        }
        match read_length(message_binary, cursor) {
            Ok(v) => {
                if v > usize::MAX as u64 {
                    *cursor = start;
                    Err(MmqpError::EncodingTooLarge)
                } else {
                    Ok(v as usize)
                }
            },
            Err(e) => Err(e),
        }
    }

    fn mmqp_binary_size(&self) -> (r: usize) {
        proof {
            lemma_encode_length_len(*self as nat);
        }
        count_bytes(*self as u64) as usize + 1
    }

    fn raw(message_binary: &[u8], cursor: &mut usize) -> (r: Result<Vec<u8>, MmqpError>) {
        let start = *cursor;
        proof {
            lemma_decode_length_bound(message_binary@, start as int);
        }
        match read_length(message_binary, cursor) {
            Ok(_) => {
                let end = *cursor;
                let mut out: Vec<u8> = Vec::new();
                let mut i: usize = start + 1;
                while i < end
                    invariant
                        start + 1 <= i <= end <= message_binary@.len(),
                        out@ == message_binary@.subrange(start + 1, i as int),
                    decreases end - i,
                {
                    out.push(message_binary[i]);
                    i = i + 1;
                    assert(out@ =~= message_binary@.subrange(start + 1, i as int));
                }
                Ok(out)
            },
            Err(e) => Err(e),
        }
    }
}

/// Appends the encoding of a string whose UTF-8 form is `bytes`.
fn write_string_bytes(out: &mut Vec<u8>, bytes: &[u8])
    ensures
        final(out)@ == old(out)@ + encode_length(bytes@.len()) + bytes@,
{
    let ghost before = out@;
    write_length(out, bytes.len() as u64);
    let ghost mid = out@;
    let mut i: usize = 0;
    while i < bytes.len()
        invariant
            i <= bytes@.len(),
            out@ == mid + bytes@.subrange(0, i as int),
        decreases bytes@.len() - i,
    {
        out.push(bytes[i]);
        i = i + 1;
        assert(out@ =~= mid + bytes@.subrange(0, i as int));
    }
    assert(bytes@.subrange(0, bytes@.len() as int) =~= bytes@);
}

/// Appends the encoding of `s`.
pub fn write_string(out: &mut Vec<u8>, s: &String)
    ensures
        final(out)@ == old(out)@ + encode_string(s@),
{
    let bytes = s.as_str().as_bytes();
    write_string_bytes(out, bytes);
    assert(old(out)@ + encode_length(bytes@.len()) + bytes@ =~= old(out)@ + encode_string(s@));
}

/// Number of bytes that the encoding of `s` takes.
pub fn string_size(s: &String) -> (r: usize)
    requires
        encode_string(s@).len() <= usize::MAX,
    ensures
        r == encode_string(s@).len(),
{
    let len = s.as_str().as_bytes().len();
    proof {
        lemma_encode_length_len(len as nat);
    }
    count_bytes(len as u64) as usize + 1 + len
}

/// Reads a string at the cursor and moves the cursor past it.
/// On failure the cursor stays where it was.
pub fn read_string(b: &[u8], cursor: &mut usize) -> (r: Result<String, MmqpError>)
    ensures
        match decode_string(b@, *old(cursor) as int) {
            Ok((v, end)) => r matches Ok(x) && x@ == v && *final(cursor) == end,
            Err(e) => r matches Err(x) && x == e && *final(cursor) == *old(cursor),
        },
{
    let start = *cursor;
    let bytes = match read_payload(b, cursor) {
        Ok(bytes) => bytes,
        Err(e) => return Err(e),
    };
    match utf8_to_string(bytes) {
        Some(s) => Ok(s),
        None => {
            *cursor = start;
            Err(MmqpError::InvalidEncoding)
        },
    }
}

impl MmqpEncoding for String {
    open spec fn spec_encoding(v: Seq<char>) -> Seq<u8> {
        encode_string(v)
    }

    open spec fn spec_decoding(b: Seq<u8>, pos: int) -> Result<(Seq<char>, int), MmqpError> {
        decode_string(b, pos)
    }

    open spec fn spec_raw(b: Seq<u8>, pos: int) -> Result<(Seq<u8>, int), MmqpError> {
        decode_payload(b, pos)
    }

    fn to_mmqp_binary(&self) -> (r: Result<Vec<u8>, MmqpError>) {
        let mut binary: Vec<u8> = Vec::new();
        write_string(&mut binary, self);
        assert(binary@ =~= encode_string(self@));
        Ok(binary)
    }

    fn from_mmqp_binary(message_binary: &[u8], cursor: &mut usize) -> (r: Result<String, MmqpError>) {
        read_string(message_binary, cursor)
    }

    fn mmqp_binary_size(&self) -> (r: usize) {
        string_size(self)
    }

    fn raw(message_binary: &[u8], cursor: &mut usize) -> (r: Result<Vec<u8>, MmqpError>) {
        read_payload(message_binary, cursor)
    }
}

} // verus!
