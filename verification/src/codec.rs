//! The wire framing shared by broker, content server and client.
//!
//! A text frame is `LLL` (three ASCII decimal digits, zero padded, the byte
//! length of the client key), then the client key, then the payload. A binary
//! frame uses a single length byte instead of the three digits. Reply frames
//! additionally end with a four-byte NUL sentinel, which the codec treats as
//! payload: it is appended by the reply encoders and looked for by the
//! consumer, never stripped here.

use vstd::prelude::*;

verus! {

/// Errors of the frame codec.
#[derive(Debug, Clone, Copy, PartialEq, Eq, Structural)]
pub enum CodecError {
    /// A key too long (or empty) for the framing.
    InvalidKey,
    /// A frame too short, or with a malformed length prefix.
    MalformedFrame,
}

/// The four NUL bytes that mark the end of one reply.
pub open spec fn sentinel() -> Seq<u8> {
    seq![0u8, 0u8, 0u8, 0u8]
}

pub open spec fn is_ascii_digit(b: u8) -> bool {
    48 <= b <= 57
}

pub open spec fn digit_val(b: u8) -> int {
    b - 48
}

/// The three-digit zero-padded decimal prefix for a key length.
pub open spec fn len_prefix(n: int) -> Seq<u8>
    recommends
        0 <= n <= 999,
{
    seq![(48 + n / 100) as u8, (48 + (n / 10) % 10) as u8, (48 + n % 10) as u8]
}

/// Keys are opaque bytes of length 1..=255: the single length byte of the
/// binary framing bounds them, and the bound is enforced uniformly.
pub open spec fn valid_key(k: Seq<u8>) -> bool {
    1 <= k.len() <= 255
}

/// The text framing of one request: length prefix, key, payload.
pub open spec fn encode_text_spec(key: Seq<u8>, payload: Seq<u8>) -> Seq<u8> {
    len_prefix(key.len() as int) + key + payload
}

/// The binary framing of one message: length byte, key, payload.
pub open spec fn encode_binary_spec(key: Seq<u8>, payload: Seq<u8>) -> Seq<u8> {
    seq![key.len() as u8] + key + payload
}

/// The key length a well-formed text frame declares.
pub open spec fn text_key_len(s: Seq<u8>) -> int
    recommends
        s.len() >= 3,
{
    100 * digit_val(s[0]) + 10 * digit_val(s[1]) + digit_val(s[2])
}

/// A text frame is well formed when it has the three digits and is long
/// enough to hold the key they announce.
pub open spec fn text_frame_ok(s: Seq<u8>) -> bool {
    &&& s.len() >= 3
    &&& is_ascii_digit(s[0])
    &&& is_ascii_digit(s[1])
    &&& is_ascii_digit(s[2])
    &&& s.len() >= 3 + text_key_len(s)
}

/// A binary frame is well formed when it is long enough to hold the key its
/// length byte announces.
pub open spec fn binary_frame_ok(s: Seq<u8>) -> bool {
    s.len() >= 1 && s.len() >= 1 + s[0]
}

/// Appends every byte of `src` to `dst`.
pub fn push_all(dst: &mut Vec<u8>, src: &Vec<u8>)
    ensures
        final(dst)@ == old(dst)@ + src@,
{
    let mut i: usize = 0;
    while i < src.len()
        invariant
            i <= src@.len(),
            dst@ == old(dst)@ + src@.subrange(0, i as int),
        decreases src@.len() - i,
    {
        dst.push(src[i]);
        i = i + 1;
        proof {
            assert(dst@ =~= old(dst)@ + src@.subrange(0, i as int));
        }
    }
    proof {
        assert(dst@ =~= old(dst)@ + src@);
    }
}

/// Encodes one client request as a text frame: `LLL`, key, payload. The
/// sentinel is not appended; it is produced by the content server when one
/// reply is complete.
pub fn encode_request_text(client_key: &Vec<u8>, payload: &Vec<u8>) -> (r: Result<
    Vec<u8>,
    CodecError,
>)
    ensures
        r is Ok <==> valid_key(client_key@),
        r is Ok ==> r->Ok_0@ == encode_text_spec(client_key@, payload@),
        r is Err ==> r->Err_0 == CodecError::InvalidKey,
{
    let n = client_key.len();
    if n == 0 || n > 255 {
        return Err(CodecError::InvalidKey);
    }
    let mut out: Vec<u8> = Vec::new();
    out.push(48 + (n / 100) as u8);
    out.push(48 + ((n / 10) % 10) as u8);
    out.push(48 + (n % 10) as u8);
    proof {
        assert(out@ =~= len_prefix(client_key@.len() as int));
    }
    push_all(&mut out, client_key);
    push_all(&mut out, payload);
    Ok(out)
}

/// Decodes a text frame into key and payload; the payload keeps any trailing
/// sentinel verbatim.
pub fn decode_text(s: &Vec<u8>) -> (r: Result<(Vec<u8>, Vec<u8>), CodecError>)
    ensures
        r is Ok <==> text_frame_ok(s@),
        r is Ok ==> r->Ok_0.0@ == s@.subrange(3, 3 + text_key_len(s@)) && r->Ok_0.1@
            == s@.subrange(3 + text_key_len(s@), s@.len() as int),
        r is Err ==> r->Err_0 == CodecError::MalformedFrame,
{
    if s.len() < 3 {
        return Err(CodecError::MalformedFrame);
    }
    let d0 = s[0];
    let d1 = s[1];
    let d2 = s[2];
    if d0 < 48 || d0 > 57 || d1 < 48 || d1 > 57 || d2 < 48 || d2 > 57 {
        return Err(CodecError::MalformedFrame);
    }
    let key_len: usize = 100 * ((d0 - 48) as usize) + 10 * ((d1 - 48) as usize) + (d2
        - 48) as usize;
    if s.len() < 3 + key_len {
        return Err(CodecError::MalformedFrame);
    }
    let key = copy_range(s, 3, 3 + key_len);
    let payload = copy_range(s, 3 + key_len, s.len());
    Ok((key, payload))
}

/// Decodes a binary frame into key and payload.
pub fn decode_binary(s: &Vec<u8>) -> (r: Result<(Vec<u8>, Vec<u8>), CodecError>)
    ensures
        r is Ok <==> binary_frame_ok(s@),
        r is Ok ==> r->Ok_0.0@ == s@.subrange(1, 1 + s@[0]) && r->Ok_0.1@ == s@.subrange(
            1 + s@[0],
            s@.len() as int,
        ),
        r is Err ==> r->Err_0 == CodecError::MalformedFrame,
{
    if s.len() < 1 {
        return Err(CodecError::MalformedFrame);
    }
    let key_len = s[0] as usize;
    if s.len() < 1 + key_len {
        return Err(CodecError::MalformedFrame);
    }
    let key = copy_range(s, 1, 1 + key_len);
    let payload = copy_range(s, 1 + key_len, s.len());
    Ok((key, payload))
}

/// Encodes one reply chunk as the content server frames it: text framing with
/// the sentinel appended.
pub fn encode_reply_text(client_key: &Vec<u8>, payload: &Vec<u8>) -> (r: Result<
    Vec<u8>,
    CodecError,
>)
    ensures
        r is Ok <==> valid_key(client_key@),
        r is Ok ==> r->Ok_0@ == encode_text_spec(client_key@, payload@) + sentinel(),
        r is Err ==> r->Err_0 == CodecError::InvalidKey,
{
    let mut framed = match encode_request_text(client_key, payload) {
        Ok(f) => f,
        Err(e) => {
            return Err(e);
        },
    };
    framed.push(0);
    framed.push(0);
    framed.push(0);
    framed.push(0);
    proof {
        assert(framed@ =~= encode_text_spec(client_key@, payload@) + sentinel());
    }
    Ok(framed)
}

/// Encodes one reply chunk in the binary framing, sentinel appended.
pub fn encode_reply_binary(client_key: &Vec<u8>, payload: &Vec<u8>) -> (r: Result<
    Vec<u8>,
    CodecError,
>)
    ensures
        r is Ok <==> valid_key(client_key@),
        r is Ok ==> r->Ok_0@ == encode_binary_spec(client_key@, payload@) + sentinel(),
        r is Err ==> r->Err_0 == CodecError::InvalidKey,
{
    let n = client_key.len();
    if n == 0 || n > 255 {
        return Err(CodecError::InvalidKey);
    }
    let mut out: Vec<u8> = Vec::new();
    out.push(n as u8);
    push_all(&mut out, client_key);
    push_all(&mut out, payload);
    out.push(0);
    out.push(0);
    out.push(0);
    out.push(0);
    proof {
        assert(out@ =~= encode_binary_spec(client_key@, payload@) + sentinel());
    }
    Ok(out)
}

/// True when the body ends with the four-byte sentinel.
pub open spec fn has_sentinel_suffix(b: Seq<u8>) -> bool {
    b.len() >= 4 && b.subrange(b.len() - 4, b.len() as int) == sentinel()
}

/// True when the body ends with the four-byte sentinel.
pub fn ends_with_sentinel(body: &Vec<u8>) -> (r: bool)
    ensures
        r == has_sentinel_suffix(body@),
{
    if body.len() < 4 {
        return false;
    }
    let n = body.len();
    let r = body[n - 4] == 0 && body[n - 3] == 0 && body[n - 2] == 0 && body[n - 1] == 0;
    proof {
        if r {
            assert(body@.subrange(body@.len() - 4, body@.len() as int) =~= sentinel());
        } else {
            assert(body@.subrange(body@.len() - 4, body@.len() as int) != sentinel()) by {
                if body@.subrange(body@.len() - 4, body@.len() as int) == sentinel() {
                    assert(body@[body@.len() - 4] == sentinel()[0]);
                    assert(body@[body@.len() - 3] == sentinel()[1]);
                    assert(body@[body@.len() - 2] == sentinel()[2]);
                    assert(body@[body@.len() - 1] == sentinel()[3]);
                }
            }
        }
    }
    r
}

/// Copies `s[from..to]` into a fresh vector.
pub fn copy_range(s: &Vec<u8>, from: usize, to: usize) -> (r: Vec<u8>)
    requires
        from <= to <= s@.len(),
    ensures
        r@ == s@.subrange(from as int, to as int),
{
    let mut out: Vec<u8> = Vec::new();
    let mut i: usize = from;
    while i < to
        invariant
            from <= i <= to <= s@.len(),
            out@ == s@.subrange(from as int, i as int),
        decreases to - i,
    {
        out.push(s[i]);
        i = i + 1;
        proof {
            assert(out@ =~= s@.subrange(from as int, i as int));
        }
    }
    out
}

/// Framing round trip: decoding an encoded request yields the key and payload
/// that went in, for every key the framing admits and every payload.
pub proof fn lemma_text_frame_round_trip(key: Seq<u8>, payload: Seq<u8>)
    requires
        valid_key(key),
    ensures
        text_frame_ok(encode_text_spec(key, payload)),
        encode_text_spec(key, payload).subrange(
            3,
            3 + text_key_len(encode_text_spec(key, payload)),
        ) == key,
        encode_text_spec(key, payload).subrange(
            3 + text_key_len(encode_text_spec(key, payload)),
            encode_text_spec(key, payload).len() as int,
        ) == payload,
{
    let n = key.len() as int;
    let enc = encode_text_spec(key, payload);
    assert(enc[0] == (48 + n / 100) as u8);
    assert(enc[1] == (48 + (n / 10) % 10) as u8);
    assert(enc[2] == (48 + n % 10) as u8);
    assert(0 <= n / 100 <= 9 && 0 <= (n / 10) % 10 <= 9 && 0 <= n % 10 <= 9);
    assert(100 * (n / 100) + 10 * ((n / 10) % 10) + n % 10 == n) by {
        assert(n / 10 == 10 * (n / 100) + (n / 10) % 10) by (nonlinear_arith)
            requires
                0 <= n <= 999,
        ;
        assert(n == 10 * (n / 10) + n % 10) by (nonlinear_arith)
            requires
                0 <= n,
        ;
    }
    assert(text_key_len(enc) == n);
    assert(enc.subrange(3, 3 + n) =~= key);
    assert(enc.subrange(3 + n, enc.len() as int) =~= payload);
}

/// The binary framing round trip, in the same shape.
pub proof fn lemma_binary_frame_round_trip(key: Seq<u8>, payload: Seq<u8>)
    requires
        valid_key(key),
    ensures
        binary_frame_ok(encode_binary_spec(key, payload)),
        encode_binary_spec(key, payload).subrange(
            1,
            1 + encode_binary_spec(key, payload)[0],
        ) == key,
        encode_binary_spec(key, payload).subrange(
            1 + encode_binary_spec(key, payload)[0],
            encode_binary_spec(key, payload).len() as int,
        ) == payload,
{
    let enc = encode_binary_spec(key, payload);
    let n = key.len() as int;
    assert(enc[0] == key.len() as u8);
    assert(enc.subrange(1, 1 + n) =~= key);
    assert(enc.subrange(1 + n, enc.len() as int) =~= payload);
}

} // verus!
