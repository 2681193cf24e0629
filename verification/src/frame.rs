//! WebSocket frame codec: one frame in, one frame out, no fragmentation.

use vstd::prelude::*;

verus! {

/// Purpose of a frame, as carried in the low four bits of its first byte.
#[derive(Clone, Copy, Debug, PartialEq, Eq, Structural)]
pub enum Opcode {
    Continuation,
    Text,
    Binary,
    Close,
    Ping,
    Pong,
}

/// Why a buffer cannot be the start of an acceptable frame.
#[derive(Clone, Copy, Debug, PartialEq, Eq, Structural)]
pub enum FrameProtocolError {
    /// The opcode is one of the reserved values.
    BadOpcode,
    /// The frame is a fragment: FIN is clear or the opcode is a continuation.
    Fragmented,
    /// The announced payload length has its top bit set or exceeds the address space.
    Oversized,
}

/// One decoded frame.
#[derive(Debug)]
pub struct Frame {
    pub opcode: Opcode,
    pub payload: Vec<u8>,
}

/// What a buffer holds at its front.
pub enum FrameParse {
    /// Not enough bytes yet to tell, or to hold the whole frame.
    Incomplete,
    /// The bytes present already break the protocol.
    Invalid(FrameProtocolError),
    /// A whole frame: its opcode, its unmasked payload and the bytes it occupies.
    Complete(Opcode, Seq<u8>, int),
}

/// Largest payload length a frame may announce.
pub const MAX_PAYLOAD_LEN: u64 = 0x7fff_ffff_ffff_ffff;

impl Opcode {
    pub open spec fn spec_code(self) -> u8 {
        match self {
            Opcode::Continuation => 0u8,
            Opcode::Text => 1u8,
            Opcode::Binary => 2u8,
            Opcode::Close => 8u8,
            Opcode::Ping => 9u8,
            Opcode::Pong => 10u8,
        }
    }

    pub open spec fn spec_from_code(code: u8) -> Option<Opcode> {
        if code == 0 {
            Some(Opcode::Continuation)
        } else if code == 1 {
            Some(Opcode::Text)
        } else if code == 2 {
            Some(Opcode::Binary)
        } else if code == 8 {
            Some(Opcode::Close)
        } else if code == 9 {
            Some(Opcode::Ping)
        } else if code == 10 {
            Some(Opcode::Pong)
        } else {
            None
        }
    }

    /// The four-bit wire value of this opcode.
    pub fn code(self) -> (c: u8)
        ensures
            c == self.spec_code(),
            Opcode::spec_from_code(c) == Some(self),
    {
        match self {
            Opcode::Continuation => 0u8,
            Opcode::Text => 1u8,
            Opcode::Binary => 2u8,
            Opcode::Close => 8u8,
            Opcode::Ping => 9u8,
            Opcode::Pong => 10u8,
        }
    }

    /// The opcode with the given wire value, if it is not reserved.
    pub fn from_code(code: u8) -> (r: Option<Opcode>)
        ensures
            r == Opcode::spec_from_code(code),
    {
        if code == 0 {
            Some(Opcode::Continuation)
        } else if code == 1 {
            Some(Opcode::Text)
        } else if code == 2 {
            Some(Opcode::Binary)
        } else if code == 8 {
            Some(Opcode::Close)
        } else if code == 9 {
            Some(Opcode::Ping)
        } else if code == 10 {
            Some(Opcode::Pong)
        } else {
            None
        }
    }
}

/// Number of extended-length bytes that follow a seven-bit length field.
pub open spec fn extended_len_bytes(short: u8) -> int {
    if short == 126 {
        2
    } else if short == 127 {
        8
    } else {
        0
    }
}

/// Big-endian value of the two bytes at `at`.
pub open spec fn be16(buf: Seq<u8>, at: int) -> int {
    buf[at] * 256 + buf[at + 1]
}

/// Big-endian value of the eight bytes at `at`.
pub open spec fn be64(buf: Seq<u8>, at: int) -> int {
    ((((((buf[at] * 256 + buf[at + 1]) * 256 + buf[at + 2]) * 256 + buf[at + 3]) * 256 + buf[at
        + 4]) * 256 + buf[at + 5]) * 256 + buf[at + 6]) * 256 + buf[at + 7]
}

/// Payload length announced by a header whose length bytes are all present.
pub open spec fn announced_len(buf: Seq<u8>) -> int {
    let short = buf[1] & 0x7f;
    if short == 126 {
        be16(buf, 2)
    } else if short == 127 {
        be64(buf, 2)
    } else {
        short as int
    }
}

/// `data` with byte `i` XOR-ed with `key[i mod 4]`.
pub open spec fn apply_mask(data: Seq<u8>, key: Seq<u8>) -> Seq<u8> {
    Seq::new(data.len(), |i: int| data[i] ^ key[i % 4])
}

/// The frame at the front of `buf`, if there is one.
///
/// Two bytes are needed before anything is judged.  A reserved opcode, then a
/// fragment, is refused as soon as those two bytes are there; an excessive
/// length as soon as the length bytes are there.  A set mask bit announces a
/// four-byte key with which the payload is unmasked.
pub open spec fn spec_decode(buf: Seq<u8>) -> FrameParse {
    if buf.len() < 2 {
        FrameParse::Incomplete
    } else {
        match Opcode::spec_from_code(buf[0] & 0x0f) {
            None => FrameParse::Invalid(FrameProtocolError::BadOpcode),
            Some(op) => {
                if op == Opcode::Continuation || buf[0] & 0x80 == 0 {
                    FrameParse::Invalid(FrameProtocolError::Fragmented)
                } else {
                    let ext = extended_len_bytes(buf[1] & 0x7f);
                    if buf.len() < 2 + ext {
                        FrameParse::Incomplete
                    } else {
                        let len = announced_len(buf);
                        let key_len: int = if buf[1] & 0x80 != 0 {
                            4
                        } else {
                            0
                        };
                        let start = 2 + ext + key_len;
                        if len > MAX_PAYLOAD_LEN || len > usize::MAX {
                            FrameParse::Invalid(FrameProtocolError::Oversized)
                        } else if buf.len() < start + len {
                            FrameParse::Incomplete
                        } else {
                            let raw = buf.subrange(start, start + len);
                            let payload = if key_len == 4 {
                                apply_mask(raw, buf.subrange(2 + ext, 2 + ext + 4))
                            } else {
                                raw
                            };
                            FrameParse::Complete(op, payload, start + len)
                        }
                    }
                }
            },
        }
    }
}

/// Digit `k` of `n` written in base 256, digit 0 being the lowest.
pub open spec fn digit(n: int, k: nat) -> u8
    decreases k,
{
    if k == 0 {
        (n % 256) as u8
    } else {
        digit(n / 256, (k - 1) as nat)
    }
}

/// The length field of an unmasked frame with `n` payload bytes: the length
/// itself up to 125, else 126 and two digits, else 127 and eight digits,
/// highest digit first.
pub open spec fn length_prefix(n: int) -> Seq<u8> {
    if n <= 125 {
        seq![n as u8]
    } else if n <= 65535 {
        seq![126u8, digit(n, 1), digit(n, 0)]
    } else {
        seq![
            127u8,
            digit(n, 7),
            digit(n, 6),
            digit(n, 5),
            digit(n, 4),
            digit(n, 3),
            digit(n, 2),
            digit(n, 1),
            digit(n, 0),
        ]
    }
}

/// The bytes of a final, unmasked frame.
pub open spec fn spec_encode(opcode: Opcode, payload: Seq<u8>) -> Seq<u8> {
    seq![0x80u8 | opcode.spec_code()] + length_prefix(payload.len() as int) + payload
}

/// Builds a final, unmasked frame around `payload`.
pub fn encode_frame(opcode: Opcode, payload: &[u8]) -> (out: Vec<u8>)
    ensures
        out@ == spec_encode(opcode, payload@),
{
    let mut out: Vec<u8> = Vec::new();
    out.push(0x80u8 | opcode.code());
    let n: usize = payload.len();
    if n <= 125 {
        out.push(n as u8);
    } else if n <= 65535 {
        proof {
            reveal_with_fuel(digit, 2);
        }
        out.push(126u8);
        out.push((n / 256 % 256) as u8);
        out.push((n % 256) as u8);
    } else {
        proof {
            reveal_with_fuel(digit, 8);
        }
        let w0: u64 = n as u64;
        let w1: u64 = w0 / 256;
        let w2: u64 = w1 / 256;
        let w3: u64 = w2 / 256;
        let w4: u64 = w3 / 256;
        let w5: u64 = w4 / 256;
        let w6: u64 = w5 / 256;
        let w7: u64 = w6 / 256;
        out.push(127u8);
        out.push((w7 % 256) as u8);
        out.push((w6 % 256) as u8);
        out.push((w5 % 256) as u8);
        out.push((w4 % 256) as u8);
        out.push((w3 % 256) as u8);
        out.push((w2 % 256) as u8);
        out.push((w1 % 256) as u8);
        out.push((w0 % 256) as u8);
    }
    assert(out@ =~= seq![0x80u8 | opcode.spec_code()] + length_prefix(n as int));
    out.extend_from_slice(payload);
    assert(out@ =~= spec_encode(opcode, payload@));
    out
}

/// True when `r` is a decoded frame with these contents and this size on the wire.
pub open spec fn is_decoded(
    r: Result<Option<(Frame, usize)>, FrameProtocolError>,
    opcode: Opcode,
    payload: Seq<u8>,
    used: int,
) -> bool {
    match r {
        Ok(Some((frame, n))) => frame.opcode == opcode && frame.payload@ == payload && n == used,
        _ => false,
    }
}

/// Reads the frame at the front of `buf`.
///
/// `Ok(None)` asks for more bytes; `Ok(Some((frame, n)))` hands out the frame
/// and the number of bytes it occupied; `Err` names the protocol violation.
pub fn decode_frame(buf: &[u8]) -> (r: Result<Option<(Frame, usize)>, FrameProtocolError>)
    ensures
        match spec_decode(buf@) {
            FrameParse::Incomplete => r == Ok::<Option<(Frame, usize)>, FrameProtocolError>(None),
            FrameParse::Invalid(e) => r == Err::<Option<(Frame, usize)>, FrameProtocolError>(e),
            FrameParse::Complete(op, payload, used) => is_decoded(r, op, payload, used),
        },
{
    let total: usize = buf.len();
    if total < 2 {
        return Ok(None);
    }
    let b0: u8 = buf[0];
    let b1: u8 = buf[1];
    let op = match Opcode::from_code(b0 & 0x0f) {
        None => {
            return Err(FrameProtocolError::BadOpcode);
        },
        Some(op) => op,
    };
    if op == Opcode::Continuation || b0 & 0x80 == 0 {
        return Err(FrameProtocolError::Fragmented);
    }
    let short: u8 = b1 & 0x7f;
    let ext: usize = if short == 126 {
        2
    } else if short == 127 {
        8
    } else {
        0
    };
    if total < 2 + ext {
        return Ok(None);
    }
    let len64: u64 = if short == 126 {
        (buf[2] as u64) * 256 + (buf[3] as u64)
    } else if short == 127 {
        let v1: u64 = (buf[2] as u64) * 256 + (buf[3] as u64);
        let v2: u64 = v1 * 256 + (buf[4] as u64);
        let v3: u64 = v2 * 256 + (buf[5] as u64);
        let v4: u64 = v3 * 256 + (buf[6] as u64);
        let v5: u64 = v4 * 256 + (buf[7] as u64);
        let v6: u64 = v5 * 256 + (buf[8] as u64);
        v6 * 256 + (buf[9] as u64)
    } else {
        short as u64
    };
    assert(len64 == announced_len(buf@));
    let masked: bool = b1 & 0x80 != 0;
    let key_at: usize = 2 + ext;
    let start: usize = if masked {
        key_at + 4
    } else {
        key_at
    };
    if len64 > MAX_PAYLOAD_LEN || len64 > usize::MAX as u64 {
        return Err(FrameProtocolError::Oversized);
    }
    let len: usize = len64 as usize;
    if total < start || total - start < len {
        return Ok(None);
    }
    let mut payload: Vec<u8> = Vec::new();
    let mut i: usize = 0;
    while i < len
        invariant
            total == buf@.len(),
            start + len <= total,
            start == if masked { key_at + 4 } else { key_at as int },
            i <= len,
            payload@.len() == i,
            forall|j: int|
                0 <= j < i ==> payload@[j] == if masked {
                    buf@[start + j] ^ buf@[key_at + j % 4]
                } else {
                    buf@[start + j]
                },
        decreases len - i,
    {
        let b: u8 = buf[start + i];
        let v: u8 = if masked {
            b ^ buf[key_at + i % 4]
        } else {
            b
        };
        payload.push(v);
        i += 1;
    }
    proof {
        let raw = buf@.subrange(start as int, start + len);
        if masked {
            let key = buf@.subrange(key_at as int, key_at + 4);
            assert(payload@ =~= apply_mask(raw, key));
        } else {
            assert(payload@ =~= raw);
        }
    }
    Ok(Some((Frame { opcode: op, payload }, start + len)))
}

/// Eight base-256 digits of a 64-bit `n`, highest first, spell `n` again.
proof fn lemma_wide_length(n: int, bytes: Seq<u8>, at: int)
    requires
        0 <= n <= u64::MAX,
        0 <= at,
        at + 8 <= bytes.len(),
        bytes[at] == digit(n, 7),
        bytes[at + 1] == digit(n, 6),
        bytes[at + 2] == digit(n, 5),
        bytes[at + 3] == digit(n, 4),
        bytes[at + 4] == digit(n, 3),
        bytes[at + 5] == digit(n, 2),
        bytes[at + 6] == digit(n, 1),
        bytes[at + 7] == digit(n, 0),
    ensures
        be64(bytes, at) == n,
{
    reveal_with_fuel(digit, 8);
    let q1 = n / 256;
    let q2 = q1 / 256;
    let q3 = q2 / 256;
    let q4 = q3 / 256;
    let q5 = q4 / 256;
    let q6 = q5 / 256;
    let q7 = q6 / 256;
    assert(q1 < 0x100_0000_0000_0000);
    assert(q2 < 0x1_0000_0000_0000);
    assert(q3 < 0x100_0000_0000);
    assert(q4 < 0x1_0000_0000);
    assert(q5 < 0x100_0000);
    assert(q6 < 0x1_0000);
    assert(q7 < 0x100);
    assert(bytes[at] == q7);
    assert(bytes[at + 1] == q6 % 256);
    assert(bytes[at + 2] == q5 % 256);
    assert(bytes[at + 3] == q4 % 256);
    assert(bytes[at + 4] == q3 % 256);
    assert(bytes[at + 5] == q2 % 256);
    assert(bytes[at + 6] == q1 % 256);
    assert(bytes[at + 7] == n % 256);
    let h1 = bytes[at] * 256 + bytes[at + 1];
    assert(h1 == q6);
    let h2 = h1 * 256 + bytes[at + 2];
    assert(h2 == q5);
    let h3 = h2 * 256 + bytes[at + 3];
    assert(h3 == q4);
    let h4 = h3 * 256 + bytes[at + 4];
    assert(h4 == q3);
    let h5 = h4 * 256 + bytes[at + 5];
    assert(h5 == q2);
    let h6 = h5 * 256 + bytes[at + 6];
    assert(h6 == q1);
}

/// What `length_prefix` writes is read back as the same length.
proof fn lemma_length_read_back(n: int, buf: Seq<u8>)
    requires
        0 <= n <= u64::MAX,
        buf.len() >= 1 + length_prefix(n).len(),
        forall|k: int| 0 <= k < length_prefix(n).len() ==> buf[1 + k] == length_prefix(n)[k],
    ensures
        buf[1] & 0x7f == length_prefix(n)[0],
        buf[1] & 0x80 == 0,
        length_prefix(n).len() == 1 + extended_len_bytes(length_prefix(n)[0]),
        announced_len(buf) == n,
{
    let prefix = length_prefix(n);
    let short = prefix[0];
    assert(buf[1] == prefix[0]);
    assert(short & 0x7f == short && short & 0x80 == 0) by (bit_vector)
        requires
            short <= 127,
    ;
    if n > 65535 {
        assert(buf[2] == prefix[1]);
        assert(buf[3] == prefix[2]);
        assert(buf[4] == prefix[3]);
        assert(buf[5] == prefix[4]);
        assert(buf[6] == prefix[5]);
        assert(buf[7] == prefix[6]);
        assert(buf[8] == prefix[7]);
        assert(buf[9] == prefix[8]);
        lemma_wide_length(n, buf, 2);
    } else if n > 125 {
        reveal_with_fuel(digit, 2);
        assert(buf[2] == prefix[1]);
        assert(buf[3] == prefix[2]);
    }
}

/// Decoding what `encode_frame` produced gives back the opcode and the payload,
/// for the short, the 16-bit and the 64-bit length form alike, and consumes
/// exactly the encoded frame whatever follows it in the buffer.  Continuation
/// frames are left out: the decoder refuses them as fragments.
pub proof fn lemma_encode_then_decode(opcode: Opcode, payload: Seq<u8>, rest: Seq<u8>)
    requires
        opcode != Opcode::Continuation,
        payload.len() <= MAX_PAYLOAD_LEN,
        payload.len() <= usize::MAX,
    ensures
        spec_decode(spec_encode(opcode, payload) + rest) == FrameParse::Complete(
            opcode,
            payload,
            spec_encode(opcode, payload).len() as int,
        ),
{
    let n = payload.len() as int;
    let frame = spec_encode(opcode, payload);
    let buf = frame + rest;
    let prefix = length_prefix(n);
    let code = opcode.spec_code();
    assert((0x80u8 | code) & 0x0f == code && (0x80u8 | code) & 0x80 != 0) by (bit_vector)
        requires
            code == 1 || code == 2 || code == 8 || code == 9 || code == 10,
    ;
    assert(buf[0] == 0x80u8 | code);
    assert forall|k: int| 0 <= k < prefix.len() implies buf[1 + k] == prefix[k] by {
        assert(buf[1 + k] == frame[1 + k]);
    }
    lemma_length_read_back(n, buf);
    let start = 1 + prefix.len();
    assert(frame.len() == start + n);
    assert(buf.subrange(start as int, start + n) =~= payload);
}

} // verus!
