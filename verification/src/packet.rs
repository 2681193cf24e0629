//! The application packets that travel inside binary frames: one tag byte,
//! then what the variant carries.

use crate::frame::digit;
use crate::http::as_text;
use vstd::prelude::*;
use vstd::slice::slice_subrange;
use vstd::string::StringExecFns;
use vstd::string::StringSliceAdditionalSpecFns;
use vstd::utf8::decode_utf8;
use vstd::utf8::encode_utf8;
use vstd::utf8::encode_utf8_decode_utf8;
use vstd::utf8::encode_utf8_valid_utf8;
use vstd::utf8::valid_utf8;

verus! {

pub const TAG_DEBUG: u8 = 0;

pub const TAG_REQUEST_NEW_SESSION: u8 = 1;

pub const TAG_ATTEMPT_AUTH_SESSION: u8 = 2;

pub const TAG_NEW_SESSION: u8 = 3;

pub const TAG_AUTH_SUCCESSFUL: u8 = 4;

pub const TAG_AUTH_FAIL: u8 = 5;

pub const TAG_REQUEST_DOWNLOAD_WORLD: u8 = 6;

pub const TAG_DOWNLOAD_WORLD: u8 = 7;

/// One message of the game protocol.
#[derive(Clone, Debug, PartialEq, Eq)]
pub enum Packet {
    /// Free text, in either direction.
    Debug(String),
    /// The client asks for a session.
    RequestNewSession,
    /// The client submits a session token.
    AttemptAuthSession(u32),
    /// The server hands out the token of a new session.
    NewSession(u32),
    /// The server accepted the token.
    AuthSuccessful(u32),
    /// The server refused the token.
    AuthFail,
    /// The client asks for the state of the world.
    RequestDownloadWorld,
    /// The server's answer to that request; it carries nothing yet.
    DownloadWorld,
}

/// The mathematical content of a [`Packet`].
pub enum PacketModel {
    Debug(Seq<char>),
    RequestNewSession,
    AttemptAuthSession(u32),
    NewSession(u32),
    AuthSuccessful(u32),
    AuthFail,
    RequestDownloadWorld,
    DownloadWorld,
}

/// Why the payload of a frame is not a packet.
#[derive(Clone, Copy, Debug, PartialEq, Eq, Structural)]
pub enum PacketDecodeError {
    /// There is no tag byte.
    Empty,
    /// The tag names no variant.
    UnknownTag,
    /// Fewer bytes follow the tag than the variant carries.
    Truncated,
    /// More bytes follow the tag than the variant carries.
    TrailingBytes,
    /// The text of a debug packet is not UTF-8.
    BadText,
}

impl View for Packet {
    type V = PacketModel;

    open spec fn view(&self) -> PacketModel {
        match *self {
            Packet::Debug(text) => PacketModel::Debug(text@),
            Packet::RequestNewSession => PacketModel::RequestNewSession,
            Packet::AttemptAuthSession(token) => PacketModel::AttemptAuthSession(token),
            Packet::NewSession(token) => PacketModel::NewSession(token),
            Packet::AuthSuccessful(token) => PacketModel::AuthSuccessful(token),
            Packet::AuthFail => PacketModel::AuthFail,
            Packet::RequestDownloadWorld => PacketModel::RequestDownloadWorld,
            Packet::DownloadWorld => PacketModel::DownloadWorld,
        }
    }
}

impl PacketModel {
    /// A packet that a server may send.
    pub open spec fn valid_from_server(self) -> bool {
        match self {
            PacketModel::Debug(_) => true,
            PacketModel::NewSession(_) => true,
            PacketModel::AuthSuccessful(_) => true,
            PacketModel::AuthFail => true,
            PacketModel::DownloadWorld => true,
            _ => false,
        }
    }

    /// A packet that a client may send.
    pub open spec fn valid_from_client(self) -> bool {
        match self {
            PacketModel::Debug(_) => true,
            PacketModel::RequestNewSession => true,
            PacketModel::AttemptAuthSession(_) => true,
            PacketModel::RequestDownloadWorld => true,
            _ => false,
        }
    }

    /// The tag byte of the variant.
    pub open spec fn tag(self) -> u8 {
        match self {
            PacketModel::Debug(_) => TAG_DEBUG,
            PacketModel::RequestNewSession => TAG_REQUEST_NEW_SESSION,
            PacketModel::AttemptAuthSession(_) => TAG_ATTEMPT_AUTH_SESSION,
            PacketModel::NewSession(_) => TAG_NEW_SESSION,
            PacketModel::AuthSuccessful(_) => TAG_AUTH_SUCCESSFUL,
            PacketModel::AuthFail => TAG_AUTH_FAIL,
            PacketModel::RequestDownloadWorld => TAG_REQUEST_DOWNLOAD_WORLD,
            PacketModel::DownloadWorld => TAG_DOWNLOAD_WORLD,
        }
    }

    /// What follows the tag byte: the UTF-8 bytes of the text, the four
    /// bytes of the token with the highest first, or nothing.
    pub open spec fn body(self) -> Seq<u8> {
        match self {
            PacketModel::Debug(text) => encode_utf8(text),
            PacketModel::AttemptAuthSession(token) => token_bytes(token),
            PacketModel::NewSession(token) => token_bytes(token),
            PacketModel::AuthSuccessful(token) => token_bytes(token),
            _ => Seq::empty(),
        }
    }

    /// The packet on the wire.
    pub open spec fn encoding(self) -> Seq<u8> {
        seq![self.tag()] + self.body()
    }
}

/// A token as four bytes, highest first.
pub open spec fn token_bytes(token: u32) -> Seq<u8> {
    seq![digit(token as int, 3), digit(token as int, 2), digit(token as int, 1), digit(token as int, 0)]
}

/// The token that four bytes spell, highest first.
pub open spec fn token_of(body: Seq<u8>) -> u32 {
    (((body[0] * 256 + body[1]) * 256 + body[2]) * 256 + body[3]) as u32
}

/// The packet that carries nothing and has this tag.
pub open spec fn bare_packet(tag: u8) -> Option<PacketModel> {
    if tag == TAG_REQUEST_NEW_SESSION {
        Some(PacketModel::RequestNewSession)
    } else if tag == TAG_AUTH_FAIL {
        Some(PacketModel::AuthFail)
    } else if tag == TAG_REQUEST_DOWNLOAD_WORLD {
        Some(PacketModel::RequestDownloadWorld)
    } else if tag == TAG_DOWNLOAD_WORLD {
        Some(PacketModel::DownloadWorld)
    } else {
        None
    }
}

/// The packet that carries this token and has this tag.
pub open spec fn token_packet(tag: u8, token: u32) -> Option<PacketModel> {
    if tag == TAG_ATTEMPT_AUTH_SESSION {
        Some(PacketModel::AttemptAuthSession(token))
    } else if tag == TAG_NEW_SESSION {
        Some(PacketModel::NewSession(token))
    } else if tag == TAG_AUTH_SUCCESSFUL {
        Some(PacketModel::AuthSuccessful(token))
    } else {
        None
    }
}

/// The packet that a payload holds.
pub open spec fn spec_decode_packet(bytes: Seq<u8>) -> Result<PacketModel, PacketDecodeError> {
    if bytes.len() == 0 {
        Err(PacketDecodeError::Empty)
    } else {
        let tag = bytes[0];
        let body = bytes.subrange(1, bytes.len() as int);
        if tag == TAG_DEBUG {
            if valid_utf8(body) {
                Ok(PacketModel::Debug(decode_utf8(body)))
            } else {
                Err(PacketDecodeError::BadText)
            }
        } else if token_packet(tag, 0) is Some {
            if body.len() < 4 {
                Err(PacketDecodeError::Truncated)
            } else if body.len() > 4 {
                Err(PacketDecodeError::TrailingBytes)
            } else {
                Ok(token_packet(tag, token_of(body)).unwrap())
            }
        } else if bare_packet(tag) is Some {
            if body.len() > 0 {
                Err(PacketDecodeError::TrailingBytes)
            } else {
                Ok(bare_packet(tag).unwrap())
            }
        } else {
            Err(PacketDecodeError::UnknownTag)
        }
    }
}

fn push_token(out: &mut Vec<u8>, token: u32)
    ensures
        final(out)@ == old(out)@ + token_bytes(token),
{
    proof {
        reveal_with_fuel(digit, 4);
    }
    let w1: u32 = token / 256;
    let w2: u32 = w1 / 256;
    let w3: u32 = w2 / 256;
    out.push((w3 % 256) as u8);
    out.push((w2 % 256) as u8);
    out.push((w1 % 256) as u8);
    out.push((token % 256) as u8);
    assert(out@ =~= old(out)@ + token_bytes(token));
}

fn read_token(body: &[u8]) -> (token: u32)
    requires
        body@.len() == 4,
    ensures
        token == token_of(body@),
{
    let v1: u32 = (body[0] as u32) * 256 + (body[1] as u32);
    let v2: u32 = v1 * 256 + (body[2] as u32);
    v2 * 256 + (body[3] as u32)
}

impl Packet {
    /// May a server send this packet?
    pub fn is_valid_from_server(&self) -> (r: bool)
        ensures
            r == self@.valid_from_server(),
    {
        match self {
            Packet::Debug(_) => true,
            Packet::NewSession(_) => true,
            Packet::AuthSuccessful(_) => true,
            Packet::AuthFail => true,
            Packet::DownloadWorld => true,
            _ => false,
        }
    }

    /// May a client send this packet?
    pub fn is_valid_from_client(&self) -> (r: bool)
        ensures
            r == self@.valid_from_client(),
    {
        match self {
            Packet::Debug(_) => true,
            Packet::RequestNewSession => true,
            Packet::AttemptAuthSession(_) => true,
            Packet::RequestDownloadWorld => true,
            _ => false,
        }
    }

    /// Writes the packet as the payload of one frame.
    pub fn encode(&self) -> (out: Vec<u8>)
        ensures
            out@ == self@.encoding(),
    {
        let mut out: Vec<u8> = Vec::new();
        match self {
            Packet::Debug(text) => {
                out.push(TAG_DEBUG);
                out.extend_from_slice(text.as_str().as_bytes());
            },
            Packet::RequestNewSession => {
                out.push(TAG_REQUEST_NEW_SESSION);
            },
            Packet::AttemptAuthSession(token) => {
                out.push(TAG_ATTEMPT_AUTH_SESSION);
                push_token(&mut out, *token);
            },
            Packet::NewSession(token) => {
                out.push(TAG_NEW_SESSION);
                push_token(&mut out, *token);
            },
            Packet::AuthSuccessful(token) => {
                out.push(TAG_AUTH_SUCCESSFUL);
                push_token(&mut out, *token);
            },
            Packet::AuthFail => {
                out.push(TAG_AUTH_FAIL);
            },
            Packet::RequestDownloadWorld => {
                out.push(TAG_REQUEST_DOWNLOAD_WORLD);
            },
            Packet::DownloadWorld => {
                out.push(TAG_DOWNLOAD_WORLD);
            },
        }
        assert(out@ =~= self@.encoding());
        out
    }

    /// Reads the packet that the payload of a frame holds.
    pub fn decode(bytes: &[u8]) -> (r: Result<Packet, PacketDecodeError>)
        ensures
            match spec_decode_packet(bytes@) {
                Ok(model) => r is Ok && r.unwrap()@ == model,
                Err(e) => r == Err::<Packet, PacketDecodeError>(e),
            },
    {
        let n: usize = bytes.len();
        if n == 0 {
            return Err(PacketDecodeError::Empty);
        }
        let tag: u8 = bytes[0];
        let body = slice_subrange(bytes, 1, n);
        if tag == TAG_DEBUG {
            match as_text(body) {
                Some(text) => {
                    proof {
                        encode_utf8_decode_utf8(text@);
                    }
                    Ok(Packet::Debug(String::from_str(text)))
                },
                None => Err(PacketDecodeError::BadText),
            }
        } else if tag == TAG_ATTEMPT_AUTH_SESSION || tag == TAG_NEW_SESSION || tag
            == TAG_AUTH_SUCCESSFUL {
            if body.len() < 4 {
                Err(PacketDecodeError::Truncated)
            } else if body.len() > 4 {
                Err(PacketDecodeError::TrailingBytes)
            } else {
                let token: u32 = read_token(body);
                if tag == TAG_ATTEMPT_AUTH_SESSION {
                    Ok(Packet::AttemptAuthSession(token))
                } else if tag == TAG_NEW_SESSION {
                    Ok(Packet::NewSession(token))
                } else {
                    Ok(Packet::AuthSuccessful(token))
                }
            }
        } else if tag == TAG_REQUEST_NEW_SESSION || tag == TAG_AUTH_FAIL || tag
            == TAG_REQUEST_DOWNLOAD_WORLD || tag == TAG_DOWNLOAD_WORLD {
            if body.len() > 0 {
                Err(PacketDecodeError::TrailingBytes)
            } else if tag == TAG_REQUEST_NEW_SESSION {
                Ok(Packet::RequestNewSession)
            } else if tag == TAG_AUTH_FAIL {
                Ok(Packet::AuthFail)
            } else if tag == TAG_REQUEST_DOWNLOAD_WORLD {
                Ok(Packet::RequestDownloadWorld)
            } else {
                Ok(Packet::DownloadWorld)
            }
        } else {
            Err(PacketDecodeError::UnknownTag)
        }
    }
}

/// The four bytes written for a token spell the token again.
proof fn lemma_token_read_back(token: u32)
    ensures
        token_of(token_bytes(token)) == token,
{
    reveal_with_fuel(digit, 4);
    let n = token as int;
    let q1 = n / 256;
    let q2 = q1 / 256;
    let q3 = q2 / 256;
    assert(q3 < 256);
    let b = token_bytes(token);
    assert(b[0] == q3);
    assert(b[1] == q2 % 256);
    assert(b[2] == q1 % 256);
    assert(b[3] == n % 256);
    let h1 = b[0] * 256 + b[1];
    assert(h1 == q2);
    let h2 = h1 * 256 + b[2];
    assert(h2 == q1);
}

/// Every packet is read back from its own encoding.
pub proof fn lemma_packet_round_trip(p: PacketModel)
    ensures
        spec_decode_packet(p.encoding()) == Ok::<PacketModel, PacketDecodeError>(p),
{
    let bytes = p.encoding();
    let body = bytes.subrange(1, bytes.len() as int);
    assert(body =~= p.body());
    match p {
        PacketModel::Debug(text) => {
            encode_utf8_valid_utf8(text);
            encode_utf8_decode_utf8(text);
        },
        PacketModel::AttemptAuthSession(token) => {
            lemma_token_read_back(token);
        },
        PacketModel::NewSession(token) => {
            lemma_token_read_back(token);
        },
        PacketModel::AuthSuccessful(token) => {
            lemma_token_read_back(token);
        },
        _ => {},
    }
}

/// No packet is valid from both sides except free text.
pub proof fn lemma_directions(p: PacketModel)
    ensures
        p.valid_from_server() || p.valid_from_client(),
        p.valid_from_server() && p.valid_from_client() ==> p is Debug,
{
}

} // verus!
