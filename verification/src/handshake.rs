//! The WebSocket opening handshake: from the parsed upgrade request to the
//! bytes of the `101 Switching Protocols` response.

use crate::http::bytes_equal;
use crate::http::lookup;
use crate::http::Request;
use base64::Engine;
use sha1::Digest;
use vstd::prelude::*;
use vstd::string::StringSliceAdditionalSpecFns;

verus! {

/// Why no handshake response is made.
#[derive(Clone, Copy, Debug, PartialEq, Eq, Structural)]
pub enum HandshakeError {
    /// The request does not ask for an upgrade to `websocket`.
    NotAnUpgrade,
    /// The request carries no `Sec-WebSocket-Key`.
    MissingKey,
}

/// The SHA-1 digest of a byte string.
pub uninterp spec fn sha1_digest(data: Seq<u8>) -> Seq<u8>;

/// The base64 text of a byte string, standard alphabet, padded, as ASCII bytes.
pub uninterp spec fn base64_text(data: Seq<u8>) -> Seq<u8>;

/// The fixed identifier that the protocol appends to the client's key.
pub open spec fn guid() -> Seq<u8> {
    "258EAFA5-E914-47DA-95CA-C5AB0DC85B11".spec_bytes()
}

pub open spec fn upgrade_name() -> Seq<u8> {
    "Upgrade".spec_bytes()
}

pub open spec fn upgrade_value() -> Seq<u8> {
    "websocket".spec_bytes()
}

pub open spec fn key_name() -> Seq<u8> {
    "Sec-WebSocket-Key".spec_bytes()
}

/// The response up to the accept value.
pub open spec fn response_head() -> Seq<u8> {
    "HTTP/1.1 101 Switching Protocols\r\nUpgrade: websocket\r\nConnection: Upgrade\r\nSec-WebSocket-Accept: ".spec_bytes()
}

/// The end of the last header line and the blank line after it.
pub open spec fn response_tail() -> Seq<u8> {
    "\r\n\r\n".spec_bytes()
}

/// The accept value owed to a client key: the base64 text of the SHA-1 digest
/// of the key followed by the protocol's identifier.
pub open spec fn spec_accept_key(key: Seq<u8>) -> Seq<u8> {
    base64_text(sha1_digest(key + guid()))
}

/// The whole response owed to a client key.
pub open spec fn spec_response(key: Seq<u8>) -> Seq<u8> {
    response_head() + spec_accept_key(key) + response_tail()
}

/// True when the request asks for an upgrade to `websocket`.
pub open spec fn spec_is_upgrade(headers: Seq<(Seq<u8>, Seq<u8>)>) -> bool {
    lookup(headers, upgrade_name()) == Some(upgrade_value())
}

/// What the handshake answers to a request with these headers.
pub open spec fn spec_handshake(headers: Seq<(Seq<u8>, Seq<u8>)>) -> Result<
    Seq<u8>,
    HandshakeError,
> {
    if !spec_is_upgrade(headers) {
        Err(HandshakeError::NotAnUpgrade)
    } else {
        match lookup(headers, key_name()) {
            None => Err(HandshakeError::MissingKey),
            Some(key) => Ok(spec_response(key)),
        }
    }
}

/// `sha1::Sha1::digest` (the `Digest` trait's one-shot function): the SHA-1
/// digest of `data`, which is twenty bytes long.
#[verifier::external_body]
fn sha1_of(data: &[u8]) -> (out: Vec<u8>)
    ensures
        out@ == sha1_digest(data@),
        out@.len() == 20,
{
    sha1::Sha1::digest(data).to_vec()
}

/// `base64::Engine::encode` on `base64::engine::general_purpose::STANDARD`:
/// the padded base64 text of `data`.  The call panics where the length of the
/// text does not fit in `usize`; such inputs are left out.
#[verifier::external_body]
fn base64_of(data: &[u8]) -> (out: Vec<u8>)
    requires
        data@.len() / 3 * 4 + 4 <= usize::MAX,
    ensures
        out@ == base64_text(data@),
{
    base64::engine::general_purpose::STANDARD.encode(data).into_bytes()
}

/// Computes the `Sec-WebSocket-Accept` value for a client key.
pub fn accept_key(key: &[u8]) -> (out: Vec<u8>)
    ensures
        out@ == spec_accept_key(key@),
{
    let mut joined: Vec<u8> = Vec::new();
    joined.extend_from_slice(key);
    joined.extend_from_slice("258EAFA5-E914-47DA-95CA-C5AB0DC85B11".as_bytes());
    assert(joined@ =~= key@ + guid());
    let digest = sha1_of(joined.as_slice());
    base64_of(digest.as_slice())
}

/// Builds the response that carries the given accept value.
pub fn response_with_accept(accept: &[u8]) -> (out: Vec<u8>)
    ensures
        out@ == response_head() + accept@ + response_tail(),
{
    let mut out: Vec<u8> = Vec::new();
    out.extend_from_slice(
        "HTTP/1.1 101 Switching Protocols\r\nUpgrade: websocket\r\nConnection: Upgrade\r\nSec-WebSocket-Accept: ".as_bytes(),
    );
    out.extend_from_slice(accept);
    out.extend_from_slice("\r\n\r\n".as_bytes());
    assert(out@ =~= response_head() + accept@ + response_tail());
    out
}

/// Tells an upgrade request from any other: its `Upgrade` header must be
/// exactly `websocket`.
pub fn is_upgrade_request(header: &Request) -> (r: bool)
    ensures
        r == spec_is_upgrade(header@.headers),
{
    match header.get("Upgrade".as_bytes()) {
        Some(value) => bytes_equal(value.as_slice(), "websocket".as_bytes()),
        None => false,
    }
}

/// Builds the bytes to send in answer to an upgrade request.  Once they are
/// written the connection speaks WebSocket frames.
pub fn init_websocket_connection(header: &Request) -> (r: Result<Vec<u8>, HandshakeError>)
    ensures
        match spec_handshake(header@.headers) {
            Ok(bytes) => r is Ok && r.unwrap()@ == bytes,
            Err(e) => r == Err::<Vec<u8>, HandshakeError>(e),
        },
{
    if !is_upgrade_request(header) {
        return Err(HandshakeError::NotAnUpgrade);
    }
    match header.get("Sec-WebSocket-Key".as_bytes()) {
        None => Err(HandshakeError::MissingKey),
        Some(key) => {
            let accept = accept_key(key.as_slice());
            Ok(response_with_accept(accept.as_slice()))
        },
    }
}

} // verus!
