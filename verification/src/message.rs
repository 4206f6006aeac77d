//! Framing of the messages exchanged over the control socket: each message
//! travels as a 4-byte big-endian length followed by that many bytes.

use vstd::prelude::*;
use vstd::std_specs::cmp::PartialEqSpecImpl;

verus! {

/// The longest message accepted when reading, in bytes (1 MiB).
pub const MAX_MESSAGE_LEN: usize = 1048576;

/// Why a frame could not be written or read.
#[derive(PartialEq, Eq, Structural, Clone, Copy, Debug)]
pub enum FrameError {
    /// The message is longer than a 4-byte length can say.
    TooLong,
    /// The length read announces more than `MAX_MESSAGE_LEN` bytes.
    InvalidSize,
}

/// The number a 4-byte big-endian header stands for.
pub open spec fn be_value(h: Seq<u8>) -> int {
    h[0] * 16777216 + h[1] * 65536 + h[2] * 256 + h[3]
}

/// The 4-byte big-endian header for `len`, most significant byte first.
pub open spec fn header_bytes(len: nat) -> Seq<u8> {
    seq![
        ((len / 16777216) % 256) as u8,
        ((len / 65536) % 256) as u8,
        ((len / 256) % 256) as u8,
        (len % 256) as u8,
    ]
}

/// What reading the header `h` gives: the length it announces, unless that
/// is more than `MAX_MESSAGE_LEN`.
pub open spec fn read_len(h: Seq<u8>) -> Result<usize, FrameError> {
    if be_value(h) <= MAX_MESSAGE_LEN {
        Ok(be_value(h) as usize)
    } else {
        Err(FrameError::InvalidSize)
    }
}

/// The header that announces `len` bytes, if `len` fits in 4 bytes.
pub fn frame_header(len: usize) -> (r: Result<[u8; 4], FrameError>)
    ensures
        len <= u32::MAX ==> (r matches Ok(h) && h@ == header_bytes(len as nat)),
        len > u32::MAX ==> r == Err::<[u8; 4], FrameError>(FrameError::TooLong),
{
    if len > 0xFFFF_FFFF {
        return Err(FrameError::TooLong);
    }
    let v = len as u32;
    let b0 = (v >> 24) as u8;
    let b1 = (v >> 16) as u8;
    let b2 = (v >> 8) as u8;
    let b3 = v as u8;
    assert(b0 == ((v / 16777216) % 256) as u8 && b1 == ((v / 65536) % 256) as u8 && b2 == ((v / 256)
        % 256) as u8 && b3 == (v % 256) as u8) by (bit_vector)
        requires
            b0 == (v >> 24) as u8,
            b1 == (v >> 16) as u8,
            b2 == (v >> 8) as u8,
            b3 == v as u8,
    ;
    let h = [b0, b1, b2, b3];
    assert(h@ == header_bytes(len as nat));
    Ok(h)
}

/// The message length a header announces, if it is at most
/// `MAX_MESSAGE_LEN`.
pub fn frame_len(header: [u8; 4]) -> (r: Result<usize, FrameError>)
    ensures
        r == read_len(header@),
{
    let b0 = header[0];
    let b1 = header[1];
    let b2 = header[2];
    let b3 = header[3];
    let v: u32 = ((b0 as u32) << 24) | ((b1 as u32) << 16) | ((b2 as u32) << 8) | (b3 as u32);
    assert(v == b0 as int * 16777216 + b1 as int * 65536 + b2 as int * 256 + b3 as int) by (bit_vector)
        requires
            v == ((b0 as u32) << 24) | ((b1 as u32) << 16) | ((b2 as u32) << 8) | (b3 as u32),
    ;
    if v > 1048576 {
        return Err(FrameError::InvalidSize);
    }
    Ok(v as usize)
}

/// The bytes that carry `payload`: its header, then the payload itself.
pub fn encode_frame(payload: &[u8]) -> (r: Result<Vec<u8>, FrameError>)
    ensures
        payload@.len() <= u32::MAX ==> (r matches Ok(bytes) && bytes@ == header_bytes(
            payload@.len(),
        ) + payload@),
        payload@.len() > u32::MAX ==> r == Err::<Vec<u8>, FrameError>(FrameError::TooLong),
{
    let header = match frame_header(payload.len()) {
        Ok(h) => h,
        Err(e) => {
            return Err(e);
        },
    };
    let mut out: Vec<u8> = Vec::new();
    out.push(header[0]);
    out.push(header[1]);
    out.push(header[2]);
    out.push(header[3]);
    let mut i: usize = 0;
    while i < payload.len()
        invariant
            i <= payload@.len(),
            out@.len() == 4 + i,
            out@.take(4) == header@,
            out@.skip(4) == payload@.take(i as int),
        decreases payload@.len() - i,
    {
        out.push(payload[i]);
        assert(out@.skip(4) == payload@.take(i + 1));
        assert(out@.take(4) == header@);
        i = i + 1;
    }
    assert(payload@.take(i as int) == payload@);
    assert(out@ == out@.take(4) + out@.skip(4));
    Ok(out)
}

/// Reading a header back gives the length it was written for, for every
/// length up to `MAX_MESSAGE_LEN`; longer ones are refused on reading.
pub proof fn law_header_round_trip(len: nat)
    requires
        len <= u32::MAX,
    ensures
        be_value(header_bytes(len)) == len,
        len <= MAX_MESSAGE_LEN ==> read_len(header_bytes(len)) == Ok::<usize, FrameError>(len as usize),
        len > MAX_MESSAGE_LEN ==> read_len(header_bytes(len)) == Err::<usize, FrameError>(
            FrameError::InvalidSize,
        ),
{
    let v = len as u32;
    assert(((v / 16777216) % 256) as u8 * 16777216 + ((v / 65536) % 256) as u8 * 65536 + ((v / 256) % 256) as u8
        * 256 + (v % 256) as u8 == v) by (bit_vector);
}

/// A frame read back gives its payload: the header of the bytes that
/// `encode_frame` writes for a payload of at most `MAX_MESSAGE_LEN` bytes
/// announces the payload's length, and exactly those bytes follow it, so a
/// reader consumes `4 + len` bytes and gets the payload.
pub proof fn law_frame_round_trip(payload: Seq<u8>)
    requires
        payload.len() <= MAX_MESSAGE_LEN,
    ensures
        ({
            let bytes = header_bytes(payload.len()) + payload;
            &&& bytes.len() == 4 + payload.len()
            &&& read_len(bytes.take(4)) == Ok::<usize, FrameError>(payload.len() as usize)
            &&& bytes.skip(4).take(payload.len() as int) == payload
        }),
{
    law_header_round_trip(payload.len());
    let bytes = header_bytes(payload.len()) + payload;
    assert(bytes.take(4) == header_bytes(payload.len()));
    assert(bytes.skip(4) == payload);
    assert(payload.take(payload.len() as int) == payload);
}

/// A reply from the running instance.
#[derive(Debug)]
pub enum ServerResponse {
    Print(String),
}

impl PartialEq for ServerResponse {
    fn eq(&self, other: &Self) -> (r: bool) {
        match (self, other) {
            (ServerResponse::Print(_), ServerResponse::Print(_)) => true,
        }
    }
}

impl PartialEqSpecImpl for ServerResponse {
    open spec fn obeys_eq_spec() -> bool {
        true
    }

    /// Replies are equal when they are of the same kind, whatever they carry.
    open spec fn eq_spec(&self, other: &Self) -> bool {
        (self is Print) == (other is Print)
    }
}

} // verus!
