//! Message framing for byte streams.
//!
//! Each packet travels as one frame:
//!
//! 1. the size of the CBOR bytes, a big-endian unsigned 32-bit integer;
//! 2. the size of the compressed payload, likewise;
//! 3. the CBOR bytes of the packet, compressed with zstd.
//!
//! A size of zero ends the connection. This module builds
//! and checks frames; moving their bytes is left to the transport.
use crate::cbor::{
    be_bytes, lemma_be_roundtrip, lemma_pow256_values, push_bytes, read_be, slice_range, spec_be,
};
use crate::packets::{
    packet_bytes, push_be4, read_back, spec_from_bytes, MineChatPacket, PacketView,
};
use crate::protocol::{MineChatError, MineChatErrorView};
use vstd::prelude::*;

verus! {

// ---------------------------------------------------------------------------
// zstd
// ---------------------------------------------------------------------------

/// What zstd's `encode_all` gives for `data` at level 0 (zstd's default
/// level): the compressed frame, or the text of its error.
pub uninterp spec fn zstd_compressed(data: Seq<u8>) -> Result<Seq<u8>, Seq<char>>;

/// What zstd's `decode_all` gives for `frame`: the decompressed bytes, or the
/// text of its error.
pub uninterp spec fn zstd_decompressed(frame: Seq<u8>) -> Result<Seq<u8>, Seq<char>>;

/// The view of a byte result.
pub open spec fn bytes_result(r: Result<Vec<u8>, String>) -> Result<Seq<u8>, Seq<char>> {
    match r {
        Ok(v) => Ok(v@),
        Err(m) => Err(m@),
    }
}

/// Whether `decode_all` gives `data` back from `frame`.
pub open spec fn decompresses_to(frame: Seq<u8>, data: Seq<u8>) -> bool {
    zstd_decompressed(frame) == Ok::<Seq<u8>, Seq<char>>(data)
}

/// Compresses `data` with `zstd::encode_all` at level 0.
///
/// Trusted: the result is what `zstd_compressed` names; a compressed frame
/// is not empty (it starts with zstd's magic number), and `decode_all` gives
/// `data` back from it.
#[verifier::external_body]
fn zstd_encode_all(data: &[u8]) -> (r: Result<Vec<u8>, String>)
    ensures
        bytes_result(r) == zstd_compressed(data@),
        r is Ok ==> r->Ok_0@.len() > 0,
        r is Ok ==> decompresses_to(r->Ok_0@, data@),
{
    match zstd::encode_all(data, 0) {
        Ok(c) => Ok(c),
        Err(e) => Err(e.to_string()),
    }
}

/// Decompresses `frame` with `zstd::stream::decode_all`.
///
/// Trusted: the result is what `zstd_decompressed` names.
#[verifier::external_body]
fn zstd_decode_all(frame: &[u8]) -> (r: Result<Vec<u8>, String>)
    ensures
        bytes_result(r) == zstd_decompressed(frame@),
{
    match zstd::stream::decode_all(frame) {
        Ok(d) => Ok(d),
        Err(e) => Err(e.to_string()),
    }
}

// ---------------------------------------------------------------------------
// Frames
// ---------------------------------------------------------------------------

/// The largest size a frame header can carry.
pub const MAX_FRAME_SIZE: usize = 0xffff_ffff;

/// The unsigned 32-bit integer that the 4 bytes `b` spell, big-endian.
pub open spec fn header_u32(b: Seq<u8>) -> u32 {
    spec_be(b) as u32
}

/// The frame that carries a packet, or the error that sending it meets.
pub open spec fn spec_encode_frame(p: PacketView) -> Result<Seq<u8>, MineChatErrorView> {
    let s = packet_bytes(p);
    match zstd_compressed(s) {
        Err(m) => Err(MineChatErrorView::Zstd(m)),
        Ok(c) => if s.len() > MAX_FRAME_SIZE {
            Err(MineChatErrorView::InvalidFrameSize(s.len() as i32))
        } else if c.len() > MAX_FRAME_SIZE {
            Err(MineChatErrorView::InvalidFrameSize(c.len() as i32))
        } else {
            Ok(be_bytes(s.len(), 4) + be_bytes(c.len(), 4) + c)
        },
    }
}

/// The packet in the compressed payload `c` of a frame whose header gives
/// `d` as the decompressed size.
pub open spec fn spec_decode_frame_body(d: u32, c: Seq<u8>) -> Result<
    PacketView,
    MineChatErrorView,
> {
    match zstd_decompressed(c) {
        Err(m) => Err(MineChatErrorView::Zstd(m)),
        Ok(s) => if s.len() != d as int {
            Err(MineChatErrorView::Zstd("Decompressed size mismatch"@))
        } else {
            match spec_from_bytes(s) {
                Ok(p) => Ok(p),
                Err(e) => Err(MineChatErrorView::Serde(e.message())),
            }
        },
    }
}

/// The packet in the frame at the start of `f`, with the frame's length; or
/// the error that reading it meets.
pub open spec fn spec_read_frame(f: Seq<u8>) -> Result<(PacketView, int), MineChatErrorView> {
    if f.len() < 8 {
        Err(MineChatErrorView::Io("unexpected end of file"@))
    } else {
        let d = header_u32(f.subrange(0, 4));
        let c = header_u32(f.subrange(4, 8));
        if d == 0 || c == 0 {
            Err(MineChatErrorView::InvalidFrameSize(d as i32))
        } else if f.len() < 8 + c {
            Err(MineChatErrorView::Io("early eof"@))
        } else {
            match spec_decode_frame_body(d, f.subrange(8, 8 + c)) {
                Ok(p) => Ok((p, 8 + c)),
                Err(e) => Err(e),
            }
        }
    }
}

/// What reading a frame of `n` bytes built for packet `p` gives: the packet
/// as its bytes read back, and the frame's length.
pub open spec fn frame_read_back(p: PacketView, n: int) -> Result<
    (PacketView, int),
    MineChatErrorView,
> {
    Ok((read_back(p), n))
}

/// The view of a frame result.
pub open spec fn frame_result_view(r: Result<Vec<u8>, MineChatError>) -> Result<
    Seq<u8>,
    MineChatErrorView,
> {
    match r {
        Ok(f) => Ok(f@),
        Err(e) => Err(e@),
    }
}

/// The view of a packet result.
pub open spec fn packet_read_view(r: Result<MineChatPacket, MineChatError>) -> Result<
    PacketView,
    MineChatErrorView,
> {
    match r {
        Ok(p) => Ok(p@),
        Err(e) => Err(e@),
    }
}

/// The view of the result of reading a frame.
pub open spec fn frame_read_view(r: Result<(MineChatPacket, usize), MineChatError>) -> Result<
    (PacketView, int),
    MineChatErrorView,
> {
    match r {
        Ok((p, n)) => Ok((p@, n as int)),
        Err(e) => Err(e@),
    }
}

/// Reading a frame header gives back the size written into it.
proof fn lemma_header_roundtrip(v: nat)
    requires
        v <= MAX_FRAME_SIZE,
    ensures
        be_bytes(v, 4).len() == 4,
        header_u32(be_bytes(v, 4)) == v,
{
    lemma_pow256_values();
    lemma_be_roundtrip(v, 4);
}

/// Builds the frame that carries `packet`.
///
/// The frame reads back, by `decode_frame`, as the packet's bytes read back
/// (see `read_back`): as the same packet whenever a chat message's content
/// agrees with its format. Whatever bytes follow the frame, reading takes
/// the frame's bytes alone.
#[verifier::spinoff_prover]
#[verifier::rlimit(40)]
pub fn encode_frame(packet: &MineChatPacket) -> (r: Result<Vec<u8>, MineChatError>)
    ensures
        frame_result_view(r) == spec_encode_frame(packet@),
        r matches Ok(f) ==> spec_read_frame(f@) == frame_read_back(packet@, f@.len() as int),
        r matches Ok(f) ==> decompresses_to(f@.subrange(8, f@.len() as int), packet_bytes(packet@)),
        r matches Ok(f) ==> (packet@.consistent() ==> spec_read_frame(f@) == Ok::<
            _,
            MineChatErrorView,
        >((packet@, f@.len() as int))),
        r matches Ok(f) ==> forall|rest: Seq<u8>|
            #[trigger] spec_read_frame(f@ + rest) == frame_read_back(packet@, f@.len() as int),
        r matches Ok(f) ==> (packet@.consistent() ==> forall|rest: Seq<u8>|
            #[trigger] spec_read_frame(f@ + rest) == Ok::<_, MineChatErrorView>(
                (packet@, f@.len() as int),
            )),
{
    let serialized = match packet.to_bytes() {
        Ok(b) => b,
        Err(e) => {
            return Err(MineChatError::Serde(e.to_string()));
        },
    };
    let compressed = match zstd_encode_all(serialized.as_slice()) {
        Ok(c) => c,
        Err(m) => {
            return Err(MineChatError::Zstd(m));
        },
    };
    if serialized.len() > MAX_FRAME_SIZE {
        return Err(MineChatError::InvalidFrameSize(#[verifier::truncate] (serialized.len() as i32)));
    }
    if compressed.len() > MAX_FRAME_SIZE {
        return Err(MineChatError::InvalidFrameSize(#[verifier::truncate] (compressed.len() as i32)));
    }
    let mut frame: Vec<u8> = Vec::new();
    push_be4(&mut frame, serialized.len() as u64);
    push_be4(&mut frame, compressed.len() as u64);
    push_bytes(&mut frame, compressed.as_slice());
    proof {
        let s = serialized@;
        let c = compressed@;
        let h1 = be_bytes(s.len(), 4);
        let h2 = be_bytes(c.len(), 4);
        assert(frame@ =~= h1 + h2 + c);
        lemma_header_roundtrip(s.len());
        lemma_header_roundtrip(c.len());
        let f = frame@;
        assert(f.subrange(0, 4) =~= h1);
        assert(f.subrange(4, 8) =~= h2);
        assert(f.subrange(8, 8 + c.len() as int) =~= c);
        assert(f.subrange(8, f.len() as int) =~= c);
        assert(spec_read_frame(f) == frame_read_back(packet@, f.len() as int));
        assert forall|rest: Seq<u8>|
            #[trigger] spec_read_frame(f + rest) == frame_read_back(packet@, f.len() as int) by {
            let g = f + rest;
            assert(g.subrange(0, 4) =~= h1);
            assert(g.subrange(4, 8) =~= h2);
            assert(g.subrange(8, 8 + c.len() as int) =~= c);
        }
    }
    Ok(frame)
}

/// Checks the two sizes of a frame header, and gives the number of bytes of
/// compressed payload that follow.
///
/// A size of zero is refused with the decompressed size, as the `i32` that
/// its bits spell.
pub fn check_frame_sizes(decompressed_len: u32, compressed_len: u32) -> (r: Result<
    usize,
    MineChatError,
>)
    ensures
        decompressed_len > 0 && compressed_len > 0 ==> r == Ok::<usize, MineChatError>(
            compressed_len as usize,
        ),
        !(decompressed_len > 0 && compressed_len > 0) ==> r == Err::<usize, MineChatError>(
            MineChatError::InvalidFrameSize(decompressed_len as i32),
        ),
{
    if decompressed_len == 0 || compressed_len == 0 {
        return Err(MineChatError::InvalidFrameSize(#[verifier::truncate] (decompressed_len as i32)));
    }
    Ok(compressed_len as usize)
}

/// Decompresses the payload of a frame whose header gives `decompressed_len`,
/// checks its size, and reads the packet from it.
pub fn decode_frame_body(decompressed_len: u32, compressed: &[u8]) -> (r: Result<
    MineChatPacket,
    MineChatError,
>)
    requires
        decompressed_len > 0,
    ensures
        packet_read_view(r) == spec_decode_frame_body(decompressed_len, compressed@),
{
    let decompressed = match zstd_decode_all(compressed) {
        Ok(d) => d,
        Err(m) => {
            return Err(MineChatError::Zstd(m));
        },
    };
    if decompressed.len() != decompressed_len as usize {
        return Err(MineChatError::Zstd(String::from_str("Decompressed size mismatch")));
    }
    match MineChatPacket::from_bytes(decompressed.as_slice()) {
        Ok(p) => Ok(p),
        Err(e) => Err(MineChatError::Serde(e.to_string())),
    }
}

/// The unsigned 32-bit integer in the 4 bytes of `f` from `pos`, big-endian.
fn read_header_u32(f: &[u8], pos: usize) -> (v: u32)
    requires
        pos + 4 <= f@.len(),
    ensures
        v == header_u32(f@.subrange(pos as int, pos + 4)),
{
    let u = read_be(f, pos, 4);
    proof {
        lemma_pow256_values();
        crate::cbor::lemma_be_bound(f@.subrange(pos as int, pos + 4));
    }
    u as u32
}

/// Reads the frame at the start of `frame`: gives its packet and the number
/// of bytes the frame takes; bytes after it are left alone.
///
/// A header or payload cut short is an I/O error, as on a stream that ends.
pub fn decode_frame(frame: &[u8]) -> (r: Result<(MineChatPacket, usize), MineChatError>)
    ensures
        frame_read_view(r) == spec_read_frame(frame@),
{
    if frame.len() < 8 {
        return Err(MineChatError::Io(String::from_str("unexpected end of file")));
    }
    let d = read_header_u32(frame, 0);
    let c = read_header_u32(frame, 4);
    let n = match check_frame_sizes(d, c) {
        Ok(n) => n,
        Err(e) => {
            return Err(e);
        },
    };
    if frame.len() - 8 < n {
        return Err(MineChatError::Io(String::from_str("early eof")));
    }
    let body = slice_range(frame, 8, 8 + n);
    match decode_frame_body(d, body) {
        Ok(p) => Ok((p, 8 + n)),
        Err(e) => Err(e),
    }
}

// ---------------------------------------------------------------------------
// Streams
// ---------------------------------------------------------------------------

/// A message stream over an asynchronous byte stream, such as a TCP or TLS
/// connection: frames are built by `encode_frame` and read by
/// `check_frame_sizes` and `decode_frame_body`.
pub struct TokioMessageStream<S> {
    stream: S,
}

impl<S> TokioMessageStream<S> {
    /// The underlying stream.
    pub closed spec fn inner(&self) -> S {
        self.stream
    }

    /// Creates a new `TokioMessageStream` from an asynchronous stream.
    pub fn new(stream: S) -> (r: Self)
        ensures
            r.inner() == stream,
    {
        Self { stream }
    }

    /// The underlying stream, to read and write frames on.
    pub fn stream_mut(&mut self) -> (r: &mut S)
        ensures
            *r == old(self).inner(),
            final(self).inner() == *final(r),
    {
        &mut self.stream
    }

    /// Gives back the underlying stream.
    pub fn into_inner(self) -> (r: S)
        ensures
            r == self.inner(),
    {
        self.stream
    }
}

} // verus!
