//! The framing codec: every message travels as one frame, an 8-byte
//! little-endian length prefix followed by exactly that many payload bytes.

use vstd::prelude::*;
use vstd::bytes::*;

verus! {

/// Possible results when attempting to receive a message.
pub enum RecvResult<M> {
    /// We successfully got a message.
    Message(M),
    /// The stream is currently empty.
    NoData,
    /// The stream was closed correctly.
    Closed,
    /// The stream was closed unexpectedly.
    ClosedWrongly,
}

/// The bytes of one frame carrying `payload`: the payload's length as an
/// 8-byte little-endian integer, then the payload itself.
pub open spec fn frame_bytes(payload: Seq<u8>) -> Seq<u8>
    recommends
        payload.len() <= u64::MAX,
{
    spec_u64_to_le_bytes(payload.len() as u64) + payload
}

/// The payload length announced by the prefix of `b`.
pub open spec fn frame_len(b: Seq<u8>) -> u64
    recommends
        b.len() >= 8,
{
    spec_u64_from_le_bytes(b.take(8))
}

/// Whether `b` begins with a complete frame: a full 8-byte prefix and at
/// least as many payload bytes as the prefix announces.
pub open spec fn has_complete_frame(b: Seq<u8>) -> bool {
    b.len() >= 8 && b.len() >= 8 + frame_len(b)
}

/// Total size of the frame at the front of `b`: prefix plus payload.
pub open spec fn frame_size(b: Seq<u8>) -> int
    recommends
        b.len() >= 8,
{
    8 + frame_len(b)
}

/// The payload of the frame at the front of `b`.
pub open spec fn frame_payload(b: Seq<u8>) -> Seq<u8>
    recommends
        has_complete_frame(b),
{
    b.subrange(8, frame_size(b))
}

/// Build the frame for `payload`: length prefix, then the payload bytes.
pub fn encode_frame(payload: &[u8]) -> (f: Vec<u8>)
    ensures
        f@ == frame_bytes(payload@),
{
    let mut f = u64_to_le_bytes(payload.len() as u64);
    let mut i: usize = 0;
    while i < payload.len()
        invariant
            i <= payload.len(),
            f@ == spec_u64_to_le_bytes(payload@.len() as u64) + payload@.take(i as int),
        decreases payload.len() - i,
    {
        f.push(payload[i]);
        i = i + 1;
        assert(payload@.take(i as int) == payload@.take(i - 1).push(payload@[i - 1]));
    }
    assert(payload@.take(payload@.len() as int) == payload@);
    f
}

/// Read the 8-byte little-endian length prefix of a frame.
pub fn decode_len(b: &[u8]) -> (n: u64)
    requires
        b@.len() == 8,
    ensures
        n == spec_u64_from_le_bytes(b@),
{
    u64_from_le_bytes(b)
}

/// Parse the frame at the front of `buf`. Returns the payload and the number
/// of bytes the frame occupied, or nothing when `buf` does not yet hold a
/// complete frame.
pub fn decode_frame(buf: &[u8]) -> (r: Option<(Vec<u8>, usize)>)
    ensures
        match r {
            Option::Some(pc) => {
                &&& has_complete_frame(buf@)
                &&& pc.0@ == frame_payload(buf@)
                &&& pc.1 == frame_size(buf@)
            },
            Option::None => !has_complete_frame(buf@),
        },
{
    if buf.len() < 8 {
        return Option::None;
    }
    let prefix = vstd::slice::slice_subrange(buf, 0, 8);
    assert(prefix@ == buf@.take(8));
    let n = decode_len(prefix);
    if n > (buf.len() - 8) as u64 {
        return Option::None;
    }
    let size = 8 + n as usize;
    let payload = vstd::slice::slice_to_vec(vstd::slice::slice_subrange(buf, 8, size));
    Option::Some((payload, size))
}

/// The receiving half of one connection as the poller sees it: the bytes
/// that have arrived and not yet been consumed, and whether the peer has
/// shut down its sending side (after which no further bytes ever arrive).
pub struct WireInput {
    data: Vec<u8>,
    closed: bool,
}

/// Mathematical model of a [`WireInput`].
pub ghost struct WireView {
    pub data: Seq<u8>,
    pub closed: bool,
}

impl View for WireInput {
    type V = WireView;

    closed spec fn view(&self) -> WireView {
        WireView { data: self.data@, closed: self.closed }
    }
}

impl WireInput {
    /// A freshly opened connection: nothing received, peer still sending.
    pub fn new() -> (w: WireInput)
        ensures
            w@.data == Seq::<u8>::empty(),
            !w@.closed,
    {
        WireInput { data: Vec::new(), closed: false }
    }

    /// Bytes from the peer arrive: append them to the pending input.
    pub fn deliver(&mut self, bytes: &[u8])
        requires
            !old(self)@.closed,
        ensures
            final(self)@.data == old(self)@.data + bytes@,
            !final(self)@.closed,
    {
        let mut i: usize = 0;
        while i < bytes.len()
            invariant
                i <= bytes.len(),
                self.data@ == old(self)@.data + bytes@.take(i as int),
                self.closed == old(self)@.closed,
            decreases bytes.len() - i,
        {
            self.data.push(bytes[i]);
            i = i + 1;
            assert(bytes@.take(i as int) == bytes@.take(i - 1).push(bytes@[i - 1]));
        }
        assert(bytes@.take(bytes@.len() as int) == bytes@);
    }

    /// The peer shuts down its sending side.
    pub fn close(&mut self)
        ensures
            final(self)@.data == old(self)@.data,
            final(self)@.closed,
    {
        self.closed = true;
    }

    /// How many received bytes are pending.
    pub fn pending(&self) -> (n: usize)
        ensures
            n == self@.data.len(),
    {
        self.data.len()
    }

    /// Whether the peer has shut down its sending side.
    pub fn is_closed(&self) -> (r: bool)
        ensures
            r == self@.closed,
    {
        self.closed
    }

    /// A poll of this input returns without blocking: either nothing is
    /// pending, or a complete frame is pending, or the peer has closed, so
    /// that the blocking reads behind the first peeked byte cannot stall.
    pub open spec fn poll_ready(self) -> bool {
        self@.data.len() == 0 || self@.closed || has_complete_frame(self@.data)
    }
}

/// One non-blocking poll of a connection's input, classifying it exactly as
/// the transition table demands:
/// - nothing pending, peer closed: the stream was closed correctly;
/// - nothing pending, peer still sending: no data, return immediately;
/// - a complete frame pending: consume exactly that frame and hand its
///   payload out, leaving any following bytes untouched;
/// - a frame begun but cut short by the peer's shutdown: the stream was
///   closed unexpectedly (the pending remnant is consumed by the failed
///   exact reads).
pub fn try_recv(stream: &mut WireInput) -> (r: RecvResult<Vec<u8>>)
    requires
        old(stream).poll_ready(),
    ensures
        old(stream)@.data.len() == 0 && old(stream)@.closed ==> r is Closed,
        old(stream)@.data.len() == 0 && !old(stream)@.closed ==> r is NoData,
        old(stream)@.data.len() == 0 ==> final(stream)@ == old(stream)@,
        old(stream)@.data.len() > 0 && has_complete_frame(old(stream)@.data) ==> {
            &&& r matches RecvResult::Message(p) && p@ == frame_payload(old(stream)@.data)
            &&& final(stream)@.data == old(stream)@.data.skip(frame_size(old(stream)@.data))
            &&& final(stream)@.closed == old(stream)@.closed
        },
        old(stream)@.data.len() > 0 && !has_complete_frame(old(stream)@.data) ==> {
            &&& r is ClosedWrongly
            &&& final(stream)@.data == Seq::<u8>::empty()
            &&& final(stream)@.closed
        },
{
    if stream.data.len() == 0 {
        if stream.closed {
            RecvResult::Closed
        } else {
            RecvResult::NoData
        }
    } else {
        match decode_frame(stream.data.as_slice()) {
            Option::Some((payload, size)) => {
                let mut rest: Vec<u8> = Vec::new();
                let mut i: usize = size;
                while i < stream.data.len()
                    invariant
                        size <= i <= stream.data@.len(),
                        rest@ == stream.data@.subrange(size as int, i as int),
                        stream == old(stream),
                    decreases stream.data.len() - i,
                {
                    rest.push(stream.data[i]);
                    i = i + 1;
                    assert(stream.data@.subrange(size as int, i as int)
                        == stream.data@.subrange(size as int, i - 1).push(stream.data@[i - 1]));
                }
                assert(rest@ == stream.data@.skip(size as int));
                stream.data = rest;
                RecvResult::Message(payload)
            }
            Option::None => {
                // a frame has begun but is incomplete; `poll_ready` rules
                // out the open stream, so the peer has closed mid-frame and
                // the blocking exact reads ran into the end of the stream
                stream.data = Vec::new();
                RecvResult::ClosedWrongly
            }
        }
    }
}

/// Framing is lossless: the frame built from a payload parses back to
/// exactly that payload, occupying exactly the prefix plus the payload.
pub proof fn lemma_frame_round_trip(payload: Seq<u8>)
    requires
        payload.len() <= u64::MAX,
    ensures
        frame_bytes(payload).len() == 8 + payload.len(),
        has_complete_frame(frame_bytes(payload)),
        frame_size(frame_bytes(payload)) == 8 + payload.len(),
        frame_payload(frame_bytes(payload)) == payload,
{
    lemma_auto_spec_u64_to_from_le_bytes();
    let b = frame_bytes(payload);
    assert(b.take(8) =~= spec_u64_to_le_bytes(payload.len() as u64));
    assert(frame_len(b) == payload.len());
    assert(frame_payload(b) =~= payload);
}

/// Two frames written back to back parse as the first payload followed by
/// exactly the second frame: no leftover, no overlap.
pub proof fn lemma_back_to_back_frames(p1: Seq<u8>, p2: Seq<u8>)
    requires
        p1.len() <= u64::MAX,
        p2.len() <= u64::MAX,
    ensures
        has_complete_frame(frame_bytes(p1) + frame_bytes(p2)),
        frame_payload(frame_bytes(p1) + frame_bytes(p2)) == p1,
        (frame_bytes(p1) + frame_bytes(p2)).skip(frame_size(frame_bytes(p1) + frame_bytes(p2)))
            == frame_bytes(p2),
{
    lemma_auto_spec_u64_to_from_le_bytes();
    lemma_frame_round_trip(p1);
    lemma_frame_round_trip(p2);
    let b = frame_bytes(p1) + frame_bytes(p2);
    assert(b.take(8) =~= frame_bytes(p1).take(8));
    assert(frame_len(b) == p1.len());
    assert(frame_payload(b) =~= p1);
    assert(b.skip(8 + p1.len() as int) =~= frame_bytes(p2));
}

/// A length prefix announcing a nonzero payload is, alone, never a complete
/// frame: a peer that closes right after the prefix closed mid-frame.
pub proof fn lemma_prefix_alone_incomplete(n: u64)
    requires
        n > 0,
    ensures
        spec_u64_to_le_bytes(n).len() == 8,
        !has_complete_frame(spec_u64_to_le_bytes(n)),
{
    lemma_auto_spec_u64_to_from_le_bytes();
    let s = spec_u64_to_le_bytes(n);
    assert(s.take(8) =~= s);
    assert(frame_len(s) == n);
}

} // verus!
