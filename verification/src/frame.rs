//! WebSocket frame encoding and incremental decoding.

use crate::text::utf8_to_string;
use vstd::prelude::*;
use vstd::string::*;
use vstd::utf8::*;

verus! {

/// Protocol violations that make the current connection unrecoverable.
#[derive(Debug, PartialEq, Eq, Structural, Clone, Copy)]
pub enum FrameError {
    /// A frame with the FIN bit clear: fragmented messages are unsupported.
    Fragmented,
    /// An opcode other than text (1) or close (8).
    UnsupportedOpcode(u8),
    /// A client frame without the MASK bit: clients must mask.
    Unmasked,
    /// The unmasked payload is not valid UTF-8.
    InvalidUtf8,
}

/// Failure of the outbound encoder.
#[derive(Debug, PartialEq, Eq, Structural, Clone, Copy)]
pub enum EncodeError {
    /// The message payload exceeds 125 bytes, the only length the minimal
    /// server-to-client encoding carries.
    MessageTooLong,
}

/// FIN bit: set when the frame is the final fragment of its message.
pub open spec fn frame_fin(b: u8) -> bool {
    b & 0x80 != 0
}

/// The 4-bit opcode of a frame, from the low bits of the first header byte.
pub open spec fn frame_opcode(b: u8) -> u8 {
    b & 0x0f
}

/// MASK bit: set when the payload is XOR-masked.
pub open spec fn frame_masked(b: u8) -> bool {
    b & 0x80 != 0
}

/// The 7-bit length indicator from the second header byte.
pub open spec fn frame_len7(b: u8) -> u8 {
    b & 0x7f
}

/// The minimal server-to-client text frame: FIN=1, opcode 1, unmasked,
/// 7-bit length, then the raw payload.
pub open spec fn spec_text_frame(payload: Seq<u8>) -> Seq<u8>
    recommends
        payload.len() <= 125,
{
    seq![0x81u8, payload.len() as u8] + payload
}

/// Serializes `message` into the minimal legal server-to-client frame.
/// Messages longer than 125 bytes are refused rather than extended to the
/// 126/127 length encodings or truncated.
pub fn encode_text_frame(message: &str) -> (r: Result<Vec<u8>, EncodeError>)
    ensures
        r is Ok <==> message.spec_bytes().len() <= 125,
        r is Ok ==> r->Ok_0@ == spec_text_frame(message.spec_bytes()),
        r is Err ==> r == Result::<Vec<u8>, EncodeError>::Err(EncodeError::MessageTooLong),
{
    let mut payload = message.as_bytes_vec();
    if payload.len() > 125 {
        return Err(EncodeError::MessageTooLong);
    }
    let len = payload.len();
    let mut frame: Vec<u8> = Vec::new();
    frame.push(0x81u8);
    frame.push(len as u8);
    frame.append(&mut payload);
    proof {
        assert(frame@ =~= spec_text_frame(message.spec_bytes()));
    }
    Ok(frame)
}

/// The unsigned big-endian value of the two bytes at `i` and `i + 1`.
pub open spec fn be16_at(s: Seq<u8>, i: int) -> int
    recommends
        0 <= i && i + 2 <= s.len(),
{
    s[i] * 256 + s[i + 1]
}

/// The unsigned big-endian value of the eight bytes starting at `i`.
pub open spec fn be64_at(s: Seq<u8>, i: int) -> int
    recommends
        0 <= i && i + 8 <= s.len(),
{
    ((((((s[i] * 256 + s[i + 1]) * 256 + s[i + 2]) * 256 + s[i + 3]) * 256 + s[i + 4]) * 256 + s[i
        + 5]) * 256 + s[i + 6]) * 256 + s[i + 7]
}

/// How many extended-length bytes follow the two core header bytes for a
/// given 7-bit length indicator: two for 126, eight for 127, none otherwise.
pub open spec fn ext_len_bytes(l7: u8) -> int {
    if l7 == 126 {
        2
    } else if l7 == 127 {
        8
    } else {
        0
    }
}

/// Length of the frame header up to (but not including) the masking key.
pub open spec fn header_len(l7: u8) -> int {
    2 + ext_len_bytes(l7)
}

/// The resolved payload length of the frame starting at the head of `s`:
/// the 7-bit indicator itself when it is at most 125, otherwise the 16-bit
/// or 64-bit big-endian extension that follows the core header.
pub open spec fn spec_payload_len(s: Seq<u8>) -> int
    recommends
        s.len() >= header_len(frame_len7(s[1])),
{
    let l7 = frame_len7(s[1]);
    if l7 == 126 {
        be16_at(s, 2)
    } else if l7 == 127 {
        be64_at(s, 2)
    } else {
        l7 as int
    }
}

/// XOR of every payload byte with the masking key, cycling through the
/// key's four bytes.  Applying it twice with the same key restores the
/// original bytes, so the same function both masks and unmasks.
pub open spec fn unmask(payload: Seq<u8>, key: Seq<u8>) -> Seq<u8>
    recommends
        key.len() == 4,
{
    Seq::new(payload.len(), |i: int| payload[i] ^ key[i % 4])
}

/// What the head of a byte stream holds, as decided by the wire format:
/// not yet a whole frame, a close frame, a protocol violation, or one
/// complete text message occupying the first `frame_len` bytes.
pub enum ParseStatus {
    /// The stream does not yet hold enough bytes for the current stage.
    Incomplete,
    /// A close frame (opcode 8): the peer is disconnecting.
    PeerClosed,
    /// The frame violates the supported protocol subset.
    Rejected(FrameError),
    /// A full masked text frame: `text` is the unmasked, decoded payload.
    Complete { text: Seq<char>, frame_len: int },
}

/// The frame decoding relation of this crate: how the decoder must
/// interpret the head of the stream of bytes received so far.
pub open spec fn parse_frame(s: Seq<u8>) -> ParseStatus {
    if s.len() < 2 {
        ParseStatus::Incomplete
    } else if !frame_fin(s[0]) {
        ParseStatus::Rejected(FrameError::Fragmented)
    } else if frame_opcode(s[0]) == 8 {
        ParseStatus::PeerClosed
    } else if frame_opcode(s[0]) != 1 {
        ParseStatus::Rejected(FrameError::UnsupportedOpcode(frame_opcode(s[0])))
    } else if !frame_masked(s[1]) {
        ParseStatus::Rejected(FrameError::Unmasked)
    } else {
        let hl = header_len(frame_len7(s[1]));
        if s.len() < hl {
            ParseStatus::Incomplete
        } else {
            let n = spec_payload_len(s);
            if s.len() < hl + 4 + n {
                ParseStatus::Incomplete
            } else {
                let key = s.subrange(hl, hl + 4);
                let payload = unmask(s.subrange(hl + 4, hl + 4 + n), key);
                if valid_utf8(payload) {
                    ParseStatus::Complete { text: decode_utf8(payload), frame_len: hl + 4 + n }
                } else {
                    ParseStatus::Rejected(FrameError::InvalidUtf8)
                }
            }
        }
    }
}

/// Per-connection partial-frame state.  Each field is populated only once
/// its entire byte count has been read, and all fields are reset together
/// after a complete message has been extracted, so the state survives any
/// number of short reads without re-reading wire bytes.
pub struct PartialWebsocketMessage {
    core_payload_length: Option<u8>,
    extended_payload_length: Option<u64>,
    masking_key: Option<[u8; 4]>,
    payload: Option<Vec<u8>>,
}

impl PartialWebsocketMessage {
    /// True when no stage of the current frame has completed yet.
    pub closed spec fn is_clear(self) -> bool {
        &&& self.core_payload_length is None
        &&& self.extended_payload_length is None
        &&& self.masking_key is None
        &&& self.payload is None
    }

    /// Fresh state, ready for the first frame of a connection.
    pub fn new() -> (r: Self)
        ensures
            r.is_clear(),
    {
        PartialWebsocketMessage {
            core_payload_length: None,
            extended_payload_length: None,
            masking_key: None,
            payload: None,
        }
    }

    /// Forgets every stage of the frame in progress.
    pub fn clean_up(&mut self)
        ensures
            final(self).is_clear(),
    {
        self.core_payload_length = None;
        self.extended_payload_length = None;
        self.masking_key = None;
        self.payload = None;
    }
}

/// The staged-parsing invariant: the populated fields of `p` are exactly
/// what the wire format prescribes for the already-consumed bytes `c` of
/// the current frame, and `c` ends precisely at a stage boundary.
spec fn wf_partial(p: PartialWebsocketMessage, c: Seq<u8>) -> bool {
    match p.core_payload_length {
        None => c.len() == 0 && p.extended_payload_length is None && p.masking_key is None
            && p.payload is None,
        Some(l7) => {
            &&& c.len() >= 2
            &&& frame_fin(c[0])
            &&& frame_opcode(c[0]) == 1
            &&& frame_masked(c[1])
            &&& l7 == frame_len7(c[1])
            &&& match p.extended_payload_length {
                None => c.len() == 2 && p.masking_key is None && p.payload is None,
                Some(n) => {
                    let hl = header_len(l7);
                    &&& c.len() >= hl
                    &&& n == spec_payload_len(c)
                    &&& match p.masking_key {
                        None => c.len() == hl && p.payload is None,
                        Some(k) => {
                            &&& c.len() >= hl + 4
                            &&& k@ == c.subrange(hl, hl + 4)
                            &&& match p.payload {
                                None => c.len() == hl + 4,
                                Some(pl) => {
                                    &&& c.len() == hl + 4 + n
                                    &&& pl@ == unmask(c.subrange(hl + 4, c.len() as int), k@)
                                },
                            }
                        },
                    }
                },
            }
        },
    }
}

/// One decoder's result for a single attempt to extract a message.
pub enum PollOutcome {
    /// The bytes received so far do not hold a whole frame yet; feed more
    /// and poll again.
    NeedMoreData,
    /// The peer sent a close frame.
    PeerClosed,
    /// One complete text message, removed from the stream.
    Message(String),
    /// The frame at the head of the stream violates the protocol.
    Rejected(FrameError),
}

/// Resumable frame decoder.  Bytes read from the socket are fed in, in
/// chunks of any size; polling consumes whole stages as they become
/// available and yields one decoded message per complete frame.
pub struct FrameDecoder {
    buf: Vec<u8>,
    partial: PartialWebsocketMessage,
    consumed: Ghost<Seq<u8>>,
}

impl FrameDecoder {
    /// The logical byte stream the decoder currently holds: everything fed
    /// but not yet turned into a completed message.
    pub closed spec fn stream(self) -> Seq<u8> {
        self.consumed@ + self.buf@
    }

    /// Internal consistency of the staged state.
    pub closed spec fn wf(self) -> bool {
        wf_partial(self.partial, self.consumed@)
    }

    /// A decoder holding no bytes.
    pub fn new() -> (r: Self)
        ensures
            r.wf(),
            r.stream() == Seq::<u8>::empty(),
    {
        let r = FrameDecoder {
            buf: Vec::new(),
            partial: PartialWebsocketMessage::new(),
            consumed: Ghost(Seq::empty()),
        };
        proof {
            assert(r.stream() =~= Seq::<u8>::empty());
        }
        r
    }

    /// Appends one chunk of received bytes, of any size, to the stream.
    pub fn feed(&mut self, chunk: &[u8])
        requires
            old(self).wf(),
        ensures
            final(self).wf(),
            final(self).stream() == old(self).stream() + chunk@,
    {
        let mut i: usize = 0;
        while i < chunk.len()
            invariant
                i <= chunk@.len(),
                self.buf@ == old(self).buf@ + chunk@.take(i as int),
                self.partial == old(self).partial,
                self.consumed == old(self).consumed,
            decreases chunk@.len() - i,
        {
            self.buf.push(chunk[i]);
            proof {
                assert(self.buf@ =~= old(self).buf@ + chunk@.take(i + 1));
            }
            i = i + 1;
        }
        proof {
            assert(chunk@.take(chunk@.len() as int) =~= chunk@);
            assert(self.stream() =~= old(self).stream() + chunk@);
        }
    }

    /// Attempts to extract the next message from the bytes fed so far.
    /// Whole stages are consumed as their byte counts become available;
    /// anything short of a stage boundary is left for a later poll, so the
    /// outcome depends only on the stream contents, never on how the bytes
    /// were split across reads.
    pub fn poll_message(&mut self) -> (r: PollOutcome)
        requires
            old(self).wf(),
        ensures
            final(self).wf(),
            match parse_frame(old(self).stream()) {
                ParseStatus::Incomplete => r is NeedMoreData && final(self).stream() == old(self).stream(),
                ParseStatus::PeerClosed => r is PeerClosed && final(self).stream() == old(self).stream(),
                ParseStatus::Rejected(e) => (r matches PollOutcome::Rejected(e2) && e2 == e)
                    && final(self).stream() == old(self).stream(),
                ParseStatus::Complete { text, frame_len } => (r matches PollOutcome::Message(t)
                    && t@ == text) && final(self).stream() == old(self).stream().skip(frame_len),
            },
    {
        if self.partial.core_payload_length.is_none() {
            match self.stage_core() {
                Some(out) => {
                    return out;
                },
                None => {},
            }
        }
        if self.partial.extended_payload_length.is_none() {
            match self.stage_ext() {
                Some(out) => {
                    return out;
                },
                None => {},
            }
        }
        if self.partial.masking_key.is_none() {
            match self.stage_mask() {
                Some(out) => {
                    return out;
                },
                None => {},
            }
        }
        if self.partial.payload.is_none() {
            match self.stage_payload() {
                Some(out) => {
                    return out;
                },
                None => {},
            }
        }
        self.stage_finish()
    }

    /// Consumes the two core header bytes once both are available, checking
    /// the FIN bit, the opcode and the MASK bit.
    fn stage_core(&mut self) -> (r: Option<PollOutcome>)
        requires
            old(self).wf(),
            old(self).partial.core_payload_length is None,
        ensures
            final(self).wf(),
            final(self).stream() == old(self).stream(),
            match r {
                Some(out) => match parse_frame(old(self).stream()) {
                    ParseStatus::Incomplete => out is NeedMoreData,
                    ParseStatus::PeerClosed => out is PeerClosed,
                    ParseStatus::Rejected(e) => out matches PollOutcome::Rejected(e2) && e2 == e,
                    ParseStatus::Complete { .. } => false,
                },
                None => final(self).partial.core_payload_length is Some
                    && final(self).partial.extended_payload_length is None
                    && final(self).partial.masking_key is None
                    && final(self).partial.payload is None,
            },
    {
        let ghost s = old(self).stream();
        proof {
            assert(s =~= self.buf@);
        }
        if self.buf.len() < 2 {
            return Some(PollOutcome::NeedMoreData);
        }
        let b0 = self.buf[0];
        let b1 = self.buf[1];
        proof {
            assert(s[0] == b0 && s[1] == b1);
        }
        if b0 & 0x80 == 0 {
            return Some(PollOutcome::Rejected(FrameError::Fragmented));
        }
        let op = b0 & 0x0f;
        if op == 8 {
            return Some(PollOutcome::PeerClosed);
        }
        if op != 1 {
            return Some(PollOutcome::Rejected(FrameError::UnsupportedOpcode(op)));
        }
        if b1 & 0x80 == 0 {
            return Some(PollOutcome::Rejected(FrameError::Unmasked));
        }
        let l7 = b1 & 0x7f;
        drop_front(&mut self.buf, 2);
        let ghost cnew: Seq<u8> = seq![b0, b1];
        self.consumed = Ghost(cnew);
        self.partial.core_payload_length = Some(l7);
        proof {
            assert(self.stream() =~= s);
            assert(self.wf());
        }
        None
    }

    /// Consumes the 16-bit or 64-bit extended length when the 7-bit
    /// indicator calls for one, or resolves the total length directly.
    fn stage_ext(&mut self) -> (r: Option<PollOutcome>)
        requires
            old(self).wf(),
            old(self).partial.core_payload_length is Some,
            old(self).partial.extended_payload_length is None,
        ensures
            final(self).wf(),
            final(self).stream() == old(self).stream(),
            final(self).partial.core_payload_length == old(self).partial.core_payload_length,
            match r {
                Some(out) => out is NeedMoreData && parse_frame(old(self).stream())
                    is Incomplete,
                None => final(self).partial.extended_payload_length is Some
                    && final(self).partial.masking_key is None
                    && final(self).partial.payload is None,
            },
    {
        let ghost s = old(self).stream();
        let ghost c = self.consumed@;
        proof {
            assert(c.len() == 2);
            assert(s[0] == c[0] && s[1] == c[1]);
        }
        let l7 = self.partial.core_payload_length.unwrap();
        if l7 == 126 {
            if self.buf.len() < 2 {
                proof {
                    assert(s.len() < header_len(frame_len7(s[1])));
                }
                return Some(PollOutcome::NeedMoreData);
            }
            let e0 = self.buf[0];
            let e1 = self.buf[1];
            let n: u64 = (e0 as u64) * 256 + (e1 as u64);
            drop_front(&mut self.buf, 2);
            let ghost cnew: Seq<u8> = c + seq![e0, e1];
            self.consumed = Ghost(cnew);
            self.partial.extended_payload_length = Some(n);
            proof {
                assert(self.stream() =~= s);
                assert(cnew[0] == c[0] && cnew[1] == c[1] && cnew[2] == e0 && cnew[3] == e1);
                assert(self.wf());
            }
            None
        } else if l7 == 127 {
            if self.buf.len() < 8 {
                proof {
                    assert(s.len() < header_len(frame_len7(s[1])));
                }
                return Some(PollOutcome::NeedMoreData);
            }
            let e0 = self.buf[0];
            let e1 = self.buf[1];
            let e2 = self.buf[2];
            let e3 = self.buf[3];
            let e4 = self.buf[4];
            let e5 = self.buf[5];
            let e6 = self.buf[6];
            let e7 = self.buf[7];
            let n: u64 = ((((((((e0 as u64) * 256 + (e1 as u64)) * 256 + (e2 as u64)) * 256 + (
            e3 as u64)) * 256 + (e4 as u64)) * 256 + (e5 as u64)) * 256 + (e6 as u64)) * 256 + (
            e7 as u64));
            drop_front(&mut self.buf, 8);
            let ghost cnew: Seq<u8> = c + seq![e0, e1, e2, e3, e4, e5, e6, e7];
            self.consumed = Ghost(cnew);
            self.partial.extended_payload_length = Some(n);
            proof {
                assert(self.stream() =~= s);
                assert(cnew[0] == c[0] && cnew[1] == c[1]);
                assert(cnew[2] == e0 && cnew[3] == e1 && cnew[4] == e2 && cnew[5] == e3
                    && cnew[6] == e4 && cnew[7] == e5 && cnew[8] == e6 && cnew[9] == e7);
                assert(self.wf());
            }
            None
        } else {
            self.partial.extended_payload_length = Some(l7 as u64);
            proof {
                assert(self.wf());
            }
            None
        }
    }

    /// Consumes the four masking-key bytes once all four are available.
    fn stage_mask(&mut self) -> (r: Option<PollOutcome>)
        requires
            old(self).wf(),
            old(self).partial.extended_payload_length is Some,
            old(self).partial.masking_key is None,
        ensures
            final(self).wf(),
            final(self).stream() == old(self).stream(),
            match r {
                Some(out) => out is NeedMoreData && parse_frame(old(self).stream())
                    is Incomplete,
                None => final(self).partial.masking_key is Some
                    && final(self).partial.payload is None,
            },
    {
        let ghost s = old(self).stream();
        let ghost c = self.consumed@;
        let ghost l7 = frame_len7(c[1]);
        proof {
            assert(c.len() == header_len(l7));
            assert(forall|j: int| 0 <= j < c.len() ==> s[j] == c[j]);
            assert(frame_len7(s[1]) == l7);
            assert(spec_payload_len(s) == spec_payload_len(c));
            assert(spec_payload_len(c) >= 0);
        }
        if self.buf.len() < 4 {
            proof {
                assert(s.len() < header_len(l7) + 4 + spec_payload_len(s));
            }
            return Some(PollOutcome::NeedMoreData);
        }
        let k0 = self.buf[0];
        let k1 = self.buf[1];
        let k2 = self.buf[2];
        let k3 = self.buf[3];
        let key = [k0, k1, k2, k3];
        drop_front(&mut self.buf, 4);
        let ghost cnew: Seq<u8> = c + seq![k0, k1, k2, k3];
        self.consumed = Ghost(cnew);
        self.partial.masking_key = Some(key);
        proof {
            assert(self.stream() =~= s);
            assert(key@ =~= cnew.subrange(header_len(l7), header_len(l7) + 4));
            assert(spec_payload_len(cnew) == spec_payload_len(c));
            assert(self.wf());
        }
        None
    }

    /// Consumes and unmasks the whole payload once every byte of it is
    /// available.
    fn stage_payload(&mut self) -> (r: Option<PollOutcome>)
        requires
            old(self).wf(),
            old(self).partial.masking_key is Some,
            old(self).partial.payload is None,
        ensures
            final(self).wf(),
            final(self).stream() == old(self).stream(),
            match r {
                Some(out) => out is NeedMoreData && parse_frame(old(self).stream())
                    is Incomplete,
                None => final(self).partial.payload is Some,
            },
    {
        let ghost s = old(self).stream();
        let ghost c = self.consumed@;
        let ghost l7 = frame_len7(c[1]);
        proof {
            assert(c.len() == header_len(l7) + 4);
            assert(forall|j: int| 0 <= j < c.len() ==> s[j] == c[j]);
            assert(frame_len7(s[1]) == l7);
            assert(spec_payload_len(s) == spec_payload_len(c));
        }
        let n = self.partial.extended_payload_length.unwrap();
        let key = self.partial.masking_key.unwrap();
        if (self.buf.len() as u64) < n {
            proof {
                assert(s.len() < header_len(l7) + 4 + spec_payload_len(s));
            }
            return Some(PollOutcome::NeedMoreData);
        }
        let n_us = n as usize;
        let ghost buf0 = self.buf@;
        let mut pl: Vec<u8> = Vec::new();
        let mut i: usize = 0;
        while i < n_us
            invariant
                i <= n_us,
                n_us <= self.buf@.len(),
                self.buf@ == buf0,
                key@.len() == 4,
                pl@ == unmask(buf0.take(i as int), key@),
            decreases n_us - i,
        {
            let b = self.buf[i] ^ key[i % 4];
            pl.push(b);
            proof {
                assert(pl@ =~= unmask(buf0.take(i as int + 1), key@));
            }
            i = i + 1;
        }
        drop_front(&mut self.buf, n_us);
        let ghost cnew: Seq<u8> = c + buf0.take(n as int);
        self.consumed = Ghost(cnew);
        self.partial.payload = Some(pl);
        proof {
            assert(self.stream() =~= s);
            assert(cnew.subrange(header_len(l7) + 4, cnew.len() as int) =~= buf0.take(n as int));
            assert(cnew.subrange(header_len(l7), header_len(l7) + 4) =~= key@);
            assert(forall|j: int| 0 <= j < c.len() ==> cnew[j] == c[j]);
            assert(spec_payload_len(cnew) == spec_payload_len(c));
            assert(pl@ =~= unmask(cnew.subrange(header_len(l7) + 4, cnew.len() as int), key@));
            assert(self.wf());
        }
        None
    }

    /// Decodes the unmasked payload as UTF-8 and, on success, resets the
    /// partial state and removes the frame's bytes from the stream.
    fn stage_finish(&mut self) -> (r: PollOutcome)
        requires
            old(self).wf(),
            old(self).partial.payload is Some,
        ensures
            final(self).wf(),
            match parse_frame(old(self).stream()) {
                ParseStatus::Complete { text, frame_len } => (r matches PollOutcome::Message(t)
                    && t@ == text) && final(self).stream() == old(self).stream().skip(frame_len),
                ParseStatus::Rejected(e) => (r matches PollOutcome::Rejected(e2) && e2 == e)
                    && final(self).stream() == old(self).stream(),
                _ => false,
            },
    {
        let ghost s = old(self).stream();
        let ghost c = self.consumed@;
        let ghost l7 = frame_len7(c[1]);
        let ghost n = spec_payload_len(c);
        let ghost hl = header_len(l7);
        let ghost frame_len = hl + 4 + n;
        proof {
            assert(c.len() == frame_len);
            assert(forall|j: int| 0 <= j < c.len() ==> s[j] == c[j]);
            assert(frame_len7(s[1]) == l7);
            assert(spec_payload_len(s) == spec_payload_len(c));
            assert(s.subrange(hl, hl + 4) =~= c.subrange(hl, hl + 4));
            assert(s.subrange(hl + 4, frame_len) =~= c.subrange(hl + 4, c.len() as int));
            assert(s.len() >= frame_len);
        }
        let pl = self.partial.payload.take().unwrap();
        proof {
            assert(pl@ == unmask(s.subrange(hl + 4, frame_len), s.subrange(hl, hl + 4)));
        }
        match utf8_to_string(&pl) {
            Some(text) => {
                self.partial.clean_up();
                let ghost cnew: Seq<u8> = Seq::empty();
                self.consumed = Ghost(cnew);
                proof {
                    assert(self.stream() =~= s.skip(frame_len));
                    assert(parse_frame(s) matches ParseStatus::Complete { text: t, frame_len: fl }
                        && t == text@ && fl == frame_len);
                }
                PollOutcome::Message(text)
            },
            None => {
                self.partial.payload = Some(pl);
                proof {
                    assert(self.stream() =~= s);
                    assert(self.wf());
                    assert(parse_frame(s) == ParseStatus::Rejected(FrameError::InvalidUtf8));
                }
                PollOutcome::Rejected(FrameError::InvalidUtf8)
            },
        }
    }
}

/// Removes the first `k` bytes of `v`, keeping the rest in order.
fn drop_front(v: &mut Vec<u8>, k: usize)
    requires
        k <= old(v).len(),
    ensures
        final(v)@ == old(v)@.skip(k as int),
{
    let tail = v.split_off(k);
    *v = tail;
    proof {
        assert(v@ =~= old(v)@.skip(k as int));
    }
}

/// Big-endian bytes of a 16-bit extended length.
pub open spec fn be16_bytes(n: int) -> Seq<u8>
    recommends
        0 <= n <= 0xFFFF,
{
    seq![(n / 256) as u8, (n % 256) as u8]
}

/// Big-endian bytes of a 64-bit extended length.
pub open spec fn be64_bytes(n: int) -> Seq<u8>
    recommends
        0 <= n < 0x10000000000000000,
{
    seq![
        (n / 0x100000000000000 % 256) as u8,
        (n / 0x1000000000000 % 256) as u8,
        (n / 0x10000000000 % 256) as u8,
        (n / 0x100000000 % 256) as u8,
        (n / 0x1000000 % 256) as u8,
        (n / 0x10000 % 256) as u8,
        (n / 0x100 % 256) as u8,
        (n % 256) as u8,
    ]
}

/// A client-to-server text frame: FIN=1, opcode 1, MASK=1, the shortest
/// legal length encoding, the four key bytes, then the masked payload.
pub open spec fn spec_masked_text_frame(payload: Seq<u8>, key: Seq<u8>) -> Seq<u8>
    recommends
        key.len() == 4,
        payload.len() < 0x10000000000000000,
{
    let l = payload.len() as int;
    let header = if l <= 125 {
        seq![0x81u8, ((l as u8) | 128)]
    } else if l <= 0xFFFF {
        seq![0x81u8, 0xFEu8] + be16_bytes(l)
    } else {
        seq![0x81u8, 0xFFu8] + be64_bytes(l)
    };
    header + key + unmask(payload, key)
}

proof fn lemma_len7_byte(l: u8)
    requires
        l <= 125,
    ensures
        (l | 128) & 0x80 != 0,
        (l | 128) & 0x7f == l,
        (l | 128) & 0x0f == l & 0x0f,
{
    assert(((l | 128) & 0x80 != 0) && ((l | 128) & 0x7f == l) && ((l | 128) & 0x0f == l & 0x0f))
        by (bit_vector)
        requires
            l <= 125,
    ;
}

proof fn lemma_header_byte_constants()
    ensures
        frame_fin(0x81),
        frame_opcode(0x81) == 1,
        frame_masked(0xFE),
        frame_len7(0xFE) == 126,
        frame_masked(0xFF),
        frame_len7(0xFF) == 127,
{
    assert((0x81u8 & 0x80 != 0) && (0x81u8 & 0x0f == 1) && (0xFEu8 & 0x80 != 0) && (0xFEu8 & 0x7f
        == 126) && (0xFFu8 & 0x80 != 0) && (0xFFu8 & 0x7f == 127)) by (bit_vector);
}

/// Masking is an involution: applying the key twice restores the payload.
pub proof fn lemma_unmask_involution(p: Seq<u8>, key: Seq<u8>)
    requires
        key.len() == 4,
    ensures
        unmask(unmask(p, key), key) == p,
{
    assert forall|i: int| 0 <= i < p.len() implies unmask(unmask(p, key), key)[i] == p[i] by {
        let k = key[i % 4];
        let b = p[i];
        assert((b ^ k) ^ k == b) by (bit_vector);
    }
    assert(unmask(unmask(p, key), key) =~= p);
}

proof fn lemma_be16_bytes_roundtrip(n: int)
    requires
        0 <= n <= 0xFFFF,
    ensures
        be16_at(be16_bytes(n), 0) == n,
{
    vstd::arithmetic::div_mod::lemma_fundamental_div_mod(n, 256);
}

proof fn lemma_be64_bytes_roundtrip(n: int)
    requires
        0 <= n < 0x10000000000000000,
    ensures
        be64_at(be64_bytes(n), 0) == n,
{
    let q1 = n / 0x100;
    let q2 = n / 0x10000;
    let q3 = n / 0x1000000;
    let q4 = n / 0x100000000;
    let q5 = n / 0x10000000000;
    let q6 = n / 0x1000000000000;
    let q7 = n / 0x100000000000000;
    vstd::arithmetic::div_mod::lemma_div_denominator(n, 0x100, 0x100);
    vstd::arithmetic::div_mod::lemma_div_denominator(n, 0x10000, 0x100);
    vstd::arithmetic::div_mod::lemma_div_denominator(n, 0x1000000, 0x100);
    vstd::arithmetic::div_mod::lemma_div_denominator(n, 0x100000000, 0x100);
    vstd::arithmetic::div_mod::lemma_div_denominator(n, 0x10000000000, 0x100);
    vstd::arithmetic::div_mod::lemma_div_denominator(n, 0x1000000000000, 0x100);
    assert(q1 / 0x100 == q2 && q2 / 0x100 == q3 && q3 / 0x100 == q4 && q4 / 0x100 == q5 && q5
        / 0x100 == q6 && q6 / 0x100 == q7);
    vstd::arithmetic::div_mod::lemma_multiply_divide_lt(n, 0x100000000000000, 0x100);
    assert(q7 < 0x100);
    vstd::arithmetic::div_mod::lemma_small_mod(q7 as nat, 0x100);
    vstd::arithmetic::div_mod::lemma_fundamental_div_mod(n, 0x100);
    vstd::arithmetic::div_mod::lemma_fundamental_div_mod(q1, 0x100);
    vstd::arithmetic::div_mod::lemma_fundamental_div_mod(q2, 0x100);
    vstd::arithmetic::div_mod::lemma_fundamental_div_mod(q3, 0x100);
    vstd::arithmetic::div_mod::lemma_fundamental_div_mod(q4, 0x100);
    vstd::arithmetic::div_mod::lemma_fundamental_div_mod(q5, 0x100);
    vstd::arithmetic::div_mod::lemma_fundamental_div_mod(q6, 0x100);
    let b = be64_bytes(n);
    assert(b[0] == q7 % 256 && b[1] == q6 % 256 && b[2] == q5 % 256 && b[3] == q4 % 256 && b[4]
        == q3 % 256 && b[5] == q2 % 256 && b[6] == q1 % 256 && b[7] == n % 256);
    assert(b[0] * 256 + b[1] == q6);
    assert((b[0] * 256 + b[1]) * 256 + b[2] == q5);
    assert(((b[0] * 256 + b[1]) * 256 + b[2]) * 256 + b[3] == q4);
    assert((((b[0] * 256 + b[1]) * 256 + b[2]) * 256 + b[3]) * 256 + b[4] == q3);
    assert(((((b[0] * 256 + b[1]) * 256 + b[2]) * 256 + b[3]) * 256 + b[4]) * 256 + b[5] == q2);
    assert((((((b[0] * 256 + b[1]) * 256 + b[2]) * 256 + b[3]) * 256 + b[4]) * 256 + b[5]) * 256
        + b[6] == q1);
    assert(be64_at(b, 0) == n);
}

/// A client-encoded masked text frame followed by any further bytes parses
/// to exactly the carried message, consuming exactly the frame's bytes and
/// leaving the rest of the stream untouched.
pub proof fn lemma_masked_frame_parses(payload: Seq<u8>, key: Seq<u8>, rest: Seq<u8>)
    requires
        key.len() == 4,
        valid_utf8(payload),
        payload.len() < 0x10000000000000000,
    ensures
        ({
            let enc = spec_masked_text_frame(payload, key);
            &&& parse_frame(enc + rest) matches ParseStatus::Complete { text, frame_len }
                && text == decode_utf8(payload) && frame_len == enc.len()
            &&& (enc + rest).skip(enc.len() as int) == rest
        }),
{
    let enc = spec_masked_text_frame(payload, key);
    let s = enc + rest;
    let l = payload.len() as int;
    let masked = unmask(payload, key);
    lemma_header_byte_constants();
    let hl: int = if l <= 125 {
        2
    } else if l <= 0xFFFF {
        4
    } else {
        10
    };
    assert(enc.len() == hl + 4 + l);
    assert(s[0] == 0x81);
    if l <= 125 {
        let b1 = (l as u8) | 128;
        lemma_len7_byte(l as u8);
        assert(s[1] == b1);
        assert(frame_fin(s[0]) && frame_opcode(s[0]) == 1 && frame_masked(s[1]));
        assert(frame_len7(s[1]) == l);
        assert(header_len(frame_len7(s[1])) == 2);
        assert(spec_payload_len(s) == l);
    } else if l <= 0xFFFF {
        assert(s[1] == 0xFE);
        assert(frame_len7(s[1]) == 126);
        assert(header_len(frame_len7(s[1])) == 4);
        lemma_be16_bytes_roundtrip(l);
        assert(s[2] == be16_bytes(l)[0] && s[3] == be16_bytes(l)[1]);
        assert(be16_at(s, 2) == be16_at(be16_bytes(l), 0));
        assert(spec_payload_len(s) == l);
    } else {
        assert(s[1] == 0xFF);
        assert(frame_len7(s[1]) == 127);
        assert(header_len(frame_len7(s[1])) == 10);
        lemma_be64_bytes_roundtrip(l);
        let b = be64_bytes(l);
        assert(s[2] == b[0] && s[3] == b[1] && s[4] == b[2] && s[5] == b[3] && s[6] == b[4] && s[7]
            == b[5] && s[8] == b[6] && s[9] == b[7]);
        assert(be64_at(s, 2) == be64_at(b, 0));
        assert(spec_payload_len(s) == l);
    }
    assert(s.len() == hl + 4 + l + rest.len());
    assert(s.subrange(hl, hl + 4) =~= key);
    assert(s.subrange(hl + 4, hl + 4 + l) =~= masked);
    lemma_unmask_involution(payload, key);
    assert(unmask(s.subrange(hl + 4, hl + 4 + l), s.subrange(hl, hl + 4)) == payload);
    assert(parse_frame(s) matches ParseStatus::Complete { text, frame_len } && text == decode_utf8(
        payload,
    ) && frame_len == enc.len());
    assert((enc + rest).skip(enc.len() as int) =~= rest);
}

/// Encoding a text message as a masked client frame and decoding it again
/// restores the message exactly, whatever the masking key: the whole-frame
/// round trip of the codec.
pub proof fn lemma_text_frame_round_trip(message: Seq<char>, key: Seq<u8>)
    requires
        key.len() == 4,
        encode_utf8(message).len() < 0x10000000000000000,
    ensures
        parse_frame(spec_masked_text_frame(encode_utf8(message), key)) matches
            ParseStatus::Complete { text, frame_len } && text == message && frame_len
            == spec_masked_text_frame(encode_utf8(message), key).len(),
{
    let payload = encode_utf8(message);
    vstd::utf8::encode_utf8_valid_utf8(message);
    vstd::utf8::encode_utf8_decode_utf8(message);
    lemma_masked_frame_parses(payload, key, Seq::empty());
    let enc = spec_masked_text_frame(payload, key);
    assert(enc + Seq::<u8>::empty() =~= enc);
}

/// Decoding never depends on how the bytes were split across reads: two
/// decoders that have accumulated the same stream, in however many chunks
/// of whatever sizes, are bound to the same outcome, because the polling
/// contract is a function of the accumulated stream alone.
pub proof fn lemma_chunking_invariance(a: FrameDecoder, b: FrameDecoder)
    requires
        a.wf(),
        b.wf(),
        a.stream() == b.stream(),
    ensures
        parse_frame(a.stream()) == parse_frame(b.stream()),
{
}

/// A frame whose FIN bit is clear is rejected as fragmented, whatever the
/// rest of its content.
pub proof fn lemma_fragmented_rejected(s: Seq<u8>)
    requires
        s.len() >= 2,
        !frame_fin(s[0]),
    ensures
        parse_frame(s) == ParseStatus::Rejected(FrameError::Fragmented),
{
}

/// A final text frame whose MASK bit is clear is rejected as unmasked,
/// whatever the rest of its content.
pub proof fn lemma_unmasked_rejected(s: Seq<u8>)
    requires
        s.len() >= 2,
        frame_fin(s[0]),
        frame_opcode(s[0]) == 1,
        !frame_masked(s[1]),
    ensures
        parse_frame(s) == ParseStatus::Rejected(FrameError::Unmasked),
{
}

/// A frame using an extended length field reads exactly that many payload
/// bytes: length `n` with the 16-bit field occupies `8 + n` bytes in all,
/// with the 64-bit field `14 + n` bytes, and the stream beyond the frame
/// is untouched.
pub proof fn lemma_extended_length_exact(payload: Seq<u8>, key: Seq<u8>, rest: Seq<u8>)
    requires
        key.len() == 4,
        valid_utf8(payload),
        payload.len() > 125,
        payload.len() < 0x10000000000000000,
    ensures
        ({
            let enc = spec_masked_text_frame(payload, key);
            &&& enc.len() == if payload.len() <= 0xFFFF {
                8 + payload.len()
            } else {
                14 + payload.len()
            }
            &&& parse_frame(enc + rest) matches ParseStatus::Complete { text, frame_len }
                && text == decode_utf8(payload) && frame_len == enc.len()
            &&& (enc + rest).skip(enc.len() as int) == rest
        }),
{
    lemma_masked_frame_parses(payload, key, rest);
}

/// Serializes `message` as a masked client-to-server text frame with the
/// given masking key, using the shortest legal length encoding.
pub fn encode_masked_text_frame(message: &str, key: &[u8; 4]) -> (r: Vec<u8>)
    ensures
        r@ == spec_masked_text_frame(message.spec_bytes(), key@),
{
    let payload = message.as_bytes_vec();
    let len = payload.len();
    let mut frame: Vec<u8> = Vec::new();
    frame.push(0x81u8);
    if len <= 125 {
        frame.push((len as u8) | 128);
    } else if len <= 0xFFFF {
        frame.push(0xFEu8);
        frame.push((len / 256) as u8);
        frame.push((len % 256) as u8);
    } else {
        let n = len as u64;
        frame.push(0xFFu8);
        frame.push((n / 0x100000000000000 % 256) as u8);
        frame.push((n / 0x1000000000000 % 256) as u8);
        frame.push((n / 0x10000000000 % 256) as u8);
        frame.push((n / 0x100000000 % 256) as u8);
        frame.push((n / 0x1000000 % 256) as u8);
        frame.push((n / 0x10000 % 256) as u8);
        frame.push((n / 0x100 % 256) as u8);
        frame.push((n % 256) as u8);
    }
    frame.push(key[0]);
    frame.push(key[1]);
    frame.push(key[2]);
    frame.push(key[3]);
    let ghost before_payload = frame@;
    let mut i: usize = 0;
    while i < payload.len()
        invariant
            i <= payload@.len(),
            key@.len() == 4,
            frame@ == before_payload + unmask(payload@.take(i as int), key@),
        decreases payload@.len() - i,
    {
        frame.push(payload[i] ^ key[i % 4]);
        proof {
            assert(frame@ =~= before_payload + unmask(payload@.take(i as int + 1), key@));
        }
        i = i + 1;
    }
    proof {
        assert(payload@.take(payload@.len() as int) =~= payload@);
        assert(frame@ =~= spec_masked_text_frame(message.spec_bytes(), key@));
    }
    frame
}

} // verus!
