//! Per-connection session state machine. A connection starts in
//! `AwaitingUpgrade` and accumulates bytes in a buffer until the HTTP-style
//! handshake head, terminated by a blank line (`\r\n\r\n`), has arrived in
//! full; the head is then consumed, the acceptance response is owed to the
//! peer, and the session moves to `Upgraded` — exactly once, since no
//! transition leads back. Upgraded traffic is a sequence of frames, each a
//! kind byte (text or binary), a four-byte big-endian payload length, and the
//! payload; complete frames are taken off the front of the buffer and
//! leftover partial bytes stay buffered.

use vstd::prelude::*;

verus! {

/// The lifecycle phase of a connection: still in the handshake, or upgraded
/// to the framed session protocol.
#[derive(Clone, Copy, PartialEq, Eq, Structural, Debug)]
pub enum PeerState {
    AwaitingUpgrade,
    Upgraded,
}

/// Why the server closes a connection: a frame kind it does not serve, a
/// protocol violation (malformed handshake, unknown frame kind, unparseable
/// message), or an internal failure.
#[derive(Clone, Copy, PartialEq, Eq, Structural, Debug)]
pub enum CloseReason {
    UnsupportedPayload,
    ProtocolError,
    InternalError,
}

/// One connection's session state: its accumulated input bytes and its
/// lifecycle phase.
pub struct ConnectedPeer {
    pub buffer: Vec<u8>,
    pub state: PeerState,
}

/// Whether the handshake terminator `\r\n\r\n` stands at index `i` of `b`.
pub open spec fn term_at(b: Seq<u8>, i: int) -> bool {
    &&& 0 <= i
    &&& i + 4 <= b.len()
    &&& b[i] == 13
    &&& b[i + 1] == 10
    &&& b[i + 2] == 13
    &&& b[i + 3] == 10
}

/// The first index at or after `i` where the terminator stands, or -1.
pub open spec fn find_term(b: Seq<u8>, i: int) -> int
    decreases b.len() - i when 0 <= i
{
    if i + 4 > b.len() {
        -1
    } else if term_at(b, i) {
        i
    } else {
        find_term(b, i + 1)
    }
}

/// Whether the buffer holds a complete handshake head.
pub open spec fn handshake_complete(b: Seq<u8>) -> bool {
    find_term(b, 0) >= 0
}

/// The index just past the handshake head, where session traffic begins.
pub open spec fn handshake_end(b: Seq<u8>) -> int {
    find_term(b, 0) + 4
}

/// A minimal well-formedness test of the handshake head: it opens with the
/// request-line method `GET ` of the HTTP-style upgrade request. The exact
/// header content is delegated to the upgrade protocol and not re-checked
/// here.
pub open spec fn handshake_well_formed(b: Seq<u8>) -> bool {
    &&& b.len() >= 4
    &&& b[0] == 71
    &&& b[1] == 69
    &&& b[2] == 84
    &&& b[3] == 32
}

/// Skipping positions without the terminator does not change where the first
/// terminator is.
proof fn lemma_find_term_skip(b: Seq<u8>, k: int)
    requires
        0 <= k,
        forall|j: int| 0 <= j < k ==> !term_at(b, j),
    ensures
        find_term(b, 0) == find_term(b, k),
    decreases k,
{
    if k > 0 {
        lemma_find_term_skip(b, k - 1);
        if (k - 1) + 4 > b.len() {
            assert(find_term(b, k - 1) == -1);
            assert(find_term(b, k) == -1);
        }
    }
}

/// The first terminator index is indeed a terminator, and the first.
pub proof fn lemma_find_term_props(b: Seq<u8>, i: int)
    requires
        0 <= i,
    ensures
        find_term(b, i) >= 0 ==> i <= find_term(b, i) && term_at(b, find_term(b, i))
            && (forall|j: int| i <= j < find_term(b, i) ==> !term_at(b, j)),
        find_term(b, i) == -1 || find_term(b, i) >= i,
        find_term(b, i) == -1 ==> forall|j: int| i <= j ==> !term_at(b, j),
    decreases b.len() - i,
{
    if i + 4 > b.len() {
        assert forall|j: int| i <= j implies !term_at(b, j) by {};
    } else if term_at(b, i) {
    } else {
        lemma_find_term_props(b, i + 1);
    }
}

/// Removes the first `n` bytes of `v`, keeping the rest in order.
fn drain_prefix(v: &mut Vec<u8>, n: usize)
    requires
        n <= old(v)@.len(),
    ensures
        final(v)@ == old(v)@.subrange(n as int, old(v)@.len() as int),
{
    let mut rest: Vec<u8> = Vec::new();
    let len = v.len();
    let mut k: usize = n;
    while k < len
        invariant
            n <= k <= len,
            len == v@.len(),
            rest@ == v@.subrange(n as int, k as int),
        decreases len - k,
    {
        rest.push(v[k]);
        proof {
            assert(rest@ =~= v@.subrange(n as int, k + 1));
        }
        k = k + 1;
    }
    proof {
        assert(rest@ =~= v@.subrange(n as int, v@.len() as int));
    }
    *v = rest;
}

/// What one handshake inspection yields: wait for more bytes, upgrade, or
/// reject the connection.
#[derive(Clone, Copy, PartialEq, Eq, Structural, Debug)]
pub enum HandshakeOutcome {
    Incomplete,
    Accepted,
    Rejected,
}

/// A complete message frame taken off the buffer: a text payload or a binary
/// payload.
pub enum Frame {
    Text(Vec<u8>),
    Binary(Vec<u8>),
}

/// What one framing step yields: no complete frame yet, a complete frame, or
/// a frame of a kind the protocol does not define.
pub enum FrameStep {
    Incomplete,
    Got(Frame),
    BadKind,
}

/// Whether the buffer opens with a complete frame header.
pub open spec fn frame_header_ready(b: Seq<u8>) -> bool {
    b.len() >= 5
}

/// The payload length declared by the frame header: four big-endian bytes.
pub open spec fn frame_payload_len(b: Seq<u8>) -> int {
    b[1] * 16777216 + b[2] * 65536 + b[3] * 256 + b[4]
}

/// Whether the buffer opens with a complete frame, header and payload.
pub open spec fn frame_ready(b: Seq<u8>) -> bool {
    frame_header_ready(b) && b.len() >= 5 + frame_payload_len(b)
}

/// The frame kind byte: 1 is text, 2 is binary.
pub open spec fn frame_kind(b: Seq<u8>) -> u8 {
    b[0]
}

/// The frame payload bytes.
pub open spec fn frame_payload(b: Seq<u8>) -> Seq<u8> {
    b.subrange(5, 5 + frame_payload_len(b))
}

/// The buffer bytes past the first frame.
pub open spec fn frame_rest(b: Seq<u8>) -> Seq<u8> {
    b.subrange(5 + frame_payload_len(b), b.len() as int)
}

impl ConnectedPeer {
    /// A fresh session: empty buffer, awaiting its handshake.
    pub fn new() -> (peer: ConnectedPeer)
        ensures
            peer.state == PeerState::AwaitingUpgrade,
            peer.buffer@ == Seq::<u8>::empty(),
    {
        ConnectedPeer { buffer: Vec::new(), state: PeerState::AwaitingUpgrade }
    }

    /// Appends newly read bytes to the session buffer, in arrival order.
    pub fn append_bytes(&mut self, data: &[u8])
        ensures
            final(self).buffer@ == old(self).buffer@ + data@,
            final(self).state == old(self).state,
    {
        let mut k: usize = 0;
        let len = data.len();
        while k < len
            invariant
                k <= len,
                len == data@.len(),
                self.buffer@ == old(self).buffer@ + data@.subrange(0, k as int),
                self.state == old(self).state,
            decreases len - k,
        {
            self.buffer.push(data[k]);
            proof {
                assert(self.buffer@ =~= old(self).buffer@ + data@.subrange(0, k + 1));
            }
            k = k + 1;
        }
        proof {
            assert(data@.subrange(0, len as int) =~= data@);
        }
    }

    /// Inspects the buffer for the handshake. An incomplete head leaves
    /// everything as it was; a complete, well-formed head is consumed and the
    /// session upgrades (the caller owes the peer the acceptance response); a
    /// complete, malformed head is rejected (the caller closes the
    /// connection).
    pub fn try_upgrade(&mut self) -> (o: HandshakeOutcome)
        requires
            old(self).state == PeerState::AwaitingUpgrade,
        ensures
            !handshake_complete(old(self).buffer@) ==> o == HandshakeOutcome::Incomplete
                && *final(self) == *old(self),
            handshake_complete(old(self).buffer@) && handshake_well_formed(old(self).buffer@)
                ==> o == HandshakeOutcome::Accepted
                && final(self).state == PeerState::Upgraded
                && final(self).buffer@ == old(self).buffer@.subrange(
                    handshake_end(old(self).buffer@),
                    old(self).buffer@.len() as int,
                ),
            handshake_complete(old(self).buffer@) && !handshake_well_formed(old(self).buffer@)
                ==> o == HandshakeOutcome::Rejected && *final(self) == *old(self),
    {
        let ghost buf = self.buffer@;
        let len = self.buffer.len();
        let mut k: usize = 0;
        let mut found: Option<usize> = None;
        while found.is_none() && len >= 4 && k <= len - 4
            invariant
                0 <= k,
                len == buf.len(),
                self.buffer@ == buf,
                self.state == old(self).state,
                *self == *old(self),
                found matches Some(i) ==> find_term(buf, 0) == i && 0 <= i && i + 4 <= len,
                found is None ==> forall|j: int| 0 <= j < k ==> !term_at(buf, j),
            decreases len + 1 - k + (if found is None { 1int } else { 0int }),
        {
            if self.buffer[k] == 13 && self.buffer[k + 1] == 10 && self.buffer[k + 2] == 13
                && self.buffer[k + 3] == 10 {
                found = Some(k);
                proof {
                    lemma_find_term_skip(buf, k as int);
                    assert(term_at(buf, k as int));
                    assert(find_term(buf, k as int) == k as int);
                }
            } else {
                proof {
                    assert(!term_at(buf, k as int));
                }
                k = k + 1;
            }
        }
        let end = match found {
            Some(i) => i + 4,
            None => {
                proof {
                    lemma_find_term_skip(buf, k as int);
                    assert(find_term(buf, k as int) == -1);
                }
                return HandshakeOutcome::Incomplete;
            },
        };
        // The head is complete; hold it to the minimal well-formedness test.
        if !(self.buffer.len() >= 4 && self.buffer[0] == 71 && self.buffer[1] == 69
            && self.buffer[2] == 84 && self.buffer[3] == 32) {
            return HandshakeOutcome::Rejected;
        }
        drain_prefix(&mut self.buffer, end);
        self.state = PeerState::Upgraded;
        HandshakeOutcome::Accepted
    }

    /// Takes the first complete frame off the buffer, if one has fully
    /// arrived: its payload is handed out and the bytes past it stay
    /// buffered. A frame kind the protocol does not define leaves the buffer
    /// untouched and tells the caller to close the connection.
    pub fn next_frame(&mut self) -> (res: FrameStep)
        requires
            old(self).state == PeerState::Upgraded,
        ensures
            final(self).state == PeerState::Upgraded,
            !frame_ready(old(self).buffer@) ==> res is Incomplete && *final(self) == *old(self),
            frame_ready(old(self).buffer@) && frame_kind(old(self).buffer@) == 1
                ==> (res matches FrameStep::Got(f) && f matches Frame::Text(p)
                    && p@ == frame_payload(old(self).buffer@))
                && final(self).buffer@ == frame_rest(old(self).buffer@),
            frame_ready(old(self).buffer@) && frame_kind(old(self).buffer@) == 2
                ==> (res matches FrameStep::Got(f) && f matches Frame::Binary(p)
                    && p@ == frame_payload(old(self).buffer@))
                && final(self).buffer@ == frame_rest(old(self).buffer@),
            frame_ready(old(self).buffer@) && frame_kind(old(self).buffer@) != 1
                && frame_kind(old(self).buffer@) != 2
                ==> res is BadKind && *final(self) == *old(self),
    {
        let ghost buf = self.buffer@;
        let len = self.buffer.len();
        if len < 5 {
            return FrameStep::Incomplete;
        }
        let n: usize = (self.buffer[1] as usize) * 16777216 + (self.buffer[2] as usize) * 65536
            + (self.buffer[3] as usize) * 256 + (self.buffer[4] as usize);
        proof {
            assert(n == frame_payload_len(buf));
        }
        if len - 5 < n {
            return FrameStep::Incomplete;
        }
        let kind = self.buffer[0];
        if kind != 1 && kind != 2 {
            return FrameStep::BadKind;
        }
        let mut payload: Vec<u8> = Vec::new();
        let mut k: usize = 5;
        while k < 5 + n
            invariant
                5 <= k <= 5 + n,
                5 + n <= len,
                len == buf.len(),
                self.buffer@ == buf,
                self.state == old(self).state,
                *self == *old(self),
                payload@ == buf.subrange(5, k as int),
            decreases 5 + n - k,
        {
            payload.push(self.buffer[k]);
            proof {
                assert(payload@ =~= buf.subrange(5, k + 1));
            }
            k = k + 1;
        }
        drain_prefix(&mut self.buffer, 5 + n);
        if kind == 1 {
            FrameStep::Got(Frame::Text(payload))
        } else {
            FrameStep::Got(Frame::Binary(payload))
        }
    }
}

/// Builds one frame of the session protocol: the kind byte, the payload
/// length as four big-endian bytes, then the payload. The result opens with
/// exactly this frame and nothing follows it.
pub fn encode_frame(kind: u8, payload: &[u8]) -> (v: Vec<u8>)
    requires
        payload@.len() <= u32::MAX,
    ensures
        v@.len() == 5 + payload@.len(),
        frame_ready(v@),
        frame_kind(v@) == kind,
        frame_payload_len(v@) == payload@.len(),
        frame_payload(v@) == payload@,
        frame_rest(v@) == Seq::<u8>::empty(),
{
    let n = payload.len() as u32;
    let q1: u32 = n / 256;
    let r1: u32 = n % 256;
    let q2: u32 = q1 / 256;
    let r2: u32 = q1 % 256;
    let q3: u32 = q2 / 256;
    let r3: u32 = q2 % 256;
    let mut v: Vec<u8> = Vec::new();
    v.push(kind);
    v.push(q3 as u8);
    v.push(r3 as u8);
    v.push(r2 as u8);
    v.push(r1 as u8);
    proof {
        assert(q3 * 16777216 + r3 * 65536 + r2 * 256 + r1 == n);
        assert(frame_payload_len(v@) == n);
    }
    let len = payload.len();
    let mut k: usize = 0;
    while k < len
        invariant
            k <= len,
            len == payload@.len(),
            v@.len() == 5 + k,
            v@.subrange(0, 5) == seq![kind, (q3 as u8), (r3 as u8), (r2 as u8), (r1 as u8)],
            v@.subrange(5, v@.len() as int) == payload@.subrange(0, k as int),
        decreases len - k,
    {
        v.push(payload[k]);
        proof {
            assert(v@.subrange(0, 5) =~= seq![kind, (q3 as u8), (r3 as u8), (r2 as u8), (r1 as u8)]);
            assert(v@.subrange(5, v@.len() as int) =~= payload@.subrange(0, k + 1));
        }
        k = k + 1;
    }
    proof {
        assert(frame_payload_len(v@) == n) by {
            assert(v@[1] == q3 as u8 && v@[2] == r3 as u8 && v@[3] == r2 as u8 && v@[4] == r1
                as u8) by {
                assert(v@.subrange(0, 5)[1] == v@[1]);
                assert(v@.subrange(0, 5)[2] == v@[2]);
                assert(v@.subrange(0, 5)[3] == v@[3]);
                assert(v@.subrange(0, 5)[4] == v@[4]);
            };
        };
        assert(frame_payload(v@) =~= payload@);
        assert(frame_rest(v@) =~= Seq::<u8>::empty());
        assert(v@[0] == kind) by {
            assert(v@.subrange(0, 5)[0] == v@[0]);
        };
    }
    v
}

/// Builds the handshake acceptance response owed to the peer on upgrade: the
/// status line of the protocol's switching response, followed by the blank
/// line that ends the head.
pub fn handshake_response() -> (v: Vec<u8>)
    ensures
        v@ == handshake_response_spec(),
{
    let mut v: Vec<u8> = Vec::new();
    let mut k: usize = 0;
    // "HTTP/1.1 101 Switching Protocols\r\n\r\n"
    let bytes: [u8; 36] = [72, 84, 84, 80, 47, 49, 46, 49, 32, 49, 48, 49, 32, 83, 119, 105, 116,
        99, 104, 105, 110, 103, 32, 80, 114, 111, 116, 111, 99, 111, 108, 115, 13, 10, 13, 10];
    while k < 36
        invariant
            k <= 36,
            v@ == handshake_response_spec().subrange(0, k as int),
            bytes@ == handshake_response_spec(),
        decreases 36 - k,
    {
        v.push(bytes[k]);
        proof {
            assert(v@ =~= handshake_response_spec().subrange(0, k + 1));
        }
        k = k + 1;
    }
    proof {
        assert(handshake_response_spec().subrange(0, 36) =~= handshake_response_spec());
    }
    v
}

/// The bytes of the handshake acceptance response.
pub open spec fn handshake_response_spec() -> Seq<u8> {
    seq![72u8, 84u8, 84u8, 80u8, 47u8, 49u8, 46u8, 49u8, 32u8, 49u8, 48u8, 49u8, 32u8, 83u8,
        119u8, 105u8, 116u8, 99u8, 104u8, 105u8, 110u8, 103u8, 32u8, 80u8, 114u8, 111u8, 116u8,
        111u8, 99u8, 111u8, 108u8, 115u8, 13u8, 10u8, 13u8, 10u8]
}

/// A handshake split across two reads: while the terminator has not arrived
/// the session stays in `AwaitingUpgrade` with its bytes retained, and once
/// the remaining bytes arrive the upgrade consumes the head exactly and
/// retains everything past it for message parsing. The transition happens
/// exactly once: no step leads out of `Upgraded`.
pub proof fn lemma_split_handshake(a: Seq<u8>, b: Seq<u8>)
    requires
        !handshake_complete(a),
        handshake_complete(a + b),
    ensures
        handshake_end(a + b) <= (a + b).len(),
        handshake_end(a + b) > a.len(),
{
    lemma_find_term_props(a + b, 0);
    let f = find_term(a + b, 0);
    assert(0 <= f && f + 4 <= (a + b).len());
    if f + 4 <= a.len() {
        assert(term_at(a, f)) by {
            assert((a + b)[f] == a[f]);
            assert((a + b)[f + 1] == a[f + 1]);
            assert((a + b)[f + 2] == a[f + 2]);
            assert((a + b)[f + 3] == a[f + 3]);
        };
        lemma_find_term_props(a, 0);
        assert(find_term(a, 0) == -1 || find_term(a, 0) >= 0);
        assert(find_term(a, 0) == -1);
    }
}

} // verus!
