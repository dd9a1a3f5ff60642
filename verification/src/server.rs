//! Reactor decision logic. The server owns the one authoritative board and
//! the connection registry; socket I/O stays outside. The surrounding event
//! loop reports three things — an accepted connection, readable bytes on a
//! peer socket, and a disconnect — and performs the actions handed back:
//! send bytes, report a rejection to the sender, or close the connection
//! with a reason. Each peer's bytes are appended to its buffer and drained
//! to exhaustion in one pass, as edge-triggered readiness requires.

use vstd::prelude::*;
use crate::board::CellState;
use crate::board::GameState;
use crate::command::ParseError;
use crate::command::ValidationError;
use crate::command::spec_apply;
use crate::command::spec_parse;
use crate::command::apply;
use crate::command::parse;
use crate::registry::Registry;
use crate::registry::LISTENER_TOKEN;
use crate::session::CloseReason;
use crate::session::ConnectedPeer;
use crate::session::Frame;
use crate::session::FrameStep;
use crate::session::HandshakeOutcome;
use crate::session::PeerState;
use crate::session::frame_kind;
use crate::session::frame_payload;
use crate::session::frame_ready;
use crate::session::frame_rest;
use crate::session::handshake_complete;
use crate::session::handshake_end;
use crate::session::handshake_response;
use crate::session::handshake_response_spec;
use crate::session::handshake_well_formed;

verus! {

/// What the event loop must do on the server's behalf: send bytes to the
/// peer, report a command rejection to it, or close its connection with a
/// reason.
#[verifier::ext_equal]
pub enum Action {
    Send(Vec<u8>),
    Reject(ValidationError),
    Close(CloseReason),
}

/// The color a peer places: tokens alternate between red and blue. Color
/// assignment policy is an extension point; this one needs no state.
pub open spec fn peer_color(token: u64) -> CellState {
    if token % 2 == 1 {
        CellState::Red
    } else {
        CellState::Blue
    }
}

/// The peer registered under `token`.
pub open spec fn spec_peer(reg: Registry, token: u64) -> ConnectedPeer {
    reg.entries@[reg.spec_index_of(token)].1
}

/// Removing one live entry leaves every other connection exactly as it was:
/// still live, under the same token, with the same session state.
proof fn lemma_others_after_remove(r0: Registry, r1: Registry, token: u64)
    requires
        r0.wf(),
        r0.spec_has_token(token),
        r1.entries@ == r0.entries@.remove(r0.spec_index_of(token)),
    ensures
        forall|t: u64|
            t != token ==> r1.spec_has_token(t) == r0.spec_has_token(t) && (r0.spec_has_token(t)
                ==> spec_peer(r1, t) == spec_peer(r0, t)),
{
    let ci = r0.spec_index_of(token);
    assert(0 <= ci < r0.entries@.len() && r0.entries@[ci].0 == token);
    assert forall|t: u64|
        t != token implies r1.spec_has_token(t) == r0.spec_has_token(t) && (r0.spec_has_token(t)
            ==> spec_peer(r1, t) == spec_peer(r0, t)) by {
        if r0.spec_has_token(t) {
            let i = r0.spec_index_of(t);
            assert(0 <= i < r0.entries@.len() && r0.entries@[i].0 == t);
            assert(i != ci);
            let j = if i < ci { i } else { i - 1 };
            assert(r1.entries@[j] == r0.entries@[i]);
            assert(r1.spec_has_token(t));
            let k = r1.spec_index_of(t);
            assert(0 <= k < r1.entries@.len() && r1.entries@[k].0 == t);
            let k0 = if k < ci { k } else { k + 1 };
            assert(r1.entries@[k] == r0.entries@[k0]);
            assert(k0 == i) by {
                if k0 != i {
                    r0.lemma_distinct(k0, i);
                }
            };
        } else {
            if r1.spec_has_token(t) {
                let k = r1.spec_index_of(t);
                assert(0 <= k < r1.entries@.len() && r1.entries@[k].0 == t);
                let k0 = if k < ci { k } else { k + 1 };
                assert(r0.entries@[k0].0 == t);
            }
        }
    };
}

/// Registering a fresh token leaves every other connection exactly as it
/// was.
proof fn lemma_others_after_push(r0: Registry, r1: Registry, token: u64, peer: ConnectedPeer)
    requires
        r0.wf(),
        !r0.spec_has_token(token),
        r1.entries@ == r0.entries@.push((token, peer)),
    ensures
        forall|t: u64|
            t != token ==> r1.spec_has_token(t) == r0.spec_has_token(t) && (r0.spec_has_token(t)
                ==> spec_peer(r1, t) == spec_peer(r0, t)),
{
    let last = r0.entries@.len() as int;
    assert forall|t: u64|
        t != token implies r1.spec_has_token(t) == r0.spec_has_token(t) && (r0.spec_has_token(t)
            ==> spec_peer(r1, t) == spec_peer(r0, t)) by {
        if r0.spec_has_token(t) {
            let i = r0.spec_index_of(t);
            assert(0 <= i < r0.entries@.len() && r0.entries@[i].0 == t);
            assert(r1.entries@[i] == r0.entries@[i]);
            assert(r1.spec_has_token(t));
            let k = r1.spec_index_of(t);
            assert(0 <= k < r1.entries@.len() && r1.entries@[k].0 == t);
            assert(k != last);
            assert(r1.entries@[k] == r0.entries@[k]);
            assert(k == i) by {
                if k != i {
                    r0.lemma_distinct(k, i);
                }
            };
        } else {
            if r1.spec_has_token(t) {
                let k = r1.spec_index_of(t);
                assert(0 <= k < r1.entries@.len() && r1.entries@[k].0 == t);
                assert(k != last);
                assert(r0.entries@[k].0 == t);
            }
        }
    };
}

/// A token found at the last entry, and nowhere earlier, is live and names
/// that entry's peer.
proof fn lemma_peer_at_last(reg: Registry, token: u64, peer: ConnectedPeer)
    requires
        reg.entries@.len() >= 1,
        reg.entries@.last() == (token, peer),
        forall|i: int| 0 <= i < reg.entries@.len() - 1 ==> #[trigger] reg.entries@[i].0 != token,
    ensures
        reg.spec_has_token(token),
        spec_peer(reg, token) == peer,
{
    let last = reg.entries@.len() - 1;
    assert(reg.entries@[last].0 == token);
    let ci = reg.spec_index_of(token);
    assert(0 <= ci < reg.entries@.len() && reg.entries@[ci].0 == token);
    assert(ci == last);
}

/// What draining one upgraded session buffer does, as a function of the
/// bytes alone: the actions produced, the new grid, the unconsumed tail, and
/// whether the connection is to be closed, and why. Complete frames are
/// handled strictly in order, front of the buffer first: a binary frame or
/// an unknown kind or an unparseable text frame ends the drive with a close;
/// a parsed command is applied to the board (a rejection is reported and the
/// drive goes on); the drive stops when no complete frame is left.
pub open spec fn spec_drive(grid: Seq<CellState>, buf: Seq<u8>, color: CellState) -> (
    Seq<Action>,
    Seq<CellState>,
    Seq<u8>,
    Option<CloseReason>,
)
    decreases buf.len(),
{
    if !frame_ready(buf) {
        (Seq::<Action>::empty(), grid, buf, None)
    } else if frame_kind(buf) == 2 {
        (
            seq![Action::Close(CloseReason::UnsupportedPayload)],
            grid,
            frame_rest(buf),
            Some(CloseReason::UnsupportedPayload),
        )
    } else if frame_kind(buf) != 1 {
        (
            seq![Action::Close(CloseReason::ProtocolError)],
            grid,
            buf,
            Some(CloseReason::ProtocolError),
        )
    } else {
        match spec_parse(frame_payload(buf)) {
            Err(ParseError::Malformed) => (
                seq![Action::Close(CloseReason::ProtocolError)],
                grid,
                frame_rest(buf),
                Some(CloseReason::ProtocolError),
            ),
            Err(ParseError::UnknownType) => {
                let rest = spec_drive(grid, frame_rest(buf), color);
                (seq![Action::Reject(ValidationError::UnknownCommand)] + rest.0, rest.1, rest.2, rest.3)
            },
            Ok(c) => {
                let (res, g2) = spec_apply(grid, c, color);
                let rest = spec_drive(g2, frame_rest(buf), color);
                match res {
                    Ok(u) => rest,
                    Err(v) => (seq![Action::Reject(v)] + rest.0, rest.1, rest.2, rest.3),
                }
            },
        }
    }
}

/// The single authoritative server state: the token registry of live
/// sessions and the one shared board.
pub struct Server {
    pub registry: Registry,
    pub game: GameState,
}

impl Server {
    /// Both owned structures are well-formed.
    pub open spec fn wf(self) -> bool {
        self.registry.wf() && self.game.wf()
    }

    /// A fresh server: no connections, an empty board.
    pub fn new() -> (s: Server)
        ensures
            s.wf(),
            s.registry.entries@.len() == 0,
            s.registry.next_token == 1,
            forall|i: int| 0 <= i < s.game.grid@.len() ==> s.game.grid@[i] == CellState::Empty,
    {
        Server { registry: Registry::new(), game: GameState::new() }
    }

    /// One accepted connection: mints a fresh token — never the sentinel,
    /// never one already live — and registers a new session awaiting its
    /// handshake. The board is untouched.
    pub fn on_accept(&mut self) -> (token: u64)
        requires
            old(self).wf(),
            old(self).registry.next_token < u64::MAX,
        ensures
            final(self).wf(),
            token == old(self).registry.next_token,
            token != LISTENER_TOKEN,
            !old(self).registry.spec_has_token(token),
            final(self).registry.spec_has_token(token),
            spec_peer(final(self).registry, token).state == PeerState::AwaitingUpgrade,
            spec_peer(final(self).registry, token).buffer@ == Seq::<u8>::empty(),
            final(self).registry.next_token == token + 1,
            final(self).game == old(self).game,
            forall|t: u64|
                t != token ==> final(self).registry.spec_has_token(t) == old(
                    self,
                ).registry.spec_has_token(t) && (old(self).registry.spec_has_token(t)
                    ==> spec_peer(final(self).registry, t) == spec_peer(old(self).registry, t)),
    {
        let token = self.registry.allocate_token();
        let peer = ConnectedPeer::new();
        let ghost before = self.registry;
        self.registry.register(token, peer);
        proof {
            assert forall|i: int| 0 <= i < self.registry.entries@.len() - 1
                implies #[trigger] self.registry.entries@[i].0 != token by {
                assert(self.registry.entries@[i] == before.entries@[i]);
            };
            lemma_peer_at_last(self.registry, token, peer);
            lemma_others_after_push(before, self.registry, token, peer);
        }
        token
    }

    /// One disconnect, from read error, end of stream, or close: the peer
    /// leaves the registry, the board is untouched, and every other live
    /// connection survives unchanged. Removing an absent token is a no-op,
    /// not a fault: a disconnect may be detected from more than one code
    /// path.
    pub fn on_disconnect(&mut self, token: u64)
        requires
            old(self).wf(),
        ensures
            final(self).wf(),
            !final(self).registry.spec_has_token(token),
            final(self).registry.next_token == old(self).registry.next_token,
            final(self).game == old(self).game,
            !old(self).registry.spec_has_token(token) ==> final(self).registry == old(
                self,
            ).registry,
            old(self).registry.spec_has_token(token) ==> final(self).registry.entries@ == old(
                self,
            ).registry.entries@.remove(old(self).registry.spec_index_of(token)),
            forall|t: u64|
                t != token ==> final(self).registry.spec_has_token(t) == old(
                    self,
                ).registry.spec_has_token(t) && (old(self).registry.spec_has_token(t)
                    ==> spec_peer(final(self).registry, t) == spec_peer(old(self).registry, t)),
    {
        let ghost r0 = self.registry;
        self.registry.remove(token);
        proof {
            if r0.spec_has_token(token) {
                lemma_others_after_remove(r0, self.registry, token);
            }
        }
    }

    /// Bytes read from a peer socket: appends them to that peer's buffer
    /// and drives its session as far as the bytes allow — through the
    /// handshake and then frame by frame, in order, exactly as `spec_drive`
    /// lays down. Returns the actions owed to the event loop; when the drive
    /// closes the connection, the peer has already been removed from the
    /// registry; otherwise the peer stays registered — upgraded once
    /// upgraded, never reverting — holding exactly the unconsumed tail,
    /// which contains no complete frame. Every other connection is left
    /// untouched.
    #[verifier::rlimit(100)]
    pub fn on_readable(&mut self, token: u64, data: &[u8]) -> (acts: Vec<Action>)
        requires
            old(self).wf(),
        ensures
            final(self).wf(),
            final(self).registry.next_token == old(self).registry.next_token,
            !old(self).registry.spec_has_token(token) ==> *final(self) == *old(self)
                && acts@ == Seq::<Action>::empty(),
            forall|t: u64|
                t != token ==> final(self).registry.spec_has_token(t) == old(
                    self,
                ).registry.spec_has_token(t) && (old(self).registry.spec_has_token(t)
                    ==> spec_peer(final(self).registry, t) == spec_peer(old(self).registry, t)),
            ({
                let reg0 = old(self).registry;
                let g0 = old(self).game.grid@;
                let p0 = spec_peer(reg0, token);
                let b = p0.buffer@ + data@;
                let color = peer_color(token);
                &&& (reg0.spec_has_token(token) && p0.state == PeerState::AwaitingUpgrade
                    && !handshake_complete(b) ==> acts@ == Seq::<Action>::empty()
                    && final(self).game.grid@ == g0
                    && final(self).registry.spec_has_token(token)
                    && spec_peer(final(self).registry, token).state == PeerState::AwaitingUpgrade
                    && spec_peer(final(self).registry, token).buffer@ == b)
                &&& (reg0.spec_has_token(token) && p0.state == PeerState::AwaitingUpgrade
                    && handshake_complete(b) && !handshake_well_formed(b)
                    ==> acts@ =~= seq![Action::Close(CloseReason::ProtocolError)]
                    && final(self).game.grid@ == g0
                    && !final(self).registry.spec_has_token(token))
                &&& (reg0.spec_has_token(token) && p0.state == PeerState::AwaitingUpgrade
                    && handshake_complete(b) && handshake_well_formed(b) ==> ({
                        let leftover = b.subrange(handshake_end(b), b.len() as int);
                        let (dacts, g2, buf2, closed) = spec_drive(g0, leftover, color);
                        &&& acts@.len() == dacts.len() + 1
                        &&& (acts@[0] matches Action::Send(v) && v@ == handshake_response_spec())
                        &&& acts@.subrange(1, acts@.len() as int) == dacts
                        &&& final(self).game.grid@ == g2
                        &&& (closed is Some ==> !final(self).registry.spec_has_token(token))
                        &&& (closed is None ==> final(self).registry.spec_has_token(token)
                            && spec_peer(final(self).registry, token).state == PeerState::Upgraded
                            && spec_peer(final(self).registry, token).buffer@ == buf2
                            && !frame_ready(buf2))
                    }))
                &&& (reg0.spec_has_token(token) && p0.state == PeerState::Upgraded ==> ({
                        let (dacts, g2, buf2, closed) = spec_drive(g0, b, color);
                        &&& acts@ == dacts
                        &&& final(self).game.grid@ == g2
                        &&& (closed is Some ==> !final(self).registry.spec_has_token(token))
                        &&& (closed is None ==> final(self).registry.spec_has_token(token)
                            && spec_peer(final(self).registry, token).state == PeerState::Upgraded
                            && spec_peer(final(self).registry, token).buffer@ == buf2
                            && !frame_ready(buf2))
                    }))
            }),
    {
        let mut acts: Vec<Action> = Vec::new();
        let ghost reg_in = self.registry;
        let taken = self.registry.take(token);
        let mut peer = match taken {
            Ok(p) => p,
            Err(_) => {
                return acts;
            },
        };
        proof {
            lemma_others_after_remove(reg_in, self.registry, token);
        }
        peer.append_bytes(data);
        let color = if token % 2 == 1 {
            CellState::Red
        } else {
            CellState::Blue
        };
        let ghost b = spec_peer(old(self).registry, token).buffer@ + data@;
        if peer.state == PeerState::AwaitingUpgrade {
            match peer.try_upgrade() {
                HandshakeOutcome::Incomplete => {
                    let ghost r1 = self.registry;
                    self.registry.register(token, peer);
                    proof {
                        assert forall|i: int| 0 <= i < self.registry.entries@.len() - 1
                            implies #[trigger] self.registry.entries@[i].0 != token by {
                            assert(self.registry.entries@[i] == r1.entries@[i]);
                        };
                        lemma_peer_at_last(self.registry, token, peer);
                        lemma_others_after_push(r1, self.registry, token, peer);
                    }
                    return acts;
                },
                HandshakeOutcome::Rejected => {
                    acts.push(Action::Close(CloseReason::ProtocolError));
                    return acts;
                },
                HandshakeOutcome::Accepted => {
                    acts.push(Action::Send(handshake_response()));
                },
            }
        }
        // The session is upgraded; drain every complete frame in the buffer,
        // front first, exactly as `spec_drive` prescribes.
        let ghost r1 = self.registry;
        let ghost b1 = peer.buffer@;
        let ghost grid1 = self.game.grid@;
        let ghost acts1 = acts@;
        let mut closed: Option<CloseReason> = None;
        let mut done = false;
        proof {
            assert(acts@.subrange(acts1.len() as int, acts@.len() as int)
                =~= Seq::<Action>::empty());
            let rem = spec_drive(grid1, b1, color);
            assert(Seq::<Action>::empty() + rem.0 =~= rem.0);
            assert(acts@.subrange(0, acts1.len() as int) =~= acts1);
        }
        while !done && closed.is_none()
            invariant
                old(self).wf(),
                self.registry == r1,
                r1.wf(),
                !r1.spec_has_token(token),
                token != LISTENER_TOKEN,
                token < r1.next_token,
                self.game.wf(),
                peer.state == PeerState::Upgraded,
                color == peer_color(token),
                r1.next_token == old(self).registry.next_token,
                old(self).registry.spec_has_token(token),
                forall|t: u64|
                    t != token ==> r1.spec_has_token(t) == old(self).registry.spec_has_token(t)
                        && (old(self).registry.spec_has_token(t) ==> spec_peer(r1, t)
                            == spec_peer(old(self).registry, t)),
                grid1 == old(self).game.grid@,
                spec_peer(old(self).registry, token).state == PeerState::Upgraded
                    ==> acts1 == Seq::<Action>::empty()
                    && b1 == spec_peer(old(self).registry, token).buffer@ + data@,
                spec_peer(old(self).registry, token).state == PeerState::AwaitingUpgrade
                    ==> acts1.len() == 1
                    && (acts1[0] matches Action::Send(v) && v@ == handshake_response_spec())
                    && ({
                        let b = spec_peer(old(self).registry, token).buffer@ + data@;
                        handshake_complete(b) && handshake_well_formed(b)
                            && b1 == b.subrange(handshake_end(b), b.len() as int)
                    }),
                acts1.len() <= acts@.len(),
                acts@.subrange(0, acts1.len() as int) == acts1,
                !done && closed is None ==> ({
                    let rem = spec_drive(self.game.grid@, peer.buffer@, color);
                    spec_drive(grid1, b1, color) == (
                        acts@.subrange(acts1.len() as int, acts@.len() as int) + rem.0,
                        rem.1,
                        rem.2,
                        rem.3,
                    )
                }),
                done ==> closed is None && !frame_ready(peer.buffer@) && spec_drive(
                    grid1,
                    b1,
                    color,
                ) == (
                    acts@.subrange(acts1.len() as int, acts@.len() as int),
                    self.game.grid@,
                    peer.buffer@,
                    None::<CloseReason>,
                ),
                closed matches Some(reason) ==> spec_drive(grid1, b1, color) == (
                    acts@.subrange(acts1.len() as int, acts@.len() as int),
                    self.game.grid@,
                    peer.buffer@,
                    Some(reason),
                ),
            decreases peer.buffer@.len() + (if !done && closed is None { 1int } else { 0int }),
        {
            let ghost gcur = self.game.grid@;
            let ghost bcur = peer.buffer@;
            let ghost na = acts@.subrange(acts1.len() as int, acts@.len() as int);
            match peer.next_frame() {
                FrameStep::Incomplete => {
                    done = true;
                    proof {
                        assert(spec_drive(gcur, bcur, color) == (
                            Seq::<Action>::empty(),
                            gcur,
                            bcur,
                            None::<CloseReason>,
                        ));
                        assert(na + Seq::<Action>::empty() =~= na);
                    }
                },
                FrameStep::BadKind => {
                    acts.push(Action::Close(CloseReason::ProtocolError));
                    closed = Some(CloseReason::ProtocolError);
                    proof {
                        assert(spec_drive(gcur, bcur, color) == (
                            seq![Action::Close(CloseReason::ProtocolError)],
                            gcur,
                            bcur,
                            Some(CloseReason::ProtocolError),
                        ));
                        assert(acts@.subrange(acts1.len() as int, acts@.len() as int)
                            =~= na + seq![Action::Close(CloseReason::ProtocolError)]);
                        assert(acts@.subrange(0, acts1.len() as int) =~= acts1);
                    }
                },
                FrameStep::Got(Frame::Binary(_)) => {
                    acts.push(Action::Close(CloseReason::UnsupportedPayload));
                    closed = Some(CloseReason::UnsupportedPayload);
                    proof {
                        assert(spec_drive(gcur, bcur, color) == (
                            seq![Action::Close(CloseReason::UnsupportedPayload)],
                            gcur,
                            frame_rest(bcur),
                            Some(CloseReason::UnsupportedPayload),
                        ));
                        assert(acts@.subrange(acts1.len() as int, acts@.len() as int)
                            =~= na + seq![Action::Close(CloseReason::UnsupportedPayload)]);
                        assert(acts@.subrange(0, acts1.len() as int) =~= acts1);
                    }
                },
                FrameStep::Got(Frame::Text(p)) => {
                    let parsed = parse(p.as_slice());
                    match parsed {
                        Err(ParseError::Malformed) => {
                            acts.push(Action::Close(CloseReason::ProtocolError));
                            closed = Some(CloseReason::ProtocolError);
                            proof {
                                assert(spec_drive(gcur, bcur, color) == (
                                    seq![Action::Close(CloseReason::ProtocolError)],
                                    gcur,
                                    frame_rest(bcur),
                                    Some(CloseReason::ProtocolError),
                                ));
                                assert(acts@.subrange(acts1.len() as int, acts@.len() as int)
                                    =~= na + seq![Action::Close(CloseReason::ProtocolError)]);
                                assert(acts@.subrange(0, acts1.len() as int) =~= acts1);
                            }
                        },
                        Err(ParseError::UnknownType) => {
                            acts.push(Action::Reject(ValidationError::UnknownCommand));
                            proof {
                                let rem2 = spec_drive(gcur, frame_rest(bcur), color);
                                assert(spec_drive(gcur, bcur, color) == (
                                    seq![Action::Reject(ValidationError::UnknownCommand)] + rem2.0,
                                    rem2.1,
                                    rem2.2,
                                    rem2.3,
                                ));
                                assert(acts@.subrange(acts1.len() as int, acts@.len() as int)
                                    =~= na + seq![Action::Reject(ValidationError::UnknownCommand)]);
                                assert((na + seq![Action::Reject(ValidationError::UnknownCommand)])
                                    + rem2.0 =~= na + (seq![
                                    Action::Reject(ValidationError::UnknownCommand),
                                ] + rem2.0));
                                assert(acts@.subrange(0, acts1.len() as int) =~= acts1);
                            }
                        },
                        Ok(cmd) => {
                            let applied = apply(&mut self.game, &cmd, color);
                            match applied {
                                Ok(_) => {
                                    proof {
                                        let rem2 = spec_drive(
                                            self.game.grid@,
                                            frame_rest(bcur),
                                            color,
                                        );
                                        assert(spec_drive(gcur, bcur, color) == (
                                            rem2.0,
                                            rem2.1,
                                            rem2.2,
                                            rem2.3,
                                        ));
                                        assert(spec_drive(gcur, bcur, color) == rem2);
                                    }
                                },
                                Err(v) => {
                                    acts.push(Action::Reject(v));
                                    proof {
                                        let rem2 = spec_drive(
                                            self.game.grid@,
                                            frame_rest(bcur),
                                            color,
                                        );
                                        assert(spec_drive(gcur, bcur, color) == (
                                            seq![Action::Reject(v)] + rem2.0,
                                            rem2.1,
                                            rem2.2,
                                            rem2.3,
                                        ));
                                        assert(acts@.subrange(
                                            acts1.len() as int,
                                            acts@.len() as int,
                                        ) =~= na + seq![Action::Reject(v)]);
                                        assert((na + seq![Action::Reject(v)]) + rem2.0 =~= na + (
                                        seq![Action::Reject(v)] + rem2.0));
                                        assert(acts@.subrange(0, acts1.len() as int) =~= acts1);
                                    }
                                },
                            }
                        },
                    }
                },
            }
        }
        proof {
            assert(acts@ =~= acts1 + acts@.subrange(acts1.len() as int, acts@.len() as int));
            if spec_peer(old(self).registry, token).state == PeerState::AwaitingUpgrade {
                assert(acts@.subrange(1, acts@.len() as int)
                    =~= acts@.subrange(acts1.len() as int, acts@.len() as int));
            }
        }
        match closed {
            Some(_) => acts,
            None => {
                let ghost r2 = self.registry;
                self.registry.register(token, peer);
                proof {
                    assert forall|i: int| 0 <= i < self.registry.entries@.len() - 1
                        implies #[trigger] self.registry.entries@[i].0 != token by {
                        assert(self.registry.entries@[i] == r2.entries@[i]);
                    };
                    lemma_peer_at_last(self.registry, token, peer);
                    lemma_others_after_push(r2, self.registry, token, peer);
                }
                acts
            },
        }
    }
}

} // verus!
