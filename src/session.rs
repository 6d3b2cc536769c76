//! What each peer does with a message it receives, and what it sends.
use vstd::prelude::*;
use crate::board::{
    BoardHistory, Move, SharedBoard, after_local, after_remote, fen_parse,
    from_wire, legal_in, lemma_index_round_trip, move_of, parsed_history, to_wire, wire_of,
};
use crate::message::{
    AckView, BoardState, ClientMessage, ConnectAck, ConnectRequest, DecodeError, Envelope,
    EnvelopeView, ServerMessage, ServerView, WireMove, client_bytes, decode, encode,
    encode_client, encode_server, envelope_bytes, envelope_from,
    lemma_envelope_round_trip, no_variant, server_bytes,
};

verus! {

/// The game a client asks to join.
pub const REQUESTED_GAME_ID: u64 = 41414141;

/// The game a host reports in its answer.
pub const HOSTED_GAME_ID: u64 = 31337;

/// The starting position a host sends: the text `fen. lol!`.
pub open spec fn host_fen() -> Seq<u8> {
    seq![102u8, 101u8, 110u8, 46u8, 32u8, 108u8, 111u8, 108u8, 33u8]
}

pub open spec fn host_ack() -> AckView {
    AckView {
        success: true,
        starting_position: Some(host_fen()),
        game_id: Some(HOSTED_GAME_ID),
        client_is_white: Some(true),
    }
}

pub open spec fn join_request() -> ConnectRequest {
    ConnectRequest { game_id: REQUESTED_GAME_ID, spectate: false }
}

/// The bytes a client sends as soon as it is connected.
pub fn connect_request() -> (out: Vec<u8>)
    ensures
        out@ == client_bytes(ClientMessage::ConnectRequest(join_request())),
{
    encode_client(ClientMessage::ConnectRequest(ConnectRequest { game_id: REQUESTED_GAME_ID, spectate: false }))
}

/// The answer a host gives to every request to join.
pub fn host_answer() -> (r: ConnectAck)
    ensures
        r@ == host_ack(),
{
    let fen: Vec<u8> = vec![102u8, 101u8, 110u8, 46u8, 32u8, 108u8, 111u8, 108u8, 33u8];
    let r = ConnectAck {
        success: true,
        starting_position: Some(BoardState { fen_string: fen }),
        game_id: Some(HOSTED_GAME_ID),
        client_is_white: Some(true),
    };
    assert(r@.starting_position->0 =~= host_fen());
    r
}

/// The envelope that relays a move: a host sends a server message, a client
/// a client message.
pub open spec fn relay_envelope(m: Move, is_server: bool) -> EnvelopeView {
    if is_server {
        EnvelopeView::Server(ServerView::Move(wire_of(m)))
    } else {
        EnvelopeView::Client(ClientMessage::Move(wire_of(m)))
    }
}

/// The bytes that relay a move made on this side to the peer.
pub fn send_move(m: Move, is_server: bool) -> (out: Vec<u8>)
    requires
        m.well_formed(),
    ensures
        out@ == envelope_bytes(relay_envelope(m, is_server)),
{
    let w = to_wire(m);
    if is_server {
        encode(&Envelope::Server(ServerMessage::Move(w)))
    } else {
        encode(&Envelope::Client(ClientMessage::Move(w)))
    }
}

/// A move chosen on this side: made where it is legal and leaves its square,
/// and then relayed. Nothing else reaches the relay.
pub fn play_local(board: &mut SharedBoard, m: Move, is_server: bool) -> (out: Option<Vec<u8>>)
    requires
        m.from.valid(),
        m.to.valid(),
    ensures
        final(board)@ == after_local(old(board)@, m),
        match out {
            Some(v) => m.well_formed() && legal_in(old(board)@, m) && v@ == envelope_bytes(
                relay_envelope(m, is_server),
            ),
            None => !(m.from != m.to && legal_in(old(board)@, m)),
        },
{
    if board.apply_local(m) {
        Some(send_move(m, is_server))
    } else {
        None
    }
}

/// Makes a move received from the peer. A move whose indices are off the
/// board, or that leaves and reaches the same square, is refused. Unlike a
/// peer that applies received moves unchecked, the engine is asked whether the
/// move is legal before it is made: chess's `make_move_new` panics on an empty
/// source square or a captured king (see `after_remote`).
pub fn recv_move(board: &mut SharedBoard, w: WireMove) -> (made: bool)
    ensures
        final(board)@ == after_remote(old(board)@, w),
        made == (move_of(w) matches Some(m) && m.from != m.to && legal_in(old(board)@, m)),
        made ==> w.from_square != w.to_square,
{
    match from_wire(w) {
        Some(m) => board.apply_local(m),
        None => false,
    }
}

/// What a host sends back for a client message.
pub open spec fn server_reply(m: ClientMessage) -> Option<Seq<u8>> {
    match m {
        ClientMessage::ConnectRequest(_) => Some(server_bytes(ServerView::ConnectAck(host_ack()))),
        ClientMessage::Move(_) => None,
    }
}

/// The host's board after a client message.
pub open spec fn server_after(h: BoardHistory, m: ClientMessage) -> BoardHistory {
    match m {
        ClientMessage::ConnectRequest(_) => h,
        ClientMessage::Move(w) => after_remote(h, w),
    }
}

/// Handles a client message on the host: answers a request to join, makes a
/// move as `recv_move` does (so only where the engine holds it legal). Returns
/// the bytes to send back, if any.
pub fn recv_server(board: &mut SharedBoard, msg: ClientMessage) -> (reply: Option<Vec<u8>>)
    ensures
        final(board)@ == server_after(old(board)@, msg),
        match server_reply(msg) {
            Some(s) => reply matches Some(v) && v@ == s,
            None => reply is None,
        },
{
    match msg {
        ClientMessage::ConnectRequest(_) => {
            let ack = host_answer();
            Some(encode_server(&ServerMessage::ConnectAck(ack)))
        },
        ClientMessage::Move(w) => {
            recv_move(board, w);
            None
        },
    }
}

/// Why a client gives up on the connection.
#[derive(Clone, Copy, Debug, PartialEq, Eq, Structural)]
pub enum HandshakeError {
    /// The host refused the request to join.
    Rejected,
    /// The host accepted but sent no starting position.
    MissingPosition,
}

/// The client's board after a host message, or why it gives up.
pub open spec fn client_outcome(h: BoardHistory, m: ServerView) -> Result<BoardHistory, HandshakeError> {
    match m {
        ServerView::ConnectAck(a) => if !a.success {
            Err(HandshakeError::Rejected)
        } else {
            match a.starting_position {
                Some(fen) => Ok(parsed_history(fen)),
                None => Err(HandshakeError::MissingPosition),
            }
        },
        ServerView::Move(w) => Ok(after_remote(h, w)),
    }
}

/// Handles a host message on the client: an accepted answer replaces the
/// board with the starting position it carries, a move is made as
/// `recv_move` does (so only where the engine holds it legal).
pub fn recv_client(board: &mut SharedBoard, msg: ServerMessage) -> (r: Result<(), HandshakeError>)
    ensures
        match client_outcome(old(board)@, msg@) {
            Ok(h) => r is Ok && final(board)@ == h,
            Err(e) => r == Err::<(), HandshakeError>(e) && final(board)@ == old(board)@,
        },
{
    match msg {
        ServerMessage::ConnectAck(ack) => {
            if !ack.success {
                return Err(HandshakeError::Rejected);
            }
            match ack.starting_position {
                Some(pos) => {
                    *board = fen_parse(pos.fen_string.as_slice());
                    Ok(())
                },
                None => Err(HandshakeError::MissingPosition),
            }
        },
        ServerMessage::Move(w) => {
            recv_move(board, w);
            Ok(())
        },
    }
}

/// Why the receive loop stops.
#[derive(Clone, Copy, Debug, PartialEq, Eq, Structural)]
pub enum Fault {
    /// Bytes arrived that cannot be read as a message of the expected direction.
    Undecodable,
    /// The host refused the request to join.
    Rejected,
    /// The host accepted but sent no starting position.
    MissingPosition,
}

pub open spec fn fault_of(e: HandshakeError) -> Fault {
    match e {
        HandshakeError::Rejected => Fault::Rejected,
        HandshakeError::MissingPosition => Fault::MissingPosition,
    }
}

/// The board after one read of `b` by a peer of the given role.
pub open spec fn history_after_recv(h: BoardHistory, is_server: bool, b: Seq<u8>) -> BoardHistory {
    match envelope_from(is_server, b) {
        None => h,
        Some(EnvelopeView::Client(m)) => server_after(h, m),
        Some(EnvelopeView::Server(m)) => match client_outcome(h, m) {
            Ok(n) => n,
            Err(_) => h,
        },
    }
}

/// One pass of the receive loop over the bytes of one read: decodes them in
/// the schema of the peer's role and handles the message. Returns the bytes
/// to send back, if any, or the fault that ends the loop. An empty read, and
/// a message of a kind this side does not know, change nothing.
pub fn recv(board: &mut SharedBoard, is_server: bool, bytes: &[u8]) -> (r: Result<Option<Vec<u8>>, Fault>)
    ensures
        final(board)@ == history_after_recv(old(board)@, is_server, bytes@),
        match envelope_from(is_server, bytes@) {
            None => if bytes@.len() == 0 || no_variant(is_server, bytes@) {
                r matches Ok(None)
            } else {
                r matches Err(Fault::Undecodable)
            },
            Some(EnvelopeView::Client(m)) => match server_reply(m) {
                Some(s) => r matches Ok(Some(v)) && v@ == s,
                None => r matches Ok(None),
            },
            Some(EnvelopeView::Server(m)) => match client_outcome(old(board)@, m) {
                Ok(_) => r matches Ok(None),
                Err(e) => r matches Err(f) && f == fault_of(e),
            },
        },
{
    match decode(is_server, bytes) {
        Err(DecodeError::Empty) => Ok(None),
        Err(DecodeError::Unsupported) => Ok(None),
        Err(DecodeError::Malformed) => Err(Fault::Undecodable),
        Ok(Envelope::Client(m)) => Ok(recv_server(board, m)),
        Ok(Envelope::Server(m)) => match recv_client(board, m) {
            Ok(()) => Ok(None),
            Err(HandshakeError::Rejected) => Err(Fault::Rejected),
            Err(HandshakeError::MissingPosition) => Err(Fault::MissingPosition),
        },
    }
}

/// The board after each move is tried locally in turn.
pub open spec fn play_all_local(h: BoardHistory, ms: Seq<Move>) -> BoardHistory
    decreases ms.len(),
{
    if ms.len() == 0 {
        h
    } else {
        play_all_local(after_local(h, ms[0]), ms.drop_first())
    }
}

/// The board after each buffer is read in turn by a peer of the given role.
pub open spec fn recv_all(h: BoardHistory, is_server: bool, bs: Seq<Seq<u8>>) -> BoardHistory
    decreases bs.len(),
{
    if bs.len() == 0 {
        h
    } else {
        recv_all(history_after_recv(h, is_server, bs[0]), is_server, bs.drop_first())
    }
}

/// A peer that reads the relayed bytes of a sequence of moves ends with the
/// board of the peer that made them, starting from the same board.
pub proof fn lemma_relay_keeps_boards_equal(h: BoardHistory, sender_is_server: bool, ms: Seq<Move>)
    requires
        forall|i: int| 0 <= i < ms.len() ==> (#[trigger] ms[i]).well_formed(),
    ensures
        recv_all(
            h,
            !sender_is_server,
            ms.map_values(|m: Move| envelope_bytes(relay_envelope(m, sender_is_server))),
        ) == play_all_local(h, ms),
    decreases ms.len(),
{
    if ms.len() > 0 {
        let m = ms[0];
        assert(m.well_formed());
        let e = relay_envelope(m, sender_is_server);
        lemma_envelope_round_trip(e);
        lemma_index_round_trip(m.from);
        lemma_index_round_trip(m.to);
        assert(move_of(wire_of(m)) == Some(m));
        let bs = ms.map_values(|m: Move| envelope_bytes(relay_envelope(m, sender_is_server)));
        assert(bs.drop_first() =~= ms.drop_first().map_values(
            |m: Move| envelope_bytes(relay_envelope(m, sender_is_server)),
        ));
        assert forall|i: int| 0 <= i < ms.drop_first().len() implies (
        #[trigger] ms.drop_first()[i]).well_formed() by {
            assert(ms.drop_first()[i] == ms[i + 1]);
        }
        lemma_relay_keeps_boards_equal(after_local(h, m), sender_is_server, ms.drop_first());
    }
}

/// A move that leaves and reaches the same square is outside the relay's
/// domain: `send_move` requires a well-formed move.
pub proof fn lemma_same_square_not_relayed(m: Move)
    requires
        m.from == m.to,
    ensures
        !m.well_formed(),
{
}

} // verus!
