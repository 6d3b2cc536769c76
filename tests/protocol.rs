use chess_sync::board::{decode_index, encode_index, fen_parse, Move, SharedBoard, Square};
use chess_sync::message::{
    decode, encode, BoardState, ClientMessage, ConnectAck, ConnectRequest, DecodeError, Envelope,
    Promotion, ServerMessage, WireMove,
};
use chess_sync::session::{
    connect_request, play_local, recv, recv_client, recv_move, recv_server, send_move, Fault,
    HandshakeError, HOSTED_GAME_ID, REQUESTED_GAME_ID,
};
use std::str::FromStr;

fn sq(row: u8, column: u8) -> Square {
    Square { row, column }
}

fn mv(fr: u8, fc: u8, tr: u8, tc: u8) -> Move {
    Move { from: sq(fr, fc), to: sq(tr, tc), promotion: None }
}

fn lol_ack() -> ConnectAck {
    ConnectAck {
        success: true,
        starting_position: Some(BoardState { fen_string: b"fen. lol!".to_vec() }),
        game_id: Some(31337),
        client_is_white: Some(true),
    }
}

#[test]
fn linear_index_round_trip_on_every_square() {
    for r in 0..8u8 {
        for c in 0..8u8 {
            let i = encode_index(sq(r, c));
            assert_eq!(i, r as u32 * 8 + c as u32);
            assert_eq!(decode_index(i), Some(sq(r, c)));
        }
    }
    assert_eq!(decode_index(64), None);
}

#[test]
fn linear_index_values() {
    assert_eq!(encode_index(sq(0, 0)), 0);
    assert_eq!(encode_index(sq(1, 4)), 12);
    assert_eq!(encode_index(sq(3, 4)), 28);
    assert_eq!(encode_index(sq(7, 7)), 63);
}

#[test]
fn envelope_round_trip() {
    let cases = vec![
        Envelope::Client(ClientMessage::ConnectRequest(ConnectRequest { game_id: 41414141, spectate: false })),
        Envelope::Client(ClientMessage::ConnectRequest(ConnectRequest { game_id: 0, spectate: true })),
        Envelope::Client(ClientMessage::ConnectRequest(ConnectRequest { game_id: u64::MAX, spectate: true })),
        Envelope::Client(ClientMessage::Move(WireMove { from_square: 12, to_square: 28, promotion: None })),
        Envelope::Client(ClientMessage::Move(WireMove { from_square: 0, to_square: 0, promotion: Some(Promotion::Knight) })),
        Envelope::Server(ServerMessage::Move(WireMove { from_square: 52, to_square: 60, promotion: Some(Promotion::Queen) })),
        Envelope::Server(ServerMessage::ConnectAck(lol_ack())),
        Envelope::Server(ServerMessage::ConnectAck(ConnectAck {
            success: false,
            starting_position: None,
            game_id: None,
            client_is_white: Some(false),
        })),
        Envelope::Server(ServerMessage::ConnectAck(ConnectAck {
            success: true,
            starting_position: Some(BoardState { fen_string: Vec::new() }),
            game_id: Some(0),
            client_is_white: None,
        })),
    ];
    for e in cases {
        let bytes = encode(&e);
        let at_host = matches!(e, Envelope::Client(_));
        assert_eq!(decode(at_host, &bytes), Ok(e));
    }
}

#[test]
fn connect_request_bytes() {
    assert_eq!(connect_request(), vec![10, 5, 8, 253, 219, 223, 19]);
    assert_eq!(
        decode(true, &connect_request()),
        Ok(Envelope::Client(ClientMessage::ConnectRequest(ConnectRequest {
            game_id: REQUESTED_GAME_ID,
            spectate: false
        })))
    );
}

#[test]
fn decode_is_repeatable() {
    let bytes = encode(&Envelope::Server(ServerMessage::ConnectAck(lol_ack())));
    assert_eq!(decode(false, &bytes), decode(false, &bytes));
    let junk = vec![10, 3, 8];
    assert_eq!(decode(true, &junk), decode(true, &junk));
}

#[test]
fn empty_and_malformed_buffers_fail() {
    assert_eq!(decode(true, &[]), Err(DecodeError::Empty));
    assert_eq!(decode(false, &[]), Err(DecodeError::Empty));
    // a key with no value
    assert_eq!(decode(true, &[8]), Err(DecodeError::Malformed));
    // a length that runs past the end
    assert_eq!(decode(false, &[10, 21, 8, 1]), Err(DecodeError::Malformed));
    // an unfinished varint
    assert_eq!(decode(true, &[0xff]), Err(DecodeError::Malformed));
    // a known field with the wrong wire type
    assert_eq!(decode(true, &[8, 1]), Err(DecodeError::Malformed));
    // a host message read by a host
    let ack = encode(&Envelope::Server(ServerMessage::ConnectAck(lol_ack())));
    assert_eq!(decode(true, &ack), Err(DecodeError::Malformed));
    // a square index beyond 32 bits
    assert_eq!(decode(true, &[18, 7, 8, 128, 128, 128, 128, 16, 0]), Err(DecodeError::Malformed));
    // a varint longer than ten bytes
    let mut long = vec![10, 12, 8];
    long.extend_from_slice(&[128; 10]);
    long.push(0);
    assert_eq!(decode(true, &long), Err(DecodeError::Malformed));
    // ten bytes are still read
    let mut ten = vec![10, 11, 8];
    ten.extend_from_slice(&[128; 9]);
    ten.push(0);
    assert_eq!(
        decode(true, &ten),
        Ok(Envelope::Client(ClientMessage::ConnectRequest(ConnectRequest { game_id: 0, spectate: false })))
    );
    // an unknown promotion
    assert_eq!(decode(true, &[18, 2, 24, 9]), Err(DecodeError::Malformed));
}

#[test]
fn unknown_variant_is_unsupported_not_fatal() {
    assert_eq!(decode(true, &[24, 1]), Err(DecodeError::Unsupported));
    assert_eq!(decode(false, &[26, 0]), Err(DecodeError::Unsupported));
    let mut board = SharedBoard::new();
    assert_eq!(recv(&mut board, true, &[24, 1]), Ok(None));
    assert_eq!(recv(&mut board, false, &[26, 2, 8, 1]), Ok(None));
    assert_eq!(board.engine(), chess::Board::default());
}

#[test]
fn handshake_scenario() {
    let mut host = SharedBoard::new();
    let request = connect_request();
    let reply = recv(&mut host, true, &request).unwrap().unwrap();
    assert_eq!(
        reply,
        vec![10, 21, 8, 1, 18, 11, 10, 9, 102, 101, 110, 46, 32, 108, 111, 108, 33, 24, 233, 244, 1, 32, 1]
    );
    assert_eq!(decode(false, &reply), Ok(Envelope::Server(ServerMessage::ConnectAck(lol_ack()))));
    assert_eq!(lol_ack().game_id, Some(HOSTED_GAME_ID));

    let mut client = SharedBoard::new();
    assert!(play_local(&mut client, mv(1, 4, 3, 4), false).is_some());
    assert_eq!(recv(&mut client, false, &reply), Ok(None));
    // the engine does not read "fen. lol!", so the client starts over from the standard position
    assert_eq!(client.engine(), fen_parse(b"fen. lol!").engine());
    assert_eq!(client.engine(), chess::Board::default());
}

#[test]
fn accepted_position_replaces_board() {
    let fen = "rnbqkbnr/pppppppp/8/8/4P3/8/PPPP1PPP/RNBQKBNR b KQkq - 0 1";
    let mut client = SharedBoard::new();
    let ack = ConnectAck {
        success: true,
        starting_position: Some(BoardState { fen_string: fen.as_bytes().to_vec() }),
        game_id: None,
        client_is_white: None,
    };
    assert_eq!(recv_client(&mut client, ServerMessage::ConnectAck(ack)), Ok(()));
    assert_eq!(client.engine(), chess::Board::from_str(fen).unwrap());
    assert_ne!(client.engine(), chess::Board::default());
}

#[test]
fn rejected_handshake_is_fatal() {
    let mut client = SharedBoard::new();
    let refused = ConnectAck { success: false, starting_position: None, game_id: None, client_is_white: None };
    assert_eq!(recv_client(&mut client, ServerMessage::ConnectAck(refused.clone())), Err(HandshakeError::Rejected));
    let bytes = encode(&Envelope::Server(ServerMessage::ConnectAck(refused)));
    assert_eq!(recv(&mut client, false, &bytes), Err(Fault::Rejected));
    let bare = ConnectAck { success: true, starting_position: None, game_id: None, client_is_white: None };
    let bytes = encode(&Envelope::Server(ServerMessage::ConnectAck(bare)));
    assert_eq!(recv(&mut client, false, &bytes), Err(Fault::MissingPosition));
    assert_eq!(client.engine(), chess::Board::default());
}

#[test]
fn undecodable_read_is_reported() {
    let mut host = SharedBoard::new();
    assert_eq!(recv(&mut host, true, &[0xff]), Err(Fault::Undecodable));
    assert_eq!(recv(&mut host, true, &[]), Ok(None));
    assert_eq!(host.engine(), chess::Board::default());
}

#[test]
fn relayed_move_scenario() {
    let mut host = SharedBoard::new();
    let mut client = SharedBoard::new();
    let bytes = play_local(&mut host, mv(1, 4, 3, 4), true).unwrap();
    assert_eq!(bytes, vec![18, 4, 8, 12, 16, 28]);
    assert_eq!(
        decode(false, &bytes),
        Ok(Envelope::Server(ServerMessage::Move(WireMove { from_square: 12, to_square: 28, promotion: None })))
    );
    assert_ne!(host.engine(), chess::Board::default());
    assert_eq!(recv(&mut client, false, &bytes), Ok(None));
    assert_eq!(client.engine(), host.engine());
}

#[test]
fn relayed_sequence_keeps_boards_equal() {
    let mut host = SharedBoard::new();
    let mut client = SharedBoard::new();
    let moves = vec![
        (mv(1, 4, 3, 4), true),
        (mv(6, 4, 4, 4), false),
        (mv(0, 6, 2, 5), true),
        (mv(0, 0, 5, 0), false), // not legal: nothing is made or sent
        (mv(7, 1, 5, 2), false),
        (mv(0, 5, 3, 2), true),
    ];
    for (m, host_moves) in moves {
        let (mover, other) = if host_moves { (&mut host, &mut client) } else { (&mut client, &mut host) };
        if let Some(bytes) = play_local(mover, m, host_moves) {
            assert_eq!(recv(other, !host_moves, &bytes), Ok(None));
        }
        assert_eq!(host.engine(), client.engine());
    }
    assert_ne!(host.engine(), chess::Board::default());
}

#[test]
fn same_square_move_is_not_relayed() {
    let mut board = SharedBoard::new();
    assert_eq!(play_local(&mut board, mv(1, 4, 1, 4), true), None);
    assert_eq!(play_local(&mut board, mv(0, 0, 0, 0), false), None);
    assert_eq!(board.engine(), chess::Board::default());
}

#[test]
fn send_move_uses_role_schema() {
    let host_bytes = send_move(mv(1, 4, 3, 4), true);
    let client_bytes = send_move(mv(1, 4, 3, 4), false);
    assert_eq!(host_bytes, client_bytes);
    let w = WireMove { from_square: 12, to_square: 28, promotion: None };
    assert_eq!(decode(false, &host_bytes), Ok(Envelope::Server(ServerMessage::Move(w))));
    assert_eq!(decode(true, &client_bytes), Ok(Envelope::Client(ClientMessage::Move(w))));
    let promoting = Move { from: sq(6, 0), to: sq(7, 0), promotion: Some(Promotion::Rook) };
    assert_eq!(send_move(promoting, true), vec![18, 6, 8, 48, 16, 56, 24, 2]);
}

#[test]
fn server_answers_request_and_applies_moves() {
    let mut host = SharedBoard::new();
    let reply = recv_server(&mut host, ClientMessage::ConnectRequest(ConnectRequest { game_id: 7, spectate: true }));
    assert_eq!(decode(false, &reply.unwrap()), Ok(Envelope::Server(ServerMessage::ConnectAck(lol_ack()))));
    assert_eq!(host.engine(), chess::Board::default());
    let w = WireMove { from_square: 12, to_square: 28, promotion: None };
    assert_eq!(recv_server(&mut host, ClientMessage::Move(w)), None);
    assert_ne!(host.engine(), chess::Board::default());
}

#[test]
fn remote_moves_off_board_or_illegal_are_ignored() {
    let mut board = SharedBoard::new();
    assert!(!recv_move(&mut board, WireMove { from_square: 64, to_square: 28, promotion: None }));
    assert!(!recv_move(&mut board, WireMove { from_square: 20, to_square: 28, promotion: None }));
    assert_eq!(board.engine(), chess::Board::default());
    assert!(recv_move(&mut board, WireMove { from_square: 6, to_square: 21, promotion: None }));
    assert_ne!(board.engine(), chess::Board::default());
}

#[test]
fn placement_without_both_kings_falls_back_to_standard() {
    // no king of the side to move
    assert_eq!(fen_parse(b"8/8/8/8/8/8/8/8 w - - 0 1").engine(), chess::Board::default());
    assert_eq!(fen_parse(b"4k3/8/8/8/8/8/8/8 w - - 0 1").engine(), chess::Board::default());
    // a row of nine squares wraps onto the white king
    assert_eq!(fen_parse(b"KRRRRRRRR/8/8/8/8/8/8/7k w - - 0 1").engine(), chess::Board::default());
    // twenty white knights: more than the move generator has room for
    assert_eq!(
        fen_parse(b"N1N1N1N1/1N1N1N1N/N1N1N1N1/1N1N1N1N/N1N1N1N1/8/8/K6k w - - 0 1").engine(),
        chess::Board::default()
    );
    // seven rows with both kings are set up as the engine reads them
    let short = "4k3/8/8/8/8/8/4K3 w - - 0 1";
    assert_eq!(fen_parse(short.as_bytes()).engine(), chess::Board::from_str(short).unwrap());
    // sixteen pieces of each colour is the standard position itself
    let start = "rnbqkbnr/pppppppp/8/8/8/8/PPPPPPPP/RNBQKBNR w KQkq - 0 1";
    assert_eq!(fen_parse(start.as_bytes()).engine(), chess::Board::default());
    // a valid position with both kings is taken
    let fen = "4k3/8/8/8/8/8/8/4K3 w - - 0 1";
    assert_eq!(fen_parse(fen.as_bytes()).engine(), chess::Board::from_str(fen).unwrap());
}

#[test]
fn remote_move_to_same_square_is_refused() {
    let mut board = SharedBoard::new();
    assert!(!recv_move(&mut board, WireMove { from_square: 12, to_square: 12, promotion: None }));
    assert_eq!(recv(&mut board, true, &[18, 4, 8, 12, 16, 12]), Ok(None));
    assert_eq!(board.engine(), chess::Board::default());
}

#[test]
fn promotion_reaches_the_engine() {
    let fen = "k7/4P3/8/8/8/8/8/K7 w - - 0 1";
    let mut host = fen_parse(fen.as_bytes());
    let mut client = fen_parse(fen.as_bytes());
    let m = Move { from: sq(6, 4), to: sq(7, 4), promotion: Some(Promotion::Queen) };
    let bytes = play_local(&mut host, m, true).unwrap();
    let e8 = chess::Square::make_square(chess::Rank::Eighth, chess::File::E);
    assert_eq!(host.engine().piece_on(e8), Some(chess::Piece::Queen));
    assert_eq!(recv(&mut client, false, &bytes), Ok(None));
    assert_eq!(client.engine(), host.engine());
}

#[test]
fn fixed_width_unknown_fields_are_skipped() {
    let mut inner = vec![18, 13, 8, 12, 16, 28, 33];
    inner.extend_from_slice(&[0; 8]);
    let w = WireMove { from_square: 12, to_square: 28, promotion: None };
    assert_eq!(decode(true, &inner), Ok(Envelope::Client(ClientMessage::Move(w))));
    let outer = vec![45, 1, 2, 3, 4, 18, 4, 8, 12, 16, 28];
    assert_eq!(decode(false, &outer), Ok(Envelope::Server(ServerMessage::Move(w))));
    // a known field in a fixed-width wire type
    let mut wrong = vec![18, 9, 9];
    wrong.extend_from_slice(&[0; 8]);
    assert_eq!(decode(true, &wrong), Err(DecodeError::Malformed));
    // a truncated 32-bit value
    assert_eq!(decode(true, &[45, 1, 2]), Err(DecodeError::Malformed));
    // field number zero
    assert_eq!(decode(true, &[2, 0]), Err(DecodeError::Malformed));
}

#[test]
fn starting_position_must_be_text() {
    let ack = ConnectAck {
        success: true,
        starting_position: Some(BoardState { fen_string: vec![0xff, 0x20] }),
        game_id: None,
        client_is_white: None,
    };
    let bytes = encode(&Envelope::Server(ServerMessage::ConnectAck(ack)));
    assert_eq!(decode(false, &bytes), Err(DecodeError::Malformed));
    let mut client = SharedBoard::new();
    assert_eq!(recv(&mut client, false, &bytes), Err(Fault::Undecodable));
}
