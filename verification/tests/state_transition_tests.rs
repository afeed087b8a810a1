use std::sync::Arc;

use apefish_engine::basetypes::{GameStatus, InputMove, PieceKind, Square};
use apefish_engine::board::Position;
use apefish_engine::movegen::MoveGen;
use apefish_engine::zobrist::ZobristRandoms;

fn game_at(fen: &str) -> Position {
    let mut position = Position::new(Arc::new(ZobristRandoms::new()), Arc::new(MoveGen::init()));
    position.fen_setup(fen).unwrap();
    position
}

/// Makes and unmakes every legal move down to `depth`, checking at every
/// node that the FEN and the hash after the unmake are those before the make.
fn check_round_trips(position: &mut Position, depth: u32) {
    if depth == 0 {
        return;
    }
    for mv in position.legal_moves() {
        let fen_before = position.fen();
        let hash_before = position.get_zobrist();
        let validated = position.validate_move(mv.to_input_move()).expect("generated move refused by validate_move");
        position.make_move(validated).expect("legal move rejected by make_move");
        check_round_trips(position, depth - 1);
        position.unmake_move();
        assert_eq!(position.fen(), fen_before, "unmaking `{}` did not restore the position", mv.to_uci_string());
        assert_eq!(position.get_zobrist(), hash_before, "unmaking `{}` did not restore the hash", mv.to_uci_string());
    }
}

fn assert_round_trips(fen: &str, depth: u32) {
    let mut position = game_at(fen);
    check_round_trips(&mut position, depth);
    assert_eq!(position.fen(), fen);
}

/// Resolves each UCI move string against the legal moves and makes it.
fn play(position: &mut Position, moves: &[&str]) {
    for uci in moves {
        let from = Square::from_string(&uci[0..2]).unwrap();
        let to = Square::from_string(&uci[2..4]).unwrap();
        let promotion = uci.chars().nth(4).map(|c| match c {
            'q' => PieceKind::Queen,
            'r' => PieceKind::Rook,
            'b' => PieceKind::Bishop,
            'n' => PieceKind::Knight,
            _ => panic!("bad promotion char in move `{uci}`"),
        });
        let mv = position
            .legal_moves()
            .into_iter()
            .find(|m| m.from() == from && m.to() == to && m.promotion() == promotion)
            .unwrap_or_else(|| panic!("`{uci}` is not legal in the current position"));
        let validated = position
            .validate_move(InputMove { from: mv.from(), to: mv.to(), promotion: mv.promotion() })
            .unwrap_or_else(|_| panic!("`{uci}` rejected by validate_move"));
        position.make_move(validated).unwrap_or_else(|_| panic!("`{uci}` rejected by make_move"));
    }
}

fn fen_after(start_fen: &str, moves: &[&str]) -> String {
    let mut position = game_at(start_fen);
    play(&mut position, moves);
    position.fen()
}

#[test]
fn startpos() {
    assert_round_trips("rnbqkbnr/pppppppp/8/8/8/8/PPPPPPPP/RNBQKBNR w KQkq - 0 1", 4);
}

#[test]
fn kiwipete() {
    assert_round_trips("r3k2r/p1ppqpb1/bn2pnp1/3PN3/1p2P3/2N2Q1p/PPPBBPPP/R3K2R w KQkq - 0 1", 3);
}

#[test]
fn position_4_promotion_heavy() {
    assert_round_trips("r3k2r/Pppp1ppp/1b3nbN/nP6/BBP1P3/q4N2/Pp1P2PP/R2Q1RK1 w kq - 0 1", 3);
}

#[test]
fn castling_rights_lost_to_rook_capture() {
    assert_round_trips("r3k2r/1b4bq/8/8/8/8/7B/R3K2R w KQkq - 0 1", 3);
}

#[test]
fn castling_prevented_by_attacked_squares() {
    assert_round_trips("r3k2r/8/5Q2/8/8/3q4/8/R3K2R w KQkq - 0 1", 3);
}

#[test]
fn illegal_en_passant_capture() {
    assert_round_trips("8/5bk1/8/2Pp4/8/1K6/8/8 w - d6 0 1", 4);
}

#[test]
fn promotion_with_capture_leaves_correct_board() {
    let fen = fen_after("r1r4k/1P6/8/8/8/8/8/4K3 w - - 0 1", &["b7a8q"]);
    assert_eq!(fen, "Q1r4k/8/8/8/8/8/8/4K3 b - - 0 1");
}

#[test]
fn castling_rights_lost_when_rook_is_captured() {
    let fen = fen_after("4k3/8/8/8/8/8/6b1/4K2R b K - 0 1", &["g2h1"]);
    assert_eq!(fen, "4k3/8/8/8/8/8/8/4K2b w - - 0 2");
}

#[test]
fn castling_rights_lost_when_king_moves() {
    let fen = fen_after("4k3/8/8/8/8/8/8/R3K2R w KQ - 0 1", &["e1e2"]);
    assert_eq!(fen, "4k3/8/8/8/8/8/4K3/R6R b - - 1 1");
}

#[test]
fn castling_rights_lost_when_queenside_rook_moves() {
    let fen = fen_after("4k3/8/8/8/8/8/8/R3K2R w KQ - 0 1", &["a1b1"]);
    assert_eq!(fen, "4k3/8/8/8/8/8/8/1R2K2R b K - 1 1");
}

#[test]
fn castling_rights_lost_when_kingside_rook_moves() {
    let fen = fen_after("4k3/8/8/8/8/8/8/R3K2R w KQ - 0 1", &["h1g1"]);
    assert_eq!(fen, "4k3/8/8/8/8/8/8/R3K1R1 b Q - 1 1");
}

#[test]
fn knight_and_rook_together_is_not_insufficient_material() {
    let mut position = game_at("4k3/8/8/8/8/8/8/2N1K2R w - - 0 1");
    assert_eq!(position.game_status(), GameStatus::Ongoing);
}
