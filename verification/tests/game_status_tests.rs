use std::sync::Arc;

use apefish_engine::basetypes::{DrawReason, GameStatus, InputMove, PieceKind, Side, Square, WinReason};
use apefish_engine::board::Position;
use apefish_engine::movegen::MoveGen;
use apefish_engine::zobrist::ZobristRandoms;

fn new_game() -> Position {
    Position::new(Arc::new(ZobristRandoms::new()), Arc::new(MoveGen::init()))
}

fn game_at(fen: &str) -> Position {
    let mut position = new_game();
    position.fen_setup(fen).unwrap();
    position
}

/// Resolves a UCI move string against the position's own legal moves and
/// makes it through validation, as a client would.
fn play(position: &mut Position, moves: &[&str]) {
    for uci in moves {
        let from = Square::from_string(&uci[0..2]).unwrap();
        let to = Square::from_string(&uci[2..4]).unwrap();
        let promotion = uci.chars().nth(4).map(|c| match c {
            'q' => PieceKind::Queen,
            'r' => PieceKind::Rook,
            'b' => PieceKind::Bishop,
            'n' => PieceKind::Knight,
            _ => panic!("bad promotion char in move `{uci}`"),
        });
        let mv = position
            .legal_moves()
            .into_iter()
            .find(|m| m.from() == from && m.to() == to && m.promotion() == promotion)
            .unwrap_or_else(|| panic!("`{uci}` is not legal in the current position"));
        let validated = position
            .validate_move(InputMove { from: mv.from(), to: mv.to(), promotion: mv.promotion() })
            .unwrap_or_else(|_| panic!("`{uci}` rejected by validate_move"));
        position.make_move(validated).unwrap_or_else(|_| panic!("`{uci}` rejected by make_move"));
    }
}

fn status_at(fen: &str) -> GameStatus {
    let mut position = game_at(fen);
    position.game_status()
}

fn assert_status(fen: &str, expected: GameStatus) {
    let actual = status_at(fen);
    assert_eq!(actual, expected, "fen `{fen}`: expected {expected:?}, got {actual:?}");
}

#[test]
fn fools_mate() {
    assert_status(
        "rnb1kbnr/pppp1ppp/8/4p3/6Pq/5P2/PPPPP2P/RNBQKBNR w KQkq - 1 3",
        GameStatus::Won { side: Side::Black, reason: WinReason::Checkmate },
    );
}

#[test]
fn scholars_mate() {
    assert_status(
        "r1bqkb1r/pppp1Qpp/2n2n2/4p3/2B1P3/8/PPPP1PPP/RNB1K1NR b KQkq - 0 4",
        GameStatus::Won { side: Side::White, reason: WinReason::Checkmate },
    );
}

#[test]
fn back_rank_mate() {
    assert_status(
        "4R1k1/5ppp/8/8/8/8/8/6K1 b - - 0 1",
        GameStatus::Won { side: Side::White, reason: WinReason::Checkmate },
    );
}

#[test]
fn double_check_mate() {
    assert_status(
        "7k/6p1/6N1/8/8/1B6/8/1K5R b - - 0 1",
        GameStatus::Won { side: Side::White, reason: WinReason::Checkmate },
    );
}

#[test]
fn queen_corners_king() {
    assert_status(
        "k7/8/1Q6/8/8/8/8/7K b - - 0 1",
        GameStatus::Drawn { reason: DrawReason::Stalemate },
    );
}

#[test]
fn cornered_king_without_check_is_stalemate_not_checkmate() {
    assert_status(
        "7k/8/7K/8/8/8/8/6R1 b - - 0 1",
        GameStatus::Drawn { reason: DrawReason::Stalemate },
    );
}

#[test]
fn bare_kings() {
    assert_status(
        "8/8/4k3/8/8/4K3/8/8 w - - 0 1",
        GameStatus::Drawn { reason: DrawReason::InsufficientMaterial },
    );
}

#[test]
fn king_and_bishop_vs_king() {
    assert_status(
        "8/8/4k3/8/8/4K3/8/2B5 w - - 0 1",
        GameStatus::Drawn { reason: DrawReason::InsufficientMaterial },
    );
}

#[test]
fn king_and_knight_vs_king() {
    assert_status(
        "8/8/4k3/8/8/4K3/8/2N5 w - - 0 1",
        GameStatus::Drawn { reason: DrawReason::InsufficientMaterial },
    );
}

#[test]
fn same_coloured_bishops_each_side() {
    assert_status(
        "k7/8/8/8/8/4b3/8/K1B5 w - - 0 1",
        GameStatus::Drawn { reason: DrawReason::InsufficientMaterial },
    );
}

#[test]
fn opposite_coloured_bishops_each_side_is_not_automatic_draw() {
    assert_status("k7/8/6b1/8/8/8/8/K1B5 w - - 0 1", GameStatus::Ongoing);
}

#[test]
fn knight_vs_knight_is_not_automatic_draw() {
    assert_status("k7/8/6n1/8/8/8/8/K1N5 w - - 0 1", GameStatus::Ongoing);
}

#[test]
fn two_knights_vs_king_is_not_automatic_draw() {
    assert_status("8/8/4k3/8/8/4K3/8/2N1N3 w - - 0 1", GameStatus::Ongoing);
}

#[test]
fn extra_pawn_is_not_insufficient_material() {
    assert_status("8/8/4k3/8/4P3/4K3/8/8 w - - 0 1", GameStatus::Ongoing);
}

#[test]
fn ninety_nine_halfmoves_not_yet_drawn() {
    assert_status("8/8/4k3/8/8/4K3/8/4R3 w - - 99 1", GameStatus::Ongoing);
}

#[test]
fn hundred_halfmoves_draws() {
    assert_status(
        "8/8/4k3/8/8/4K3/8/4R3 w - - 100 1",
        GameStatus::Drawn { reason: DrawReason::FiftyMoveRule },
    );
}

#[test]
fn past_the_threshold_still_draws() {
    assert_status(
        "8/8/4k3/8/8/4K3/8/4R3 w - - 150 1",
        GameStatus::Drawn { reason: DrawReason::FiftyMoveRule },
    );
}

#[test]
fn pawn_move_resets_the_clock() {
    let mut position = game_at("8/8/4k3/8/4P3/4K3/8/8 w - - 99 1");
    play(&mut position, &["e4e5"]);
    assert_eq!(position.game_status(), GameStatus::Ongoing);
}

#[test]
fn capture_resets_the_clock() {
    let mut position = game_at("7n/8/4k3/8/8/4K3/8/7R w - - 99 1");
    play(&mut position, &["h1h8"]);
    assert_eq!(position.game_status(), GameStatus::Ongoing);
}

#[test]
fn quiet_move_ticks_clock_over_to_draw() {
    let mut position = game_at("8/8/3k4/8/8/4K3/8/4R3 w - - 99 1");
    play(&mut position, &["e3d2"]);
    assert_eq!(position.game_status(), GameStatus::Drawn { reason: DrawReason::FiftyMoveRule });
}

#[test]
fn two_occurrences_is_not_yet_a_draw() {
    let mut position = new_game();
    play(&mut position, &["g1f3", "g8f6", "f3g1", "f6g8"]);
    assert_eq!(position.game_status(), GameStatus::Ongoing);
}

#[test]
fn three_occurrences_draws() {
    let mut position = new_game();
    play(&mut position, &["g1f3", "g8f6", "f3g1", "f6g8", "g1f3", "g8f6", "f3g1", "f6g8"]);
    assert_eq!(
        position.game_status(),
        GameStatus::Drawn { reason: DrawReason::ThreefoldRepetition }
    );
}

#[test]
fn lost_castling_rights_are_not_the_same_position() {
    let mut position = game_at("4k3/8/8/8/8/8/8/4K2R w K - 0 1");
    play(&mut position, &["h1g1", "e8e7", "g1h1", "e7e8"]);
    // Rook and both kings are back where they started, but the castling
    // right is gone for good - this must read as only the *first*
    // occurrence of this (rights-less) position, not a repeat of the
    // starting (rights-having) position.
    assert_eq!(position.fen(), "4k3/8/8/8/8/8/8/4K2R w - - 4 3");
    assert_eq!(position.game_status(), GameStatus::Ongoing);
}

#[test]
fn lost_castling_rights_position_still_eventually_repeats() {
    let mut position = game_at("4k3/8/8/8/8/8/8/4K2R w K - 0 1");
    play(
        &mut position,
        &["h1g1", "e8e7", "g1h1", "e7e8", "h1g1", "e8e7", "g1h1", "e7e8", "h1g1"],
    );
    assert_eq!(position.fen(), "4k3/8/8/8/8/8/8/4K1R1 b - - 9 5");
    assert_eq!(
        position.game_status(),
        GameStatus::Drawn { reason: DrawReason::ThreefoldRepetition }
    );
}

#[test]
fn checkmate_takes_priority_over_fifty_move_rule() {
    assert_status(
        "4R1k1/5ppp/8/8/8/8/8/6K1 b - - 100 1",
        GameStatus::Won { side: Side::White, reason: WinReason::Checkmate },
    );
}

#[test]
fn stalemate_takes_priority_over_fifty_move_rule() {
    assert_status(
        "k7/8/1Q6/8/8/8/8/7K b - - 100 1",
        GameStatus::Drawn { reason: DrawReason::Stalemate },
    );
}

#[test]
fn fifty_move_rule_takes_priority_over_insufficient_material() {
    assert_status(
        "8/8/4k3/8/8/4K3/8/2B5 w - - 100 1",
        GameStatus::Drawn { reason: DrawReason::FiftyMoveRule },
    );
}

#[test]
fn starting_position() {
    assert_status(
        "rnbqkbnr/pppppppp/8/8/8/8/PPPPPPPP/RNBQKBNR w KQkq - 0 1",
        GameStatus::Ongoing,
    );
}

#[test]
fn in_check_with_escape_is_ongoing() {
    assert_status("4k3/8/8/8/8/8/4r3/4K3 w - - 0 1", GameStatus::Ongoing);
}
