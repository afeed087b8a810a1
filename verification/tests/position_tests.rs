use std::sync::Arc;

use rand::RngExt;
use rand::SeedableRng;

use apefish_engine::basetypes::{DrawReason, GameStatus, GenericErr, InputMove, Move, PieceKind, Side, Square, WinReason};
use apefish_engine::board::Position;
use apefish_engine::fen::{self, FenError, parse_fen};
use apefish_engine::movegen::MoveGen;
use apefish_engine::zobrist::ZobristRandoms;

fn new_position() -> Position {
    Position::new(Arc::new(ZobristRandoms::new()), Arc::new(MoveGen::init()))
}

fn position_from_fen(fen_str: &str) -> Position {
    let mut position = new_position();
    position.fen_setup(fen_str).unwrap();
    position
}

fn uci(position: &Position, s: &str) -> Move {
    let from = Square::from_string(&s[0..2]).unwrap();
    let to = Square::from_string(&s[2..4]).unwrap();
    let promotion = s.chars().nth(4).map(|c| match c {
        'q' => PieceKind::Queen,
        'r' => PieceKind::Rook,
        'b' => PieceKind::Bishop,
        'n' => PieceKind::Knight,
        _ => panic!("bad promotion char in `{s}`"),
    });
    InputMove { from, to, promotion }.to_internal_move(position).unwrap()
}

fn play(position: &mut Position, moves: &[&str]) {
    for s in moves {
        let m = position.validate_move(uci(position, s).to_input_move()).unwrap();
        position.make_move(m).unwrap();
    }
}

fn perft(position: &mut Position, depth: u32) -> u64 {
    if depth == 0 {
        return 1;
    }
    let moves = position.legal_moves();
    if depth == 1 {
        return moves.len() as u64;
    }
    let mut total = 0;
    for m in moves {
        position.make_move(m).unwrap();
        total += perft(position, depth - 1);
        position.unmake_move();
    }
    total
}

fn assert_perft(fen_str: &str, depth: u32, expected: u64) {
    let mut position = position_from_fen(fen_str);
    let before = position.fen();
    assert_eq!(perft(&mut position, depth), expected, "perft({depth}) of `{fen_str}`");
    assert_eq!(position.fen(), before);
}

#[test]
fn perft_start_position() {
    assert_perft(fen::STARTING_FEN, 1, 20);
    assert_perft(fen::STARTING_FEN, 2, 400);
    assert_perft(fen::STARTING_FEN, 3, 8902);
}

#[test]
fn perft_kiwipete() {
    let kiwipete = "r3k2r/p1ppqpb1/bn2pnp1/3PN3/1p2P3/2N2Q1p/PPPBBPPP/R3K2R w KQkq - 0 1";
    assert_perft(kiwipete, 1, 48);
    assert_perft(kiwipete, 2, 2039);
}

#[test]
fn perft_endgame_with_en_passant_pins() {
    let fen_str = "8/2p5/3p4/KP5r/1R3p1k/8/4P1P1/8 w - - 0 1";
    assert_perft(fen_str, 1, 14);
    assert_perft(fen_str, 2, 191);
    assert_perft(fen_str, 3, 2812);
}

#[test]
fn perft_promotions_and_castling_rights() {
    let fen_str = "r3k2r/Pppp1ppp/1b3nbN/nP6/BBP1P3/q4N2/Pp1P2PP/R2Q1RK1 w kq - 0 1";
    assert_perft(fen_str, 1, 6);
    assert_perft(fen_str, 2, 264);
    assert_perft(fen_str, 3, 9467);
}

#[test]
fn perft_position_five() {
    let fen_str = "rnbq1k1r/pp1Pbppp/2p5/8/2B5/8/PPP1NnPP/RNBQK2R w KQ - 1 8";
    assert_perft(fen_str, 1, 44);
    assert_perft(fen_str, 2, 1486);
}

#[test]
fn start_position_fen_round_trips() {
    let position = new_position();
    assert_eq!(position.fen(), fen::STARTING_FEN);
}

#[test]
fn fen_round_trips_for_varied_fields() {
    for f in [
        "r3k2r/8/8/8/8/8/8/R3K2R b Kq - 12 40",
        "8/8/8/3pP3/8/8/8/K6k w - d6 0 1",
        "4k3/8/8/8/8/8/8/4K2R w K - 4 3",
        "rnbq1k1r/pp1Pbppp/2p5/8/2B5/8/PPP1NnPP/RNBQK2R w KQ - 1 8",
    ] {
        assert_eq!(position_from_fen(f).fen(), f);
    }
}

#[test]
fn fen_errors_name_the_first_bad_field() {
    assert!(matches!(parse_fen("8/8/8/8/8/8/8/K6k w - - 0"), Err(FenError::IncorrectPartLength)));
    assert!(matches!(parse_fen("8/8/8/8/8/8/K6k w - - 0 1"), Err(FenError::IncorrectNumRanks)));
    assert!(matches!(parse_fen("8/8/8/8/8/8/8/K6x w - - 0 1"), Err(FenError::InvalidPiecePlacement)));
    assert!(matches!(parse_fen("9/8/8/8/8/8/8/K6k w - - 0 1"), Err(FenError::InvalidPiecePlacement)));
    assert!(matches!(parse_fen("8/8/8/8/8/8/8/K6k x - - 0 1"), Err(FenError::InvalidColour)));
    assert!(matches!(parse_fen("8/8/8/8/8/8/8/K6k w KX - 0 1"), Err(FenError::InvalidCastlingRights)));
    assert!(matches!(parse_fen("8/8/8/8/8/8/8/K6k w K- - 0 1"), Err(FenError::InvalidCastlingRights)));
    assert!(matches!(parse_fen("8/8/8/8/8/8/8/K6k w - z9 0 1"), Err(FenError::InvalidEPSquare)));
    assert!(matches!(parse_fen("8/8/8/8/8/8/8/K6k w - - 256 1"), Err(FenError::InvalidHalfMoveClock)));
    assert!(matches!(parse_fen("8/8/8/8/8/8/8/K6k w - - 0 65536"), Err(FenError::InvalidFullMoveNumber)));
    assert!(matches!(parse_fen("8/8/8/8/8/8/8/K6k w - - +7 1"), Ok(_)));
}

#[test]
fn failed_fen_setup_leaves_position_unchanged() {
    let mut position = new_position();
    assert!(matches!(position.fen_setup("not a fen"), Err(FenError::IncorrectPartLength)));
    assert_eq!(position.fen(), fen::STARTING_FEN);
}

#[test]
fn short_rank_text_leaves_trailing_squares_empty() {
    let parts = parse_fen("8/8/8/8/8/8/8/7 w - - 0 1").unwrap();
    assert!(parts.pieces.0.iter().all(|p| p.is_none()));
}

#[test]
fn move_leaving_king_in_check_is_refused_and_position_kept() {
    // The e2 bishop is pinned against the e1 king by the e8 rook.
    let mut position = position_from_fen("4r2k/8/8/8/8/8/4B3/4K3 w - - 0 1");
    let before = position.fen();
    let hash = position.get_zobrist();
    let m = uci(&position, "e2d3");
    assert_eq!(position.make_move(m), Err(GenericErr::IllegalMove));
    assert_eq!(position.fen(), before);
    assert_eq!(position.get_zobrist(), hash);
}

#[test]
fn castling_through_check_is_refused() {
    // The f8 rook attacks f1, which the king crosses castling kingside.
    let mut position = position_from_fen("5r1k/8/8/8/8/8/8/4K2R w K - 0 1");
    let m = uci(&position, "e1g1");
    assert!(m.castling());
    assert_eq!(position.make_move(m), Err(GenericErr::InvalidCastleChecked));
    assert_eq!(position.fen(), "5r1k/8/8/8/8/8/8/4K2R w K - 0 1");
    assert!(!position.legal_moves().iter().any(|x| x.castling()));
}

#[test]
fn rook_capture_on_corner_removes_castling_right() {
    let mut position = position_from_fen("4k3/8/8/8/8/8/6b1/4K2R b K - 0 1");
    play(&mut position, &["g2h1"]);
    assert_eq!(position.fen(), "4k3/8/8/8/8/8/8/4K2b w - - 0 2");
}

#[test]
fn clocks_advance_and_reset() {
    let mut position = position_from_fen("4k3/8/8/8/8/8/4P3/4K2R w - - 7 3");
    play(&mut position, &["h1h2"]);
    assert_eq!(position.half_move_clock(), 8);
    play(&mut position, &["e8d8", "e2e4"]);
    assert_eq!(position.half_move_clock(), 0);
    assert_eq!(position.fen(), "3k4/8/8/8/4P3/8/7R/4K3 b - e3 0 4");
}

#[test]
fn unknown_origin_square_is_invalid_move() {
    let position = new_position();
    let r = InputMove { from: Square::E4, to: Square::E5, promotion: None }.to_internal_move(&position);
    assert_eq!(r, Err(GenericErr::InvalidMove));
}

#[test]
fn validate_move_refuses_moves_not_generated() {
    let position = new_position();
    let r = position.validate_move(InputMove { from: Square::E2, to: Square::E5, promotion: None });
    assert_eq!(r, Err(GenericErr::InvalidMove));
    let ok = position.validate_move(InputMove { from: Square::G1, to: Square::F3, promotion: None }).unwrap();
    assert_eq!(ok.piece(), PieceKind::Knight);
}

#[test]
fn checkmate_is_a_win_for_the_mating_side() {
    let mut position = position_from_fen("rnb1kbnr/pppp1ppp/8/4p3/6Pq/5P2/PPPPP2P/RNBQKBNR w KQkq - 1 3");
    assert!(position.in_check());
    assert_eq!(position.game_status(), GameStatus::Won { side: Side::Black, reason: WinReason::Checkmate });
}

#[test]
fn stalemate_is_a_draw() {
    let mut position = position_from_fen("k7/8/1Q6/8/8/8/8/7K b - - 0 1");
    assert!(!position.in_check());
    assert_eq!(position.game_status(), GameStatus::Drawn { reason: DrawReason::Stalemate });
}

#[test]
fn fifty_move_rule_draws_at_a_hundred_half_moves() {
    assert_eq!(position_from_fen("8/8/4k3/8/8/4K3/8/4R3 w - - 99 1").game_status(), GameStatus::Ongoing);
    assert_eq!(
        position_from_fen("8/8/4k3/8/8/4K3/8/4R3 w - - 100 1").game_status(),
        GameStatus::Drawn { reason: DrawReason::FiftyMoveRule }
    );
}

#[test]
fn threefold_repetition_draws() {
    let mut position = new_position();
    play(&mut position, &["g1f3", "g8f6", "f3g1", "f6g8"]);
    assert_eq!(position.times_position_reached(), 2);
    assert_eq!(position.game_status(), GameStatus::Ongoing);
    play(&mut position, &["g1f3", "g8f6", "f3g1", "f6g8"]);
    assert_eq!(position.times_position_reached(), 3);
    assert_eq!(position.game_status(), GameStatus::Drawn { reason: DrawReason::ThreefoldRepetition });
    position.unmake_move();
    assert_eq!(position.times_position_reached(), 2);
}

#[test]
fn insufficient_material_cases() {
    let draw = GameStatus::Drawn { reason: DrawReason::InsufficientMaterial };
    assert_eq!(position_from_fen("8/8/4k3/8/8/4K3/8/8 w - - 0 1").game_status(), draw);
    assert_eq!(position_from_fen("8/8/4k3/8/8/4K3/8/2B5 w - - 0 1").game_status(), draw);
    assert_eq!(position_from_fen("8/8/4k3/8/8/4K3/8/2N5 w - - 0 1").game_status(), draw);
    assert_eq!(position_from_fen("k7/8/8/8/8/4b3/8/K1B5 w - - 0 1").game_status(), draw);
    assert_eq!(position_from_fen("k7/8/6b1/8/8/8/8/K1B5 w - - 0 1").game_status(), GameStatus::Ongoing);
    assert_eq!(position_from_fen("8/8/4k3/8/8/4K3/8/2N1N3 w - - 0 1").game_status(), GameStatus::Ongoing);
    assert_eq!(position_from_fen("8/8/4k3/8/4P3/4K3/8/8 w - - 0 1").game_status(), GameStatus::Ongoing);
    assert!(!position_from_fen("4k3/8/8/8/8/8/8/RN2K3 w - - 0 1").insufficient_material());
}

#[test]
fn evaluation_is_from_the_side_to_move() {
    let white = position_from_fen("4k3/8/8/8/8/8/8/3QK3 w - - 0 1");
    let black = position_from_fen("4k3/8/8/8/8/8/8/3QK3 b - - 0 1");
    assert!(white.evaluate() > 0);
    assert_eq!(white.evaluate(), -black.evaluate());
}

#[test]
fn square_names_and_bit_counts() {
    assert_eq!(Square::E4.to_string(), "e4");
    assert_eq!(Square::from_string("H8"), Ok(Square::H8));
    assert_eq!(Square::from_string("i1"), Err(GenericErr::SquareParseError));
    let position = new_position();
    assert_eq!(position.sides_pieces.0[0].num_pieces(), 16);
}

#[test]
fn zobrist_keys_are_reproducible_and_distinct() {
    let a = ZobristRandoms::new();
    let b = ZobristRandoms::new();
    assert_eq!(a.piece_key(Side::White, PieceKind::Pawn, Square::E2), b.piece_key(Side::White, PieceKind::Pawn, Square::E2));
    assert_ne!(a.piece_key(Side::White, PieceKind::Pawn, Square::E2), a.piece_key(Side::White, PieceKind::Pawn, Square::E3));
    assert_ne!(a.side_key(Side::White), a.side_key(Side::Black));
    assert_ne!(a.castling_key(0), a.castling_key(15));
    assert_ne!(a.ep_key(None), a.ep_key(Some(Square::E3)));
}

#[test]
fn validate_move_gives_back_each_legal_move() {
    let mut position = position_from_fen("r3k2r/p1ppqpb1/bn2pnp1/3PN3/1p2P3/2N2Q1p/PPPBBPPP/R3K2R w KQkq - 0 1");
    let moves = position.legal_moves();
    assert_eq!(moves.len(), 48);
    for m in moves {
        assert_eq!(position.validate_move(m.to_input_move()), Ok(m));
    }
    let mut en_passant = position_from_fen("8/8/1k6/2b5/2pP4/8/5K2/8 b - d3 0 1");
    for m in en_passant.legal_moves() {
        assert_eq!(en_passant.validate_move(m.to_input_move()), Ok(m));
    }
}

#[test]
fn zobrist_keys_are_drawn_in_turn_from_the_seeded_stream() {
    let keys = ZobristRandoms::new();
    let mut rng = rand_chacha::ChaCha20Rng::from_seed([54u8; 32]);
    let stream: Vec<u64> = (0..851).map(|_| rng.random::<u64>()).collect();
    assert_eq!(keys.piece_key(Side::White, PieceKind::Pawn, Square::A1), stream[0]);
    assert_eq!(keys.piece_key(Side::White, PieceKind::Knight, Square::C3), stream[64 + 18]);
    assert_eq!(keys.piece_key(Side::Black, PieceKind::King, Square::H8), stream[384 + 5 * 64 + 63]);
    assert_eq!(keys.side_key(Side::White), stream[768]);
    assert_eq!(keys.side_key(Side::Black), stream[769]);
    assert_eq!(keys.castling_key(15), stream[785]);
    assert_eq!(keys.ep_key(Some(Square::E3)), stream[786 + 20]);
    assert_eq!(keys.ep_key(None), stream[850]);
}

fn texts(moves: &[&str]) -> Vec<String> {
    moves.iter().map(|s| s.to_string()).collect()
}

#[test]
fn position_command_plays_moves_until_a_malformed_one() {
    let mut position = new_position();
    play(&mut position, &["d2d4"]);
    let played = apefish_engine::uci::apply_position(&mut position, None, &texts(&["e2e4", "e7e5", "e9", "d2d4"]));
    assert_eq!(played, Ok(2));
    assert_eq!(position.fen(), "rnbqkbnr/pppp1ppp/8/4p3/4P3/8/PPPP1PPP/RNBQKBNR w KQkq e6 0 2");
    assert_eq!(position.moves_made(), 2);
}

#[test]
fn position_command_stops_at_an_illegal_move() {
    let mut position = new_position();
    let fen_str = "4k3/8/8/8/8/8/8/4K2R w K - 0 1";
    let played = apefish_engine::uci::apply_position(&mut position, Some(fen_str), &texts(&["h1g1", "e8e6", "g1h1"]));
    assert_eq!(played, Ok(1));
    assert_eq!(position.fen(), "4k3/8/8/8/8/8/8/4K1R1 b - - 1 1");
    let played = apefish_engine::uci::apply_position(&mut position, None, &texts(&["e2e5", "e2e4"]));
    assert_eq!(played, Ok(0));
    assert_eq!(position.fen(), fen::STARTING_FEN);
}

#[test]
fn position_command_refuses_a_bad_fen_and_leaves_the_start_position() {
    let mut position = new_position();
    play(&mut position, &["d2d4"]);
    let played = apefish_engine::uci::apply_position(&mut position, Some("8/8/8 w - - 0 1"), &texts(&["e2e4"]));
    assert_eq!(played, Err(FenError::IncorrectNumRanks));
    assert_eq!(position.fen(), fen::STARTING_FEN);
    assert_eq!(position.moves_made(), 0);
}

#[test]
fn sliders_stop_at_blockers_and_never_wrap() {
    let mut position = position_from_fen("4k3/8/8/8/P6p/8/8/R3K2B w - - 0 1");
    let moves = position.legal_moves();
    let mut rook: Vec<Square> = moves.iter().filter(|m| m.from() == Square::A1).map(|m| m.to()).collect();
    rook.sort_by_key(|s| format!("{s:?}"));
    assert_eq!(rook, vec![Square::A2, Square::A3, Square::B1, Square::C1, Square::D1]);
    let bishop: Vec<Square> = moves.iter().filter(|m| m.from() == Square::H1).map(|m| m.to()).collect();
    assert_eq!(bishop.len(), 7);
    assert!(bishop.contains(&Square::A8));
    assert!(!bishop.contains(&Square::A1));
}

#[test]
fn a_printed_fen_reads_back_to_the_same_record() {
    for record in [
        "r3k2r/p1ppqpb1/bn2pnp1/3PN3/1p2P3/2N2Q1p/PPPBBPPP/R3K2R w KQkq - 0 1",
        "4k3/8/8/3pP3/8/8/8/4K3 w - d6 0 2",
        "8/8/3k4/8/8/4K3/8/4R3 b - - 99 117",
    ] {
        let position = position_from_fen(record);
        assert_eq!(position.fen(), record);
    }
}
