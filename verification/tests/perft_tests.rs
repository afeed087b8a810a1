use std::sync::Arc;

use apefish_engine::board::Position;
use apefish_engine::movegen::MoveGen;
use apefish_engine::zobrist::ZobristRandoms;

fn count_leaves(position: &mut Position, depth: u32) -> u64 {
    if depth == 0 {
        return 1;
    }
    let legal = position.legal_moves();
    if depth == 1 {
        return legal.len() as u64;
    }
    let mut nodes = 0;
    for mv in legal {
        let validated = position.validate_move(mv.to_input_move()).expect("generated move refused by validate_move");
        position.make_move(validated).expect("legal move rejected by make_move");
        nodes += count_leaves(position, depth - 1);
        position.unmake_move();
    }
    nodes
}

fn assert_perft(fen: &str, depth: u32, expected: u64) {
    let mut position = Position::new(Arc::new(ZobristRandoms::new()), Arc::new(MoveGen::init()));
    position.fen_setup(fen).unwrap();
    let actual = count_leaves(&mut position, depth);
    assert_eq!(actual, expected, "perft({depth}) mismatch for fen `{fen}`: expected {expected}, got {actual}");
}

const STARTPOS: &str = "rnbqkbnr/pppppppp/8/8/8/8/PPPPPPPP/RNBQKBNR w KQkq - 0 1";
const KIWIPETE: &str = "r3k2r/p1ppqpb1/bn2pnp1/3PN3/1p2P3/2N2Q1p/PPPBBPPP/R3K2R w KQkq - 0 1";
const POSITION_3: &str = "8/2p5/3p4/KP5r/1R3p1k/8/4P1P1/8 w - - 0 1";
const POSITION_4: &str = "r3k2r/Pppp1ppp/1b3nbN/nP6/BBP1P3/q4N2/Pp1P2PP/R2Q1RK1 w kq - 0 1";
const POSITION_4_MIRRORED: &str = "r2q1rk1/pP1p2pp/Q4n2/bbp1p3/Np6/1B3NBn/pPPP1PPP/R3K2R b KQ - 0 1";
const POSITION_5: &str = "rnbq1k1r/pp1Pbppp/2p5/8/2B5/8/PPP1NnPP/RNBQK2R w KQ - 1 8";
const POSITION_6: &str = "r4rk1/1pp1qppp/p1np1n2/2b1p1B1/2B1P1b1/P1NP1N2/1PP1QPPP/R4RK1 w - - 0 10";

#[test]
fn startpos_depth_1() {
    assert_perft(STARTPOS, 1, 20);
}

#[test]
fn startpos_depth_2() {
    assert_perft(STARTPOS, 2, 400);
}

#[test]
fn startpos_depth_3() {
    assert_perft(STARTPOS, 3, 8_902);
}

#[test]
fn startpos_depth_4() {
    assert_perft(STARTPOS, 4, 197_281);
}

#[test]
fn startpos_depth_5() {
    assert_perft(STARTPOS, 5, 4_865_609);
}

#[test]
fn kiwipete_depth_1() {
    assert_perft(KIWIPETE, 1, 48);
}

#[test]
fn kiwipete_depth_2() {
    assert_perft(KIWIPETE, 2, 2_039);
}

#[test]
fn kiwipete_depth_3() {
    assert_perft(KIWIPETE, 3, 97_862);
}

#[test]
fn kiwipete_depth_4() {
    assert_perft(KIWIPETE, 4, 4_085_603);
}

#[test]
fn position_3_depth_1() {
    assert_perft(POSITION_3, 1, 14);
}

#[test]
fn position_3_depth_2() {
    assert_perft(POSITION_3, 2, 191);
}

#[test]
fn position_3_depth_3() {
    assert_perft(POSITION_3, 3, 2_812);
}

#[test]
fn position_3_depth_4() {
    assert_perft(POSITION_3, 4, 43_238);
}

#[test]
fn position_3_depth_5() {
    assert_perft(POSITION_3, 5, 674_624);
}

#[test]
fn position_4_depth_1() {
    assert_perft(POSITION_4, 1, 6);
}

#[test]
fn position_4_depth_2() {
    assert_perft(POSITION_4, 2, 264);
}

#[test]
fn position_4_depth_3() {
    assert_perft(POSITION_4, 3, 9_467);
}

#[test]
fn position_4_depth_4() {
    assert_perft(POSITION_4, 4, 422_333);
}

#[test]
fn position_4_mirrored_depth_1() {
    assert_perft(POSITION_4_MIRRORED, 1, 6);
}

#[test]
fn position_4_mirrored_depth_2() {
    assert_perft(POSITION_4_MIRRORED, 2, 264);
}

#[test]
fn position_4_mirrored_depth_3() {
    assert_perft(POSITION_4_MIRRORED, 3, 9_467);
}

#[test]
fn position_5_depth_1() {
    assert_perft(POSITION_5, 1, 44);
}

#[test]
fn position_5_depth_2() {
    assert_perft(POSITION_5, 2, 1_486);
}

#[test]
fn position_5_depth_3() {
    assert_perft(POSITION_5, 3, 62_379);
}

#[test]
fn position_5_depth_4() {
    assert_perft(POSITION_5, 4, 2_103_487);
}

#[test]
fn position_6_depth_1() {
    assert_perft(POSITION_6, 1, 46);
}

#[test]
fn position_6_depth_2() {
    assert_perft(POSITION_6, 2, 2_079);
}

#[test]
fn position_6_depth_3() {
    assert_perft(POSITION_6, 3, 89_890);
}

#[test]
fn position_6_depth_4() {
    assert_perft(POSITION_6, 4, 3_894_594);
}

#[test]
fn illegal_en_passant_capture_white() {
    assert_perft("8/5bk1/8/2Pp4/8/1K6/8/8 w - d6 0 1", 6, 824_064);
}

#[test]
fn illegal_en_passant_capture_black() {
    assert_perft("8/8/1k6/8/2pP4/8/5BK1/8 b - d3 0 1", 6, 824_064);
}

#[test]
fn en_passant_capture_checks_opponent_white() {
    assert_perft("8/5k2/8/2Pp4/2B5/1K6/8/8 w - d6 0 1", 6, 1_440_467);
}

#[test]
fn en_passant_capture_checks_opponent_black() {
    assert_perft("8/8/1k6/2b5/2pP4/8/5K2/8 b - d3 0 1", 6, 1_440_467);
}

#[test]
fn short_castling_gives_check_white() {
    assert_perft("5k2/8/8/8/8/8/8/4K2R w K - 0 1", 6, 661_072);
}

#[test]
fn short_castling_gives_check_black() {
    assert_perft("4k2r/8/8/8/8/8/8/5K2 b k - 0 1", 6, 661_072);
}

#[test]
fn long_castling_gives_check_white() {
    assert_perft("3k4/8/8/8/8/8/8/R3K3 w Q - 0 1", 6, 803_711);
}

#[test]
fn long_castling_gives_check_black() {
    assert_perft("r3k3/8/8/8/8/8/8/3K4 b q - 0 1", 6, 803_711);
}

#[test]
fn castling_rights_lost_to_rook_capture_white() {
    assert_perft("r3k2r/1b4bq/8/8/8/8/7B/R3K2R w KQkq - 0 1", 4, 1_274_206);
}

#[test]
fn castling_rights_lost_to_rook_capture_black() {
    assert_perft("r3k2r/7b/8/8/8/8/1B4BQ/R3K2R b KQkq - 0 1", 4, 1_274_206);
}

#[test]
fn castling_prevented_by_attacked_squares_white() {
    assert_perft("r3k2r/8/5Q2/8/8/3q4/8/R3K2R w KQkq - 0 1", 4, 1_720_476);
}

#[test]
fn castling_prevented_by_attacked_squares_black() {
    assert_perft("r3k2r/8/3Q4/8/8/5q2/8/R3K2R b KQkq - 0 1", 4, 1_720_476);
}

#[test]
fn promote_out_of_check_white() {
    assert_perft("2K2r2/4P3/8/8/8/8/8/3k4 w - - 0 1", 6, 3_821_001);
}

#[test]
fn promote_out_of_check_black() {
    assert_perft("3K4/8/8/8/8/8/4p3/2k2R2 b - - 0 1", 6, 3_821_001);
}

#[test]
fn discovered_check_white() {
    assert_perft("5K2/8/1Q6/2N5/8/1p2k3/8/8 w - - 0 1", 5, 1_004_658);
}

#[test]
fn discovered_check_black() {
    assert_perft("8/8/1P2K3/8/2n5/1q6/8/5k2 b - - 0 1", 5, 1_004_658);
}

#[test]
fn promote_to_give_check_white() {
    assert_perft("4k3/1P6/8/8/8/8/K7/8 w - - 0 1", 6, 217_342);
}

#[test]
fn promote_to_give_check_black() {
    assert_perft("8/k7/8/8/8/8/1p6/4K3 b - - 0 1", 6, 217_342);
}

#[test]
fn underpromote_to_check_white() {
    assert_perft("8/P1k5/K7/8/8/8/8/8 w - - 0 1", 6, 92_683);
}

#[test]
fn underpromote_to_check_black() {
    assert_perft("8/8/8/8/8/k7/p1K5/8 b - - 0 1", 6, 92_683);
}

#[test]
fn self_stalemate_white() {
    assert_perft("K1k5/8/P7/8/8/8/8/8 w - - 0 1", 6, 2_217);
}

#[test]
fn self_stalemate_black() {
    assert_perft("8/8/8/8/8/p7/8/k1K5 b - - 0 1", 6, 2_217);
}

#[test]
fn stalemate_and_checkmate_white() {
    assert_perft("8/k1P5/8/1K6/8/8/8/8 w - - 0 1", 7, 567_584);
}

#[test]
fn stalemate_and_checkmate_black() {
    assert_perft("8/8/8/8/1k6/8/K1p5/8 b - - 0 1", 7, 567_584);
}

#[test]
fn double_check_white() {
    assert_perft("8/5k2/8/5N2/5Q2/2K5/8/8 w - - 0 1", 4, 23_527);
}

#[test]
fn double_check_black() {
    assert_perft("8/8/2k5/5q2/5n2/8/5K2/8 b - - 0 1", 4, 23_527);
}
