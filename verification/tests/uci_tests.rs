use apefish_engine::basetypes::{Piece, PieceKind, Side, Square};
use apefish_engine::psqt::{mirror, value};
use apefish_engine::uci::{parse_go_limits, parse_uci_move};
use apefish_engine::basetypes::Move;
use apefish_engine::search::{EngineEvent, SearchResult};
use apefish_engine::uci::{format_event, parse_command, UciRequest};

#[test]
fn parse_uci_move_plain() {
    let mv = parse_uci_move("e2e4").expect("should parse");
    assert_eq!(mv.from, Square::E2);
    assert_eq!(mv.to, Square::E4);
    assert_eq!(mv.promotion, None);
}

#[test]
fn parse_uci_move_promotion() {
    let mv = parse_uci_move("e7e8q").expect("should parse");
    assert_eq!(mv.from, Square::E7);
    assert_eq!(mv.to, Square::E8);
    assert_eq!(mv.promotion, Some(PieceKind::Queen));
}

#[test]
fn parse_uci_move_too_short() {
    assert!(parse_uci_move("e2").is_none());
}

#[test]
fn parse_uci_move_garbage() {
    assert!(parse_uci_move("zz99").is_none());
}

#[test]
fn go_limits_depth() {
    let limits = parse_go_limits("depth 5");
    assert_eq!(limits.depth, Some(5));
    assert_eq!(limits.movetime, None);
}

#[test]
fn go_limits_movetime() {
    let limits = parse_go_limits("movetime 1500");
    assert_eq!(limits.movetime, Some(1500));
}

#[test]
fn go_limits_clock_params() {
    let limits = parse_go_limits("wtime 60000 btime 60000 winc 1000 binc 1000");
    assert_eq!(limits.wtime, Some(60000));
    assert_eq!(limits.btime, Some(60000));
    assert_eq!(limits.winc, Some(1000));
    assert_eq!(limits.binc, Some(1000));
}

#[test]
fn go_limits_ignores_unknown_tokens() {
    let limits = parse_go_limits("infinite ponder depth 3");
    assert_eq!(limits.depth, Some(3));
    assert_eq!(limits.movetime, None);
}

#[test]
fn mirror_is_involution() {
    for i in 0..64 {
        let square = Square::from_index(i);
        assert!(mirror(mirror(square)) == square);
    }
}

#[test]
fn white_and_black_are_mirrored_negations() {
    for k in 0..6 {
        let kind = PieceKind::from_index(k);
        for i in 0..64 {
            let square = Square::from_index(i);
            let white = value(Piece { side: Side::White, kind }, square);
            let black = value(Piece { side: Side::Black, kind }, mirror(square));
            assert!(white == black.negate());
        }
    }
}


fn quiet(from: Square, to: Square) -> Move {
    Move::new(from, to, PieceKind::Pawn, None, None, false, false)
}

#[test]
fn bestmove_line_names_the_ponder_move() {
    let result = SearchResult {
        best_move: Some(quiet(Square::E2, Square::E4)),
        score: 0,
        pv: vec![quiet(Square::E2, Square::E4), quiet(Square::E7, Square::E5)],
        nodes: 0,
    };
    assert_eq!(format_event(&EngineEvent::BestMove(result), None), "bestmove e2e4 ponder e7e5");
}

#[test]
fn bestmove_line_without_a_move() {
    let result = SearchResult { best_move: None, score: 0, pv: vec![], nodes: 0 };
    assert_eq!(format_event(&EngineEvent::BestMove(result), Some(5)), "bestmove 0000");
}

#[test]
fn info_line_reports_time_rate_and_line() {
    let promotion = Move::new(Square::A7, Square::A8, PieceKind::Pawn, Some(PieceKind::Knight), None, false, false);
    let result = SearchResult { best_move: Some(promotion), score: -35, pv: vec![promotion, quiet(Square::H7, Square::H6)], nodes: 5000 };
    assert_eq!(
        format_event(&EngineEvent::Info { depth: 3, result }, Some(2000)),
        "info depth 3 score cp -35 nodes 5000 time 2000 nps 2500 tbhits 0 pv a7a8n h7h6"
    );
}

#[test]
fn info_line_at_zero_milliseconds_has_no_rate() {
    let result = SearchResult { best_move: None, score: 12, pv: vec![], nodes: 7 };
    assert_eq!(format_event(&EngineEvent::Info { depth: 0, result }, Some(0)), "info depth 0 score cp 12 nodes 7 time 0 tbhits 0");
}

#[test]
fn stats_line_reports_table_fill() {
    let event = EngineEvent::Stats { depth: 4, nodes: 100, hashfull: 12, tbhits: 0 };
    assert_eq!(format_event(&event, None), "info depth 4 nodes 100 hashfull 12 tbhits 0");
}

#[test]
fn commands_are_read_by_their_first_word() {
    assert!(matches!(parse_command("uci"), UciRequest::Identify));
    assert!(matches!(parse_command("  isready  "), UciRequest::Ready));
    assert!(matches!(parse_command("ucinewgame"), UciRequest::NewGame));
    assert!(matches!(parse_command("stop"), UciRequest::Stop));
    assert!(matches!(parse_command("quit"), UciRequest::Quit));
    assert!(matches!(parse_command("setoption name Hash value 32"), UciRequest::Ignore));
    assert!(matches!(parse_command("foobar"), UciRequest::Ignore));
    assert!(matches!(parse_command(""), UciRequest::Ignore));
    match parse_command("go wtime 60000 depth 7") {
        UciRequest::Go(limits) => {
            assert_eq!(limits.depth, Some(7));
            assert_eq!(limits.wtime, Some(60000));
        }
        other => panic!("expected go, got {other:?}"),
    }
}

#[test]
fn position_command_from_the_start() {
    match parse_command("position startpos moves e2e4 e7e5") {
        UciRequest::SetPosition { fen, moves } => {
            assert_eq!(fen, None);
            assert_eq!(moves, vec!["e2e4".to_string(), "e7e5".to_string()]);
        }
        other => panic!("expected position, got {other:?}"),
    }
}

#[test]
fn position_command_with_a_fen() {
    let line = "position fen rnbqkbnr/pppppppp/8/8/8/8/PPPPPPPP/RNBQKBNR w KQkq - 0 1 moves d2d4";
    match parse_command(line) {
        UciRequest::SetPosition { fen, moves } => {
            assert_eq!(fen.as_deref(), Some("rnbqkbnr/pppppppp/8/8/8/8/PPPPPPPP/RNBQKBNR w KQkq - 0 1"));
            assert_eq!(moves, vec!["d2d4".to_string()]);
        }
        other => panic!("expected position, got {other:?}"),
    }
    match parse_command("position fen 8/8/4k3/8/8/4K3/8/8 w - - 0 1") {
        UciRequest::SetPosition { fen, moves } => {
            assert_eq!(fen.as_deref(), Some("8/8/4k3/8/8/4K3/8/8 w - - 0 1"));
            assert!(moves.is_empty());
        }
        other => panic!("expected position, got {other:?}"),
    }
}

#[test]
fn commands_split_on_unicode_whitespace() {
    match parse_command("go\u{3000}depth\u{A0}5\u{2003}movetime\u{85}100") {
        UciRequest::Go(limits) => {
            assert_eq!(limits.depth, Some(5));
            assert_eq!(limits.movetime, Some(100));
        }
        other => panic!("expected go, got {other:?}"),
    }
}
