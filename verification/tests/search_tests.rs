use std::sync::Arc;

use apefish_engine::basetypes::{Move, PieceKind, Side, Square};
use apefish_engine::board::Position;
use apefish_engine::movegen::MoveGen;
use apefish_engine::search::{CommandPoll, EngineEvent, PVTriangle, SearchCommand, SearchHost, SearchLimits, Searcher};
use apefish_engine::time_management::TimeCutoffs;
use apefish_engine::transposition_table::{ActiveTranspositionTable, NoopTranspositionTable, TT};
use apefish_engine::uci::parse_go_limits;
use apefish_engine::uci::parse_uci_move;
use apefish_engine::zobrist::ZobristRandoms;

struct TestHost {
    now: u64,
    commands: Vec<SearchCommand>,
    events: Vec<EngineEvent>,
}

impl SearchHost for TestHost {
    fn now_ns(&mut self) -> u64 {
        self.now
    }

    fn poll_command(&mut self) -> CommandPoll {
        match self.commands.pop() {
            Some(c) => CommandPoll::Command(c),
            None => CommandPoll::Empty,
        }
    }

    fn emit(&mut self, event: EngineEvent) {
        self.events.push(event);
    }
}

fn position_from_fen(movegen: &Arc<MoveGen>, fen_str: &str) -> Position {
    let mut position = Position::new(Arc::new(ZobristRandoms::new()), movegen.clone());
    position.fen_setup(fen_str).unwrap();
    position
}

fn limits_depth(depth: u8) -> SearchLimits {
    let mut limits = SearchLimits::default();
    limits.depth = Some(depth);
    limits
}

#[test]
fn search_finds_back_rank_mate_in_one() {
    let movegen = Arc::new(MoveGen::init());
    let mut position = position_from_fen(&movegen, "6k1/5ppp/8/8/8/8/8/K3R3 w - - 0 1");
    let before = position.fen();
    let mut searcher = Searcher::new(movegen, ActiveTranspositionTable::new_with_num_slots(1 << 12));
    let mut host = TestHost { now: 0, commands: vec![], events: vec![] };
    let result = searcher.search(&mut position, &limits_depth(3), &mut host);
    let best = result.best_move.unwrap();
    assert_eq!(best.from(), Square::E1);
    assert_eq!(best.to(), Square::E8);
    assert!(result.score >= apefish_engine::basetypes::MATE_BOUND);
    assert_eq!(position.fen(), before);
    assert_eq!(result.pv.first().map(|m| m.to()), Some(Square::E8));
    assert!(host.events.iter().any(|e| matches!(e, EngineEvent::Info { .. })));
}

#[test]
fn search_without_table_takes_hanging_queen() {
    let movegen = Arc::new(MoveGen::init());
    let mut position = position_from_fen(&movegen, "4k3/8/8/3q4/8/8/8/3RK3 w - - 0 1");
    let mut searcher = Searcher::new(movegen, NoopTranspositionTable);
    let mut host = TestHost { now: 0, commands: vec![], events: vec![] };
    let result = searcher.search(&mut position, &limits_depth(2), &mut host);
    assert_eq!(result.best_move.map(|m| m.to()), Some(Square::D5));
}

#[test]
fn stop_request_still_gives_a_move() {
    let movegen = Arc::new(MoveGen::init());
    let mut position = position_from_fen(&movegen, "rnbqkbnr/pppppppp/8/8/8/8/PPPPPPPP/RNBQKBNR w KQkq - 0 1");
    let mut searcher = Searcher::new(movegen, NoopTranspositionTable);
    let mut host = TestHost { now: 0, commands: vec![SearchCommand::Stop], events: vec![] };
    let result = searcher.search(&mut position, &SearchLimits::default(), &mut host);
    assert!(result.best_move.is_some());
}

#[test]
fn pv_triangle_prepends_best_move() {
    let mut pv = PVTriangle::new();
    let a = Move::new(Square::E2, Square::E4, PieceKind::Pawn, None, None, false, false);
    let b = Move::new(Square::E7, Square::E5, PieceKind::Pawn, None, None, false, false);
    pv.start_negamax(1);
    pv.new_best_move(b, 1);
    pv.new_best_move(a, 0);
    assert_eq!(pv.pv_length[0], 2);
    assert_eq!(pv.pv[0], a);
    assert_eq!(pv.pv[1], b);
}

#[test]
fn noop_table_keeps_nothing() {
    let mut t = NoopTranspositionTable;
    let m = Move::new(Square::A1, Square::H8, PieceKind::Pawn, None, None, false, false);
    TT::store(&mut t, 42, m, 10, apefish_engine::transposition_table::ScoreBound::Exact, 3, 0);
    assert!(TT::fetch(&t, 42, 0).is_none());
    assert_eq!(TT::hashfull(&t), 0);
}

#[test]
fn hashfull_counts_filled_slots_of_the_first_thousand() {
    let mut t = ActiveTranspositionTable::new_with_num_slots(2000);
    assert_eq!(t.hashfull(), 0);
    let m = Move::new(Square::A1, Square::H8, PieceKind::Pawn, None, None, false, false);
    t.store(0, m, 10, apefish_engine::transposition_table::ScoreBound::Exact, 3, 0);
    assert_eq!(t.hashfull(), 1);
    let small = ActiveTranspositionTable::new_with_num_slots(10);
    assert_eq!(small.hashfull(), 0);
    assert_eq!(ActiveTranspositionTable::new(1).entries.len(), 65536);
}

#[test]
fn move_time_budget_keeps_overhead_back() {
    let mut limits = SearchLimits::default();
    limits.movetime = Some(1000);
    let c = TimeCutoffs::from_search_limit(&limits, Side::White, 5000).unwrap();
    assert_eq!(c.soft_limit, Some(950_005_000));
    assert_eq!(c.hard_limit, Some(950_005_000));
    limits.movetime = Some(10);
    let c = TimeCutoffs::from_search_limit(&limits, Side::White, 5000).unwrap();
    assert_eq!(c.soft_limit, Some(1_005_000));
}

#[test]
fn clock_budget_uses_the_side_to_moves_clock() {
    let mut limits = SearchLimits::default();
    limits.wtime = Some(60_000);
    limits.winc = Some(1000);
    limits.btime = Some(2000);
    let c = TimeCutoffs::from_search_limit(&limits, Side::White, 0).unwrap();
    assert_eq!(c.soft_limit, Some(3_750_000_000));
    assert_eq!(c.hard_limit, Some(15_000_000_000));
    let c = TimeCutoffs::from_search_limit(&limits, Side::Black, 0).unwrap();
    assert_eq!(c.soft_limit, Some(100_000_000));
    assert_eq!(c.hard_limit, Some(400_000_000));
    assert!(c.exceeded_soft(100_000_001));
    assert!(!c.exceeded_hard(400_000_000));
    assert!(c.exceeded_hard(400_000_001));
}

#[test]
fn no_clock_means_no_cutoffs_unless_pondering() {
    let mut limits = SearchLimits::default();
    assert!(TimeCutoffs::from_search_limit(&limits, Side::White, 0).is_none());
    limits.ponder = true;
    let c = TimeCutoffs::from_search_limit(&limits, Side::White, 0).unwrap();
    assert!(c.is_pondering());
}

#[test]
fn ponder_hit_pushes_deadlines_out() {
    let mut limits = SearchLimits::default();
    limits.movetime = Some(1050);
    limits.ponder = true;
    let mut c = TimeCutoffs::from_search_limit(&limits, Side::White, 100).unwrap();
    assert!(!c.exceeded_hard(10_000));
    c.ponder_hit(600);
    assert!(!c.is_pondering());
    assert_eq!(c.soft_limit, Some(1_000_000_600));
    assert!(c.exceeded_hard(1_000_000_601));
}

#[test]
fn uci_moves_parse() {
    let m = parse_uci_move("e7e8q").unwrap();
    assert_eq!((m.from, m.to, m.promotion), (Square::E7, Square::E8, Some(PieceKind::Queen)));
    assert!(parse_uci_move("e2e4").unwrap().promotion.is_none());
    assert!(parse_uci_move("e2e4x").is_none());
    assert!(parse_uci_move("e2e").is_none());
    assert!(parse_uci_move("z2e4").is_none());
}

#[test]
fn go_limits_parse() {
    let l = parse_go_limits("wtime 300000 btime 290000 winc 2000 binc 2000 depth 7 ponder movetime 5");
    assert_eq!(l.wtime, Some(300000));
    assert_eq!(l.btime, Some(290000));
    assert_eq!(l.winc, Some(2000));
    assert_eq!(l.binc, Some(2000));
    assert_eq!(l.depth, Some(7));
    assert_eq!(l.movetime, Some(5));
    assert!(!l.ponder);
    let bad = parse_go_limits("depth x   infinite");
    assert_eq!(bad.depth, None);
    assert_eq!(parse_go_limits("depth 300").depth, None);
}

#[test]
fn search_without_table_scores_mate_in_one_exactly() {
    let movegen = Arc::new(MoveGen::init());
    let mut position = position_from_fen(&movegen, "6k1/5ppp/8/8/8/8/8/K3R3 w - - 0 1");
    let mut searcher = Searcher::new(movegen, NoopTranspositionTable);
    let mut host = TestHost { now: 0, commands: vec![], events: vec![] };
    let result = searcher.search(&mut position, &limits_depth(3), &mut host);
    assert_eq!(result.score, apefish_engine::basetypes::MATE - 1);
    assert_eq!(result.best_move.map(|m| (m.from(), m.to())), Some((Square::E1, Square::E8)));
}

#[test]
fn search_without_table_scores_checkmated_root() {
    let movegen = Arc::new(MoveGen::init());
    let mut position = position_from_fen(&movegen, "4R1k1/5ppp/8/8/8/8/8/6K1 b - - 0 1");
    let mut searcher = Searcher::new(movegen, NoopTranspositionTable);
    let mut host = TestHost { now: 0, commands: vec![], events: vec![] };
    let result = searcher.search(&mut position, &limits_depth(2), &mut host);
    assert_eq!(result.score, -apefish_engine::basetypes::MATE);
    assert_eq!(result.best_move, None);
}

#[test]
fn iterations_are_published_in_rising_depth_order() {
    let movegen = Arc::new(MoveGen::init());
    let mut position = position_from_fen(&movegen, "6k1/5ppp/8/8/8/8/8/K3R3 w - - 0 1");
    let mut searcher = Searcher::new(movegen, ActiveTranspositionTable::new_with_num_slots(1 << 12));
    let mut host = TestHost { now: 0, commands: vec![], events: vec![] };
    searcher.search(&mut position, &limits_depth(4), &mut host);
    let depths: Vec<u8> = host
        .events
        .iter()
        .filter_map(|e| match e {
            EngineEvent::Info { depth, .. } => Some(*depth),
            _ => None,
        })
        .collect();
    assert_eq!(depths, vec![0, 1, 2, 3]);
    assert!(host.events.iter().all(|e| !matches!(e, EngineEvent::BestMove(_))));
}

#[test]
fn clock_budget_keeps_sub_millisecond_precision() {
    let mut limits = SearchLimits::default();
    limits.wtime = Some(1);
    limits.winc = Some(1);
    let c = TimeCutoffs::from_search_limit(&limits, Side::White, 0).unwrap();
    assert_eq!(c.soft_limit, Some(800_000));
    assert_eq!(c.hard_limit, Some(500_000));
}

#[test]
fn an_exact_table_entry_for_the_root_settles_the_search() {
    let movegen = Arc::new(MoveGen::init());
    let mut position = position_from_fen(&movegen, apefish_engine::fen::STARTING_FEN);
    let mut table = ActiveTranspositionTable::new_with_num_slots(1 << 12);
    let m = Move::new(Square::E2, Square::E4, PieceKind::Pawn, None, None, false, false);
    table.store(position.get_zobrist(), m, 123, apefish_engine::transposition_table::ScoreBound::Exact, 10, 0);
    let mut searcher = Searcher::new(movegen, table);
    let mut host = TestHost { now: 0, commands: vec![], events: vec![] };
    let result = searcher.search(&mut position, &limits_depth(3), &mut host);
    assert_eq!(result.score, 123);
    assert_eq!(result.best_move.map(|b| (b.from(), b.to())), Some((Square::E2, Square::E4)));
}

#[test]
fn a_zero_depth_limit_completes_no_iteration() {
    let movegen = Arc::new(MoveGen::init());
    let mut position = position_from_fen(&movegen, apefish_engine::fen::STARTING_FEN);
    let mut searcher = Searcher::new(movegen, NoopTranspositionTable);
    let mut host = TestHost { now: 0, commands: vec![], events: vec![] };
    let result = searcher.search(&mut position, &limits_depth(0), &mut host);
    assert_eq!(result.score, 0);
    assert!(result.best_move.is_some());
    assert!(host.events.iter().all(|e| !matches!(e, EngineEvent::Info { .. })));
}

/// Stores each move of `line` in `table` for the position it is played
/// from, leaving `position` as it was.
fn store_line(position: &mut Position, table: &mut ActiveTranspositionTable, line: &[&str]) {
    for s in line {
        let m = position.validate_move(parse_uci_move(s).unwrap()).unwrap();
        table.store(position.get_zobrist(), m, 0, apefish_engine::transposition_table::ScoreBound::Exact, 1, 0);
        position.make_move(m).unwrap();
    }
    for _ in line {
        position.unmake_move();
    }
}

fn squares(moves: &[Move]) -> Vec<(Square, Square)> {
    moves.iter().map(|m| (m.from(), m.to())).collect()
}

#[test]
fn pv_follows_the_table_until_it_gives_nothing() {
    let movegen = Arc::new(MoveGen::init());
    let mut position = position_from_fen(&movegen, apefish_engine::fen::STARTING_FEN);
    let mut table = ActiveTranspositionTable::new_with_num_slots(1 << 16);
    store_line(&mut position, &mut table, &["e2e4", "e7e5"]);
    let before = position.fen();
    let line = PVTriangle::new().get_pv(&mut position, &table);
    assert_eq!(squares(&line), vec![(Square::E2, Square::E4), (Square::E7, Square::E5)]);
    assert_eq!(position.fen(), before);
}

#[test]
fn pv_table_walk_stops_at_a_repeated_position() {
    let movegen = Arc::new(MoveGen::init());
    let mut position = position_from_fen(&movegen, apefish_engine::fen::STARTING_FEN);
    let mut table = ActiveTranspositionTable::new_with_num_slots(1 << 16);
    store_line(&mut position, &mut table, &["g1f3", "g8f6", "f3g1", "f6g8"]);
    let line = PVTriangle::new().get_pv(&mut position, &table);
    assert_eq!(
        squares(&line),
        vec![(Square::G1, Square::F3), (Square::G8, Square::F6), (Square::F3, Square::G1), (Square::F6, Square::G8)]
    );
}
