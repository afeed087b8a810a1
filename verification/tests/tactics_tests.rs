use std::sync::Arc;
use std::time::{Duration, Instant};

use apefish_engine::basetypes::{GameStatus, Side, WinReason};
use apefish_engine::board::Position;
use apefish_engine::movegen::MoveGen;
use apefish_engine::search::{CommandPoll, EngineEvent, SearchHost, SearchLimits, SearchResult, Searcher};
use apefish_engine::transposition_table::ActiveTranspositionTable;
use apefish_engine::zobrist::ZobristRandoms;

/// A host on the wall clock with an empty command queue.
struct ClockHost {
    start: Instant,
}

impl SearchHost for ClockHost {
    fn now_ns(&mut self) -> u64 {
        self.start.elapsed().as_nanos() as u64
    }

    fn poll_command(&mut self) -> CommandPoll {
        CommandPoll::Empty
    }

    fn emit(&mut self, _event: EngineEvent) {}
}

/// A position and the searcher that keeps its table between searches.
struct Game {
    position: Position,
    searcher: Searcher<ActiveTranspositionTable>,
}

fn game_at(fen: &str) -> Game {
    let movegen = Arc::new(MoveGen::init());
    let mut position = Position::new(Arc::new(ZobristRandoms::new()), movegen.clone());
    position.fen_setup(fen).unwrap();
    let searcher = Searcher::new(movegen, ActiveTranspositionTable::new(16));
    Game { position, searcher }
}

fn limits(depth: u8) -> SearchLimits {
    let mut limits = SearchLimits::default();
    limits.depth = Some(depth);
    limits
}

fn search(game: &mut Game, limits: SearchLimits) -> SearchResult {
    let mut host = ClockHost { start: Instant::now() };
    game.searcher.search(&mut game.position, &limits, &mut host)
}

fn play_validated(game: &mut Game, mv: apefish_engine::basetypes::Move) {
    let validated = game
        .position
        .validate_move(mv.to_input_move())
        .unwrap_or_else(|e| panic!("`{}` refused by validate_move: {e:?}", mv.to_uci_string()));
    game.position
        .make_move(validated)
        .unwrap_or_else(|e| panic!("`{}` refused by make_move: {e:?}", mv.to_uci_string()));
}

/// At each of the mating side's turns the searched move is played; at each of
/// the defender's turns every legal reply must still lead to mate within the
/// remaining budget. Leaves the position as it was.
fn assert_forced_mate(game: &mut Game, mating_side: Side, moves_remaining: u8, search_depth: u8) {
    assert!(moves_remaining > 0, "no mate delivered within the expected move budget; stuck at fen `{}`", game.position.fen());
    let result = search(game, limits(search_depth));
    let mv = result.best_move.unwrap_or_else(|| panic!("engine returned no move at fen `{}`", game.position.fen()));
    play_validated(game, mv);

    match game.position.game_status() {
        GameStatus::Won { side, reason: WinReason::Checkmate } => {
            assert_eq!(side, mating_side, "checkmate landed for the wrong side after `{}`", mv.to_uci_string());
            game.position.unmake_move();
            return;
        }
        GameStatus::Ongoing => {}
        other => panic!("expected the game still ongoing (or checkmated) after `{}`, got {other:?}", mv.to_uci_string()),
    }

    let defensive_replies = game.position.legal_moves();
    assert!(!defensive_replies.is_empty(), "defender has no legal moves but no checkmate was reported; fen `{}`", game.position.fen());
    for reply in defensive_replies {
        play_validated(game, reply);
        assert_forced_mate(game, mating_side, moves_remaining - 1, search_depth);
        game.position.unmake_move();
    }
    game.position.unmake_move();
}

fn assert_mate_in(fen: &str, mating_side: Side, moves: u8, search_depth: u8) {
    let mut game = game_at(fen);
    assert_forced_mate(&mut game, mating_side, moves, search_depth);
    assert_eq!(game.position.fen(), fen);
}

/// Checks a forced line ply by ply: `expected[0]` holds the accepted moves
/// now, `expected[1]` those after any legal reply, and so on.
fn assert_forced_line(game: &mut Game, search_depth: u8, expected: &[&[&str]]) {
    let Some((accepted, rest)) = expected.split_first() else { return };
    let result = search(game, limits(search_depth));
    let mv = result.best_move.unwrap_or_else(|| panic!("engine returned no move at fen `{}`", game.position.fen()));
    let played = mv.to_uci_string();
    assert!(accepted.contains(&played.as_str()), "expected one of {accepted:?} at fen `{}`, engine played `{played}` instead", game.position.fen());
    play_validated(game, mv);
    if rest.is_empty() {
        game.position.unmake_move();
        return;
    }
    let defensive_replies = game.position.legal_moves();
    assert!(!defensive_replies.is_empty(), "defender has no legal moves but more of the line was still expected");
    for reply in defensive_replies {
        play_validated(game, reply);
        assert_forced_line(game, search_depth, rest);
        game.position.unmake_move();
    }
    game.position.unmake_move();
}

#[test]
fn mate_in_1_back_rank() {
    assert_mate_in("6k1/5ppp/8/8/8/8/8/4R2K w - - 0 1", Side::White, 1, 3);
}

#[test]
fn mate_in_1_scholars_mate_finish() {
    assert_mate_in("r1bqkb1r/pppp1ppp/2n2n2/4p2Q/2B1P3/8/PPPP1PPP/RNB1K1NR w KQkq - 2 4", Side::White, 1, 3);
}

#[test]
fn mate_in_2_queen_ladder() {
    assert_mate_in("7k/8/5K2/8/8/8/8/1Q6 w - - 0 1", Side::White, 2, 6);
}

#[test]
fn mate_in_3_queen_ladder() {
    assert_mate_in("7k/8/4K3/8/8/8/8/1Q6 w - - 0 1", Side::White, 3, 8);
}

#[test]
fn mate_in_4_queen_ladder() {
    assert_mate_in("7k/8/3K4/8/8/8/8/1Q6 w - - 0 1", Side::White, 4, 10);
}

#[test]
fn knight_forks_king_and_queen() {
    let mut game = game_at("2q3k1/5ppp/8/3N4/8/8/5PPP/6K1 w - - 0 1");
    assert_forced_line(&mut game, 4, &[&["d5e7"], &["e7c8"]]);
}

#[test]
fn rook_skewers_king_off_the_queen() {
    let mut game = game_at("3q4/8/8/8/3k4/8/8/R3K3 w - - 0 1");
    assert_forced_line(&mut game, 4, &[&["a1d1"], &["d1d8"]]);
}

/// Wall-clock time from the start of a `movetime` search to its result.
fn time_to_bestmove(game: &mut Game, movetime: Duration) -> (Duration, SearchResult) {
    let mut limits = SearchLimits::default();
    limits.movetime = Some(movetime.as_millis() as u64);
    let start = Instant::now();
    let result = search(game, limits);
    (start.elapsed(), result)
}

#[test]
fn movetime_overrun_stays_bounded_and_does_not_scale_with_think_time() {
    let start_fen = "rnbqkbnr/pppppppp/8/8/8/8/PPPPPPPP/RNBQKBNR w KQkq - 0 1";
    let mut game = game_at(start_fen);
    let _ = time_to_bestmove(&mut game, Duration::from_millis(150));

    let short = Duration::from_millis(500);
    let long = Duration::from_millis(5000);

    game.position.reset_to_start_fen();
    let (short_elapsed, short_result) = time_to_bestmove(&mut game, short);
    game.position.reset_to_start_fen();
    let (long_elapsed, long_result) = time_to_bestmove(&mut game, long);

    assert!(
        short_result.best_move.is_some() && long_result.best_move.is_some(),
        "search returned no move (short: {short_result:?}, long: {long_result:?})"
    );

    let short_overrun = short_elapsed.saturating_sub(short);
    let long_overrun = long_elapsed.saturating_sub(long);
    assert!(long_overrun < Duration::from_millis(1000), "movetime {long:?} search replied {long_overrun:?} past its deadline");
    let growth = long_overrun.saturating_sub(short_overrun);
    assert!(growth < Duration::from_millis(200), "post-deadline overrun grew from {short_overrun:?} to {long_overrun:?}");
}
