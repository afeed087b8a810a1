use apefish_engine::basetypes::{MATE_BOUND, Move, PieceKind, Square};
use apefish_engine::eval::Score;
use apefish_engine::transposition_table::{
    ActiveTranspositionTable, SEARCH_ITERATION_NUM_MASK, ScoreBound, TTEntry, TTHit,
};

fn sample_move() -> Move {
    Move::new(Square::A1, Square::H8, PieceKind::Pawn, None, None, false, false)
}

fn other_move() -> Move {
    Move::new(Square::A7, Square::A8, PieceKind::Pawn, Some(PieceKind::Queen), None, false, false)
}

fn assert_hit_eq(actual: &TTHit, expected: &TTHit) {
    assert_eq!(actual.mv.bits(), expected.mv.bits());
    assert_eq!(actual.score, expected.score);
    assert_eq!(actual.depth, expected.depth);
    assert_eq!(actual.bound, expected.bound);
    assert_eq!(actual.search_iteration, expected.search_iteration);
}

fn assert_roundtrip(hit: TTHit) {
    let unmarshalled = TTHit::unmarshall(hit.marshall());
    assert_hit_eq(&unmarshalled, &hit);
}

fn write_raw_entry(table: &mut ActiveTranspositionTable, zobrist: u64, hit: &TTHit) {
    let idx = table.hash_zobrist(zobrist);
    let data = hit.marshall();
    table.entries[idx] = TTEntry { key: zobrist ^ data, data };
}

fn raw_score_at(table: &ActiveTranspositionTable, zobrist: u64) -> Score {
    let idx = table.hash_zobrist(zobrist);
    let data = table.entries[idx].data;
    TTHit::unmarshall(data).score
}

// --- TTHit marshall/unmarshall ---

#[test]
fn roundtrip_positive_score_all_bounds() {
    for bound in [ScoreBound::Lower, ScoreBound::Upper, ScoreBound::Exact] {
        assert_roundtrip(TTHit { mv: sample_move(), score: 1234, depth: 12, bound, search_iteration: 5 });
    }
}

#[test]
fn roundtrip_negative_score() {
    assert_roundtrip(TTHit { mv: sample_move(), score: -1234, depth: 12, bound: ScoreBound::Exact, search_iteration: 5 });
}

#[test]
fn roundtrip_zero_score() {
    assert_roundtrip(TTHit { mv: sample_move(), score: 0, depth: 0, bound: ScoreBound::Lower, search_iteration: 0 });
}

#[test]
fn roundtrip_score_at_mate_bound() {
    assert_roundtrip(TTHit { mv: sample_move(), score: MATE_BOUND, depth: 30, bound: ScoreBound::Exact, search_iteration: 10 });
    assert_roundtrip(TTHit { mv: sample_move(), score: -MATE_BOUND, depth: 30, bound: ScoreBound::Exact, search_iteration: 10 });
}

#[test]
fn roundtrip_score_near_i16_extremes() {
    assert_roundtrip(TTHit { mv: sample_move(), score: i16::MAX as Score, depth: 1, bound: ScoreBound::Upper, search_iteration: 1 });
    assert_roundtrip(TTHit { mv: sample_move(), score: -(i16::MAX as Score), depth: 1, bound: ScoreBound::Upper, search_iteration: 1 });
}

#[test]
fn roundtrip_depth_extremes() {
    assert_roundtrip(TTHit { mv: sample_move(), score: 50, depth: 0, bound: ScoreBound::Exact, search_iteration: 0 });
    assert_roundtrip(TTHit { mv: sample_move(), score: 50, depth: 255, bound: ScoreBound::Exact, search_iteration: 0 });
}

#[test]
fn roundtrip_search_iteration_extremes() {
    assert_roundtrip(TTHit { mv: sample_move(), score: 50, depth: 10, bound: ScoreBound::Exact, search_iteration: 0 });
    assert_roundtrip(TTHit { mv: sample_move(), score: 50, depth: 10, bound: ScoreBound::Exact, search_iteration: SEARCH_ITERATION_NUM_MASK });
}

#[test]
fn roundtrip_move_bits_preserved() {
    let mv = other_move();
    let hit = TTHit { mv, score: 7, depth: 3, bound: ScoreBound::Lower, search_iteration: 2 };
    let unmarshalled = TTHit::unmarshall(hit.marshall());
    assert_eq!(unmarshalled.mv.from(), mv.from());
    assert_eq!(unmarshalled.mv.to(), mv.to());
    assert_eq!(unmarshalled.mv.promotion(), mv.promotion());
}

// --- ActiveTranspositionTable::fetch ---

#[test]
fn fetch_empty_slot_returns_none() {
    let mut table = ActiveTranspositionTable::new_with_num_slots(64);
    assert!(table.fetch(0x1234_5678_9abc_def0, 0).is_none());
}

#[test]
fn fetch_after_store_returns_hit() {
    let mut table = ActiveTranspositionTable::new_with_num_slots(64);
    let zobrist = 0x1111_2222_3333_4444;
    let mv = sample_move();
    table.store(zobrist, mv, 250, ScoreBound::Exact, 8, 0);

    let hit = table.fetch(zobrist, 0).expect("expected a cache hit");
    assert_eq!(hit.mv.bits(), mv.bits());
    assert_eq!(hit.score, 250);
    assert_eq!(hit.depth, 8);
    assert_eq!(hit.bound, ScoreBound::Exact);
    assert_eq!(hit.search_iteration, 0);
}

#[test]
fn fetch_checksum_mismatch_returns_none() {
    let mut table = ActiveTranspositionTable::new_with_num_slots(1);
    let zobrist_a = 0xaaaa_bbbb_cccc_dddd;
    let zobrist_b = 0x1111_2222_3333_4444;
    table.store(zobrist_a, sample_move(), 100, ScoreBound::Exact, 5, 0);

    assert!(table.fetch(zobrist_b, 0).is_none());
}

#[test]
fn fetch_adjusts_positive_mate_score_by_ply() {
    let mut table = ActiveTranspositionTable::new_with_num_slots(64);
    let zobrist = 0x2222_3333_4444_5555;
    write_raw_entry(&mut table, zobrist, &TTHit { mv: sample_move(), score: MATE_BOUND + 10, depth: 20, bound: ScoreBound::Exact, search_iteration: 3 });

    let hit = table.fetch(zobrist, 4).unwrap();
    assert_eq!(hit.score, MATE_BOUND + 10 - 4);
}

#[test]
fn fetch_adjusts_negative_mate_score_by_ply() {
    let mut table = ActiveTranspositionTable::new_with_num_slots(64);
    let zobrist = 0x2222_3333_4444_5556;
    write_raw_entry(&mut table, zobrist, &TTHit { mv: sample_move(), score: -MATE_BOUND - 10, depth: 20, bound: ScoreBound::Exact, search_iteration: 3 });

    let hit = table.fetch(zobrist, 4).unwrap();
    assert_eq!(hit.score, -MATE_BOUND - 10 + 4);
}

#[test]
fn fetch_leaves_normal_score_unchanged() {
    let mut table = ActiveTranspositionTable::new_with_num_slots(64);
    let zobrist = 0x2222_3333_4444_5557;
    write_raw_entry(&mut table, zobrist, &TTHit { mv: sample_move(), score: 500, depth: 20, bound: ScoreBound::Exact, search_iteration: 3 });

    let hit = table.fetch(zobrist, 4).unwrap();
    assert_eq!(hit.score, 500);
}

// --- ActiveTranspositionTable::store ---

#[test]
fn store_empty_slot_always_writes() {
    let mut table = ActiveTranspositionTable::new_with_num_slots(64);
    let zobrist = 0x3333_4444_5555_6666;
    table.store(zobrist, sample_move(), 42, ScoreBound::Lower, 1, 0);
    assert!(table.fetch(zobrist, 0).is_some());
}

#[test]
fn store_different_search_iteration_replaces_regardless_of_depth() {
    let mut table = ActiveTranspositionTable::new_with_num_slots(64);
    let zobrist = 0x4444_5555_6666_7777;
    table.store(zobrist, sample_move(), 10, ScoreBound::Exact, 20, 0);
    table.new_search();
    table.store(zobrist, other_move(), 99, ScoreBound::Upper, 1, 0);

    let hit = table.fetch(zobrist, 0).unwrap();
    assert_eq!(hit.score, 99);
    assert_eq!(hit.depth, 1);
    assert_eq!(hit.bound, ScoreBound::Upper);
    assert_eq!(hit.search_iteration, 1);
}

#[test]
fn store_same_iteration_depth_minus_one_replaces() {
    let mut table = ActiveTranspositionTable::new_with_num_slots(64);
    let zobrist = 0x5555_6666_7777_8888;
    table.store(zobrist, sample_move(), 10, ScoreBound::Exact, 20, 0);
    table.store(zobrist, other_move(), 20, ScoreBound::Exact, 19, 0);

    let hit = table.fetch(zobrist, 0).unwrap();
    assert_eq!(hit.score, 20);
    assert_eq!(hit.depth, 19);
}

#[test]
fn store_same_iteration_depth_minus_two_does_not_replace() {
    let mut table = ActiveTranspositionTable::new_with_num_slots(64);
    let zobrist = 0x6666_7777_8888_9999;
    table.store(zobrist, sample_move(), 10, ScoreBound::Exact, 20, 0);
    table.store(zobrist, other_move(), 20, ScoreBound::Exact, 18, 0);

    let hit = table.fetch(zobrist, 0).unwrap();
    assert_eq!(hit.score, 10);
    assert_eq!(hit.depth, 20);
}

#[test]
fn store_same_iteration_equal_depth_replaces() {
    let mut table = ActiveTranspositionTable::new_with_num_slots(64);
    let zobrist = 0x7777_8888_9999_aaaa;
    table.store(zobrist, sample_move(), 10, ScoreBound::Exact, 20, 0);
    table.store(zobrist, other_move(), 20, ScoreBound::Exact, 20, 0);

    let hit = table.fetch(zobrist, 0).unwrap();
    assert_eq!(hit.score, 20);
}

#[test]
fn store_same_iteration_greater_depth_replaces() {
    let mut table = ActiveTranspositionTable::new_with_num_slots(64);
    let zobrist = 0x8888_9999_aaaa_bbbb;
    table.store(zobrist, sample_move(), 10, ScoreBound::Exact, 20, 0);
    table.store(zobrist, other_move(), 20, ScoreBound::Exact, 25, 0);

    let hit = table.fetch(zobrist, 0).unwrap();
    assert_eq!(hit.score, 20);
    assert_eq!(hit.depth, 25);
}

#[test]
fn store_applies_ply_adjustment_to_mate_scores() {
    let mut table = ActiveTranspositionTable::new_with_num_slots(64);
    let zobrist_pos = 0x9999_aaaa_bbbb_cccc;
    let zobrist_neg = 0x9999_aaaa_bbbb_cccd;

    table.store(zobrist_pos, sample_move(), MATE_BOUND, ScoreBound::Exact, 10, 5);
    assert_eq!(raw_score_at(&table, zobrist_pos), MATE_BOUND + 5);

    table.store(zobrist_neg, sample_move(), -MATE_BOUND, ScoreBound::Exact, 10, 5);
    assert_eq!(raw_score_at(&table, zobrist_neg), -MATE_BOUND - 5);
}

#[test]
fn store_collision_overwrites_and_invalidates_other_key() {
    let mut table = ActiveTranspositionTable::new_with_num_slots(1);
    let zobrist_a = 0xaaaa_1111_2222_3333;
    let zobrist_b = 0xbbbb_1111_2222_3333;

    table.store(zobrist_a, sample_move(), 10, ScoreBound::Exact, 5, 0);
    table.store(zobrist_b, other_move(), 20, ScoreBound::Exact, 5, 0);

    assert!(table.fetch(zobrist_a, 0).is_none());
    let hit = table.fetch(zobrist_b, 0).unwrap();
    assert_eq!(hit.score, 20);
}

#[test]
fn new_search_increments_iteration() {
    let mut table = ActiveTranspositionTable::new_with_num_slots(1);
    assert_eq!(table.search_iteration, 0);
    table.new_search();
    assert_eq!(table.search_iteration, 1);
}

#[test]
fn new_search_wraps_at_63() {
    let mut table = ActiveTranspositionTable::new_with_num_slots(1);
    table.search_iteration = SEARCH_ITERATION_NUM_MASK;
    table.new_search();
    assert_eq!(table.search_iteration, 0);
}
