//! Move generation and attack detection, from per-square lookup tables.

use vstd::prelude::*;
use crate::basetypes::{
    Bitboard, CastlingDirection, File, IndexedPieceKind, Move, PerSquare, Piece, PieceKind, Rank,
    Side, SlidingPieceKind, Square, bb_file, bb_rank, file_bits, has_sq, lemma_has_sq_ops,
    lemma_has_sq_zero, lemma_sq_at, lemma_sq_bit_distinct, lemma_square_idx_inj, lemma_kind_idx_inj, lemma_mask_bits, lemma_pext_injective, lemma_subset_step, lemma_pext_le, lemma_pext_small, pext, rank_bits, sq_at, sq_bit,
};
use crate::board::{
    Position, PositionState, change_valid, apply_change, apply_changes, changes_valid, ep_victim_idx, move_changes,
    move_fits, piece_bits, side_bits, lemma_piece_bits, lemma_side_bits, lemma_plain_move_fits,
    lemma_promo_move_fits, lemma_ep_move_fits, lemma_castle_move_fits,
};

verus! {

/// Square-index offsets of one step in each direction.
pub struct SquareOffset;

impl SquareOffset {
    pub const NORTH: i8 = 8;
    pub const SOUTH: i8 = -8;
    pub const EAST: i8 = 1;
    pub const WEST: i8 = -1;
    pub const NORTH_WEST: i8 = 7;
    pub const SOUTH_EAST: i8 = -7;
    pub const NORTH_EAST: i8 = 9;
    pub const SOUTH_WEST: i8 = -9;
    pub const KNIGHT_NNW: i8 = 15;
    pub const KNIGHT_WNW: i8 = 6;
    pub const KNIGHT_WSW: i8 = -10;
    pub const KNIGHT_SWS: i8 = -17;
    pub const KNIGHT_SES: i8 = -15;
    pub const KNIGHT_ESE: i8 = -6;
    pub const KNIGHT_ENE: i8 = 10;
    pub const KNIGHT_NNE: i8 = 17;
}

/// One step of a piece on a bitboard: the shift, and the squares it cannot be
/// taken from without leaving the board.
#[derive(Debug, Clone, Copy, PartialEq, Eq, Structural)]
pub struct PieceMove {
    pub offset: i8,
    pub impossible: Bitboard,
}

/// A bitboard shifted by a square-index offset (towards higher squares when positive).
pub open spec fn shift_by(b: u64, off: i8) -> u64 {
    if off > 0 {
        b << (off as u64)
    } else {
        b >> ((-off) as u64)
    }
}

pub open spec fn pm(offset: i8, impossible: u64) -> PieceMove {
    PieceMove { offset, impossible: Bitboard(impossible) }
}

/// King steps, with the edges they cannot cross.
pub open spec fn king_dirs() -> Seq<PieceMove> {
    seq![
        pm(8, rank_bits(7)),
        pm(-8i8, rank_bits(0)),
        pm(1, file_bits(7)),
        pm(-1i8, file_bits(0)),
        pm(7, rank_bits(7) | file_bits(0)),
        pm(9, rank_bits(7) | file_bits(7)),
        pm(-9i8, rank_bits(0) | file_bits(0)),
        pm(-7i8, rank_bits(0) | file_bits(7)),
    ]
}

/// Knight jumps, with the edge bands they cannot cross.
pub open spec fn knight_dirs() -> Seq<PieceMove> {
    seq![
        pm(15, rank_bits(7) | rank_bits(6) | file_bits(0)),
        pm(6, rank_bits(7) | file_bits(0) | file_bits(1)),
        pm(-10i8, rank_bits(0) | file_bits(0) | file_bits(1)),
        pm(-17i8, rank_bits(0) | rank_bits(1) | file_bits(0)),
        pm(-15i8, rank_bits(0) | rank_bits(1) | file_bits(7)),
        pm(-6i8, rank_bits(0) | file_bits(7) | file_bits(6)),
        pm(10, rank_bits(7) | file_bits(7) | file_bits(6)),
        pm(17, rank_bits(7) | rank_bits(6) | file_bits(7)),
    ]
}

/// Rook rays.
pub open spec fn rook_dirs() -> Seq<PieceMove> {
    seq![
        pm(8, rank_bits(7)),
        pm(-8i8, rank_bits(0)),
        pm(1, file_bits(7)),
        pm(-1i8, file_bits(0)),
    ]
}

/// Bishop rays.
pub open spec fn bishop_dirs() -> Seq<PieceMove> {
    seq![
        pm(7, rank_bits(7) | file_bits(0)),
        pm(9, rank_bits(7) | file_bits(7)),
        pm(-9i8, rank_bits(0) | file_bits(0)),
        pm(-7i8, rank_bits(0) | file_bits(7)),
    ]
}

pub open spec fn dirs_of(piece: IndexedPieceKind) -> Seq<PieceMove> {
    match piece {
        IndexedPieceKind::Knight => knight_dirs(),
        IndexedPieceKind::Bishop => bishop_dirs(),
        IndexedPieceKind::Rook => rook_dirs(),
        IndexedPieceKind::King => king_dirs(),
    }
}

/// Squares reached by single steps in the given directions from the squares `from`.
pub open spec fn jumps(from: u64, ds: Seq<PieceMove>) -> u64
    decreases ds.len(),
{
    if ds.len() == 0 {
        0
    } else {
        jumps(from, ds.drop_last()) | (if from & ds.last().impossible.0 != 0 {
            0u64
        } else {
            shift_by(from, ds.last().offset)
        })
    }
}

/// Squares along a ray from `cur`, stopping at the board edge or on (and
/// including) the first blocker, at most `fuel` steps.
pub open spec fn ray(cur: u64, d: PieceMove, blockers: u64, fuel: nat) -> u64
    decreases fuel,
{
    if fuel == 0 || cur & d.impossible.0 != 0 {
        0
    } else {
        let nxt = shift_by(cur, d.offset);
        nxt | (if nxt & blockers != 0 {
            0u64
        } else {
            ray(nxt, d, blockers, (fuel - 1) as nat)
        })
    }
}

/// Union of the rays in the given directions; a ray on an 8x8 board is at most 7 steps.
pub open spec fn rays(from: u64, ds: Seq<PieceMove>, blockers: u64) -> u64
    decreases ds.len(),
{
    if ds.len() == 0 {
        0
    } else {
        rays(from, ds.drop_last(), blockers) | ray(from, ds.last(), blockers, 7)
    }
}

/// The squares a piece of the given kind on square `sq` moves to when the
/// squares in `blockers` are occupied (pawns and castling aside).
pub open spec fn moves_from(sq: int, piece: IndexedPieceKind, blockers: u64) -> u64 {
    match piece {
        IndexedPieceKind::King | IndexedPieceKind::Knight => jumps(sq_bit(sq), dirs_of(piece)),
        _ => rays(sq_bit(sq), dirs_of(piece), blockers),
    }
}

/// Squares attacked by pawns of `side` standing on the squares `b`.
pub open spec fn pawn_attack_bits(side: Side, b: u64) -> u64 {
    match side {
        Side::White => ((b & !file_bits(0)) << 7u64) | ((b & !file_bits(7)) << 9u64),
        Side::Black => ((b & !file_bits(0)) >> 9u64) | ((b & !file_bits(7)) >> 7u64),
    }
}

/// The edge squares of the board.
pub open spec fn edge_bits() -> u64 {
    rank_bits(0) | rank_bits(7) | file_bits(0) | file_bits(7)
}

/// The squares whose occupancy can change a slider's moves from `sq`.
pub open spec fn blocker_mask_of(spk: SlidingPieceKind, sq: int) -> u64 {
    let moves = moves_from(sq, if spk == SlidingPieceKind::Rook { IndexedPieceKind::Rook } else { IndexedPieceKind::Bishop }, 0);
    let corners = sq_bit(0) | sq_bit(56) | sq_bit(7) | sq_bit(63);
    let side_squares = (if sq / 8 == 0 || sq / 8 == 7 { rank_bits(sq / 8) } else { 0u64 }) | (
    if sq % 8 == 0 || sq % 8 == 7 {
        file_bits(sq % 8)
    } else {
        0u64
    });
    match spk {
        SlidingPieceKind::Rook => ((moves & !edge_bits()) | side_squares) & !corners,
        SlidingPieceKind::Bishop => moves & !edge_bits(),
    }
}

pub open spec fn ipk_of(spk: SlidingPieceKind) -> IndexedPieceKind {
    match spk {
        SlidingPieceKind::Bishop => IndexedPieceKind::Bishop,
        SlidingPieceKind::Rook => IndexedPieceKind::Rook,
    }
}

/// The most blocker subsets a bishop's mask has (on the central squares).
pub const BISHOP_BLOCKER_COMBINATIONS: u64 = 512;
/// The most blocker subsets a rook's mask has (in the corners).
pub const ROOK_BLOCKER_COMBINATIONS: u64 = 4096;

proof fn lemma_dirs_offsets(piece: IndexedPieceKind)
    ensures
        dirs_of(piece).len() == (if piece == IndexedPieceKind::Bishop || piece == IndexedPieceKind::Rook { 4int } else { 8int }),
        forall|i: int| 0 <= i < dirs_of(piece).len() ==> -18 < (#[trigger] dirs_of(piece)[i]).offset < 18,
{
    let ds = dirs_of(piece);
    assert forall|i: int| 0 <= i < ds.len() implies -18 < (#[trigger] ds[i]).offset < 18 by {
        if i == 0 {} else if i == 1 {} else if i == 2 {} else if i == 3 {} else if i == 4 {}
        else if i == 5 {} else if i == 6 {} else {}
    }
}

/// The steps a knight, bishop, rook or king takes (queens use both slider sets).
pub fn indexed_piece_directions(piece: IndexedPieceKind) -> (r: Vec<PieceMove>)
    ensures
        r@ == dirs_of(piece),
{
    let r8 = bb_rank(Rank::R8);
    let r7 = bb_rank(Rank::R7);
    let r2 = bb_rank(Rank::R2);
    let r1 = bb_rank(Rank::R1);
    let fa = bb_file(File::A);
    let fb = bb_file(File::B);
    let fg = bb_file(File::G);
    let fh = bb_file(File::H);
    let v = match piece {
        IndexedPieceKind::King => vec![
            PieceMove { offset: SquareOffset::NORTH, impossible: r8 },
            PieceMove { offset: SquareOffset::SOUTH, impossible: r1 },
            PieceMove { offset: SquareOffset::EAST, impossible: fh },
            PieceMove { offset: SquareOffset::WEST, impossible: fa },
            PieceMove { offset: SquareOffset::NORTH_WEST, impossible: r8.union(fa) },
            PieceMove { offset: SquareOffset::NORTH_EAST, impossible: r8.union(fh) },
            PieceMove { offset: SquareOffset::SOUTH_WEST, impossible: r1.union(fa) },
            PieceMove { offset: SquareOffset::SOUTH_EAST, impossible: r1.union(fh) },
        ],
        IndexedPieceKind::Knight => vec![
            PieceMove { offset: SquareOffset::KNIGHT_NNW, impossible: r8.union(r7).union(fa) },
            PieceMove { offset: SquareOffset::KNIGHT_WNW, impossible: r8.union(fa).union(fb) },
            PieceMove { offset: SquareOffset::KNIGHT_WSW, impossible: r1.union(fa).union(fb) },
            PieceMove { offset: SquareOffset::KNIGHT_SWS, impossible: r1.union(r2).union(fa) },
            PieceMove { offset: SquareOffset::KNIGHT_SES, impossible: r1.union(r2).union(fh) },
            PieceMove { offset: SquareOffset::KNIGHT_ESE, impossible: r1.union(fh).union(fg) },
            PieceMove { offset: SquareOffset::KNIGHT_ENE, impossible: r8.union(fh).union(fg) },
            PieceMove { offset: SquareOffset::KNIGHT_NNE, impossible: r8.union(r7).union(fh) },
        ],
        IndexedPieceKind::Rook => vec![
            PieceMove { offset: SquareOffset::NORTH, impossible: r8 },
            PieceMove { offset: SquareOffset::SOUTH, impossible: r1 },
            PieceMove { offset: SquareOffset::EAST, impossible: fh },
            PieceMove { offset: SquareOffset::WEST, impossible: fa },
        ],
        IndexedPieceKind::Bishop => vec![
            PieceMove { offset: SquareOffset::NORTH_WEST, impossible: r8.union(fa) },
            PieceMove { offset: SquareOffset::NORTH_EAST, impossible: r8.union(fh) },
            PieceMove { offset: SquareOffset::SOUTH_WEST, impossible: r1.union(fa) },
            PieceMove { offset: SquareOffset::SOUTH_EAST, impossible: r1.union(fh) },
        ],
    };
    assert(v@ =~= dirs_of(piece));
    v
}

fn shift(b: u64, off: i8) -> (r: u64)
    requires
        -64 < off < 64,
    ensures
        r == shift_by(b, off),
{
    if off > 0 {
        b << (off as u32)
    } else {
        b >> ((-off) as u32)
    }
}

proof fn lemma_or_assoc(a: u64, b: u64, c: u64)
    ensures
        (a | b) | c == a | (b | c),
        a | 0u64 == a,
{
    lemma_ray_bits(a, b, c, 0, 0, 0, 0, 0, 0);
}

/// Bit facts behind the ray geometry: set algebra, the edges and corners,
/// the blocker masks, and where one step in each direction can land.
proof fn lemma_ray_bits(x: u64, n: u64, mv: u64, s: u64, l: u64, o: u64, m: u64, fs: u64, rsh: u64)
    by (bit_vector)
    ensures
        (x | n) | mv == x | (n | mv),
        x | 0u64 == x,
        x | n == n | x,
        x & 0u64 == 0,
        (x | n) & !mv == 0 ==> x & !mv == 0 && n & !mv == 0,
        n & !0xffff_ffff_ffff_ffffu64 == 0,
        x & !x == 0,
        x & !mv == 0 ==> x & !(mv | n) == 0 && x & !(n | mv) == 0,
        n & !m == 0 ==> ((n & o != 0) == (n & (o & m) != 0)),
        rank_bits(0) == 0xffu64,
        rank_bits(7) == 0xff00_0000_0000_0000u64,
        file_bits(0) == 0x0101_0101_0101_0101u64,
        file_bits(7) == 0x8080_8080_8080_8080u64,
        edge_bits() == 0xff81_8181_8181_81ffu64,
        sq_bit(0) | sq_bit(56) | sq_bit(7) | sq_bit(63) == 0x8100_0000_0000_0081u64,
        n & !mv == 0 && n & 0xff81_8181_8181_81ffu64 == 0
            ==> n & !(((mv & !0xff81_8181_8181_81ffu64) | s) & !0x8100_0000_0000_0081u64) == 0,
        n & !s == 0 && n & 0x8100_0000_0000_0081u64 == 0
            ==> n & !(((mv & !0xff81_8181_8181_81ffu64) | s) & !0x8100_0000_0000_0081u64) == 0,
        n & !mv == 0 && n & 0xff81_8181_8181_81ffu64 == 0 ==> n & !(mv & !0xff81_8181_8181_81ffu64) == 0,
        n & 0xffu64 == 0 && n & 0xff00_0000_0000_0000u64 == 0 ==> n & 0x8100_0000_0000_0081u64 == 0
            && (n & 0xff81_8181_8181_81ffu64 == 0 || n & 0x8181_8181_8181_8181u64 != 0),
        n & 0x0101_0101_0101_0101u64 == 0 && n & 0x8080_8080_8080_8080u64 == 0 ==> n & 0x8100_0000_0000_0081u64 == 0
            && (n & 0xff81_8181_8181_81ffu64 == 0 || n & 0xff00_0000_0000_00ffu64 != 0),
        n & (0xffu64 | 0x0101_0101_0101_0101u64) == 0 && n & (0xff00_0000_0000_0000u64 | 0x8080_8080_8080_8080u64) == 0
            ==> n & 0xff81_8181_8181_81ffu64 == 0,
        n & (0xffu64 | 0x8080_8080_8080_8080u64) == 0 && n & (0xff00_0000_0000_0000u64 | 0x0101_0101_0101_0101u64) == 0
            ==> n & 0xff81_8181_8181_81ffu64 == 0,
        fs < 8 && n & !(0x0101_0101_0101_0101u64 << fs) == 0 && n & 0x8181_8181_8181_8181u64 != 0 ==> fs == 0 || fs == 7,
        rsh < 64 && rsh % 8 == 0 && n & !(0xffu64 << rsh) == 0 && n & 0xff00_0000_0000_00ffu64 != 0 ==> rsh == 0 || rsh == 56,
        n & !l == 0 ==> n & !(s | l) == 0 && n & !(l | s) == 0,
        fs < 64 ==> (1u64 << fs) & !(0x0101_0101_0101_0101u64 << (fs % 8)) == 0,
        fs < 64 ==> (1u64 << fs) & !(0xffu64 << (8 * (fs / 8))) == 0,
        x & 0xff00_0000_0000_0000u64 == 0 ==> (x << 8u64) & 0xffu64 == 0,
        fs < 8 && x & !(0x0101_0101_0101_0101u64 << fs) == 0 ==> (x << 8u64) & !(0x0101_0101_0101_0101u64 << fs) == 0
            && (x >> 8u64) & !(0x0101_0101_0101_0101u64 << fs) == 0,
        (x >> 8u64) & 0xff00_0000_0000_0000u64 == 0,
        x & 0x8080_8080_8080_8080u64 == 0 ==> (x << 1u64) & 0x0101_0101_0101_0101u64 == 0,
        x & 0x0101_0101_0101_0101u64 == 0 ==> (x >> 1u64) & 0x8080_8080_8080_8080u64 == 0,
        rsh < 64 && rsh % 8 == 0 && x & !(0xffu64 << rsh) == 0 && x & 0x8080_8080_8080_8080u64 == 0
            ==> (x << 1u64) & !(0xffu64 << rsh) == 0,
        rsh < 64 && rsh % 8 == 0 && x & !(0xffu64 << rsh) == 0 && x & 0x0101_0101_0101_0101u64 == 0
            ==> (x >> 1u64) & !(0xffu64 << rsh) == 0,
        x & (0xff00_0000_0000_0000u64 | 0x8080_8080_8080_8080u64) == 0 ==> (x << 9u64) & (0xffu64 | 0x0101_0101_0101_0101u64) == 0,
        x & (0xff00_0000_0000_0000u64 | 0x0101_0101_0101_0101u64) == 0 ==> (x << 7u64) & (0xffu64 | 0x8080_8080_8080_8080u64) == 0,
        x & (0xffu64 | 0x0101_0101_0101_0101u64) == 0 ==> (x >> 9u64) & (0xff00_0000_0000_0000u64 | 0x8080_8080_8080_8080u64) == 0,
        x & (0xffu64 | 0x8080_8080_8080_8080u64) == 0 ==> (x >> 7u64) & (0xff00_0000_0000_0000u64 | 0x0101_0101_0101_0101u64) == 0,
        fs < 64 && rsh < 8 ==> ((((1u64 << fs) & (0xffu64 << (8 * rsh))) != 0) == (fs / 8 == rsh)),
        fs < 64 && rsh < 8 ==> ((((1u64 << fs) & (0x0101_0101_0101_0101u64 << rsh)) != 0) == (fs % 8 == rsh)),
        x & (n | mv) == 0 ==> x & n == 0 && x & mv == 0,
        fs + rsh < 64 ==> (1u64 << fs) << rsh == 1u64 << ((fs + rsh) as u64),
        fs < 64 && rsh < 64 && 64 <= fs + rsh ==> (1u64 << fs) << rsh == 0,
        rsh <= fs && fs < 64 ==> (1u64 << fs) >> rsh == 1u64 << ((fs - rsh) as u64),
        fs < rsh && rsh < 64 ==> (1u64 << fs) >> rsh == 0,
        fs < 64 && rsh < 64 && (((((1u64 << fs) & !0x0101_0101_0101_0101u64) << 7u64)
            | (((1u64 << fs) & !0x8080_8080_8080_8080u64) << 9u64)) & (1u64 << rsh)) != 0 ==> rsh == fs + 7 || rsh == fs + 9,
        fs < 64 && rsh < 64 && (((((1u64 << fs) & !0x0101_0101_0101_0101u64) >> 9u64)
            | (((1u64 << fs) & !0x8080_8080_8080_8080u64) >> 7u64)) & (1u64 << rsh)) != 0 ==> rsh + 9 == fs || rsh + 7 == fs,
{
}

/// Holds the lookup tables.
#[derive(Debug)]
pub struct MoveGen {
    /// For knight, bishop, rook and king: each square's moves on an empty board.
    pub raw_move: [PerSquare<Bitboard>; 4],
    /// For bishop and rook: each square's relevant blocker squares.
    pub blocker_mask: [PerSquare<Bitboard>; 2],
    /// For bishop and rook, per square: the moves for each blocker subset of
    /// the square's mask, at the subset's compressed index (one slot per subset).
    pub sliding_moves: Vec<Vec<Vec<Bitboard>>>,
}

/// The slider table `t` for `sq` has a slot for the packed index of each
/// blocker subset of `mask`, holding the moves for that subset.
pub open spec fn table_exact(spk: SlidingPieceKind, sq: int, mask: u64, t: Seq<Bitboard>) -> bool {
    forall|b: u64| b & !mask == 0
        ==> pext(b, mask) < t.len() && (#[trigger] t[pext(b, mask) as int]).0 == moves_from(sq, ipk_of(spk), b)
}

impl MoveGen {
    pub open spec fn raw_spec(&self, ipk: IndexedPieceKind, sq: int) -> u64 {
        self.raw_move[ipk.idx()].0[sq].0
    }

    pub open spec fn mask_spec(&self, spk: SlidingPieceKind, sq: int) -> u64 {
        self.blocker_mask[spk.idx()].0[sq].0
    }

    pub open spec fn table(&self, spk: SlidingPieceKind, sq: int) -> Seq<Bitboard> {
        self.sliding_moves@[spk.idx()]@[sq]@
    }

    /// The slider moves the tables give from `sq` with occupancy `occ`.
    pub open spec fn slider_spec(&self, spk: SlidingPieceKind, sq: int, occ: u64) -> u64 {
        let mask = self.mask_spec(spk, sq);
        let i = pext(occ & mask, mask);
        if i < self.table(spk, sq).len() {
            self.table(spk, sq)[i as int].0
        } else {
            0
        }
    }

    pub open spec fn wf(&self) -> bool {
        &&& forall|ipk: IndexedPieceKind, sq: int| 0 <= sq < 64 ==> #[trigger] self.raw_spec(ipk, sq) == moves_from(sq, ipk, 0)
        &&& forall|spk: SlidingPieceKind, sq: int| 0 <= sq < 64 ==> #[trigger] self.mask_spec(spk, sq) == blocker_mask_of(spk, sq)
        &&& self.sliding_moves@.len() == 2
        &&& forall|k: int| 0 <= k < 2 ==> (#[trigger] self.sliding_moves@[k])@.len() == 64
        &&& forall|spk: SlidingPieceKind, sq: int| 0 <= sq < 64 ==> table_exact(spk, sq, self.mask_spec(spk, sq), #[trigger] self.table(spk, sq))
    }

    /// Moves of a knight, bishop, rook or king on `square` with the given
    /// occupancy, computed by walking each direction (pawns and castling aside).
    pub fn calculate_moves_from_square(square: Square, piece_kind: IndexedPieceKind, blocker_occupancy: Bitboard) -> (r: Bitboard)
        ensures
            r.0 == moves_from(square.idx(), piece_kind, blocker_occupancy.0),
    {
        let directions = indexed_piece_directions(piece_kind);
        proof { lemma_dirs_offsets(piece_kind); }
        let square_bb = square.bitboard().0;
        let blockers = blocker_occupancy.0;
        let mut moves: u64 = 0;
        let mut i: usize = 0;
        let ghost ds = dirs_of(piece_kind);
        while i < directions.len()
            invariant
                directions@ == ds,
                ds == dirs_of(piece_kind),
                forall|j: int| 0 <= j < ds.len() ==> -18 < (#[trigger] ds[j]).offset < 18,
                i <= ds.len(),
                square_bb == sq_bit(square.idx()),
                piece_kind == IndexedPieceKind::King || piece_kind == IndexedPieceKind::Knight ==> moves == jumps(square_bb, ds.take(i as int)),
                piece_kind == IndexedPieceKind::Bishop || piece_kind == IndexedPieceKind::Rook ==> moves == rays(square_bb, ds.take(i as int), blockers),
            decreases ds.len() - i,
        {
            let d = directions[i];
            assert(ds.take(i as int + 1).drop_last() =~= ds.take(i as int));
            assert(ds.take(i as int + 1).last() == d);
            match piece_kind {
                IndexedPieceKind::King | IndexedPieceKind::Knight => {
                    if (square_bb & d.impossible.0) == 0 {
                        moves = moves | shift(square_bb, d.offset);
                    } else {
                        proof { lemma_or_assoc(moves, 0, 0); }
                    }
                },
                IndexedPieceKind::Bishop | IndexedPieceKind::Rook => {
                    let ghost before = moves;
                    let mut curr = square_bb;
                    let mut steps: u64 = 0;
                    let mut going = true;
                    while going && steps < 7 && (curr & d.impossible.0) == 0
                        invariant
                            -18 < d.offset < 18,
                            steps <= 7,
                            going ==> moves | ray(curr, d, blockers, (7 - steps) as nat) == before | ray(square_bb, d, blockers, 7),
                            !going ==> moves == before | ray(square_bb, d, blockers, 7),
                        decreases 7 - steps + (if going { 1int } else { 0int }),
                    {
                        let ghost c0 = curr;
                        let ghost m0 = moves;
                        let nxt = shift(curr, d.offset);
                        moves = moves | nxt;
                        curr = nxt;
                        proof { lemma_or_assoc(m0, nxt, ray(nxt, d, blockers, (7 - steps - 1) as nat)); lemma_or_assoc(m0, nxt, 0); }
                        if (curr & blockers) != 0 {
                            proof { lemma_or_assoc(nxt, 0, 0); }
                            going = false;
                        } else {
                            steps = steps + 1;
                        }
                    }
                    proof {
                        if going {
                            lemma_or_assoc(moves, 0, 0);
                        }
                    }
                },
            }
            i = i + 1;
        }
        assert(ds.take(ds.len() as int) =~= ds);
        Bitboard(moves)
    }

    /// Builds every lookup table.
    pub fn init() -> (r: Self)
        ensures
            r.wf(),
    {
        let mut raw_move: [PerSquare<Bitboard>; 4] = [PerSquare::new(Bitboard(0)); 4];
        let mut k: usize = 0;
        while k < 4
            invariant
                k <= 4,
                forall|ipk: IndexedPieceKind, sq: int| 0 <= sq < 64 && ipk.idx() < k ==> #[trigger] raw_move[ipk.idx()].0[sq].0 == moves_from(sq, ipk, 0),
            decreases 4 - k,
        {
            let ipk = IndexedPieceKind::from_index(k);
            let mut table: PerSquare<Bitboard> = PerSquare::new(Bitboard(0));
            let mut s: usize = 0;
            while s < 64
                invariant
                    s <= 64,
                    k < 4,
                    ipk.idx() == k,
                    forall|sq: int| 0 <= sq < s ==> #[trigger] table.0[sq].0 == moves_from(sq, ipk, 0),
                decreases 64 - s,
            {
                let sq = Square::from_index(s);
                table.set(sq, MoveGen::calculate_moves_from_square(sq, ipk, Bitboard(0)));
                s = s + 1;
            }
            raw_move[k] = table;
            k = k + 1;
        }

        let edge_of_board = bb_rank(Rank::R1).union(bb_rank(Rank::R8)).union(bb_file(File::A)).union(bb_file(File::H));
        let corners = Square::A1.bitboard().union(Square::A8.bitboard()).union(Square::H1.bitboard()).union(Square::H8.bitboard());
        let mut blocker_mask: [PerSquare<Bitboard>; 2] = [PerSquare::new(Bitboard(0)); 2];
        let mut sliding_moves: Vec<Vec<Vec<Bitboard>>> = Vec::new();
        let mut k: usize = 0;
        while k < 2
            invariant
                k <= 2,
                sliding_moves@.len() == k,
                edge_of_board.0 == edge_bits(),
                corners.0 == sq_bit(0) | sq_bit(56) | sq_bit(7) | sq_bit(63),
                forall|spk: SlidingPieceKind, sq: int| 0 <= sq < 64 && spk.idx() < k ==> #[trigger] blocker_mask[spk.idx()].0[sq].0 == blocker_mask_of(spk, sq),
                forall|j: int| 0 <= j < k ==> (#[trigger] sliding_moves@[j])@.len() == 64,
                forall|spk: SlidingPieceKind, sq: int| 0 <= sq < 64 && spk.idx() < k ==>
                    table_exact(spk, sq, blocker_mask[spk.idx()].0[sq].0, #[trigger] sliding_moves@[spk.idx()]@[sq]@),
            decreases 2 - k,
        {
            let spk = if k == 0 { SlidingPieceKind::Bishop } else { SlidingPieceKind::Rook };
            assert(spk.idx() == k);
            let ipk = if k == 0 { IndexedPieceKind::Bishop } else { IndexedPieceKind::Rook };
            assert(ipk == ipk_of(spk));
            let mut masks: PerSquare<Bitboard> = PerSquare::new(Bitboard(0));
            let mut per_square: Vec<Vec<Bitboard>> = Vec::new();
            let mut s: usize = 0;
            while s < 64
                invariant
                    s <= 64,
                    k < 2,
                    spk.idx() == k,
                    ipk == ipk_of(spk),
                    edge_of_board.0 == edge_bits(),
                    corners.0 == sq_bit(0) | sq_bit(56) | sq_bit(7) | sq_bit(63),
                    per_square@.len() == s,
                    forall|sq: int| 0 <= sq < s ==> #[trigger] masks.0[sq].0 == blocker_mask_of(spk, sq),
                    forall|sq: int| 0 <= sq < s ==> table_exact(spk, sq, masks.0[sq].0, #[trigger] per_square@[sq]@),
                decreases 64 - s,
            {
                let sq = Square::from_index(s);
                let moves = MoveGen::calculate_moves_from_square(sq, ipk, Bitboard(0));
                let rank = sq.rank();
                let file = sq.file();
                let rank_part = if rank.as_num() == 0 || rank.as_num() == 7 { bb_rank(rank) } else { Bitboard(0) };
                let file_part = if file.as_num() == 0 || file.as_num() == 7 { bb_file(file) } else { Bitboard(0) };
                let side_squares = rank_part.union(file_part);
                let mask = match spk {
                    SlidingPieceKind::Rook => moves.intersect(edge_of_board.complement()).union(side_squares).intersect(corners.complement()),
                    SlidingPieceKind::Bishop => moves.intersect(edge_of_board.complement()),
                };
                assert(mask.0 == blocker_mask_of(spk, s as int));
                proof {
                    let c = corners.0;
                    let e = edge_of_board.0;
                    lemma_mask_bits(0, sq_bit(56), 0);
                    lemma_mask_bits(sq_bit(0) | sq_bit(56), sq_bit(7), 0);
                    lemma_mask_bits((sq_bit(0) | sq_bit(56)) | sq_bit(7), sq_bit(63), 0);
                    lemma_mask_bits(0, rank_bits(7), 0);
                    lemma_mask_bits(rank_bits(0) | rank_bits(7), file_bits(0), 0);
                    lemma_mask_bits((rank_bits(0) | rank_bits(7)) | file_bits(0), file_bits(7), 0);
                    lemma_mask_bits(moves.0, e, 0);
                    lemma_mask_bits((moves.0 & !e) | side_squares.0, c, 0);
                }
                masks.set(sq, mask);
                let table = MoveGen::fill_slider_table(sq, spk, mask.0);
                per_square.push(table);
                s = s + 1;
            }
            blocker_mask[k] = masks;
            sliding_moves.push(per_square);
            k = k + 1;
        }
        MoveGen { raw_move, blocker_mask, sliding_moves }
    }

    /// Fills one slider table: each blocker subset of `mask`, enumerated by the
    /// carry-rippler trick, stores its moves at its compressed index.
    fn fill_slider_table(sq: Square, spk: SlidingPieceKind, mask: u64) -> (r: Vec<Bitboard>)
        requires
            mask & 1u64 == 0,
        ensures
            r@.len() == pext(mask, mask) + 1,
            table_exact(spk, sq.idx(), mask, r@),
    {
        proof {
            lemma_pext_small(mask, mask);
        }
        let top = Bitboard::compressed_index_fallback(mask, mask);
        let ipk = match spk {
            SlidingPieceKind::Bishop => IndexedPieceKind::Bishop,
            SlidingPieceKind::Rook => IndexedPieceKind::Rook,
        };
        let mut table: Vec<Bitboard> = Vec::new();
        let mut i: u64 = 0;
        while i <= top
            invariant
                top < 0xffff_ffff_ffff_ffffu64,
                i <= top + 1,
                table@.len() == i,
            decreases top + 1 - i,
        {
            table.push(Bitboard(0));
            i = i + 1;
        }
        let len = table.len();
        let mut blocker: u64 = 0;
        let mut done = false;
        proof {
            lemma_mask_bits(0, 0, mask);
        }
        while !done
            invariant
                ipk == ipk_of(spk),
                len == pext(mask, mask) + 1,
                table@.len() == len,
                blocker & !mask == 0,
                blocker <= mask,
                !done ==> forall|s: u64| s & !mask == 0 && 0 < s <= blocker
                    ==> (#[trigger] table@[pext(s, mask) as int]).0 == moves_from(sq.idx(), ipk, s),
                done ==> table_exact(spk, sq.idx(), mask, table@),
            decreases (if done { 0int } else { mask - blocker + 1 }),
        {
            let ghost b = blocker;
            let ghost before = table@;
            let t = blocker.wrapping_sub(mask);
            blocker = t & mask;
            let ghost nb = blocker;
            proof {
                lemma_subset_step(b, mask, t, 0);
                lemma_mask_bits(nb, 0, mask);
                lemma_pext_le(nb, mask, mask);
            }
            let moves = MoveGen::calculate_moves_from_square(sq, ipk, Bitboard(blocker));
            let idx = Bitboard(blocker).compressed_index(mask);
            if idx < table.len() {
                table.set(idx, moves);
            }
            if blocker == 0 {
                done = true;
            }
            proof {
                assert forall|s: u64| s & !mask == 0 && s != nb
                    implies (#[trigger] table@[pext(s, mask) as int]) == before[pext(s, mask) as int] by {
                    lemma_pext_le(s, mask, mask);
                    if pext(s, mask) == pext(nb, mask) {
                        lemma_pext_injective(s, nb, mask);
                        lemma_mask_bits(s, 0, mask);
                        lemma_mask_bits(nb, 0, mask);
                    }
                }
                if done {
                    assert forall|s: u64| s & !mask == 0
                        implies (#[trigger] table@[pext(s, mask) as int]).0 == moves_from(sq.idx(), ipk_of(spk), s) by {
                        lemma_subset_step(b, mask, t, s);
                        lemma_mask_bits(s, 0, mask);
                        lemma_pext_le(s, mask, mask);
                        if s != nb {
                            assert(table@[pext(s, mask) as int] == before[pext(s, mask) as int]);
                        }
                    }
                    assert forall|s: u64| s & !mask == 0 implies pext(s, mask) < table@.len() by {
                        lemma_pext_le(s, mask, mask);
                    }
                    assert(table_exact(spk, sq.idx(), mask, table@));
                } else {
                    assert forall|s: u64| s & !mask == 0 && 0 < s <= nb
                        implies (#[trigger] table@[pext(s, mask) as int]).0 == moves_from(sq.idx(), ipk, s) by {
                        lemma_subset_step(b, mask, t, s);
                        lemma_pext_le(s, mask, mask);
                        if s != nb {
                            assert(table@[pext(s, mask) as int] == before[pext(s, mask) as int]);
                        }
                    }
                }
            }
        }
        table
    }

    fn raw_moves(&self, ipk: IndexedPieceKind, sq: Square) -> (r: u64)
        requires
            self.wf(),
        ensures
            r == moves_from(sq.idx(), ipk, 0),
    {
        proof { assert(self.raw_spec(ipk, sq.idx()) == moves_from(sq.idx(), ipk, 0)); }
        self.raw_move[ipk.index()].get(sq).0
    }

    /// Slider moves from `sq` for occupancy `occ`, looked up in the tables.
    pub fn slider_moves(&self, spk: SlidingPieceKind, sq: Square, occ: u64) -> (r: u64)
        requires
            self.wf(),
        ensures
            r == self.slider_spec(spk, sq.idx(), occ),
    {
        let mask = self.blocker_mask[spk.index()].get(sq).0;
        let idx = Bitboard(occ & mask).compressed_index(mask);
        let t = &self.sliding_moves[spk.index()][sq.index()];
        assert(t@ == self.table(spk, sq.idx()));
        if idx < t.len() {
            t[idx].0
        } else {
            0
        }
    }

    /// Whether `square` is attacked by the side not to move.
    pub fn is_attacked(&self, pos: &Position, square: Square) -> (r: bool)
        requires
            self.wf(),
            pos.bb_ok(),
        ensures
            r == attacked_by(*self, pos.board(), square.idx(), pos.state.active_side.opp()),
    {
        let by = pos.state.active_side.other();
        let theirs = pos.pieces.get(by);
        let occ = pos.sides_pieces.get(Side::White).0 | pos.sides_pieces.get(Side::Black).0;
        let knights = theirs.get(PieceKind::Knight).0;
        let kings = theirs.get(PieceKind::King).0;
        let pawns = theirs.get(PieceKind::Pawn).0;
        let diag = theirs.get(PieceKind::Bishop).0 | theirs.get(PieceKind::Queen).0;
        let straight = theirs.get(PieceKind::Rook).0 | theirs.get(PieceKind::Queen).0;
        (self.raw_moves(IndexedPieceKind::Knight, square) & knights) != 0
            || (self.raw_moves(IndexedPieceKind::King, square) & kings) != 0
            || (pawn_attacks(pos.state.active_side, square.bitboard().0) & pawns) != 0
            || (self.slider_moves(SlidingPieceKind::Bishop, square, occ) & diag) != 0
            || (self.slider_moves(SlidingPieceKind::Rook, square, occ) & straight) != 0
    }

    /// Moves following piece movement rules, without filtering for king safety.
    pub fn pseudo_legal_moves(&self, pos: &Position) -> (r: Vec<Move>)
        requires
            self.wf(),
            pos.bb_ok(),
        ensures
            forall|i: int| 0 <= i < r.len() ==> move_fits(pos.board(), pos.state, #[trigger] r[i]),
            forall|i: int| 0 <= i < r.len() ==> pseudo_move(pos, #[trigger] r[i]),
            forall|m: Move| #[trigger] pseudo_move(pos, m) ==> r@.contains(m),
            r@.no_duplicates(),
    {
        let mut moves: Vec<Move> = Vec::new();
        let side = pos.state.active_side;
        let mut k: usize = 0;
        while k < 6
            invariant
                self.wf(),
                pos.bb_ok(),
                side == pos.state.active_side,
                k <= 6,
                forall|i: int| 0 <= i < moves.len() ==> move_fits(pos.board(), pos.state, #[trigger] moves[i]),
                forall|i: int| 0 <= i < moves.len() ==> pseudo_move(pos, #[trigger] moves[i]),
                forall|m: Move| #[trigger] pseudo_move(pos, m) && !m.is_castling() && m.kind().idx() < k ==> moves@.contains(m),
                distinct_after(moves@, 0),
                forall|i: int| 0 <= i < moves.len() ==> !(#[trigger] moves[i]).is_castling() && moves[i].kind().idx() < k,
            decreases 6 - k,
        {
            let pk = PieceKind::from_index(k);
            let from_squares = pos.pieces.get(side).get(pk).iter_squares();
            let ghost before_kind = moves@;
            let mut j: usize = 0;
            while j < from_squares.len()
                invariant
                    self.wf(),
                    pos.bb_ok(),
                    side == pos.state.active_side,
                    pk.idx() == k,
                    k < 6,
                    forall|t: int| 0 <= t < 64 ==> (pos.pieces.0[side.idx()].0[pk.idx()].has(t) <==> exists|i: int| 0 <= i < from_squares.len() && from_squares[i].idx() == t),
                    forall|i: int| 0 <= i < moves.len() ==> move_fits(pos.board(), pos.state, #[trigger] moves[i]),
                    forall|i: int| 0 <= i < moves.len() ==> pseudo_move(pos, #[trigger] moves[i]),
                    forall|m: Move| #[trigger] pseudo_move(pos, m) && !m.is_castling()
                        && (m.kind().idx() < k || (m.kind() == pk && exists|i: int| 0 <= i < j && from_squares[i] == m.from_sq())) ==> moves@.contains(m),
                    j <= from_squares.len(),
                    forall|a: int, c: int| 0 <= a < c < from_squares.len() ==> from_squares[a].idx() < from_squares[c].idx(),
                    distinct_after(moves@, 0),
                    forall|i: int| 0 <= i < moves.len() ==> !(#[trigger] moves[i]).is_castling() && (moves[i].kind().idx() < k
                        || (moves[i].kind() == pk && exists|c: int| 0 <= c < j && from_squares[c] == moves[i].from_sq())),
                decreases from_squares.len() - j,
            {
                let from = from_squares[j];
                proof {
                    assert(pos.pieces.0[side.idx()].0[pk.idx()].has(from.idx()));
                    lemma_piece_bits(pos.board(), side, pk, 64, from.idx());
                }
                let ghost before = moves@;
                self.append_moves_from(&mut moves, pos, pk, from);
                proof {
                    assert forall|i: int, c: int| 0 <= i < c < moves.len() implies #[trigger] moves@[i] != #[trigger] moves@[c] by {
                        if c >= before.len() && i < before.len() {
                            assert(moves@[i] == before[i]);
                            if before[i].kind() == pk {
                                let c2 = choose|c2: int| 0 <= c2 < j && from_squares[c2] == before[i].from_sq();
                                assert(from_squares[c2].idx() < from_squares[j as int].idx());
                            } else {
                                assert(before[i].kind().idx() < k);
                                assert(moves@[c].kind() == pk);
                            }
                        } else if c < before.len() {
                            assert(moves@[i] == before[i] && moves@[c] == before[c]);
                        }
                    }
                    assert forall|i: int| 0 <= i < moves.len() implies !(#[trigger] moves[i]).is_castling() && (moves[i].kind().idx() < k
                        || (moves[i].kind() == pk && exists|c: int| 0 <= c < j + 1 && from_squares[c] == moves[i].from_sq())) by {
                        if i < before.len() {
                            assert(moves[i] == before[i]);
                        } else {
                            assert(from_squares[j as int] == moves[i].from_sq());
                        }
                    }
                    assert forall|m: Move| #[trigger] pseudo_move(pos, m) && !m.is_castling()
                        && (m.kind().idx() < k || (m.kind() == pk && exists|i: int| 0 <= i < j + 1 && from_squares[i] == m.from_sq())) implies moves@.contains(m) by {
                        if m.kind() == pk && m.from_sq() == from {
                        } else {
                            let i = choose|i: int| 0 <= i < before.len() && before[i] == m;
                            assert(moves@[i] == m);
                        }
                    }
                }
                j = j + 1;
            }
            proof {
                assert forall|m: Move| #[trigger] pseudo_move(pos, m) && !m.is_castling() && m.kind().idx() < k + 1 implies moves@.contains(m) by {
                    if m.kind() == pk {
                        let f = m.from_sq().idx();
                        if m.kind() == PieceKind::Pawn {
                            assert(pawn_move_ok(pos, m));
                        } else {
                            assert(piece_move_ok(pos, m));
                        }
                        lemma_piece_bits(pos.board(), side, pk, 64, f);
                        assert(pos.pieces.0[side.idx()].0[pk.idx()].has(f));
                        let i = choose|i: int| 0 <= i < from_squares.len() && from_squares[i].idx() == f;
                        lemma_square_idx_inj(from_squares[i], m.from_sq());
                    } else {
                        assert(m.kind().idx() < k) by {
                            if m.kind().idx() == k {
                                lemma_kind_idx_inj(m.kind(), pk);
                            }
                        }
                    }
                }
            }
            k = k + 1;
        }
        let ghost before_castling = moves@;
        self.append_castling_moves(&mut moves, pos);
        proof {
            assert forall|i: int, c: int| 0 <= i < moves.len() && 0 <= c < moves.len() && i != c implies moves@[i] != moves@[c] by {
                let (lo, hi) = if i < c { (i, c) } else { (c, i) };
                if hi >= before_castling.len() && lo < before_castling.len() {
                    assert(moves@[lo] == before_castling[lo]);
                    assert(castle_move_ok(pos, moves[hi]));
                } else if hi < before_castling.len() {
                    assert(moves@[lo] == before_castling[lo] && moves@[hi] == before_castling[hi]);
                } else {
                    assert(moves@[lo] != moves@[hi]);
                }
            }
            assert forall|i: int| 0 <= i < moves.len() implies pseudo_move(pos, #[trigger] moves[i]) by {
                if i >= before_castling.len() {
                    assert(castle_move_ok(pos, moves[i]));
                } else {
                    assert(moves[i] == before_castling[i]);
                }
            }
            assert forall|m: Move| #[trigger] pseudo_move(pos, m) implies moves@.contains(m) by {
                if m.is_castling() {
                    assert(castle_move_ok(pos, m));
                } else {
                    assert(m.kind().idx() < 6);
                    let i = choose|i: int| 0 <= i < before_castling.len() && before_castling[i] == m;
                    assert(moves@[i] == m);
                }
            }
        }
        moves
    }

    /// The moves, castling aside, of the piece of kind `pk` of the side to
    /// move that stands on `from`.
    fn append_moves_from(&self, moves: &mut Vec<Move>, pos: &Position, pk: PieceKind, from: Square)
        requires
            self.wf(),
            pos.bb_ok(),
            pos.board()[from.idx()] == Some(Piece { side: pos.state.active_side, kind: pk }),
            forall|i: int| 0 <= i < old(moves).len() ==> move_fits(pos.board(), pos.state, #[trigger] old(moves)[i]),
        ensures
            forall|i: int| 0 <= i < final(moves).len() ==> move_fits(pos.board(), pos.state, #[trigger] final(moves)[i]),
            forall|i: int| 0 <= i < old(moves).len() ==> final(moves)[i] == old(moves)[i],
            final(moves)@.len() >= old(moves)@.len(),
            forall|i: int| old(moves).len() <= i < final(moves).len() ==> pseudo_move(pos, #[trigger] final(moves)[i]),
            forall|m: Move| #[trigger] pseudo_move(pos, m) && !m.is_castling() && m.kind() == pk && m.from_sq() == from
                ==> final(moves)@.contains(m),
            distinct_after(final(moves)@, old(moves)@.len() as int),
            forall|i: int| old(moves).len() <= i < final(moves).len() ==> (#[trigger] final(moves)[i]).from_sq() == from
                && final(moves)[i].kind() == pk && !final(moves)[i].is_castling(),
    {
        let ghost start = moves@.len();
        match pk {
            PieceKind::Pawn => {
                self.append_pawn_moves(moves, pos, from);
                proof {
                    assert forall|i: int| start <= i < moves.len() implies pseudo_move(pos, #[trigger] moves[i]) by {
                        assert(pawn_move_ok(pos, moves[i]));
                    }
                    assert forall|i: int| start <= i < moves.len() implies (#[trigger] moves[i]).from_sq() == from
                        && moves[i].kind() == pk && !moves[i].is_castling() by {
                        assert(pawn_move_ok(pos, moves[i]));
                    }
                    assert forall|m: Move| #[trigger] pseudo_move(pos, m) && !m.is_castling() && m.kind() == pk && m.from_sq() == from
                        implies moves@.contains(m) by {
                        assert(pawn_move_ok(pos, m));
                    }
                }
            },
            PieceKind::Knight | PieceKind::King | PieceKind::Bishop | PieceKind::Rook => {
                self.append_piece_moves(moves, pos, pk, from, pk);
                proof {
                    lemma_piece_targets_by_rules(*self, pos, pk, from.idx());
                    assert forall|i: int| start <= i < moves.len() implies pseudo_move(pos, #[trigger] moves[i]) by {
                        assert(plain_move_from(pos.board(), moves[i], from, pk));
                        assert(piece_move_ok(pos, moves[i]));
                    }
                    assert forall|i: int, j: int| start <= i < j < moves.len() implies #[trigger] moves@[i] != #[trigger] moves@[j] by {
                        assert(moves[i].to_sq() != moves[j].to_sq());
                    }
                    assert forall|m: Move| #[trigger] pseudo_move(pos, m) && !m.is_castling() && m.kind() == pk && m.from_sq() == from
                        implies moves@.contains(m) by {
                        assert(piece_move_ok(pos, m));
                        let t = m.to_sq().idx();
                        let i = choose|i: int| start <= i < moves.len() && (#[trigger] moves[i]).to_sq().idx() == t
                            && plain_move_from(pos.board(), moves[i], from, pk);
                        lemma_square_idx_inj(moves[i].to_sq(), m.to_sq());
                        Move::lemma_move_ext(moves[i], m);
                    }
                }
            },
            PieceKind::Queen => {
                self.append_piece_moves(moves, pos, PieceKind::Bishop, from, pk);
                let ghost mid = moves@;
                let diagonal = self.targets_of(pos, PieceKind::Bishop, from);
                let straight = self.targets_of(pos, PieceKind::Rook, from);
                let straight_only = straight & !diagonal;
                proof {
                    assert forall|t: int| 0 <= t < 64 && #[trigger] has_sq(straight_only, t) implies !(pos.board()[t] is Some
                        && pos.board()[t]->0.side == pos.state.active_side) by {
                        lemma_has_sq_ops(straight, diagonal, t);
                    }
                }
                MoveGen::push_target_moves(moves, pos, pk, from, straight_only);
                proof {
                    assert forall|i: int, j: int| start <= i < j < moves.len() implies #[trigger] moves@[i] != #[trigger] moves@[j] by {
                        if i < mid.len() && j >= mid.len() {
                            assert(moves[i] == mid[i]);
                            let t = moves[j].to_sq().idx();
                            lemma_has_sq_ops(straight, diagonal, t);
                            assert(has_sq(diagonal, mid[i].to_sq().idx()));
                        } else if j < mid.len() {
                            assert(moves[i] == mid[i] && moves[j] == mid[j]);
                            assert(mid[i].to_sq() != mid[j].to_sq());
                        } else {
                            assert(moves[i].to_sq() != moves[j].to_sq());
                        }
                    }
                    assert forall|i: int| start <= i < moves.len() implies (#[trigger] moves[i]).from_sq() == from
                        && moves[i].kind() == pk && !moves[i].is_castling() by {
                        if i < mid.len() {
                            assert(moves[i] == mid[i]);
                            assert(plain_move_from(pos.board(), mid[i], from, pk));
                        }
                    }
                    lemma_piece_targets_by_rules(*self, pos, PieceKind::Bishop, from.idx());
                    lemma_piece_targets_by_rules(*self, pos, PieceKind::Rook, from.idx());
                    assert forall|i: int| start <= i < moves.len() implies pseudo_move(pos, #[trigger] moves[i]) by {
                        if i < mid.len() {
                            assert(moves[i] == mid[i]);
                            assert(plain_move_from(pos.board(), mid[i], from, pk));
                        } else {
                            assert(plain_move_from(pos.board(), moves[i], from, pk));
                            lemma_has_sq_ops(straight, diagonal, moves[i].to_sq().idx());
                        }
                        assert(piece_move_ok(pos, moves[i]));
                    }
                    assert forall|m: Move| #[trigger] pseudo_move(pos, m) && !m.is_castling() && m.kind() == pk && m.from_sq() == from
                        implies moves@.contains(m) by {
                        assert(piece_move_ok(pos, m));
                        let t = m.to_sq().idx();
                        if has_sq(targets_by_rules(pos, PieceKind::Bishop, from.idx()), t) {
                            let i = choose|i: int| start <= i < mid.len() && (#[trigger] mid[i]).to_sq().idx() == t
                                && plain_move_from(pos.board(), mid[i], from, pk);
                            lemma_square_idx_inj(mid[i].to_sq(), m.to_sq());
                            Move::lemma_move_ext(mid[i], m);
                            assert(moves@[i] == m);
                        } else {
                            lemma_has_sq_ops(straight, diagonal, t);
                            let i = choose|i: int| mid.len() <= i < moves.len() && (#[trigger] moves[i]).to_sq().idx() == t
                                && plain_move_from(pos.board(), moves[i], from, pk);
                            lemma_square_idx_inj(moves[i].to_sq(), m.to_sq());
                            Move::lemma_move_ext(moves[i], m);
                        }
                    }
                }
            },
        }
    }

    /// Pushes a non-promoting, non-special move of `moving` from `from` to each
    /// square of `targets`, recording what stands there as captured.
    fn push_target_moves(moves: &mut Vec<Move>, pos: &Position, moving: PieceKind, from: Square, targets: u64)
        requires
            pos.bb_ok(),
            pos.board()[from.idx()] == Some(Piece { side: pos.state.active_side, kind: moving }),
            forall|t: int| 0 <= t < 64 && #[trigger] has_sq(targets, t) ==> !(pos.board()[t] is Some && pos.board()[t]->0.side == pos.state.active_side),
            forall|i: int| 0 <= i < old(moves).len() ==> move_fits(pos.board(), pos.state, #[trigger] old(moves)[i]),
        ensures
            forall|i: int| 0 <= i < final(moves).len() ==> move_fits(pos.board(), pos.state, #[trigger] final(moves)[i]),
            final(moves)@.len() >= old(moves)@.len(),
            forall|i: int| 0 <= i < old(moves).len() ==> final(moves)[i] == old(moves)[i],
            forall|i: int| old(moves).len() <= i < final(moves).len() ==> plain_move_from(pos.board(), #[trigger] final(moves)[i], from, moving) && has_sq(targets, final(moves)[i].to_sq().idx()),
            forall|t: int| 0 <= t < 64 && has_sq(targets, t) ==> exists|i: int| old(moves).len() <= i < final(moves).len() && (#[trigger] final(moves)[i]).to_sq().idx() == t
                && plain_move_from(pos.board(), final(moves)[i], from, moving),
            forall|i: int, j: int| old(moves).len() <= i < j < final(moves).len() ==> (#[trigger] final(moves)[i]).to_sq() != (#[trigger] final(moves)[j]).to_sq(),
    {
        let tos = Bitboard(targets).iter_squares();
        let ghost start = moves.len();
        let mut j: usize = 0;
        while j < tos.len()
            invariant
                pos.bb_ok(),
                pos.board()[from.idx()] == Some(Piece { side: pos.state.active_side, kind: moving }),
                forall|t: int| 0 <= t < 64 && #[trigger] has_sq(targets, t) ==> !(pos.board()[t] is Some && pos.board()[t]->0.side == pos.state.active_side),
                forall|t: int| 0 <= t < 64 ==> (Bitboard(targets).has(t) <==> exists|i: int| 0 <= i < tos.len() && tos[i].idx() == t),
                forall|i: int| 0 <= i < moves.len() ==> move_fits(pos.board(), pos.state, #[trigger] moves[i]),
                moves@.len() == start + j,
                j <= tos.len(),
                forall|i: int| 0 <= i < start ==> moves[i] == old(moves)[i],
                forall|i: int| start <= i < moves.len() ==> plain_move_from(pos.board(), #[trigger] moves[i], from, moving) && moves[i].to_sq() == tos[i - start],
                forall|a: int, b: int| 0 <= a < b < tos.len() ==> tos[a].idx() < tos[b].idx(),
            decreases tos.len() - j,
        {
            let to = tos[j];
            assert(Bitboard(targets).has(to.idx()));
            let captured = match pos.piece_by_square.get(to) {
                Some(p) => Some(p.kind),
                None => None,
            };
            let m = Move::new(from, to, moving, None, captured, false, false);
            proof {
                assert(from.idx() != to.idx());
                lemma_plain_move_fits(pos.board(), pos.state, m);
            }
            moves.push(m);
            j = j + 1;
        }
        proof {
            assert forall|i: int| start <= i < moves.len() implies plain_move_from(pos.board(), #[trigger] moves[i], from, moving) && has_sq(targets, moves[i].to_sq().idx()) by {
                let t = moves[i].to_sq().idx();
                assert(tos[i - start].idx() == t);
                assert(exists|k: int| 0 <= k < tos.len() && #[trigger] tos[k].idx() == t);
                assert(Bitboard(targets).has(t));
            }
            assert forall|t: int| 0 <= t < 64 && has_sq(targets, t) implies exists|i: int| start <= i < moves.len() && (#[trigger] moves[i]).to_sq().idx() == t
                && plain_move_from(pos.board(), moves[i], from, moving) by {
                assert(Bitboard(targets).has(t));
                let k = choose|k: int| 0 <= k < tos.len() && tos[k].idx() == t;
                assert(moves[start + k].to_sq().idx() == t);
            }
            assert forall|i: int, j: int| start <= i < j < moves.len() implies (#[trigger] moves[i]).to_sq() != (#[trigger] moves[j]).to_sq() by {
                assert(moves[i].to_sq() == tos[i - start]);
                assert(moves[j].to_sq() == tos[j - start]);
            }
        }
    }

    /// Moves of a knight, bishop, rook or king standing on `from_square`; a queen
    /// is handled as a bishop and a rook, `moving` naming the piece that moves.
    fn append_piece_moves(&self, moves: &mut Vec<Move>, pos: &Position, pk: PieceKind, from_square: Square, moving: PieceKind)
        requires
            self.wf(),
            pos.bb_ok(),
            pk == PieceKind::Knight || pk == PieceKind::King || pk == PieceKind::Bishop || pk == PieceKind::Rook,
            pos.board()[from_square.idx()] == Some(Piece { side: pos.state.active_side, kind: moving }),
            forall|i: int| 0 <= i < old(moves).len() ==> move_fits(pos.board(), pos.state, #[trigger] old(moves)[i]),
        ensures
            forall|i: int| 0 <= i < final(moves).len() ==> move_fits(pos.board(), pos.state, #[trigger] final(moves)[i]),
            final(moves)@.len() >= old(moves)@.len(),
            forall|i: int| 0 <= i < old(moves).len() ==> final(moves)[i] == old(moves)[i],
            forall|t: int| 0 <= t < 64 && has_sq(self.piece_targets(pos, pk, from_square.idx()), t) ==> exists|i: int| old(moves).len() <= i < final(moves).len() && (#[trigger] final(moves)[i]).to_sq().idx() == t
                && plain_move_from(pos.board(), final(moves)[i], from_square, moving),
            forall|i: int| old(moves).len() <= i < final(moves).len() ==> plain_move_from(pos.board(), #[trigger] final(moves)[i], from_square, moving) && has_sq(self.piece_targets(pos, pk, from_square.idx()), final(moves)[i].to_sq().idx()),
            forall|i: int, j: int| old(moves).len() <= i < j < final(moves).len() ==> (#[trigger] final(moves)[i]).to_sq() != (#[trigger] final(moves)[j]).to_sq(),
            distinct_after(final(moves)@, old(moves)@.len() as int),
    {
        let targets = self.targets_of(pos, pk, from_square);
        MoveGen::push_target_moves(moves, pos, moving, from_square, targets);
        proof {
            assert forall|i: int, j: int| old(moves)@.len() <= i < j < moves@.len() implies #[trigger] moves@[i] != #[trigger] moves@[j] by {
                assert(moves[i].to_sq() != moves[j].to_sq());
            }
        }
    }

    /// The squares a piece of kind `pk` on `from_square` may move to: its
    /// reach minus the squares of its own side.
    fn targets_of(&self, pos: &Position, pk: PieceKind, from_square: Square) -> (targets: u64)
        requires
            self.wf(),
            pos.bb_ok(),
            pk == PieceKind::Knight || pk == PieceKind::King || pk == PieceKind::Bishop || pk == PieceKind::Rook,
        ensures
            targets == self.piece_targets(pos, pk, from_square.idx()),
            forall|t: int| 0 <= t < 64 && #[trigger] has_sq(targets, t) ==> !(pos.board()[t] is Some && pos.board()[t]->0.side == pos.state.active_side),
    {
        let active_side = pos.state.active_side;
        let other_side = active_side.other();
        let own = pos.sides_pieces.get(active_side).0;
        let all_blockers = own | pos.sides_pieces.get(other_side).0;
        let reach = match pk {
            PieceKind::Knight => self.raw_moves(IndexedPieceKind::Knight, from_square),
            PieceKind::King => self.raw_moves(IndexedPieceKind::King, from_square),
            PieceKind::Bishop => self.slider_moves(SlidingPieceKind::Bishop, from_square, all_blockers),
            _ => self.slider_moves(SlidingPieceKind::Rook, from_square, all_blockers),
        };
        let targets = reach & !own;
        proof {
            assert(pos.sides_pieces.0[other_side.idx()].0 == side_bits(pos.board(), other_side, 64));
            if active_side == Side::White {
                assert(all_blockers == side_bits(pos.board(), Side::White, 64) | side_bits(pos.board(), Side::Black, 64));
            } else {
                let a = side_bits(pos.board(), Side::White, 64);
                let c = side_bits(pos.board(), Side::Black, 64);
                lemma_ray_bits(c, a, 0, 0, 0, 0, 0, 0, 0);
            }
            assert(targets == self.piece_targets(pos, pk, from_square.idx()));
            assert forall|t: int| 0 <= t < 64 && #[trigger] has_sq(targets, t) implies !(pos.board()[t] is Some && pos.board()[t]->0.side == pos.state.active_side) by {
                lemma_has_sq_ops(reach, own, t);
                lemma_side_bits(pos.board(), active_side, 64, t);
            }
        }
        targets
    }

    /// Where a piece of kind `pk` on `sq` may move: its reach minus own pieces.
    pub open spec fn piece_targets(&self, pos: &Position, pk: PieceKind, sq: int) -> u64 {
        let b = pos.board();
        let side = pos.state.active_side;
        let own = side_bits(b, side, 64);
        let occ = side_bits(b, Side::White, 64) | side_bits(b, Side::Black, 64);
        let reach = match pk {
            PieceKind::Knight => moves_from(sq, IndexedPieceKind::Knight, 0),
            PieceKind::King => moves_from(sq, IndexedPieceKind::King, 0),
            PieceKind::Bishop => self.slider_spec(SlidingPieceKind::Bishop, sq, occ),
            _ => self.slider_spec(SlidingPieceKind::Rook, sq, occ),
        };
        reach & !own
    }

    /// The four promotions of a pawn move from `from` to `to`.
    fn push_promotions(moves: &mut Vec<Move>, pos: &Position, from: Square, to: Square, captured: Option<PieceKind>)
        requires
            pos.board().len() == 64,
            pos.board()[from.idx()] == Some(Piece { side: pos.state.active_side, kind: PieceKind::Pawn }),
            from != to,
            match captured {
                Some(k) => pos.board()[to.idx()] == Some(Piece { side: pos.state.active_side.opp(), kind: k }),
                None => pos.board()[to.idx()] is None,
            },
            forall|i: int| 0 <= i < old(moves).len() ==> move_fits(pos.board(), pos.state, #[trigger] old(moves)[i]),
        ensures
            forall|i: int| 0 <= i < final(moves).len() ==> move_fits(pos.board(), pos.state, #[trigger] final(moves)[i]),
            final(moves)@.len() == old(moves)@.len() + 4,
            forall|i: int| 0 <= i < old(moves).len() ==> final(moves)[i] == old(moves)[i],
            forall|i: int| old(moves).len() <= i < final(moves).len() ==> promo_move_is(#[trigger] final(moves)[i], from, to, captured),
            forall|m: Move| #[trigger] promo_move_is(m, from, to, captured) ==> exists|i: int| old(moves).len() <= i < final(moves).len() && final(moves)[i] == m,
            distinct_after(final(moves)@, old(moves)@.len() as int),
    {
        let kinds = [PieceKind::Queen, PieceKind::Rook, PieceKind::Bishop, PieceKind::Knight];
        let ghost start = moves.len();
        let mut i: usize = 0;
        while i < 4
            invariant
                pos.board().len() == 64,
                pos.board()[from.idx()] == Some(Piece { side: pos.state.active_side, kind: PieceKind::Pawn }),
                from != to,
                match captured {
                    Some(k) => pos.board()[to.idx()] == Some(Piece { side: pos.state.active_side.opp(), kind: k }),
                    None => pos.board()[to.idx()] is None,
                },
                forall|j: int| 0 <= j < 4 ==> kinds[j] != PieceKind::Pawn && kinds[j] != PieceKind::King,
                i <= 4,
                moves@.len() == start + i,
                forall|j: int| 0 <= j < start ==> moves[j] == old(moves)[j],
                forall|j: int| 0 <= j < moves.len() ==> move_fits(pos.board(), pos.state, #[trigger] moves[j]),
                kinds@ == seq![PieceKind::Queen, PieceKind::Rook, PieceKind::Bishop, PieceKind::Knight],
                forall|j: int| start <= j < moves.len() ==> promo_move_is(#[trigger] moves[j], from, to, captured)
                    && moves[j].promo() == Some(kinds[j - start]),
            decreases 4 - i,
        {
            let m = Move::new(from, to, PieceKind::Pawn, Some(kinds[i]), captured, false, false);
            proof {
                lemma_promo_move_fits(pos.board(), pos.state, m);
            }
            moves.push(m);
            i = i + 1;
        }
        proof {
            assert forall|m: Move| #[trigger] promo_move_is(m, from, to, captured) implies exists|i: int| start <= i < moves.len() && moves[i] == m by {
                let k = m.promo()->0;
                let j: int = if k == PieceKind::Queen { 0 } else if k == PieceKind::Rook { 1 } else if k == PieceKind::Bishop { 2 } else { 3 };
                assert(kinds[j] == k);
                Move::lemma_move_ext(moves[start + j], m);
            }
        }
    }

    /// The moves of the pawn on `from` to `to`, taking `captured`: the four
    /// promotions on the last rank, else the one plain move.
    fn push_pawn_moves_to(moves: &mut Vec<Move>, pos: &Position, from: Square, to: Square, captured: Option<PieceKind>, last: usize)
        requires
            pos.board().len() == 64,
            pos.board()[from.idx()] == Some(Piece { side: pos.state.active_side, kind: PieceKind::Pawn }),
            from != to,
            last == promotion_rank(pos.state.active_side),
            match captured {
                Some(k) => pos.board()[to.idx()] == Some(Piece { side: pos.state.active_side.opp(), kind: k }),
                None => pos.board()[to.idx()] is None,
            },
            forall|i: int| 0 <= i < old(moves).len() ==> move_fits(pos.board(), pos.state, #[trigger] old(moves)[i]),
        ensures
            forall|i: int| 0 <= i < final(moves).len() ==> move_fits(pos.board(), pos.state, #[trigger] final(moves)[i]),
            final(moves)@.len() >= old(moves)@.len(),
            forall|i: int| 0 <= i < old(moves).len() ==> final(moves)[i] == old(moves)[i],
            forall|i: int| old(moves).len() <= i < final(moves).len() ==> pawn_target_move(pos.state.active_side, #[trigger] final(moves)[i], from, to, captured),
            forall|m: Move| #[trigger] pawn_target_move(pos.state.active_side, m, from, to, captured) ==> exists|i: int| old(moves).len() <= i < final(moves).len() && final(moves)[i] == m,
            distinct_after(final(moves)@, old(moves)@.len() as int),
    {
        let ghost start = moves@.len();
        if to.index() / 8 == last {
            MoveGen::push_promotions(moves, pos, from, to, captured);
            proof {
                assert forall|m: Move| #[trigger] pawn_target_move(pos.state.active_side, m, from, to, captured) implies exists|i: int| start <= i < moves.len() && moves[i] == m by {
                    assert(promo_move_is(m, from, to, captured));
                }
            }
        } else {
            let m = Move::new(from, to, PieceKind::Pawn, None, captured, false, false);
            proof {
                match captured {
                    Some(k) => {},
                    None => {},
                }
                lemma_plain_move_fits(pos.board(), pos.state, m);
            }
            moves.push(m);
            proof {
                assert forall|m2: Move| #[trigger] pawn_target_move(pos.state.active_side, m2, from, to, captured) implies exists|i: int| start <= i < moves.len() && moves[i] == m2 by {
                    Move::lemma_move_ext(moves[start as int], m2);
                }
            }
        }
    }

    /// The single and double pushes of the pawn on `from`, with promotions.
    fn append_pawn_pushes(moves: &mut Vec<Move>, pos: &Position, from: Square)
        requires
            pos.bb_ok(),
            pos.board()[from.idx()] == Some(Piece { side: pos.state.active_side, kind: PieceKind::Pawn }),
            forall|i: int| 0 <= i < old(moves).len() ==> move_fits(pos.board(), pos.state, #[trigger] old(moves)[i]),
        ensures
            forall|i: int| 0 <= i < final(moves).len() ==> move_fits(pos.board(), pos.state, #[trigger] final(moves)[i]),
            forall|i: int| 0 <= i < old(moves).len() ==> final(moves)[i] == old(moves)[i],
            final(moves)@.len() >= old(moves)@.len(),
            forall|i: int| old(moves).len() <= i < final(moves).len() ==> pawn_move_ok(pos, #[trigger] final(moves)[i]) && final(moves)[i].from_sq() == from,
            forall|m: Move| #[trigger] pawn_move_ok(pos, m) && m.from_sq() == from && !m.is_en_passant() && pos.board()[m.to_sq().idx()] is None
                ==> final(moves)@.contains(m),
            distinct_after(final(moves)@, old(moves)@.len() as int),
            forall|i: int| old(moves).len() <= i < final(moves).len() ==> !(#[trigger] final(moves)[i]).is_en_passant()
                && pos.board()[final(moves)[i].to_sq().idx()] is None,
    {
        let ghost b = pos.board();
        let ghost start = moves@.len();
        let side = pos.state.active_side;
        let fi = from.index();
        let rank = fi / 8;
        let (can_push, one_idx, last_rank, start_rank, two_idx) = match side {
            Side::White => (rank < 7, fi + 8, 7usize, 1usize, fi + 16),
            Side::Black => (rank > 0, if fi >= 8 { fi - 8 } else { 0 }, 0usize, 6usize, if fi >= 16 { fi - 16 } else { 0 }),
        };
        if can_push {
            let one = Square::from_index(one_idx);
            if pos.piece_by_square.get(one).is_none() {
                MoveGen::push_pawn_moves_to(moves, pos, from, one, None, last_rank);
                let ghost mid = moves@;
                proof {
                    assert forall|i: int| start <= i < mid.len() implies pawn_move_ok(pos, #[trigger] mid[i]) && mid[i].from_sq() == from by {
                        assert(pawn_target_move(side, mid[i], from, one, None));
                    }
                    assert forall|i: int| start <= i < mid.len() implies !(#[trigger] mid[i]).is_en_passant()
                        && b[mid[i].to_sq().idx()] is None && mid[i].to_sq() == one by {
                        assert(pawn_target_move(side, mid[i], from, one, None));
                    }
                }
                if rank == start_rank {
                    let two = Square::from_index(two_idx);
                    if pos.piece_by_square.get(two).is_none() {
                        let m = Move::new(from, two, PieceKind::Pawn, None, None, false, false);
                        proof {
                            lemma_plain_move_fits(pos.board(), pos.state, m);
                            assert(pawn_move_ok(pos, m));
                        }
                        moves.push(m);
                        proof {
                            assert(two_idx != one_idx);
                            assert forall|i: int, j: int| start <= i < j < moves.len() implies #[trigger] moves@[i] != #[trigger] moves@[j] by {
                                if j == mid.len() {
                                    assert(moves@[i] == mid[i]);
                                    assert(mid[i].to_sq() == one);
                                } else {
                                    assert(moves@[i] == mid[i] && moves@[j] == mid[j]);
                                }
                            }
                        }
                    }
                }
                proof {
                    assert forall|m: Move| #[trigger] pawn_move_ok(pos, m) && m.from_sq() == from && !m.is_en_passant() && b[m.to_sq().idx()] is None implies moves@.contains(m) by {
                        let t = m.to_sq().idx();
                        if single_push(side, fi as int, t) {
                            lemma_square_idx_inj(m.to_sq(), one);
                            assert(pawn_target_move(side, m, from, one, None));
                            let i = choose|i: int| start <= i < mid.len() && mid[i] == m;
                            assert(moves@[i] == m);
                        } else {
                            assert(moves@.len() == mid.len() + 1);
                            lemma_square_idx_inj(m.to_sq(), moves@[mid.len() as int].to_sq());
                            Move::lemma_move_ext(moves@[mid.len() as int], m);
                            assert(moves@[mid.len() as int] == m);
                        }
                    }
                }
            }
        }
    }

    /// The diagonal captures of the pawn on `from`, with promotions.
    fn append_pawn_captures(moves: &mut Vec<Move>, pos: &Position, from: Square)
        requires
            pos.bb_ok(),
            pos.board()[from.idx()] == Some(Piece { side: pos.state.active_side, kind: PieceKind::Pawn }),
            forall|i: int| 0 <= i < old(moves).len() ==> move_fits(pos.board(), pos.state, #[trigger] old(moves)[i]),
        ensures
            forall|i: int| 0 <= i < final(moves).len() ==> move_fits(pos.board(), pos.state, #[trigger] final(moves)[i]),
            forall|i: int| 0 <= i < old(moves).len() ==> final(moves)[i] == old(moves)[i],
            final(moves)@.len() >= old(moves)@.len(),
            forall|i: int| old(moves).len() <= i < final(moves).len() ==> pawn_move_ok(pos, #[trigger] final(moves)[i]) && final(moves)[i].from_sq() == from,
            forall|m: Move| #[trigger] pawn_move_ok(pos, m) && m.from_sq() == from && !m.is_en_passant() && pos.board()[m.to_sq().idx()] is Some
                ==> final(moves)@.contains(m),
            distinct_after(final(moves)@, old(moves)@.len() as int),
            forall|i: int| old(moves).len() <= i < final(moves).len() ==> !(#[trigger] final(moves)[i]).is_en_passant()
                && pos.board()[final(moves)[i].to_sq().idx()] is Some,
    {
        let ghost b = pos.board();
        let side = pos.state.active_side;
        let last_rank: usize = match side {
            Side::White => 7,
            Side::Black => 0,
        };
        let their = pos.sides_pieces.get(side.other()).0;
        let attacks = pawn_attacks(side, from.bitboard().0);
        let captures = Bitboard(attacks & their).iter_squares();
        let mut j: usize = 0;
        while j < captures.len()
            invariant
                pos.bb_ok(),
                b == pos.board(),
                side == pos.state.active_side,
                last_rank == promotion_rank(side),
                their == side_bits(pos.board(), side.opp(), 64),
                attacks == pawn_attack_bits(side, sq_bit(from.idx())),
                pos.board()[from.idx()] == Some(Piece { side: pos.state.active_side, kind: PieceKind::Pawn }),
                forall|t: int| 0 <= t < 64 ==> (Bitboard(attacks & their).has(t) <==> exists|i: int| 0 <= i < captures.len() && captures[i].idx() == t),
                forall|i: int| 0 <= i < moves.len() ==> move_fits(pos.board(), pos.state, #[trigger] moves[i]),
                forall|i: int| 0 <= i < old(moves).len() ==> moves[i] == old(moves)[i],
                moves@.len() >= old(moves)@.len(),
                forall|i: int| old(moves).len() <= i < moves.len() ==> pawn_move_ok(pos, #[trigger] moves[i]) && moves[i].from_sq() == from,
                forall|m: Move| #[trigger] pawn_move_ok(pos, m) && m.from_sq() == from && !m.is_en_passant() && b[m.to_sq().idx()] is Some
                    && (exists|c: int| 0 <= c < j && captures[c] == m.to_sq()) ==> moves@.contains(m),
                j <= captures.len(),
                forall|a: int, c: int| 0 <= a < c < captures.len() ==> captures[a].idx() < captures[c].idx(),
                distinct_after(moves@, old(moves)@.len() as int),
                forall|i: int| old(moves).len() <= i < moves.len() ==> !(#[trigger] moves[i]).is_en_passant()
                    && b[moves[i].to_sq().idx()] is Some
                    && exists|c: int| 0 <= c < j && captures[c] == moves[i].to_sq(),
            decreases captures.len() - j,
        {
            let to = captures[j];
            proof {
                assert(Bitboard(attacks & their).has(to.idx()));
                lemma_has_sq_ops(attacks, their, to.idx());
                lemma_side_bits(pos.board(), side.opp(), 64, to.idx());
            }
            let captured = match pos.piece_by_square.get(to) {
                Some(p) => Some(p.kind),
                None => None,
            };
            assert(from != to);
            let ghost before = moves@;
            MoveGen::push_pawn_moves_to(moves, pos, from, to, captured, last_rank);
            proof {
                assert forall|i: int| before.len() <= i < moves.len() implies pawn_move_ok(pos, #[trigger] moves[i]) && moves[i].from_sq() == from by {
                    assert(pawn_target_move(side, moves[i], from, to, captured));
                }
                assert forall|i: int| old(moves).len() <= i < moves.len() implies !(#[trigger] moves[i]).is_en_passant()
                    && b[moves[i].to_sq().idx()] is Some
                    && exists|c: int| 0 <= c < j + 1 && captures[c] == moves[i].to_sq() by {
                    if i >= before.len() {
                        assert(pawn_target_move(side, moves[i], from, to, captured));
                        assert(captures[j as int] == moves[i].to_sq());
                    } else {
                        assert(moves[i] == before[i]);
                    }
                }
                assert forall|i: int, k: int| old(moves).len() <= i < k < moves.len() implies #[trigger] moves@[i] != #[trigger] moves@[k] by {
                    if k >= before.len() && i < before.len() {
                        assert(moves@[i] == before[i]);
                        let c = choose|c: int| 0 <= c < j && captures[c] == before[i].to_sq();
                        assert(pawn_target_move(side, moves[k], from, to, captured));
                        assert(captures[c].idx() < captures[j as int].idx());
                    } else if k < before.len() {
                        assert(moves@[i] == before[i] && moves@[k] == before[k]);
                    }
                }
                assert forall|m: Move| #[trigger] pawn_move_ok(pos, m) && m.from_sq() == from && !m.is_en_passant() && b[m.to_sq().idx()] is Some
                    && (exists|c: int| 0 <= c < j + 1 && captures[c] == m.to_sq()) implies moves@.contains(m) by {
                    if m.to_sq() == to {
                        assert(pawn_target_move(side, m, from, to, captured));
                    } else {
                        assert(before.contains(m));
                        let i = choose|i: int| 0 <= i < before.len() && before[i] == m;
                        assert(moves@[i] == m);
                    }
                }
            }
            j = j + 1;
        }
        proof {
            assert forall|m: Move| #[trigger] pawn_move_ok(pos, m) && m.from_sq() == from && !m.is_en_passant() && b[m.to_sq().idx()] is Some
                implies moves@.contains(m) by {
                let t = m.to_sq().idx();
                lemma_has_sq_ops(attacks, their, t);
                lemma_side_bits(pos.board(), side.opp(), 64, t);
                assert(Bitboard(attacks & their).has(t));
                let c = choose|c: int| 0 <= c < captures.len() && captures[c].idx() == t;
                lemma_square_idx_inj(captures[c], m.to_sq());
            }
        }
    }

    /// Pushes, double pushes, captures, promotions and en passant of the pawn on `from`.
    fn append_pawn_moves(&self, moves: &mut Vec<Move>, pos: &Position, from: Square)
        requires
            self.wf(),
            pos.bb_ok(),
            pos.board()[from.idx()] == Some(Piece { side: pos.state.active_side, kind: PieceKind::Pawn }),
            forall|i: int| 0 <= i < old(moves).len() ==> move_fits(pos.board(), pos.state, #[trigger] old(moves)[i]),
        ensures
            forall|i: int| 0 <= i < final(moves).len() ==> move_fits(pos.board(), pos.state, #[trigger] final(moves)[i]),
            forall|i: int| 0 <= i < old(moves).len() ==> final(moves)[i] == old(moves)[i],
            final(moves)@.len() >= old(moves)@.len(),
            forall|i: int| old(moves).len() <= i < final(moves).len() ==> pawn_move_ok(pos, #[trigger] final(moves)[i]) && final(moves)[i].from_sq() == from,
            forall|m: Move| #[trigger] pawn_move_ok(pos, m) && m.from_sq() == from ==> final(moves)@.contains(m),
            distinct_after(final(moves)@, old(moves)@.len() as int),
    {
        let ghost b = pos.board();
        let ghost start = moves@.len();
        let side = pos.state.active_side;
        MoveGen::append_pawn_pushes(moves, pos, from);
        let ghost a1 = moves@;
        MoveGen::append_pawn_captures(moves, pos, from);
        let ghost a2 = moves@;
        let attacks = pawn_attacks(side, from.bitboard().0);
        if let Some(e) = pos.state.en_passant {
            if (attacks & e.bitboard().0) != 0 && pos.piece_by_square.get(e).is_none() {
                let victim = Square::from_coords(e.file(), from.rank());
                let here = pos.piece_by_square.get(victim);
                let victim_is_pawn = match here {
                    Some(p) => p.side == side.other() && p.kind == PieceKind::Pawn,
                    None => false,
                };
                if victim != from && victim != e && e != from && victim_is_pawn {
                    let m = Move::new(from, e, PieceKind::Pawn, None, None, false, true);
                    proof {
                        lemma_sq_at(ep_victim_idx(m));
                        assert(sq_at(ep_victim_idx(m)) == victim);
                        lemma_ep_move_fits(pos.board(), pos.state, m);
                        assert(pawn_move_ok(pos, m));
                    }
                    moves.push(m);
                }
            }
        }
        proof {
            assert forall|i: int, k: int| start <= i < k < moves.len() implies #[trigger] moves@[i] != #[trigger] moves@[k] by {
                if k >= a2.len() {
                    assert(moves@[i] == a2[i]);
                    if i >= a1.len() {
                    } else {
                        assert(a2[i] == a1[i]);
                    }
                } else if k >= a1.len() {
                    assert(moves@[i] == a2[i] && moves@[k] == a2[k]);
                    if i < a1.len() {
                        assert(a2[i] == a1[i]);
                    }
                } else {
                    assert(moves@[i] == a1[i] && moves@[k] == a1[k]);
                }
            }
            assert forall|m: Move| #[trigger] pawn_move_ok(pos, m) && m.from_sq() == from implies moves@.contains(m) by {
                if m.is_en_passant() {
                    let e = pos.state.en_passant->0;
                    assert(moves@.len() == a2.len() + 1);
                    Move::lemma_move_ext(moves@[a2.len() as int], m);
                } else if b[m.to_sq().idx()] is None {
                    let i = choose|i: int| 0 <= i < a1.len() && a1[i] == m;
                    assert(moves@[i] == m);
                } else {
                    let i = choose|i: int| 0 <= i < a2.len() && a2[i] == m;
                    assert(moves@[i] == m);
                }
            }
        }
    }

    /// Castling moves whose right is held, with king and rook on their home
    /// squares and the squares between them empty. Attacked squares are left
    /// for [`Position::make_move`] to refuse.
    fn append_castling_moves(&self, moves: &mut Vec<Move>, pos: &Position)
        requires
            pos.bb_ok(),
            forall|i: int| 0 <= i < old(moves).len() ==> move_fits(pos.board(), pos.state, #[trigger] old(moves)[i]),
        ensures
            forall|i: int| 0 <= i < final(moves).len() ==> move_fits(pos.board(), pos.state, #[trigger] final(moves)[i]),
            forall|i: int| 0 <= i < old(moves).len() ==> final(moves)[i] == old(moves)[i],
            final(moves)@.len() >= old(moves)@.len(),
            forall|i: int| old(moves).len() <= i < final(moves).len() ==> castle_move_ok(pos, #[trigger] final(moves)[i]),
            forall|m: Move| #[trigger] castle_move_ok(pos, m) ==> final(moves)@.contains(m),
            distinct_after(final(moves)@, old(moves)@.len() as int),
    {
        let side = pos.state.active_side;
        let dirs = CastlingDirection::for_side(side);
        let mut k: usize = 0;
        while k < 2
            invariant
                pos.bb_ok(),
                side == pos.state.active_side,
                forall|j: int| 0 <= j < 2 ==> (#[trigger] dirs[j]).spec_side() == side,
                forall|i: int| 0 <= i < moves.len() ==> move_fits(pos.board(), pos.state, #[trigger] moves[i]),
                forall|i: int| 0 <= i < old(moves).len() ==> moves[i] == old(moves)[i],
                moves@.len() >= old(moves)@.len(),
                k <= 2,
                forall|i: int| old(moves).len() <= i < moves.len() ==> castle_move_ok(pos, #[trigger] moves[i]),
                forall|m: Move| #[trigger] castle_move_ok(pos, m) && (exists|c: int| 0 <= c < k && CastlingDirection::spec_direction(m.from_sq(), m.to_sq()) == Some(dirs[c]))
                    ==> moves@.contains(m),
                distinct_after(moves@, old(moves)@.len() as int),
                forall|i: int| old(moves).len() <= i < moves.len() ==> exists|c: int| 0 <= c < k
                    && (#[trigger] moves[i]).to_sq() == dirs[c].spec_king_to(),
                dirs[0].spec_king_to() != dirs[1].spec_king_to(),
            decreases 2 - k,
        {
            let d = dirs[k];
            let ghost before = moves@;
            let king_from = d.king_from();
            let rook_from = d.rook_from();
            let king_ok = match pos.piece_by_square.get(king_from) {
                Some(p) => p.side == side && p.kind == PieceKind::King,
                None => false,
            };
            let rook_ok = match pos.piece_by_square.get(rook_from) {
                Some(p) => p.side == side && p.kind == PieceKind::Rook,
                None => false,
            };
            if pos.state.castling.has_rights(d) && king_ok && rook_ok {
                let empties = d.empty_squares();
                let mut clear = true;
                let mut i: usize = 0;
                while i < empties.len()
                    invariant
                        i <= empties.len(),
                        empties@ == d.spec_empty(),
                        clear ==> forall|j: int| 0 <= j < i ==> pos.board()[(#[trigger] empties[j]).idx()] is None,
                        !clear ==> exists|j: int| 0 <= j < i && pos.board()[(#[trigger] empties[j]).idx()] is Some,
                    decreases empties.len() - i,
                {
                    if pos.piece_by_square.get(empties[i]).is_some() {
                        clear = false;
                    }
                    i = i + 1;
                }
                if clear {
                    let m = Move::new(king_from, d.king_to(), PieceKind::King, None, None, true, false);
                    proof {
                        assert(pos.board()[d.spec_king_to().idx()] is None) by {
                            match d {
                                CastlingDirection::WK => assert(empties[1] == Square::G1),
                                CastlingDirection::WQ => assert(empties[1] == Square::C1),
                                CastlingDirection::BK => assert(empties[1] == Square::G8),
                                CastlingDirection::BQ => assert(empties[1] == Square::C8),
                            }
                        }
                        assert(pos.board()[d.spec_rook_to().idx()] is None) by {
                            match d {
                                CastlingDirection::WK => assert(empties[0] == Square::F1),
                                CastlingDirection::WQ => assert(empties[0] == Square::D1),
                                CastlingDirection::BK => assert(empties[0] == Square::F8),
                                CastlingDirection::BQ => assert(empties[0] == Square::D8),
                            }
                        }
                        lemma_castle_move_fits(pos.board(), pos.state, m, d);
                        assert(castle_move_ok(pos, m));
                    }
                    moves.push(m);
                }
            }
            proof {
                assert forall|m: Move| #[trigger] castle_move_ok(pos, m) && (exists|c: int| 0 <= c < k + 1 && CastlingDirection::spec_direction(m.from_sq(), m.to_sq()) == Some(dirs[c]))
                    implies moves@.contains(m) by {
                    if CastlingDirection::spec_direction(m.from_sq(), m.to_sq()) == Some(d) {
                        assert(castle_dir_open(pos, d));
                        assert(moves@.len() == before.len() + 1);
                        Move::lemma_move_ext(moves@[before.len() as int], m);
                    } else {
                        let i = choose|i: int| 0 <= i < before.len() && before[i] == m;
                        assert(moves@[i] == m);
                    }
                }
            }
            k = k + 1;
        }
    }
}

/// Each step of the ray from `cur` in direction `d` after which the ray could
/// go on lands on a square of `mask`: only those squares can stop it early.
pub open spec fn ray_within(cur: u64, d: PieceMove, mask: u64, fuel: nat) -> bool
    decreases fuel,
{
    if fuel == 0 || cur & d.impossible.0 != 0 {
        true
    } else {
        let nxt = shift_by(cur, d.offset);
        (nxt & d.impossible.0 != 0 || nxt & !mask == 0) && ray_within(nxt, d, mask, (fuel - 1) as nat)
    }
}

/// A ray whose continuing steps lie in `mask` sees only the blockers under `mask`.
proof fn lemma_ray_masked(cur: u64, d: PieceMove, occ: u64, mask: u64, fuel: nat)
    requires
        ray_within(cur, d, mask, fuel),
    ensures
        ray(cur, d, occ, fuel) == ray(cur, d, occ & mask, fuel),
    decreases fuel,
{
    if fuel > 0 && cur & d.impossible.0 == 0 {
        let nxt = shift_by(cur, d.offset);
        lemma_ray_masked(nxt, d, occ, mask, (fuel - 1) as nat);
        lemma_ray_bits(0, nxt, 0, 0, 0, occ, mask, 0, 0);
    }
}

/// The ray from `cur` stays within `mask` when every step from the line `l`
/// that the ray could continue from lands in `mask` and on `l`, and the ray
/// on an empty board lies within `mv`, the set those steps are drawn from.
proof fn lemma_ray_within_steps(cur: u64, d: PieceMove, mask: u64, fuel: nat, mv: u64, l: u64)
    requires
        cur & !l == 0,
        ray(cur, d, 0, fuel) & !mv == 0,
        forall|x: u64| #![trigger shift_by(x, d.offset)] x & d.impossible.0 == 0 && x & !l == 0
            && shift_by(x, d.offset) & d.impossible.0 == 0 && shift_by(x, d.offset) & !mv == 0
            ==> shift_by(x, d.offset) & !mask == 0 && shift_by(x, d.offset) & !l == 0,
    ensures
        ray_within(cur, d, mask, fuel),
    decreases fuel,
{
    if fuel > 0 && cur & d.impossible.0 == 0 {
        let nxt = shift_by(cur, d.offset);
        let rest = ray(nxt, d, 0, (fuel - 1) as nat);
        lemma_ray_bits(nxt, rest, mv, 0, 0, 0, 0, 0, 0);
        lemma_ray_bits(0, nxt, 0, 0, 0, 0, 0, 0, 0);
        assert(ray(cur, d, 0, fuel) == nxt | rest);
        assert(nxt & !mv == 0);
        if nxt & d.impossible.0 == 0 {
            assert(nxt & !mask == 0 && nxt & !l == 0);
            lemma_ray_within_steps(nxt, d, mask, (fuel - 1) as nat, mv, l);
            assert(ray_within(nxt, d, mask, (fuel - 1) as nat));
        } else {
            assert(ray_within(nxt, d, mask, (fuel - 1) as nat));
        }
    }
}

/// A ray in one of the directions is part of the union of the rays.
proof fn lemma_ray_in_rays(from: u64, ds: Seq<PieceMove>, b: u64, i: int)
    requires
        0 <= i < ds.len(),
    ensures
        ray(from, ds[i], b, 7) & !rays(from, ds, b) == 0,
    decreases ds.len(),
{
    let r = ray(from, ds[i], b, 7);
    let front = rays(from, ds.drop_last(), b);
    if i == ds.len() - 1 {
        lemma_ray_bits(r, front, r, 0, 0, 0, 0, 0, 0);
    } else {
        lemma_ray_in_rays(from, ds.drop_last(), b, i);
        assert(ds.drop_last()[i] == ds[i]);
        lemma_ray_bits(r, ray(from, ds.last(), b, 7), front, 0, 0, 0, 0, 0, 0);
    }
}

/// Rays that each see only the blockers under `mask` make a union that does too.
proof fn lemma_rays_masked(from: u64, ds: Seq<PieceMove>, occ: u64, mask: u64)
    requires
        forall|i: int| 0 <= i < ds.len() ==> ray(from, #[trigger] ds[i], occ, 7) == ray(from, ds[i], occ & mask, 7),
    ensures
        rays(from, ds, occ) == rays(from, ds, occ & mask),
    decreases ds.len(),
{
    if ds.len() > 0 {
        assert forall|i: int| 0 <= i < ds.drop_last().len() implies ray(from, #[trigger] ds.drop_last()[i], occ, 7)
            == ray(from, ds.drop_last()[i], occ & mask, 7) by {
            assert(ds.drop_last()[i] == ds[i]);
        }
        lemma_rays_masked(from, ds.drop_last(), occ, mask);
        assert(ds.last() == ds[ds.len() - 1]);
    }
}

/// Every rook ray from `sq` is stopped early only by blockers under the
/// rook's blocker mask.
proof fn lemma_rook_ray_within(sq: int, j: int)
    requires
        0 <= sq < 64,
        0 <= j < 4,
    ensures
        ray_within(sq_bit(sq), rook_dirs()[j], blocker_mask_of(SlidingPieceKind::Rook, sq), 7),
{
    let d = rook_dirs()[j];
    let mv = moves_from(sq, IndexedPieceKind::Rook, 0);
    let mask = blocker_mask_of(SlidingPieceKind::Rook, sq);
    let fs = (sq % 8) as u64;
    let rsh = (8 * (sq / 8)) as u64;
    let rank_part = if sq / 8 == 0 || sq / 8 == 7 { rank_bits(sq / 8) } else { 0u64 };
    let file_part = if sq % 8 == 0 || sq % 8 == 7 { file_bits(sq % 8) } else { 0u64 };
    let side = rank_part | file_part;
    let l = if j < 2 { file_bits(sq % 8) } else { rank_bits(sq / 8) };
    lemma_ray_bits(0, 0, 0, 0, 0, 0, 0, sq as u64, 0);
    assert((sq % 8) as u64 == (sq as u64) % 8);
    assert((8 * (sq / 8)) as u64 == 8 * ((sq as u64) / 8));
    assert(sq_bit(sq) & !l == 0);
    lemma_ray_in_rays(sq_bit(sq), rook_dirs(), 0, j);
    assert(mask == ((mv & !0xff81_8181_8181_81ffu64) | side) & !0x8100_0000_0000_0081u64);
    assert forall|x: u64| #![trigger shift_by(x, d.offset)] x & d.impossible.0 == 0 && x & !l == 0
        && shift_by(x, d.offset) & d.impossible.0 == 0 && shift_by(x, d.offset) & !mv == 0
        implies shift_by(x, d.offset) & !mask == 0 && shift_by(x, d.offset) & !l == 0 by {
        let n = shift_by(x, d.offset);
        lemma_ray_bits(0, 0, 0, 0, 0, 0, 0, 0, 0);
        if j == 0 {
            assert(n == x << 8u64);
        } else if j == 1 {
            assert(n == x >> 8u64);
        } else if j == 2 {
            assert(n == x << 1u64);
        } else {
            assert(n == x >> 1u64);
        }
        lemma_ray_bits(x, n, mv, side, l, 0, 0, fs, rsh);
        if j < 2 {
            lemma_ray_bits(x, n, mv, rank_part, l, 0, 0, fs, rsh);
        } else {
            lemma_ray_bits(x, n, mv, file_part, l, 0, 0, fs, rsh);
        }
    }
    lemma_ray_within_steps(sq_bit(sq), d, mask, 7, mv, l);
}

/// Every bishop ray from `sq` is stopped early only by blockers under the
/// bishop's blocker mask.
proof fn lemma_bishop_ray_within(sq: int, j: int)
    requires
        0 <= sq < 64,
        0 <= j < 4,
    ensures
        ray_within(sq_bit(sq), bishop_dirs()[j], blocker_mask_of(SlidingPieceKind::Bishop, sq), 7),
{
    let d = bishop_dirs()[j];
    let mv = moves_from(sq, IndexedPieceKind::Bishop, 0);
    let mask = blocker_mask_of(SlidingPieceKind::Bishop, sq);
    let l = 0xffff_ffff_ffff_ffffu64;
    lemma_ray_bits(0, sq_bit(sq), 0, 0, 0, 0, 0, 0, 0);
    lemma_ray_in_rays(sq_bit(sq), bishop_dirs(), 0, j);
    assert(mask == mv & !0xff81_8181_8181_81ffu64);
    assert forall|x: u64| #![trigger shift_by(x, d.offset)] x & d.impossible.0 == 0 && x & !l == 0
        && shift_by(x, d.offset) & d.impossible.0 == 0 && shift_by(x, d.offset) & !mv == 0
        implies shift_by(x, d.offset) & !mask == 0 && shift_by(x, d.offset) & !l == 0 by {
        let n = shift_by(x, d.offset);
        lemma_ray_bits(0, 0, 0, 0, 0, 0, 0, 0, 0);
        if j == 0 {
            assert(n == x << 7u64);
        } else if j == 1 {
            assert(n == x << 9u64);
        } else if j == 2 {
            assert(n == x >> 9u64);
        } else {
            assert(n == x >> 7u64);
        }
        lemma_ray_bits(x, n, mv, 0, l, 0, 0, 0, 0);
    }
    lemma_ray_within_steps(sq_bit(sq), d, mask, 7, mv, l);
}

/// Only the blockers under a slider's blocker mask change its moves.
proof fn lemma_mask_relevant(spk: SlidingPieceKind, sq: int, occ: u64)
    requires
        0 <= sq < 64,
    ensures
        moves_from(sq, ipk_of(spk), occ & blocker_mask_of(spk, sq)) == moves_from(sq, ipk_of(spk), occ),
{
    let mask = blocker_mask_of(spk, sq);
    let ds = dirs_of(ipk_of(spk));
    assert forall|i: int| 0 <= i < ds.len() implies ray(sq_bit(sq), #[trigger] ds[i], occ, 7)
        == ray(sq_bit(sq), ds[i], occ & mask, 7) by {
        match spk {
            SlidingPieceKind::Rook => lemma_rook_ray_within(sq, i),
            SlidingPieceKind::Bishop => lemma_bishop_ray_within(sq, i),
        }
        lemma_ray_masked(sq_bit(sq), ds[i], occ, mask, 7);
    }
    lemma_rays_masked(sq_bit(sq), ds, occ, mask);
}

/// A square reached by single steps is reached by one of them.
proof fn lemma_jumps_has(from: u64, ds: Seq<PieceMove>, t: int)
    requires
        0 <= t < 64,
        has_sq(jumps(from, ds), t),
    ensures
        exists|i: int| 0 <= i < ds.len() && from & (#[trigger] ds[i]).impossible.0 == 0 && has_sq(shift_by(from, ds[i].offset), t),
    decreases ds.len(),
{
    if ds.len() == 0 {
        lemma_has_sq_zero(t);
    } else {
        let last_step = if from & ds.last().impossible.0 != 0 { 0u64 } else { shift_by(from, ds.last().offset) };
        lemma_has_sq_ops(jumps(from, ds.drop_last()), last_step, t);
        if has_sq(jumps(from, ds.drop_last()), t) {
            lemma_jumps_has(from, ds.drop_last(), t);
            let i = choose|i: int| 0 <= i < ds.drop_last().len() && from & (#[trigger] ds.drop_last()[i]).impossible.0 == 0
                && has_sq(shift_by(from, ds.drop_last()[i].offset), t);
            assert(ds.drop_last()[i] == ds[i]);
        } else {
            lemma_has_sq_zero(t);
            assert(ds.last() == ds[ds.len() - 1]);
        }
    }
}

/// One step of `off` from square `s` lands on `t` only if `t` is `s + off`.
proof fn lemma_step_lands(s: int, off: i8, t: int)
    requires
        0 <= s < 64,
        0 <= t < 64,
        -64 < off < 64,
        has_sq(shift_by(sq_bit(s), off), t),
    ensures
        t == s + off,
{
    if off > 0 {
        lemma_ray_bits(0, 0, 0, 0, 0, 0, 0, s as u64, off as u64);
        if s + off < 64 {
            lemma_sq_bit_distinct(s + off, t);
        } else {
            lemma_has_sq_zero(t);
        }
    } else {
        let k = (-off) as u64;
        lemma_ray_bits(0, 0, 0, 0, 0, 0, 0, s as u64, k);
        if k as int <= s {
            lemma_sq_bit_distinct(s - k, t);
        } else {
            lemma_has_sq_zero(t);
        }
    }
}

/// A king's single steps never cover the two files of a castling move.
proof fn lemma_king_step_not_castling(f: int, t: int)
    requires
        0 <= f < 64,
        0 <= t < 64,
        t == f + 2 || t == f - 2,
    ensures
        !has_sq(moves_from(f, IndexedPieceKind::King, 0), t),
{
    if has_sq(moves_from(f, IndexedPieceKind::King, 0), t) {
        let ds = king_dirs();
        lemma_jumps_has(sq_bit(f), ds, t);
        let i = choose|i: int| 0 <= i < ds.len() && sq_bit(f) & (#[trigger] ds[i]).impossible.0 == 0
            && has_sq(shift_by(sq_bit(f), ds[i].offset), t);
        lemma_step_lands(f, ds[i].offset, t);
        assert(ds[i].offset == 8 || ds[i].offset == -8 || ds[i].offset == 1 || ds[i].offset == -1 || ds[i].offset == 7
            || ds[i].offset == 9 || ds[i].offset == -9 || ds[i].offset == -7);
    }
}

/// A pawn's diagonal captures land one file over: never on a push square.
proof fn lemma_pawn_capture_not_push(side: Side, f: int, t: int)
    requires
        0 <= f < 64,
        0 <= t < 64,
        has_sq(pawn_attack_bits(side, sq_bit(f)), t),
    ensures
        !single_push(side, f, t),
        !double_push(side, f, t),
{
    lemma_ray_bits(0, 0, 0, 0, 0, 0, 0, f as u64, t as u64);
}

/// Two pseudo-legal moves with the same squares and promotion are one move:
/// what a client enters names at most one of them.
pub proof fn lemma_pseudo_move_unique(pos: &Position, m1: Move, m2: Move)
    requires
        pos.board().len() == 64,
        pseudo_move(pos, m1),
        pseudo_move(pos, m2),
        m1.from_sq() == m2.from_sq(),
        m1.to_sq() == m2.to_sq(),
        m1.promo() == m2.promo(),
    ensures
        m1 == m2,
{
    let b = pos.board();
    let side = pos.state.active_side;
    let f = m1.from_sq().idx();
    let t = m1.to_sq().idx();
    assert(m1.kind() == m2.kind());
    if m1.is_castling() != m2.is_castling() {
        let (c, p) = if m1.is_castling() { (m1, m2) } else { (m2, m1) };
        assert(piece_move_ok(pos, p));
        lemma_has_sq_ops(moves_from(f, IndexedPieceKind::King, 0), side_bits(b, side, 64), t);
        lemma_king_step_not_castling(f, t);
    }
    if m1.is_en_passant() != m2.is_en_passant() {
        let (e, p) = if m1.is_en_passant() { (m1, m2) } else { (m2, m1) };
        assert(pawn_move_ok(pos, e) && pawn_move_ok(pos, p));
        lemma_pawn_capture_not_push(side, f, t);
    }
    Move::lemma_move_ext(m1, m2);
}

/// Square `s` lies on rank `r` exactly when its bit is in that rank's set,
/// and on file `f` exactly when its bit is in that file's set.
proof fn lemma_square_lines(s: int, r: int, f: int)
    requires
        0 <= s < 64,
        0 <= r < 8,
        0 <= f < 8,
    ensures
        (sq_bit(s) & rank_bits(r) != 0) == (s / 8 == r),
        (sq_bit(s) & file_bits(f) != 0) == (s % 8 == f),
{
    lemma_ray_bits(0, 0, 0, 0, 0, 0, 0, s as u64, r as u64);
    lemma_ray_bits(0, 0, 0, 0, 0, 0, 0, s as u64, f as u64);
    assert((8 * r) as u64 == 8 * (r as u64));
}

/// A king's step: to a different square at most one rank and one file away.
pub open spec fn king_step(s: int, t: int) -> bool {
    &&& t != s
    &&& -1 <= t / 8 - s / 8 <= 1
    &&& -1 <= t % 8 - s % 8 <= 1
}

/// A knight's jump: two ranks and one file away, or one rank and two files.
pub open spec fn knight_jump(s: int, t: int) -> bool {
    let dr = t / 8 - s / 8;
    let df = t % 8 - s % 8;
    ||| (dr == 2 || dr == -2) && (df == 1 || df == -1)
    ||| (dr == 1 || dr == -1) && (df == 2 || df == -2)
}

/// The king's table steps never wrap round the board's edge: each lands on a
/// neighbouring square.
pub proof fn lemma_king_moves_are_steps(s: int, t: int)
    requires
        0 <= s < 64,
        0 <= t < 64,
        has_sq(moves_from(s, IndexedPieceKind::King, 0), t),
    ensures
        king_step(s, t),
{
    let ds = king_dirs();
    lemma_jumps_has(sq_bit(s), ds, t);
    let i = choose|i: int| 0 <= i < ds.len() && sq_bit(s) & (#[trigger] ds[i]).impossible.0 == 0
        && has_sq(shift_by(sq_bit(s), ds[i].offset), t);
    lemma_step_lands(s, ds[i].offset, t);
    lemma_square_lines(s, 0, 0);
    lemma_square_lines(s, 7, 7);
    let x = sq_bit(s);
    lemma_ray_bits(x, rank_bits(7), file_bits(0), 0, 0, 0, 0, 0, 0);
    lemma_ray_bits(x, rank_bits(7), file_bits(7), 0, 0, 0, 0, 0, 0);
    lemma_ray_bits(x, rank_bits(0), file_bits(0), 0, 0, 0, 0, 0, 0);
    lemma_ray_bits(x, rank_bits(0), file_bits(7), 0, 0, 0, 0, 0, 0);
}

/// The knight's table jumps never wrap round the board's edge.
pub proof fn lemma_knight_moves_are_jumps(s: int, t: int)
    requires
        0 <= s < 64,
        0 <= t < 64,
        has_sq(moves_from(s, IndexedPieceKind::Knight, 0), t),
    ensures
        knight_jump(s, t),
{
    let ds = knight_dirs();
    lemma_jumps_has(sq_bit(s), ds, t);
    let i = choose|i: int| 0 <= i < ds.len() && sq_bit(s) & (#[trigger] ds[i]).impossible.0 == 0
        && has_sq(shift_by(sq_bit(s), ds[i].offset), t);
    lemma_step_lands(s, ds[i].offset, t);
    let x = sq_bit(s);
    lemma_square_lines(s, 0, 0);
    lemma_square_lines(s, 1, 1);
    lemma_square_lines(s, 6, 6);
    lemma_square_lines(s, 7, 7);
    if i == 0 {
        lemma_ray_bits(x, rank_bits(7) | rank_bits(6), file_bits(0), 0, 0, 0, 0, 0, 0);
        lemma_ray_bits(x, rank_bits(7), rank_bits(6), 0, 0, 0, 0, 0, 0);
    } else if i == 1 {
        lemma_ray_bits(x, rank_bits(7) | file_bits(0), file_bits(1), 0, 0, 0, 0, 0, 0);
        lemma_ray_bits(x, rank_bits(7), file_bits(0), 0, 0, 0, 0, 0, 0);
    } else if i == 2 {
        lemma_ray_bits(x, rank_bits(0) | file_bits(0), file_bits(1), 0, 0, 0, 0, 0, 0);
        lemma_ray_bits(x, rank_bits(0), file_bits(0), 0, 0, 0, 0, 0, 0);
    } else if i == 3 {
        lemma_ray_bits(x, rank_bits(0) | rank_bits(1), file_bits(0), 0, 0, 0, 0, 0, 0);
        lemma_ray_bits(x, rank_bits(0), rank_bits(1), 0, 0, 0, 0, 0, 0);
    } else if i == 4 {
        lemma_ray_bits(x, rank_bits(0) | rank_bits(1), file_bits(7), 0, 0, 0, 0, 0, 0);
        lemma_ray_bits(x, rank_bits(0), rank_bits(1), 0, 0, 0, 0, 0, 0);
    } else if i == 5 {
        lemma_ray_bits(x, rank_bits(0) | file_bits(7), file_bits(6), 0, 0, 0, 0, 0, 0);
        lemma_ray_bits(x, rank_bits(0), file_bits(7), 0, 0, 0, 0, 0, 0);
    } else if i == 6 {
        lemma_ray_bits(x, rank_bits(7) | file_bits(7), file_bits(6), 0, 0, 0, 0, 0, 0);
        lemma_ray_bits(x, rank_bits(7), file_bits(7), 0, 0, 0, 0, 0, 0);
    } else {
        lemma_ray_bits(x, rank_bits(7) | rank_bits(6), file_bits(7), 0, 0, 0, 0, 0, 0);
        lemma_ray_bits(x, rank_bits(7), rank_bits(6), 0, 0, 0, 0, 0, 0);
    }
}

/// A slide from square `c` towards `t`, one step of `dr` ranks and `df`
/// files at a time and at most `fuel` steps: every step stays on the board
/// (no wrapping round an edge), the slide ends on `t`, and each square it
/// passes before `t` is empty of `blockers`.
pub open spec fn slides_to(c: int, t: int, dr: int, df: int, blockers: u64, fuel: nat) -> bool
    decreases fuel,
{
    if fuel == 0 {
        false
    } else {
        let next = c + 8 * dr + df;
        &&& 0 <= c / 8 + dr < 8
        &&& 0 <= c % 8 + df < 8
        &&& (next == t || (!has_sq(blockers, next) && slides_to(next, t, dr, df, blockers, (fuel - 1) as nat)))
    }
}

/// A rook's reach: a slide along its rank or file.
pub open spec fn rook_slide(s: int, t: int, blockers: u64) -> bool {
    ||| slides_to(s, t, 1, 0, blockers, 7)
    ||| slides_to(s, t, -1, 0, blockers, 7)
    ||| slides_to(s, t, 0, 1, blockers, 7)
    ||| slides_to(s, t, 0, -1, blockers, 7)
}

/// A bishop's reach: a slide along one of its diagonals.
pub open spec fn bishop_slide(s: int, t: int, blockers: u64) -> bool {
    ||| slides_to(s, t, 1, 1, blockers, 7)
    ||| slides_to(s, t, 1, -1, blockers, 7)
    ||| slides_to(s, t, -1, 1, blockers, 7)
    ||| slides_to(s, t, -1, -1, blockers, 7)
}

/// Ranks moved by one step of offset `off`.
pub open spec fn step_dr(off: i8) -> int {
    if off >= 7 {
        1
    } else if off <= -7 {
        -1
    } else {
        0
    }
}

/// Files moved by one step of offset `off`.
pub open spec fn step_df(off: i8) -> int {
    if off == 1 || off == 9 || off == -7 {
        1
    } else if off == -1 || off == -9 || off == 7 {
        -1
    } else {
        0
    }
}

proof fn lemma_slide_bits(x: u64, y: u64, a: u64, c: u64, k: u64)
    by (bit_vector)
    ensures
        x & y == y & x,
        x & (y | a) == 0 ==> x & y == 0 && x & a == 0,
        x & y == 0 && x & a == 0 ==> x & (y | a) == 0,
        c < 64 && k < 64 && c + k < 64 ==> (1u64 << c) << k == 1u64 << ((c + k) as u64),
        c < 64 && k <= c ==> (1u64 << c) >> k == 1u64 << ((c - k) as u64),
{
}

/// One step of a rook or bishop ray that its edge mask lets through lands on
/// the neighbouring square in its direction.
proof fn lemma_slide_step(c: int, d: PieceMove)
    requires
        0 <= c < 64,
        rook_dirs().contains(d) || bishop_dirs().contains(d),
        sq_bit(c) & d.impossible.0 == 0,
    ensures
        d.offset == 8 * step_dr(d.offset) + step_df(d.offset),
        0 <= c / 8 + step_dr(d.offset) < 8,
        0 <= c % 8 + step_df(d.offset) < 8,
        0 <= c + d.offset < 64,
        shift_by(sq_bit(c), d.offset) == sq_bit(c + d.offset),
{
    let x = sq_bit(c);
    lemma_square_lines(c, 0, 0);
    lemma_square_lines(c, 7, 7);
    lemma_slide_bits(x, rank_bits(7), file_bits(0), 0, 0);
    lemma_slide_bits(x, rank_bits(7), file_bits(7), 0, 0);
    lemma_slide_bits(x, rank_bits(0), file_bits(0), 0, 0);
    lemma_slide_bits(x, rank_bits(0), file_bits(7), 0, 0);
    let rd = rook_dirs();
    let bd = bishop_dirs();
    if rd.contains(d) {
        let j = choose|j: int| 0 <= j < rd.len() && rd[j] == d;
        assert(j == 0 || j == 1 || j == 2 || j == 3);
    } else {
        let j = choose|j: int| 0 <= j < bd.len() && bd[j] == d;
        assert(j == 0 || j == 1 || j == 2 || j == 3);
    }
    let off = d.offset;
    if off > 0 {
        lemma_slide_bits(0, 0, 0, c as u64, off as u64);
        assert((c as u64 + off as u64) as u64 == (c + off) as u64);
    } else {
        lemma_slide_bits(0, 0, 0, c as u64, (-off) as u64);
        assert((c as u64 - (-off) as u64) as u64 == (c + off) as u64);
    }
}

/// A square on a ray from `c` is reached by a slide in the ray's direction.
proof fn lemma_ray_slides(c: int, d: PieceMove, b: u64, fuel: nat, t: int)
    requires
        0 <= c < 64,
        0 <= t < 64,
        rook_dirs().contains(d) || bishop_dirs().contains(d),
        has_sq(ray(sq_bit(c), d, b, fuel), t),
    ensures
        slides_to(c, t, step_dr(d.offset), step_df(d.offset), b, fuel),
    decreases fuel,
{
    if fuel == 0 || sq_bit(c) & d.impossible.0 != 0 {
        lemma_has_sq_zero(t);
    } else {
        lemma_slide_step(c, d);
        let c2 = c + d.offset;
        let nxt = sq_bit(c2);
        let rest = if nxt & b != 0 { 0u64 } else { ray(nxt, d, b, (fuel - 1) as nat) };
        assert(ray(sq_bit(c), d, b, fuel) == nxt | rest);
        lemma_has_sq_ops(nxt, rest, t);
        if has_sq(nxt, t) {
            lemma_sq_bit_distinct(c2, t);
        } else if nxt & b != 0 {
            lemma_has_sq_zero(t);
        } else {
            lemma_slide_bits(nxt, b, 0, 0, 0);
            lemma_ray_slides(c2, d, b, (fuel - 1) as nat, t);
        }
    }
}

/// A square in a union of rays lies on one of them.
proof fn lemma_rays_has(from: u64, ds: Seq<PieceMove>, b: u64, t: int)
    requires
        0 <= t < 64,
        has_sq(rays(from, ds, b), t),
    ensures
        exists|i: int| 0 <= i < ds.len() && has_sq(ray(from, #[trigger] ds[i], b, 7), t),
    decreases ds.len(),
{
    if ds.len() == 0 {
        lemma_has_sq_zero(t);
    } else {
        lemma_has_sq_ops(rays(from, ds.drop_last(), b), ray(from, ds.last(), b, 7), t);
        if has_sq(rays(from, ds.drop_last(), b), t) {
            lemma_rays_has(from, ds.drop_last(), b, t);
            let i = choose|i: int| 0 <= i < ds.drop_last().len() && has_sq(ray(from, #[trigger] ds.drop_last()[i], b, 7), t);
            assert(ds.drop_last()[i] == ds[i]);
        } else {
            assert(ds.last() == ds[ds.len() - 1]);
        }
    }
}

/// The rook's rays never wrap round the board's edge: each square a rook on
/// `s` reaches lies along its rank or file, with nothing of `blockers` in
/// between.
pub proof fn lemma_rook_moves_slide(s: int, t: int, blockers: u64)
    requires
        0 <= s < 64,
        0 <= t < 64,
        has_sq(moves_from(s, IndexedPieceKind::Rook, blockers), t),
    ensures
        rook_slide(s, t, blockers),
{
    let ds = rook_dirs();
    lemma_rays_has(sq_bit(s), ds, blockers, t);
    let i = choose|i: int| 0 <= i < ds.len() && has_sq(ray(sq_bit(s), #[trigger] ds[i], blockers, 7), t);
    assert(ds.contains(ds[i]));
    lemma_ray_slides(s, ds[i], blockers, 7, t);
    assert(i == 0 || i == 1 || i == 2 || i == 3);
}

/// The bishop's rays never wrap round the board's edge: each square a bishop
/// on `s` reaches lies along one of its diagonals, with nothing of
/// `blockers` in between.
pub proof fn lemma_bishop_moves_slide(s: int, t: int, blockers: u64)
    requires
        0 <= s < 64,
        0 <= t < 64,
        has_sq(moves_from(s, IndexedPieceKind::Bishop, blockers), t),
    ensures
        bishop_slide(s, t, blockers),
{
    let ds = bishop_dirs();
    lemma_rays_has(sq_bit(s), ds, blockers, t);
    let i = choose|i: int| 0 <= i < ds.len() && has_sq(ray(sq_bit(s), #[trigger] ds[i], blockers, 7), t);
    assert(ds.contains(ds[i]));
    lemma_ray_slides(s, ds[i], blockers, 7, t);
    assert(i == 0 || i == 1 || i == 2 || i == 3);
}

/// A step of a rook or bishop direction that stays on the board passes the
/// direction's edge mask.
proof fn lemma_step_allowed(c: int, d: PieceMove)
    requires
        0 <= c < 64,
        rook_dirs().contains(d) || bishop_dirs().contains(d),
        0 <= c / 8 + step_dr(d.offset) < 8,
        0 <= c % 8 + step_df(d.offset) < 8,
    ensures
        sq_bit(c) & d.impossible.0 == 0,
{
    let x = sq_bit(c);
    lemma_square_lines(c, 0, 0);
    lemma_square_lines(c, 7, 7);
    lemma_slide_bits(x, rank_bits(7), file_bits(0), 0, 0);
    lemma_slide_bits(x, rank_bits(7), file_bits(7), 0, 0);
    lemma_slide_bits(x, rank_bits(0), file_bits(0), 0, 0);
    lemma_slide_bits(x, rank_bits(0), file_bits(7), 0, 0);
    let rd = rook_dirs();
    let bd = bishop_dirs();
    if rd.contains(d) {
        let j = choose|j: int| 0 <= j < rd.len() && rd[j] == d;
        assert(j == 0 || j == 1 || j == 2 || j == 3);
    } else {
        let j = choose|j: int| 0 <= j < bd.len() && bd[j] == d;
        assert(j == 0 || j == 1 || j == 2 || j == 3);
    }
}

/// A slide from `c` to `t` in a ray's direction lies on that ray.
proof fn lemma_ray_reaches(c: int, d: PieceMove, b: u64, fuel: nat, t: int)
    requires
        0 <= c < 64,
        0 <= t < 64,
        rook_dirs().contains(d) || bishop_dirs().contains(d),
        slides_to(c, t, step_dr(d.offset), step_df(d.offset), b, fuel),
    ensures
        has_sq(ray(sq_bit(c), d, b, fuel), t),
    decreases fuel,
{
    lemma_step_allowed(c, d);
    lemma_slide_step(c, d);
    let c2 = c + d.offset;
    let nxt = sq_bit(c2);
    let rest = if nxt & b != 0 { 0u64 } else { ray(nxt, d, b, (fuel - 1) as nat) };
    assert(ray(sq_bit(c), d, b, fuel) == nxt | rest);
    lemma_has_sq_ops(nxt, rest, t);
    if c2 == t {
        lemma_has_sq_zero(t);
    } else {
        lemma_slide_bits(nxt, b, 0, 0, 0);
        lemma_ray_reaches(c2, d, b, (fuel - 1) as nat, t);
    }
}

/// What a ray of a slider's directions reaches is among its moves.
proof fn lemma_ray_within_moves(s: int, ds: Seq<PieceMove>, b: u64, j: int, t: int)
    requires
        0 <= t < 64,
        0 <= j < ds.len(),
        has_sq(ray(sq_bit(s), ds[j], b, 7), t),
    ensures
        has_sq(rays(sq_bit(s), ds, b), t),
{
    let r = ray(sq_bit(s), ds[j], b, 7);
    lemma_ray_in_rays(sq_bit(s), ds, b, j);
    lemma_has_sq_ops(r, rays(sq_bit(s), ds, b), t);
    lemma_has_sq_zero(t);
}

/// Every square a rook on `s` reaches along its rank or file, up to and
/// including the first of `blockers`, is among its moves.
pub proof fn lemma_rook_slides_are_moves(s: int, t: int, blockers: u64)
    requires
        0 <= s < 64,
        0 <= t < 64,
        rook_slide(s, t, blockers),
    ensures
        has_sq(moves_from(s, IndexedPieceKind::Rook, blockers), t),
{
    let ds = rook_dirs();
    let j: int = if slides_to(s, t, 1, 0, blockers, 7) {
        0
    } else if slides_to(s, t, -1, 0, blockers, 7) {
        1
    } else if slides_to(s, t, 0, 1, blockers, 7) {
        2
    } else {
        3
    };
    assert(ds.contains(ds[j]));
    lemma_ray_reaches(s, ds[j], blockers, 7, t);
    lemma_ray_within_moves(s, ds, blockers, j, t);
}

/// Every square a bishop on `s` reaches along a diagonal, up to and
/// including the first of `blockers`, is among its moves.
pub proof fn lemma_bishop_slides_are_moves(s: int, t: int, blockers: u64)
    requires
        0 <= s < 64,
        0 <= t < 64,
        bishop_slide(s, t, blockers),
    ensures
        has_sq(moves_from(s, IndexedPieceKind::Bishop, blockers), t),
{
    let ds = bishop_dirs();
    let j: int = if slides_to(s, t, 1, 1, blockers, 7) {
        1
    } else if slides_to(s, t, 1, -1, blockers, 7) {
        0
    } else if slides_to(s, t, -1, 1, blockers, 7) {
        3
    } else {
        2
    };
    assert(ds.contains(ds[j]));
    lemma_ray_reaches(s, ds[j], blockers, 7, t);
    lemma_ray_within_moves(s, ds, blockers, j, t);
}

/// A square one step of a direction away is among the squares reached by
/// single steps in the directions.
proof fn lemma_jumps_includes(from: u64, ds: Seq<PieceMove>, i: int, t: int)
    requires
        0 <= i < ds.len(),
        0 <= t < 64,
        from & ds[i].impossible.0 == 0,
        has_sq(shift_by(from, ds[i].offset), t),
    ensures
        has_sq(jumps(from, ds), t),
    decreases ds.len(),
{
    let last_step = if from & ds.last().impossible.0 != 0 { 0u64 } else { shift_by(from, ds.last().offset) };
    lemma_has_sq_ops(jumps(from, ds.drop_last()), last_step, t);
    if i < ds.len() - 1 {
        assert(ds.drop_last()[i] == ds[i]);
        lemma_jumps_includes(from, ds.drop_last(), i, t);
    }
}

/// Every king step from `s` is among the king's moves.
pub proof fn lemma_king_steps_are_moves(s: int, t: int)
    requires
        0 <= s < 64,
        0 <= t < 64,
        king_step(s, t),
    ensures
        has_sq(moves_from(s, IndexedPieceKind::King, 0), t),
{
    let ds = king_dirs();
    let dr = t / 8 - s / 8;
    let df = t % 8 - s % 8;
    let i: int = if dr == 1 && df == 0 {
        0
    } else if dr == -1 && df == 0 {
        1
    } else if dr == 0 && df == 1 {
        2
    } else if dr == 0 && df == -1 {
        3
    } else if dr == 1 && df == -1 {
        4
    } else if dr == 1 && df == 1 {
        5
    } else if dr == -1 && df == -1 {
        6
    } else {
        7
    };
    let d = ds[i];
    if i < 4 {
        assert(rook_dirs()[i] == d);
        assert(rook_dirs().contains(d));
    } else {
        assert(bishop_dirs()[i - 4] == d);
        assert(bishop_dirs().contains(d));
    }
    lemma_step_allowed(s, d);
    lemma_slide_step(s, d);
    assert(s + d.offset == t);
    lemma_has_sq_zero(t);
    lemma_jumps_includes(sq_bit(s), ds, i, t);
}

/// Every knight jump from `s` is among the knight's moves.
pub proof fn lemma_knight_jumps_are_moves(s: int, t: int)
    requires
        0 <= s < 64,
        0 <= t < 64,
        knight_jump(s, t),
    ensures
        has_sq(moves_from(s, IndexedPieceKind::Knight, 0), t),
{
    let ds = knight_dirs();
    let dr = t / 8 - s / 8;
    let df = t % 8 - s % 8;
    let i: int = if dr == 2 && df == -1 {
        0
    } else if dr == 1 && df == -2 {
        1
    } else if dr == -1 && df == -2 {
        2
    } else if dr == -2 && df == -1 {
        3
    } else if dr == -2 && df == 1 {
        4
    } else if dr == -1 && df == 2 {
        5
    } else if dr == 1 && df == 2 {
        6
    } else {
        7
    };
    let d = ds[i];
    let x = sq_bit(s);
    lemma_square_lines(s, 0, 0);
    lemma_square_lines(s, 1, 1);
    lemma_square_lines(s, 6, 6);
    lemma_square_lines(s, 7, 7);
    if i == 0 {
        lemma_slide_bits(x, rank_bits(7), rank_bits(6), 0, 0);
        lemma_slide_bits(x, rank_bits(7) | rank_bits(6), file_bits(0), 0, 0);
    } else if i == 1 {
        lemma_slide_bits(x, rank_bits(7), file_bits(0), 0, 0);
        lemma_slide_bits(x, rank_bits(7) | file_bits(0), file_bits(1), 0, 0);
    } else if i == 2 {
        lemma_slide_bits(x, rank_bits(0), file_bits(0), 0, 0);
        lemma_slide_bits(x, rank_bits(0) | file_bits(0), file_bits(1), 0, 0);
    } else if i == 3 {
        lemma_slide_bits(x, rank_bits(0), rank_bits(1), 0, 0);
        lemma_slide_bits(x, rank_bits(0) | rank_bits(1), file_bits(0), 0, 0);
    } else if i == 4 {
        lemma_slide_bits(x, rank_bits(0), rank_bits(1), 0, 0);
        lemma_slide_bits(x, rank_bits(0) | rank_bits(1), file_bits(7), 0, 0);
    } else if i == 5 {
        lemma_slide_bits(x, rank_bits(0), file_bits(7), 0, 0);
        lemma_slide_bits(x, rank_bits(0) | file_bits(7), file_bits(6), 0, 0);
    } else if i == 6 {
        lemma_slide_bits(x, rank_bits(7), file_bits(7), 0, 0);
        lemma_slide_bits(x, rank_bits(7) | file_bits(7), file_bits(6), 0, 0);
    } else {
        lemma_slide_bits(x, rank_bits(7), rank_bits(6), 0, 0);
        lemma_slide_bits(x, rank_bits(7) | rank_bits(6), file_bits(7), 0, 0);
    }
    assert(x & d.impossible.0 == 0);
    let off = d.offset;
    assert(s + off == t);
    if off > 0 {
        lemma_slide_bits(0, 0, 0, s as u64, off as u64);
        assert((s as u64 + off as u64) as u64 == (s + off) as u64);
    } else {
        lemma_slide_bits(0, 0, 0, s as u64, (-off) as u64);
        assert((s as u64 - (-off) as u64) as u64 == (s + off) as u64);
    }
    assert(shift_by(x, off) == sq_bit(t));
    lemma_has_sq_zero(t);
    lemma_jumps_includes(x, ds, i, t);
}

/// Once the tables are built, a slider lookup from `sq` with occupancy `occ`
/// gives exactly the squares found by walking each ray up to and including
/// its first blocker.
pub proof fn lemma_slider_lookup(mg: MoveGen, spk: SlidingPieceKind, sq: int, occ: u64)
    requires
        mg.wf(),
        0 <= sq < 64,
    ensures
        mg.slider_spec(spk, sq, occ) == moves_from(sq, ipk_of(spk), occ),
{
    let mask = mg.mask_spec(spk, sq);
    let s = occ & mask;
    lemma_mask_bits(occ, 0, mask);
    assert(table_exact(spk, sq, mask, mg.table(spk, sq)));
    let slot = mg.table(spk, sq)[pext(s, mask) as int];
    lemma_mask_relevant(spk, sq, occ);
}

/// Where a piece of kind `pk` on `sq` may move by the rules of its movement:
/// its steps, or its rays up to and including the first occupied square,
/// minus the squares of its own side.
pub open spec fn targets_by_rules(pos: &Position, pk: PieceKind, sq: int) -> u64 {
    targets_at(pos.board(), pos.state.active_side, pk, sq)
}

/// [`targets_by_rules`] on a board with `side` to move.
pub open spec fn targets_at(b: Seq<Option<Piece>>, side: Side, pk: PieceKind, sq: int) -> u64 {
    let own = side_bits(b, side, 64);
    let occ = side_bits(b, Side::White, 64) | side_bits(b, Side::Black, 64);
    let reach = match pk {
        PieceKind::Knight => moves_from(sq, IndexedPieceKind::Knight, 0),
        PieceKind::King => moves_from(sq, IndexedPieceKind::King, 0),
        PieceKind::Bishop => moves_from(sq, IndexedPieceKind::Bishop, occ),
        _ => moves_from(sq, IndexedPieceKind::Rook, occ),
    };
    reach & !own
}

/// The move generator's targets, read from its tables, are those of the rules.
pub proof fn lemma_piece_targets_by_rules(mg: MoveGen, pos: &Position, pk: PieceKind, sq: int)
    requires
        mg.wf(),
        0 <= sq < 64,
    ensures
        mg.piece_targets(pos, pk, sq) == targets_by_rules(pos, pk, sq),
{
    let b = pos.board();
    let occ = side_bits(b, Side::White, 64) | side_bits(b, Side::Black, 64);
    lemma_slider_lookup(mg, SlidingPieceKind::Bishop, sq, occ);
    lemma_slider_lookup(mg, SlidingPieceKind::Rook, sq, occ);
}

/// Whether square index `sq` is attacked by a piece of side `by`, by the
/// rules of movement: a knight or king a step away, a pawn diagonally
/// behind it, or a slider with a clear ray to it.
pub open spec fn attacked_by_rules(b: Seq<Option<Piece>>, sq: int, by: Side) -> bool {
    let occ = side_bits(b, Side::White, 64) | side_bits(b, Side::Black, 64);
    ||| moves_from(sq, IndexedPieceKind::Knight, 0) & piece_bits(b, by, PieceKind::Knight, 64) != 0
    ||| moves_from(sq, IndexedPieceKind::King, 0) & piece_bits(b, by, PieceKind::King, 64) != 0
    ||| pawn_attack_bits(by.opp(), sq_bit(sq)) & piece_bits(b, by, PieceKind::Pawn, 64) != 0
    ||| moves_from(sq, IndexedPieceKind::Bishop, occ) & (piece_bits(b, by, PieceKind::Bishop, 64) | piece_bits(b, by, PieceKind::Queen, 64)) != 0
    ||| moves_from(sq, IndexedPieceKind::Rook, occ) & (piece_bits(b, by, PieceKind::Rook, 64) | piece_bits(b, by, PieceKind::Queen, 64)) != 0
}

/// Attack detection through the tables agrees with the rules.
pub proof fn lemma_attacked_by_rules(mg: MoveGen, b: Seq<Option<Piece>>, sq: int, by: Side)
    requires
        mg.wf(),
        0 <= sq < 64,
    ensures
        attacked_by(mg, b, sq, by) == attacked_by_rules(b, sq, by),
{
    let occ = side_bits(b, Side::White, 64) | side_bits(b, Side::Black, 64);
    lemma_slider_lookup(mg, SlidingPieceKind::Bishop, sq, occ);
    lemma_slider_lookup(mg, SlidingPieceKind::Rook, sq, occ);
    assert(mg.raw_spec(IndexedPieceKind::Knight, sq) == moves_from(sq, IndexedPieceKind::Knight, 0));
    assert(mg.raw_spec(IndexedPieceKind::King, sq) == moves_from(sq, IndexedPieceKind::King, 0));
}

/// A move of a knight, bishop, rook, queen or king that is not castling:
/// to a square its piece reaches by the rules, taking what stands there.
pub open spec fn piece_move_ok(pos: &Position, m: Move) -> bool {
    piece_move_at(pos.board(), pos.state, m)
}

/// [`piece_move_ok`] on a board and state.
pub open spec fn piece_move_at(b: Seq<Option<Piece>>, st: PositionState, m: Move) -> bool {
    let f = m.from_sq().idx();
    let t = m.to_sq().idx();
    &&& b[f] == Some(Piece { side: st.active_side, kind: m.kind() })
    &&& plain_move_from(b, m, m.from_sq(), m.kind())
    &&& match m.kind() {
        PieceKind::Pawn => false,
        PieceKind::Queen => has_sq(targets_at(b, st.active_side, PieceKind::Bishop, f), t)
            || has_sq(targets_at(b, st.active_side, PieceKind::Rook, f), t),
        _ => has_sq(targets_at(b, st.active_side, m.kind(), f), t),
    }
}

/// A pseudo-legal move: one that follows how its piece moves, without
/// regard to the safety of the mover's king.
pub open spec fn pseudo_move(pos: &Position, m: Move) -> bool {
    pseudo_move_at(pos.board(), pos.state, m)
}

/// [`pseudo_move`] on a board and state; only the side to move, the
/// castling rights and the en passant square of the state matter.
pub open spec fn pseudo_move_at(b: Seq<Option<Piece>>, st: PositionState, m: Move) -> bool {
    if m.is_castling() {
        castle_move_at(b, st, m)
    } else if m.kind() == PieceKind::Pawn {
        pawn_move_at(b, st, m)
    } else {
        piece_move_at(b, st, m)
    }
}

/// The moves of `s` from index `lo` on are pairwise different.
pub open spec fn distinct_after(s: Seq<Move>, lo: int) -> bool {
    forall|i: int, j: int| lo <= i < j < s.len() ==> #[trigger] s[i] != #[trigger] s[j]
}

/// The kind captured by a move to `t`: what stands there.
pub open spec fn captured_at(b: Seq<Option<Piece>>, t: int) -> Option<PieceKind> {
    match b[t] {
        Some(p) => Some(p.kind),
        None => None,
    }
}

/// `m` moves `moving` from `from`, takes what stands on its target, and is
/// no promotion, castling or en passant.
pub open spec fn plain_move_from(b: Seq<Option<Piece>>, m: Move, from: Square, moving: PieceKind) -> bool {
    &&& m.from_sq() == from
    &&& m.kind() == moving
    &&& m.promo() is None
    &&& m.capture() == captured_at(b, m.to_sq().idx())
    &&& !m.is_castling()
    &&& !m.is_en_passant()
}

/// `m` is a pawn move from `from` to `to` promoting to a piece a pawn may
/// become, taking `captured`.
pub open spec fn promo_move_is(m: Move, from: Square, to: Square, captured: Option<PieceKind>) -> bool {
    &&& m.from_sq() == from
    &&& m.to_sq() == to
    &&& m.kind() == PieceKind::Pawn
    &&& m.capture() == captured
    &&& !m.is_castling()
    &&& !m.is_en_passant()
    &&& m.promo() matches Some(k) && promo_piece(k)
}

/// `m` is a move of a pawn of `side` from `from` to `to` taking `captured`,
/// promoting to a piece a pawn may become exactly when `to` is on the last rank.
pub open spec fn pawn_target_move(side: Side, m: Move, from: Square, to: Square, captured: Option<PieceKind>) -> bool {
    &&& m.from_sq() == from
    &&& m.to_sq() == to
    &&& m.kind() == PieceKind::Pawn
    &&& m.capture() == captured
    &&& !m.is_castling()
    &&& !m.is_en_passant()
    &&& if to.idx() / 8 == promotion_rank(side) {
        m.promo() matches Some(k) && promo_piece(k)
    } else {
        m.promo() is None
    }
}

/// The pieces a pawn may promote to.
pub open spec fn promo_piece(k: PieceKind) -> bool {
    k == PieceKind::Queen || k == PieceKind::Rook || k == PieceKind::Bishop || k == PieceKind::Knight
}

/// The rank index on which a pawn of `side` promotes.
pub open spec fn promotion_rank(side: Side) -> int {
    if side == Side::White { 7 } else { 0 }
}

/// The square one step ahead of square `f` for a pawn of `side`.
pub open spec fn pawn_step(side: Side, f: int) -> int {
    if side == Side::White { f + 8 } else { f - 8 }
}

/// A pawn of `side` on `f` can step to `t`: one rank ahead, on the board.
pub open spec fn single_push(side: Side, f: int, t: int) -> bool {
    if side == Side::White { f / 8 < 7 && t == f + 8 } else { f / 8 > 0 && t == f - 8 }
}

/// A pawn of `side` on `f` is on its starting rank and `t` is two ranks ahead.
pub open spec fn double_push(side: Side, f: int, t: int) -> bool {
    if side == Side::White { f / 8 == 1 && t == f + 16 } else { f / 8 == 6 && t == f - 16 }
}

/// A pawn move of the side to move: a push to an empty square, a double push
/// from the starting rank over an empty square, a diagonal capture, each
/// promoting exactly when it reaches the last rank; or an en passant capture
/// onto the en passant square of the pawn beside it.
pub open spec fn pawn_move_ok(pos: &Position, m: Move) -> bool {
    pawn_move_at(pos.board(), pos.state, m)
}

/// [`pawn_move_ok`] on a board and state.
pub open spec fn pawn_move_at(b: Seq<Option<Piece>>, st: PositionState, m: Move) -> bool {
    let side = st.active_side;
    let f = m.from_sq().idx();
    let t = m.to_sq().idx();
    &&& m.kind() == PieceKind::Pawn
    &&& b[f] == Some(Piece { side, kind: PieceKind::Pawn })
    &&& !m.is_castling()
    &&& if m.is_en_passant() {
        let v = (f / 8) * 8 + t % 8;
        &&& st.en_passant == Some(m.to_sq())
        &&& has_sq(pawn_attack_bits(side, sq_bit(f)), t)
        &&& b[t] is None
        &&& v != f && v != t && t != f
        &&& b[v] == Some(Piece { side: side.opp(), kind: PieceKind::Pawn })
        &&& m.capture() is None
        &&& m.promo() is None
    } else {
        &&& {
            ||| single_push(side, f, t) && b[t] is None && m.capture() is None
            ||| double_push(side, f, t) && b[pawn_step(side, f)] is None && b[t] is None && m.capture() is None
            ||| has_sq(pawn_attack_bits(side, sq_bit(f)), t) && b[t] is Some && b[t]->0.side == side.opp()
                && m.capture() == Some(b[t]->0.kind)
        }
        &&& if t / 8 == promotion_rank(side) {
            m.promo() matches Some(k) && promo_piece(k)
        } else {
            m.promo() is None
        }
    }
}

/// Castling in direction `d` is open to the side to move: `d` is its own,
/// the right is held, king and rook stand on their home squares and the
/// squares between them are empty.
pub open spec fn castle_dir_open(pos: &Position, d: CastlingDirection) -> bool {
    castle_dir_open_at(pos.board(), pos.state, d)
}

/// [`castle_dir_open`] on a board and state.
pub open spec fn castle_dir_open_at(b: Seq<Option<Piece>>, st: PositionState, d: CastlingDirection) -> bool {
    let side = st.active_side;
    &&& d.spec_side() == side
    &&& st.castling.rights & d.bit() != 0
    &&& b[d.spec_king_from().idx()] == Some(Piece { side, kind: PieceKind::King })
    &&& b[d.spec_rook_from().idx()] == Some(Piece { side, kind: PieceKind::Rook })
    &&& forall|j: int| 0 <= j < d.spec_empty().len() ==> b[(#[trigger] d.spec_empty()[j]).idx()] is None
}

/// A castling move in a direction open to the side to move.
pub open spec fn castle_move_ok(pos: &Position, m: Move) -> bool {
    castle_move_at(pos.board(), pos.state, m)
}

/// [`castle_move_ok`] on a board and state.
pub open spec fn castle_move_at(b: Seq<Option<Piece>>, st: PositionState, m: Move) -> bool {
    &&& m.is_castling()
    &&& m.kind() == PieceKind::King
    &&& m.promo() is None
    &&& m.capture() is None
    &&& !m.is_en_passant()
    &&& CastlingDirection::spec_direction(m.from_sq(), m.to_sq()) matches Some(d) && castle_dir_open_at(b, st, d)
}

/// Squares attacked by pawns of `side` standing on the squares `b`.
pub fn pawn_attacks(side: Side, b: u64) -> (r: u64)
    ensures
        r == pawn_attack_bits(side, b),
{
    let not_a = !bb_file(File::A).0;
    let not_h = !bb_file(File::H).0;
    match side {
        Side::White => ((b & not_a) << 7u64) | ((b & not_h) << 9u64),
        Side::Black => ((b & not_a) >> 9u64) | ((b & not_h) >> 7u64),
    }
}

/// Whether square index `sq` is attacked by a piece of side `by`, as the move
/// generator's tables see it.
pub open spec fn attacked_by(mg: MoveGen, b: Seq<Option<Piece>>, sq: int, by: Side) -> bool {
    let occ = side_bits(b, Side::White, 64) | side_bits(b, Side::Black, 64);
    ||| mg.raw_spec(IndexedPieceKind::Knight, sq) & piece_bits(b, by, PieceKind::Knight, 64) != 0
    ||| mg.raw_spec(IndexedPieceKind::King, sq) & piece_bits(b, by, PieceKind::King, 64) != 0
    ||| pawn_attack_bits(by.opp(), sq_bit(sq)) & piece_bits(b, by, PieceKind::Pawn, 64) != 0
    ||| mg.slider_spec(SlidingPieceKind::Bishop, sq, occ) & (piece_bits(b, by, PieceKind::Bishop, 64) | piece_bits(b, by, PieceKind::Queen, 64)) != 0
    ||| mg.slider_spec(SlidingPieceKind::Rook, sq, occ) & (piece_bits(b, by, PieceKind::Rook, 64) | piece_bits(b, by, PieceKind::Queen, 64)) != 0
}

} // verus!
