//! Piece-square tables.
//!
//! The well-known "simplified evaluation" values (Tomasz Michniewski's set),
//! each as a middlegame/endgame pair. Base piece values are folded into every
//! square, so a table entry is the piece's whole worth on that square.

use vstd::prelude::*;
use crate::basetypes::{Piece, PieceKind, Side, Square};
use crate::phase::PhaseScore;

verus! {

/// Centipawn value for a single phase.
pub type PsqtValue = i32;

/// A middlegame/endgame pair of values, blended by [`TaperedValue::evaluate`].
#[derive(Debug, Clone, Copy, PartialEq, Eq, Structural)]
pub struct TaperedValue {
    pub mg: PsqtValue,
    pub eg: PsqtValue,
}

/// Rust's `/` on integers: the quotient rounded towards zero.
pub open spec fn div_trunc(a: int, b: int) -> int {
    if a >= 0 {
        a / b
    } else {
        -((-a) / b)
    }
}

impl TaperedValue {
    pub fn new(mg: PsqtValue, eg: PsqtValue) -> (r: Self)
        ensures
            r.mg == mg && r.eg == eg,
    {
        Self { mg, eg }
    }

    /// Blends the pair by game phase: `phase` 24 is all middlegame, 0 all endgame.
    pub fn evaluate(&self, phase: PhaseScore) -> (r: i32)
        requires
            i32::MIN <= self.mg * phase <= i32::MAX,
            i32::MIN <= self.eg * (24 - phase) <= i32::MAX,
            i32::MIN <= self.mg * phase + self.eg * (24 - phase) <= i32::MAX,
        ensures
            r as int == div_trunc(self.mg * phase + self.eg * (24 - phase), 24),
    {
        let p = phase as i64;
        let num: i64 = (self.mg as i64) * p + (self.eg as i64) * (24 - p);
        let q: i64 = if num >= 0 {
            num / 24
        } else {
            -((-num) / 24)
        };
        proof {
            let n = num as int;
            if n >= 0 {
                assert(0 <= n / 24 <= n) by (nonlinear_arith)
                    requires n >= 0;
            } else {
                assert(0 <= (-n) / 24 <= -n) by (nonlinear_arith)
                    requires -n > 0;
            }
        }
        q as i32
    }

    pub fn negate(self) -> (r: TaperedValue)
        requires
            self.mg > i32::MIN && self.eg > i32::MIN,
        ensures
            r.mg == -self.mg && r.eg == -self.eg,
    {
        TaperedValue::new(-self.mg, -self.eg)
    }

    pub fn plus(self, rhs: TaperedValue) -> (r: TaperedValue)
        requires
            i32::MIN <= self.mg + rhs.mg <= i32::MAX,
            i32::MIN <= self.eg + rhs.eg <= i32::MAX,
        ensures
            r.mg == self.mg + rhs.mg && r.eg == self.eg + rhs.eg,
    {
        TaperedValue::new(self.mg + rhs.mg, self.eg + rhs.eg)
    }

    pub fn minus(self, rhs: TaperedValue) -> (r: TaperedValue)
        requires
            i32::MIN <= self.mg - rhs.mg <= i32::MAX,
            i32::MIN <= self.eg - rhs.eg <= i32::MAX,
        ensures
            r.mg == self.mg - rhs.mg && r.eg == self.eg - rhs.eg,
    {
        TaperedValue::new(self.mg - rhs.mg, self.eg - rhs.eg)
    }
}

pub const PAWN_VALUE: PsqtValue = 100;
pub const KNIGHT_VALUE: PsqtValue = 320;
pub const BISHOP_VALUE: PsqtValue = 330;
pub const ROOK_VALUE: PsqtValue = 500;
pub const QUEEN_VALUE: PsqtValue = 900;
pub const KING_VALUE: PsqtValue = 20000;

pub const PAWN_MG_TABLE: [i16; 64] = [
      0,   0,   0,   0,   0,   0,   0,   0,
      5,  10,  10, -20, -20,  10,  10,   5,
      5,  -5, -10,   0,   0, -10,  -5,   5,
      0,   0,   0,  20,  20,   0,   0,   0,
      5,   5,  10,  25,  25,  10,   5,   5,
     10,  10,  20,  30,  30,  20,  10,  10,
     50,  50,  50,  50,  50,  50,  50,  50,
      0,   0,   0,   0,   0,   0,   0,   0,
];

pub const PAWN_EG_TABLE: [i16; 64] = [
      0,   0,   0,   0,   0,   0,   0,   0,
     10,  10,  10,  10,  10,  10,  10,  10,
     10,  10,  10,  10,  10,  10,  10,  10,
     20,  20,  20,  20,  20,  20,  20,  20,
     30,  30,  30,  30,  30,  30,  30,  30,
     50,  50,  50,  50,  50,  50,  50,  50,
     80,  80,  80,  80,  80,  80,  80,  80,
      0,   0,   0,   0,   0,   0,   0,   0,
];

pub const KNIGHT_TABLE: [i16; 64] = [
    -50, -40, -30, -30, -30, -30, -40, -50,
    -40, -20,   0,   5,   5,   0, -20, -40,
    -30,   5,  10,  15,  15,  10,   5, -30,
    -30,   0,  15,  20,  20,  15,   0, -30,
    -30,   5,  15,  20,  20,  15,   5, -30,
    -30,   0,  10,  15,  15,  10,   0, -30,
    -40, -20,   0,   0,   0,   0, -20, -40,
    -50, -40, -30, -30, -30, -30, -40, -50,
];

pub const BISHOP_TABLE: [i16; 64] = [
    -20, -10, -10, -10, -10, -10, -10, -20,
    -10,   5,   0,   0,   0,   0,   5, -10,
    -10,  10,  10,  10,  10,  10,  10, -10,
    -10,   0,  10,  10,  10,  10,   0, -10,
    -10,   5,   5,  10,  10,   5,   5, -10,
    -10,   0,   5,  10,  10,   5,   0, -10,
    -10,   0,   0,   0,   0,   0,   0, -10,
    -20, -10, -10, -10, -10, -10, -10, -20,
];

pub const ROOK_TABLE: [i16; 64] = [
      0,   0,   0,   5,   5,   0,   0,   0,
     -5,   0,   0,   0,   0,   0,   0,  -5,
     -5,   0,   0,   0,   0,   0,   0,  -5,
     -5,   0,   0,   0,   0,   0,   0,  -5,
     -5,   0,   0,   0,   0,   0,   0,  -5,
     -5,   0,   0,   0,   0,   0,   0,  -5,
      5,  10,  10,  10,  10,  10,  10,   5,
      0,   0,   0,   0,   0,   0,   0,   0,
];

pub const QUEEN_TABLE: [i16; 64] = [
    -20, -10, -10,  -5,  -5, -10, -10, -20,
    -10,   0,   5,   0,   0,   0,   0, -10,
    -10,   5,   5,   5,   5,   5,   0, -10,
      0,   0,   5,   5,   5,   5,   0,  -5,
     -5,   0,   5,   5,   5,   5,   0,  -5,
    -10,   0,   5,   5,   5,   5,   0, -10,
    -10,   0,   0,   0,   0,   0,   0, -10,
    -20, -10, -10,  -5,  -5, -10, -10, -20,
];

pub const KING_MG_TABLE: [i16; 64] = [
     20,  30,  10,   0,   0,  10,  30,  20,
     20,  20,   0,   0,   0,   0,  20,  20,
    -10, -20, -20, -20, -20, -20, -20, -10,
    -20, -30, -30, -40, -40, -30, -30, -20,
    -30, -40, -40, -50, -50, -40, -40, -30,
    -30, -40, -40, -50, -50, -40, -40, -30,
    -30, -40, -40, -50, -50, -40, -40, -30,
    -30, -40, -40, -50, -50, -40, -40, -30,
];

pub const KING_EG_TABLE: [i16; 64] = [
    -50, -30, -30, -30, -30, -30, -30, -50,
    -30, -30,   0,   0,   0,   0, -30, -30,
    -30, -10,  20,  30,  30,  20, -10, -30,
    -30, -10,  30,  40,  40,  30, -10, -30,
    -30, -10,  30,  40,  40,  30, -10, -30,
    -30, -10,  20,  30,  30,  20, -10, -30,
    -30, -20, -10,   0,   0, -10, -20, -30,
    -50, -40, -30, -20, -20, -30, -40, -50,
];

/// Base value of a piece kind.
pub open spec fn base_value(k: PieceKind) -> int {
    match k {
        PieceKind::Pawn => PAWN_VALUE as int,
        PieceKind::Knight => KNIGHT_VALUE as int,
        PieceKind::Bishop => BISHOP_VALUE as int,
        PieceKind::Rook => ROOK_VALUE as int,
        PieceKind::Queen => QUEEN_VALUE as int,
        PieceKind::King => KING_VALUE as int,
    }
}

/// Middlegame table entry for a piece kind, from White's side of the board.
pub open spec fn mg_entry(k: PieceKind, i: int) -> int {
    match k {
        PieceKind::Pawn => PAWN_MG_TABLE@[i] as int,
        PieceKind::Knight => KNIGHT_TABLE@[i] as int,
        PieceKind::Bishop => BISHOP_TABLE@[i] as int,
        PieceKind::Rook => ROOK_TABLE@[i] as int,
        PieceKind::Queen => QUEEN_TABLE@[i] as int,
        PieceKind::King => KING_MG_TABLE@[i] as int,
    }
}

/// Endgame table entry for a piece kind, from White's side of the board.
pub open spec fn eg_entry(k: PieceKind, i: int) -> int {
    match k {
        PieceKind::Pawn => PAWN_EG_TABLE@[i] as int,
        PieceKind::Knight => KNIGHT_TABLE@[i] as int,
        PieceKind::Bishop => BISHOP_TABLE@[i] as int,
        PieceKind::Rook => ROOK_TABLE@[i] as int,
        PieceKind::Queen => QUEEN_TABLE@[i] as int,
        PieceKind::King => KING_EG_TABLE@[i] as int,
    }
}

/// Square index `i` flipped across the board's horizontal centreline.
pub open spec fn mirror_idx(i: int) -> int {
    (7 - i / 8) * 8 + i % 8
}

/// Middlegame value of `p` on square index `i`, White-positive.
pub open spec fn psqt_mg(p: Piece, i: int) -> int {
    match p.side {
        Side::White => base_value(p.kind) + mg_entry(p.kind, i),
        Side::Black => -(base_value(p.kind) + mg_entry(p.kind, mirror_idx(i))),
    }
}

/// Endgame value of `p` on square index `i`, White-positive.
pub open spec fn psqt_eg(p: Piece, i: int) -> int {
    match p.side {
        Side::White => base_value(p.kind) + eg_entry(p.kind, i),
        Side::Black => -(base_value(p.kind) + eg_entry(p.kind, mirror_idx(i))),
    }
}

/// Every value has magnitude at most 52768.
pub proof fn lemma_psqt_bounds(p: Piece, i: int)
    requires
        0 <= i < 64,
    ensures
        -52768 <= psqt_mg(p, i) <= 52768,
        -52768 <= psqt_eg(p, i) <= 52768,
{
}

fn table_entry(k: PieceKind, mg: bool, i: usize) -> (r: i16)
    requires
        i < 64,
    ensures
        mg ==> r as int == mg_entry(k, i as int),
        !mg ==> r as int == eg_entry(k, i as int),
{
    match k {
        PieceKind::Pawn => if mg { PAWN_MG_TABLE[i] } else { PAWN_EG_TABLE[i] },
        PieceKind::Knight => KNIGHT_TABLE[i],
        PieceKind::Bishop => BISHOP_TABLE[i],
        PieceKind::Rook => ROOK_TABLE[i],
        PieceKind::Queen => QUEEN_TABLE[i],
        PieceKind::King => if mg { KING_MG_TABLE[i] } else { KING_EG_TABLE[i] },
    }
}

fn base_of(k: PieceKind) -> (r: i32)
    ensures
        r as int == base_value(k),
{
    match k {
        PieceKind::Pawn => PAWN_VALUE,
        PieceKind::Knight => KNIGHT_VALUE,
        PieceKind::Bishop => BISHOP_VALUE,
        PieceKind::Rook => ROOK_VALUE,
        PieceKind::Queen => QUEEN_VALUE,
        PieceKind::King => KING_VALUE,
    }
}

/// Flips a square across the board's horizontal centreline (a1 <-> a8).
pub fn mirror(square: Square) -> (r: Square)
    ensures
        r.idx() == mirror_idx(square.idx()),
{
    let i = square.index();
    assert(i < 64 ==> i ^ 56 < 64 && i ^ 56 == (7 - i / 8) * 8 + i % 8) by (bit_vector);
    Square::from_index(i ^ 0b111000)
}

/// Material-plus-position value of `piece` on `square`, signed White-positive
/// so values can simply be summed.
pub fn value(piece: Piece, square: Square) -> (r: TaperedValue)
    ensures
        r.mg as int == psqt_mg(piece, square.idx()),
        r.eg as int == psqt_eg(piece, square.idx()),
{
    let base = base_of(piece.kind);
    match piece.side {
        Side::White => {
            let i = square.index();
                        TaperedValue::new(base + table_entry(piece.kind, true, i) as i32, base + table_entry(piece.kind, false, i) as i32)
        },
        Side::Black => {
            let i = mirror(square).index();
                        TaperedValue::new(-(base + table_entry(piece.kind, true, i) as i32), -(base + table_entry(piece.kind, false, i) as i32))
        },
    }
}

/// Mirroring twice gives back the square.
pub proof fn lemma_mirror_involution(i: int)
    requires
        0 <= i < 64,
    ensures
        0 <= mirror_idx(i) < 64,
        mirror_idx(mirror_idx(i)) == i,
{
}

/// A black piece on the mirrored square is worth exactly the negation of the
/// white piece on the unmirrored square.
pub proof fn lemma_black_mirrors_white(kind: PieceKind, i: int)
    requires
        0 <= i < 64,
    ensures
        psqt_mg(Piece { side: Side::Black, kind }, mirror_idx(i)) == -psqt_mg(Piece { side: Side::White, kind }, i),
        psqt_eg(Piece { side: Side::Black, kind }, mirror_idx(i)) == -psqt_eg(Piece { side: Side::White, kind }, i),
{
    lemma_mirror_involution(i);
}

/// A white piece is worth its kind's material value (pawn 100, knight 320,
/// bishop 330, rook 500, queen 900, king 20000) plus its square's entry in
/// the kind's table; only pawns and kings have separate middlegame and
/// endgame tables.
pub proof fn lemma_white_piece_values(i: int)
    requires
        0 <= i < 64,
    ensures
        psqt_mg(Piece { side: Side::White, kind: PieceKind::Pawn }, i) == 100 + PAWN_MG_TABLE@[i],
        psqt_eg(Piece { side: Side::White, kind: PieceKind::Pawn }, i) == 100 + PAWN_EG_TABLE@[i],
        psqt_mg(Piece { side: Side::White, kind: PieceKind::Knight }, i) == 320 + KNIGHT_TABLE@[i],
        psqt_eg(Piece { side: Side::White, kind: PieceKind::Knight }, i) == 320 + KNIGHT_TABLE@[i],
        psqt_mg(Piece { side: Side::White, kind: PieceKind::Bishop }, i) == 330 + BISHOP_TABLE@[i],
        psqt_eg(Piece { side: Side::White, kind: PieceKind::Bishop }, i) == 330 + BISHOP_TABLE@[i],
        psqt_mg(Piece { side: Side::White, kind: PieceKind::Rook }, i) == 500 + ROOK_TABLE@[i],
        psqt_eg(Piece { side: Side::White, kind: PieceKind::Rook }, i) == 500 + ROOK_TABLE@[i],
        psqt_mg(Piece { side: Side::White, kind: PieceKind::Queen }, i) == 900 + QUEEN_TABLE@[i],
        psqt_eg(Piece { side: Side::White, kind: PieceKind::Queen }, i) == 900 + QUEEN_TABLE@[i],
        psqt_mg(Piece { side: Side::White, kind: PieceKind::King }, i) == 20000 + KING_MG_TABLE@[i],
        psqt_eg(Piece { side: Side::White, kind: PieceKind::King }, i) == 20000 + KING_EG_TABLE@[i],
{
}

} // verus!
