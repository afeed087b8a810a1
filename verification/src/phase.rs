//! Game phase: a 0..24 measure of how much non-pawn material is on the board,
//! used to blend middlegame and endgame evaluation.

use vstd::prelude::*;
use crate::basetypes::PieceKind;
use crate::board::PieceChange;

verus! {

pub type PhaseScore = u8;

/// Phase weight of a piece kind (Fruit's weights): a full set of pieces sums to 24.
pub open spec fn phase_weight(k: PieceKind) -> int {
    match k {
        PieceKind::Pawn => 0,
        PieceKind::Knight => 1,
        PieceKind::Bishop => 1,
        PieceKind::Rook => 2,
        PieceKind::Queen => 4,
        PieceKind::King => 0,
    }
}

/// Phase change of one piece change: its weight leaves `from`, arrives at `to`.
pub open spec fn change_phase_delta(c: PieceChange) -> int {
    (if c.to is Some { phase_weight(c.piece.kind) } else { 0 }) - (if c.from is Some {
        phase_weight(c.piece.kind)
    } else {
        0
    })
}

/// Phase change of a list of piece changes.
pub open spec fn changes_phase_delta(cs: Seq<PieceChange>) -> int
    decreases cs.len(),
{
    if cs.len() == 0 {
        0
    } else {
        changes_phase_delta(cs.drop_last()) + change_phase_delta(cs.last())
    }
}

pub fn phase_delta(k: PieceKind) -> (r: i8)
    ensures
        r as int == phase_weight(k),
{
    match k {
        PieceKind::Pawn => 0,
        PieceKind::Knight => 1,
        PieceKind::Bishop => 1,
        PieceKind::Rook => 2,
        PieceKind::Queen => 4,
        PieceKind::King => 0,
    }
}

/// Phase weight a piece change takes off its origin.
pub open spec fn from_weight(c: PieceChange) -> int {
    if c.from is Some { phase_weight(c.piece.kind) } else { 0 }
}

/// Phase weight a piece change puts on its target.
pub open spec fn to_weight(c: PieceChange) -> int {
    if c.to is Some { phase_weight(c.piece.kind) } else { 0 }
}

/// Applying change `i` of `cs` after those before it: the running phase
/// change after taking its origin weight off and after putting its target
/// weight on both fit in an `i8`.
pub open spec fn phase_step_fits(cs: Seq<PieceChange>, i: int) -> bool {
    let d = changes_phase_delta(cs.take(i));
    &&& -128 <= d - from_weight(cs[i]) <= 127
    &&& -128 <= d - from_weight(cs[i]) + to_weight(cs[i]) <= 127
}

proof fn lemma_phase_delta_bounds(cs: Seq<PieceChange>)
    ensures
        -4 * cs.len() <= changes_phase_delta(cs) <= 4 * cs.len(),
    decreases cs.len(),
{
    if cs.len() > 0 {
        lemma_phase_delta_bounds(cs.drop_last());
    }
}

/// With at most three changes every running phase change fits in an `i8`.
pub proof fn lemma_few_phase_changes_fit(cs: Seq<PieceChange>)
    requires
        cs.len() <= 3,
    ensures
        forall|i: int| 0 <= i < cs.len() ==> #[trigger] phase_step_fits(cs, i),
{
    assert forall|i: int| 0 <= i < cs.len() implies #[trigger] phase_step_fits(cs, i) by {
        lemma_phase_delta_bounds(cs.take(i));
    }
}

/// The phase score after `piece_changes`, in the wrapping 8-bit arithmetic
/// the score is kept in.
pub fn incremental_phase_score(old_score: PhaseScore, piece_changes: &[PieceChange]) -> (r:
    PhaseScore)
    requires
        forall|i: int| 0 <= i < piece_changes@.len() ==> #[trigger] phase_step_fits(piece_changes@, i),
    ensures
        r as int == (old_score + changes_phase_delta(piece_changes@)) % 256,
{
    let mut delta: i8 = 0;
    let mut i: usize = 0;
    while i < piece_changes.len()
        invariant
            i <= piece_changes@.len(),
            forall|k: int| 0 <= k < piece_changes@.len() ==> #[trigger] phase_step_fits(piece_changes@, k),
            delta as int == changes_phase_delta(piece_changes@.take(i as int)),
        decreases piece_changes@.len() - i,
    {
        let ap = piece_changes[i];
        assert(piece_changes@.take(i as int + 1).drop_last() =~= piece_changes@.take(i as int));
        assert(phase_step_fits(piece_changes@, i as int));
        if ap.from.is_some() {
            delta = delta - phase_delta(ap.piece.kind);
        }
        if ap.to.is_some() {
            delta = delta + phase_delta(ap.piece.kind);
        }
        i = i + 1;
    }
    assert(piece_changes@.take(i as int) =~= piece_changes@);
    let sum: i16 = old_score as i16 + delta as i16 + 256;
    (sum % 256) as u8
}

} // verus!
