//! Incremental static evaluation.

use vstd::prelude::*;
use crate::board::PieceChange;
use crate::psqt::{self, psqt_eg, psqt_mg, TaperedValue, lemma_psqt_bounds};

verus! {

pub type Score = i32;

/// Middlegame change of one piece change: its value leaves `from`, arrives at `to`.
pub open spec fn change_mg_delta(c: PieceChange) -> int {
    (match c.to {
        Some(t) => psqt_mg(c.piece, t.idx()),
        None => 0,
    }) - (match c.from {
        Some(f) => psqt_mg(c.piece, f.idx()),
        None => 0,
    })
}

/// Endgame change of one piece change.
pub open spec fn change_eg_delta(c: PieceChange) -> int {
    (match c.to {
        Some(t) => psqt_eg(c.piece, t.idx()),
        None => 0,
    }) - (match c.from {
        Some(f) => psqt_eg(c.piece, f.idx()),
        None => 0,
    })
}

pub open spec fn changes_mg_delta(cs: Seq<PieceChange>) -> int
    decreases cs.len(),
{
    if cs.len() == 0 {
        0
    } else {
        changes_mg_delta(cs.drop_last()) + change_mg_delta(cs.last())
    }
}

pub open spec fn changes_eg_delta(cs: Seq<PieceChange>) -> int
    decreases cs.len(),
{
    if cs.len() == 0 {
        0
    } else {
        changes_eg_delta(cs.drop_last()) + change_eg_delta(cs.last())
    }
}

/// Middlegame value a piece change takes off its origin (none without one).
pub open spec fn from_mg(c: PieceChange) -> int {
    match c.from {
        Some(f) => psqt_mg(c.piece, f.idx()),
        None => 0,
    }
}

/// Middlegame value a piece change puts on its target (none without one).
pub open spec fn to_mg(c: PieceChange) -> int {
    match c.to {
        Some(t) => psqt_mg(c.piece, t.idx()),
        None => 0,
    }
}

/// Endgame value a piece change takes off its origin.
pub open spec fn from_eg(c: PieceChange) -> int {
    match c.from {
        Some(f) => psqt_eg(c.piece, f.idx()),
        None => 0,
    }
}

/// Endgame value a piece change puts on its target.
pub open spec fn to_eg(c: PieceChange) -> int {
    match c.to {
        Some(t) => psqt_eg(c.piece, t.idx()),
        None => 0,
    }
}

/// The value fits in an `i32`.
pub open spec fn fits_i32(v: int) -> bool {
    i32::MIN <= v <= i32::MAX
}

/// Applying change `i` of `cs` to `old` with the changes before it applied:
/// the running totals after taking its origin value off and after putting
/// its target value on both fit in an `i32`.
pub open spec fn eval_step_fits(old: TaperedValue, cs: Seq<PieceChange>, i: int) -> bool {
    let mg = old.mg + changes_mg_delta(cs.take(i));
    let eg = old.eg + changes_eg_delta(cs.take(i));
    &&& fits_i32(mg - from_mg(cs[i]))
    &&& fits_i32(mg - from_mg(cs[i]) + to_mg(cs[i]))
    &&& fits_i32(eg - from_eg(cs[i]))
    &&& fits_i32(eg - from_eg(cs[i]) + to_eg(cs[i]))
}

/// The change totals of a list stay within the largest table value per change.
proof fn lemma_delta_bounds(cs: Seq<PieceChange>)
    ensures
        -105536 * cs.len() <= changes_mg_delta(cs) <= 105536 * cs.len(),
        -105536 * cs.len() <= changes_eg_delta(cs) <= 105536 * cs.len(),
    decreases cs.len(),
{
    if cs.len() > 0 {
        lemma_delta_bounds(cs.drop_last());
        let c = cs.last();
        if let Some(f) = c.from {
            lemma_psqt_bounds(c.piece, f.idx());
        }
        if let Some(t) = c.to {
            lemma_psqt_bounds(c.piece, t.idx());
        }
    }
}

/// The values a piece change moves are within the table's bounds.
proof fn lemma_change_bounds(c: PieceChange)
    ensures
        -52768 <= from_mg(c) <= 52768,
        -52768 <= to_mg(c) <= 52768,
        -52768 <= from_eg(c) <= 52768,
        -52768 <= to_eg(c) <= 52768,
{
    if let Some(f) = c.from {
        lemma_psqt_bounds(c.piece, f.idx());
    }
    if let Some(t) = c.to {
        lemma_psqt_bounds(c.piece, t.idx());
    }
}

/// With at most three changes and totals within two billion, every running
/// total fits in an `i32`.
pub proof fn lemma_few_changes_fit(old: TaperedValue, cs: Seq<PieceChange>)
    requires
        cs.len() <= 3,
        -2_000_000_000 <= old.mg <= 2_000_000_000,
        -2_000_000_000 <= old.eg <= 2_000_000_000,
    ensures
        forall|i: int| 0 <= i < cs.len() ==> #[trigger] eval_step_fits(old, cs, i),
{
    assert forall|i: int| 0 <= i < cs.len() implies #[trigger] eval_step_fits(old, cs, i) by {
        lemma_delta_bounds(cs.take(i));
        assert(cs.take(i).len() == i);
        assert(105536 * i <= 211072) by (nonlinear_arith)
            requires 0 <= i <= 2;
        lemma_change_bounds(cs[i]);
    }
}

/// The tapered evaluation after `piece_changes`: each moved piece's table value
/// at its old square is taken off and at its new square put on.
pub fn incremental_eval(old_eval: TaperedValue, piece_changes: &[PieceChange]) -> (r: TaperedValue)
    requires
        forall|i: int| 0 <= i < piece_changes@.len() ==> #[trigger] eval_step_fits(old_eval, piece_changes@, i),
    ensures
        r.mg == old_eval.mg + changes_mg_delta(piece_changes@),
        r.eg == old_eval.eg + changes_eg_delta(piece_changes@),
{
    let mut eval = old_eval;
    let mut i: usize = 0;
    while i < piece_changes.len()
        invariant
            i <= piece_changes@.len(),
            forall|k: int| 0 <= k < piece_changes@.len() ==> #[trigger] eval_step_fits(old_eval, piece_changes@, k),
            eval.mg == old_eval.mg + changes_mg_delta(piece_changes@.take(i as int)),
            eval.eg == old_eval.eg + changes_eg_delta(piece_changes@.take(i as int)),
        decreases piece_changes@.len() - i,
    {
        let ap = piece_changes[i];
        assert(piece_changes@.take(i as int + 1).drop_last() =~= piece_changes@.take(i as int));
        assert(eval_step_fits(old_eval, piece_changes@, i as int));
        if let Some(from) = ap.from {
            eval = eval.minus(psqt::value(ap.piece, from));
        }
        if let Some(to) = ap.to {
            eval = eval.plus(psqt::value(ap.piece, to));
        }
        i = i + 1;
    }
    assert(piece_changes@.take(i as int) =~= piece_changes@);
    eval
}

} // verus!
