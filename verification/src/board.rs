//! Board representation and position state: mailbox plus bitboards, the
//! incrementally kept hash, phase and evaluation, and make/unmake of moves.

use vstd::prelude::*;
use std::sync::Arc;
use crate::basetypes::{
    Bitboard, CastlingDirection, CastlingRights, DrawReason, File, GameStatus, GenericErr, InputMove,
    Move, PerPiece, PerSide, PerSquare, Piece, PieceKind, Rank, Side, Square, WinReason, has_sq, popcount, lemma_bits_ext, lemma_has_sq_and_not,
    lemma_has_sq_ops, lemma_has_sq_or, lemma_has_sq_zero, lemma_sq_at, lemma_sq_bit_distinct,
    rights_after_landing, rights_after_move, sq_at, sq_bit,
};
use crate::eval::{changes_eg_delta, changes_mg_delta, change_eg_delta, change_mg_delta, incremental_eval};
use crate::fen::{
    self, FenError, FenParts, STARTING_FEN, fen_error, fen_text, parse_castling, parse_colour, parse_ep,
    parse_uint, placement_board, split_at_char, start_board,
};
use crate::movegen::{MoveGen, attacked_by};
use crate::multiset::{MultiSet, added, count_in, removed, lemma_remove_undoes_add};
use crate::phase::{PhaseScore, changes_phase_delta, change_phase_delta, incremental_phase_score, phase_delta, phase_weight};
use crate::psqt::{self, TaperedValue, div_trunc, psqt_eg, psqt_mg, lemma_psqt_bounds};
use crate::zobrist::{ZobristKey, ZobristRandoms};

verus! {

broadcast use vstd::std_specs::hash::group_hash_axioms;

pub const MAX_MOVES: usize = 1024;

/// One piece appearing, disappearing or moving: `from` None means the piece
/// is created, `to` None means it is removed.
#[derive(Debug, Clone, Copy, PartialEq, Eq, Structural)]
pub struct PieceChange {
    pub piece: Piece,
    pub from: Option<Square>,
    pub to: Option<Square>,
}

/// The piece changes of one move (at most three).
#[derive(Debug, Clone, Copy)]
pub struct AlteredPieces {
    pub changes: [PieceChange; 3],
    pub count: usize,
}

impl AlteredPieces {
    pub open spec fn seq(&self) -> Seq<PieceChange> {
        self.changes@.take(self.count as int)
    }

    pub open spec fn wf(&self) -> bool {
        self.count <= 3
    }

    pub fn new() -> (r: Self)
        ensures
            r.wf(),
            r.count == 0,
            r.seq() == Seq::<PieceChange>::empty(),
    {
        let blank = PieceChange {
            piece: Piece { side: Side::White, kind: PieceKind::Pawn },
            from: None,
            to: None,
        };
        let r = AlteredPieces { changes: [blank; 3], count: 0 };
        assert(r.seq() =~= Seq::<PieceChange>::empty());
        r
    }

    pub fn piece_changes(&self) -> (r: Vec<PieceChange>)
        requires
            self.wf(),
        ensures
            r@ == self.seq(),
    {
        let mut v: Vec<PieceChange> = Vec::new();
        let mut i: usize = 0;
        while i < self.count
            invariant
                i <= self.count <= 3,
                v@ == self.changes@.take(i as int),
            decreases self.count - i,
        {
            v.push(self.changes[i]);
            assert(self.changes@.take(i as int + 1) =~= self.changes@.take(i as int).push(self.changes@[i as int]));
            i = i + 1;
        }
        v
    }

    pub fn add(&mut self, piece_change: PieceChange)
        requires
            old(self).wf(),
            old(self).count < 3,
        ensures
            final(self).wf(),
            final(self).count == old(self).count + 1,
            final(self).seq() == old(self).seq().push(piece_change),
    {
        let c = self.count;
        self.changes[c] = piece_change;
        self.count = c + 1;
        assert(self.seq() =~= old(self).seq().push(piece_change));
    }
}

/// All the metadata of a position other than the pieces.
#[derive(Debug, Clone, Copy, PartialEq, Eq, Structural)]
pub struct PositionState {
    pub active_side: Side,
    pub castling: CastlingRights,
    pub half_move_clock: u8,
    pub full_move_number: u16,
    pub en_passant: Option<Square>,
    pub zobrist_hash: ZobristKey,
    pub phase_score: PhaseScore,
    pub tapered_eval: TaperedValue,
}

impl PositionState {
    pub fn new() -> (r: Self)
        ensures
            r.active_side == Side::White,
            r.castling.rights == 15,
            r.half_move_clock == 0 && r.full_move_number == 0,
            r.en_passant is None,
            r.zobrist_hash == 0 && r.phase_score == 0,
            r.tapered_eval.mg == 0 && r.tapered_eval.eg == 0,
    {
        Self {
            active_side: Side::White,
            castling: CastlingRights::new(CastlingRights::all()),
            half_move_clock: 0,
            full_move_number: 0,
            en_passant: None,
            zobrist_hash: 0,
            phase_score: 0,
            tapered_eval: TaperedValue::new(0, 0),
        }
    }
}

/// A fixed-capacity stack; slot 0 holds the initial filler and pushed values
/// occupy slots 1..=stack_pointer.
#[derive(Debug, Clone, Copy)]
pub struct Stack<T, const N: usize> {
    stack_array: [T; N],
    stack_pointer: usize,
}

impl<T: Copy, const N: usize> Stack<T, N> {
    /// The pushed values, bottom first.
    pub closed spec fn seq(&self) -> Seq<T> {
        self.stack_array@.subrange(1, self.stack_pointer as int + 1)
    }

    pub closed spec fn wf(&self) -> bool {
        self.stack_pointer < N
    }

    /// The filler in slot 0, which `peek` gives on an empty stack.
    pub closed spec fn filler(&self) -> T {
        self.stack_array@[0]
    }

    pub fn new(default: T) -> (r: Self)
        requires
            N >= 1,
        ensures
            r.wf(),
            r.seq() == Seq::<T>::empty(),
            r.filler() == default,
    {
        let r = Self { stack_array: [default; N], stack_pointer: 0 };
        assert(r.seq() =~= Seq::<T>::empty());
        r
    }

    pub fn len(&self) -> (r: usize)
        requires
            self.wf(),
        ensures
            r == self.seq().len(),
    {
        self.stack_pointer
    }

    pub fn capacity(&self) -> (r: usize)
        ensures
            r == N,
    {
        N
    }

    pub fn push(&mut self, state: T)
        requires
            old(self).wf(),
            old(self).seq().len() + 1 < N,
        ensures
            final(self).wf(),
            final(self).seq() == old(self).seq().push(state),
            final(self).filler() == old(self).filler(),
    {
        let p = self.stack_pointer + 1;
        self.stack_pointer = p;
        self.stack_array[p] = state;
        assert(self.seq() =~= old(self).seq().push(state));
    }

    pub fn pop(&mut self) -> (r: T)
        requires
            old(self).wf(),
            old(self).seq().len() > 0,
        ensures
            final(self).wf(),
            r == old(self).seq().last(),
            final(self).seq() == old(self).seq().drop_last(),
            final(self).filler() == old(self).filler(),
    {
        let p = self.stack_pointer;
        self.stack_pointer = p - 1;
        assert(self.seq() =~= old(self).seq().drop_last());
        self.stack_array[p]
    }

    pub fn peek(&self) -> (r: T)
        requires
            self.wf(),
        ensures
            self.seq().len() > 0 ==> r == self.seq().last(),
            self.seq().len() == 0 ==> r == self.filler(),
    {
        self.stack_array[self.stack_pointer]
    }
}

/// The Zobrist key a square contributes: its piece's key, or nothing when empty.
pub open spec fn sq_key(z: ZobristRandoms, p: Option<Piece>, i: int) -> u64 {
    match p {
        Some(pc) => z.pkey(pc.side, pc.kind, i),
        None => 0,
    }
}

/// XOR of the keys of the pieces on the first `n` squares.
pub open spec fn board_hash(z: ZobristRandoms, b: Seq<Option<Piece>>, n: nat) -> u64
    decreases n,
{
    if n == 0 {
        0
    } else {
        board_hash(z, b, (n - 1) as nat) ^ sq_key(z, b[n - 1], n - 1)
    }
}

/// The Zobrist hash of a whole position: pieces, en passant square, castling
/// rights and side to move.
pub open spec fn position_hash(z: ZobristRandoms, b: Seq<Option<Piece>>, st: PositionState) -> u64 {
    board_hash(z, b, 64) ^ z.ekey(st.en_passant) ^ z.ckey(st.castling.rights) ^ z.skey(
        st.active_side,
    )
}

pub open spec fn sq_phase(p: Option<Piece>) -> int {
    match p {
        Some(pc) => phase_weight(pc.kind),
        None => 0,
    }
}

pub open spec fn sq_mg(p: Option<Piece>, i: int) -> int {
    match p {
        Some(pc) => psqt_mg(pc, i),
        None => 0,
    }
}

pub open spec fn sq_eg(p: Option<Piece>, i: int) -> int {
    match p {
        Some(pc) => psqt_eg(pc, i),
        None => 0,
    }
}

/// Sum of the phase weights of the pieces on the first `n` squares.
pub open spec fn board_phase(b: Seq<Option<Piece>>, n: nat) -> int
    decreases n,
{
    if n == 0 {
        0
    } else {
        board_phase(b, (n - 1) as nat) + sq_phase(b[n - 1])
    }
}

/// Sum of the middlegame values of the pieces on the first `n` squares.
pub open spec fn board_mg(b: Seq<Option<Piece>>, n: nat) -> int
    decreases n,
{
    if n == 0 {
        0
    } else {
        board_mg(b, (n - 1) as nat) + sq_mg(b[n - 1], n - 1)
    }
}

/// Sum of the endgame values of the pieces on the first `n` squares.
pub open spec fn board_eg(b: Seq<Option<Piece>>, n: nat) -> int
    decreases n,
{
    if n == 0 {
        0
    } else {
        board_eg(b, (n - 1) as nat) + sq_eg(b[n - 1], n - 1)
    }
}

/// Bit set of the squares among the first `n` that hold `side`'s `kind`.
pub open spec fn piece_bits(b: Seq<Option<Piece>>, side: Side, kind: PieceKind, n: nat) -> u64
    decreases n,
{
    if n == 0 {
        0
    } else {
        piece_bits(b, side, kind, (n - 1) as nat) | (if b[n - 1] == Some(Piece { side, kind }) {
            sq_bit(n - 1)
        } else {
            0u64
        })
    }
}

/// Bit set of the squares among the first `n` that hold a piece of `side`.
pub open spec fn side_bits(b: Seq<Option<Piece>>, side: Side, n: nat) -> u64
    decreases n,
{
    if n == 0 {
        0
    } else {
        side_bits(b, side, (n - 1) as nat) | (if b[n - 1] is Some && b[n - 1]->0.side == side {
            sq_bit(n - 1)
        } else {
            0u64
        })
    }
}

pub proof fn lemma_piece_bits(b: Seq<Option<Piece>>, side: Side, kind: PieceKind, n: nat, t: int)
    requires
        n <= 64,
        0 <= t < 64,
        b.len() == 64,
    ensures
        has_sq(piece_bits(b, side, kind, n), t) == (t < n && b[t] == Some(Piece { side, kind })),
    decreases n,
{
    if n == 0 {
        lemma_has_sq_zero(t);
    } else {
        lemma_piece_bits(b, side, kind, (n - 1) as nat, t);
        let extra = if b[n - 1] == Some(Piece { side, kind }) { sq_bit(n - 1) } else { 0u64 };
        lemma_has_sq_ops(piece_bits(b, side, kind, (n - 1) as nat), extra, t);
        lemma_sq_bit_distinct(n - 1, t);
        lemma_has_sq_zero(t);
    }
}

pub proof fn lemma_side_bits(b: Seq<Option<Piece>>, side: Side, n: nat, t: int)
    requires
        n <= 64,
        0 <= t < 64,
        b.len() == 64,
    ensures
        has_sq(side_bits(b, side, n), t) == (t < n && b[t] is Some && b[t]->0.side == side),
    decreases n,
{
    if n == 0 {
        lemma_has_sq_zero(t);
    } else {
        lemma_side_bits(b, side, (n - 1) as nat, t);
        let extra = if b[n - 1] is Some && b[n - 1]->0.side == side { sq_bit(n - 1) } else { 0u64 };
        lemma_has_sq_ops(side_bits(b, side, (n - 1) as nat), extra, t);
        lemma_sq_bit_distinct(n - 1, t);
        lemma_has_sq_zero(t);
    }
}

proof fn lemma_xor_swap(a: u64, x: u64, y: u64)
    ensures
        (a ^ x) ^ y == (a ^ y) ^ x,
        (a ^ x) ^ x == a,
        ((a ^ x) ^ x) ^ y == a ^ y,
        a ^ 0u64 == a,
{
    assert((a ^ x) ^ y == (a ^ y) ^ x && (a ^ x) ^ x == a && ((a ^ x) ^ x) ^ y == a ^ y && a ^ 0u64 == a) by (bit_vector);
}

proof fn lemma_clear_absent(x: u64, i: u64)
    ensures
        i < 64 && x & (1u64 << i) == 0 ==> x & !(1u64 << i) == x,
{
    assert(i < 64 && x & (1u64 << i) == 0 ==> x & !(1u64 << i) == x) by (bit_vector);
}

proof fn lemma_xor_piece(bh: u64, e: u64, c: u64, s: u64, key: u64)
    ensures
        (((bh ^ e) ^ c) ^ s) ^ key == ((((bh ^ 0u64) ^ key) ^ e) ^ c) ^ s,
        (((bh ^ e) ^ c) ^ s) ^ key == ((((bh ^ key) ^ 0u64) ^ e) ^ c) ^ s,
{
    assert((((bh ^ e) ^ c) ^ s) ^ key == ((((bh ^ 0u64) ^ key) ^ e) ^ c) ^ s
        && (((bh ^ e) ^ c) ^ s) ^ key == ((((bh ^ key) ^ 0u64) ^ e) ^ c) ^ s) by (bit_vector);
}

/// Replacing what stands on one square changes the board hash by that square's keys.
pub proof fn lemma_board_hash_update(z: ZobristRandoms, b: Seq<Option<Piece>>, i: int, v: Option<Piece>, n: nat)
    requires
        0 <= i < 64,
        n <= 64,
        b.len() == 64,
    ensures
        board_hash(z, b.update(i, v), n) == (if i < n {
            board_hash(z, b, n) ^ sq_key(z, b[i], i) ^ sq_key(z, v, i)
        } else {
            board_hash(z, b, n)
        }),
    decreases n,
{
    let b2 = b.update(i, v);
    if n == 0 {
    } else {
        lemma_board_hash_update(z, b, i, v, (n - 1) as nat);
        let h = board_hash(z, b, (n - 1) as nat);
        if i < n - 1 {
            let d1 = sq_key(z, b[i], i);
            let d2 = sq_key(z, v, i);
            let k = sq_key(z, b[n - 1], n - 1);
            assert(((h ^ d1) ^ d2) ^ k == ((h ^ k) ^ d1) ^ d2) by (bit_vector);
        } else if i == n - 1 {
            lemma_xor_swap(h, sq_key(z, b[i], i), sq_key(z, v, i));
        }
    }
}

pub proof fn lemma_board_sums_update(b: Seq<Option<Piece>>, i: int, v: Option<Piece>, n: nat)
    requires
        0 <= i < 64,
        n <= 64,
        b.len() == 64,
    ensures
        board_phase(b.update(i, v), n) == board_phase(b, n) + (if i < n { sq_phase(v) - sq_phase(b[i]) } else { 0 }),
        board_mg(b.update(i, v), n) == board_mg(b, n) + (if i < n { sq_mg(v, i) - sq_mg(b[i], i) } else { 0 }),
        board_eg(b.update(i, v), n) == board_eg(b, n) + (if i < n { sq_eg(v, i) - sq_eg(b[i], i) } else { 0 }),
    decreases n,
{
    if n > 0 {
        lemma_board_sums_update(b, i, v, (n - 1) as nat);
    }
}

pub proof fn lemma_board_sum_bounds(b: Seq<Option<Piece>>, n: nat)
    requires
        n <= 64,
        b.len() == 64,
    ensures
        -52768 * n <= board_mg(b, n) <= 52768 * n,
        -52768 * n <= board_eg(b, n) <= 52768 * n,
        0 <= board_phase(b, n) <= 4 * n,
    decreases n,
{
    if n > 0 {
        lemma_board_sum_bounds(b, (n - 1) as nat);
        if b[n - 1] is Some {
            lemma_psqt_bounds(b[n - 1]->0, n - 1);
        }
    }
}

/// The board after one piece change.
pub open spec fn apply_change(b: Seq<Option<Piece>>, c: PieceChange) -> Seq<Option<Piece>> {
    let b1 = match c.from {
        Some(f) => b.update(f.idx(), None),
        None => b,
    };
    match c.to {
        Some(t) => b1.update(t.idx(), Some(c.piece)),
        None => b1,
    }
}

/// A piece change fits a board: the moving piece stands on `from`, `to` is a
/// different, empty square.
pub open spec fn change_valid(b: Seq<Option<Piece>>, c: PieceChange) -> bool {
    &&& (c.from matches Some(f) ==> b[f.idx()] == Some(c.piece))
    &&& (c.to matches Some(t) ==> b[t.idx()] is None && (c.from matches Some(f) ==> f != t))
}

/// The board after a list of piece changes, applied in order.
pub open spec fn apply_changes(b: Seq<Option<Piece>>, cs: Seq<PieceChange>) -> Seq<Option<Piece>>
    decreases cs.len(),
{
    if cs.len() == 0 {
        b
    } else {
        apply_change(apply_changes(b, cs.drop_last()), cs.last())
    }
}

/// Every change of the list fits the board it is applied to.
pub open spec fn changes_valid(b: Seq<Option<Piece>>, cs: Seq<PieceChange>) -> bool
    decreases cs.len(),
{
    if cs.len() == 0 {
        true
    } else {
        changes_valid(b, cs.drop_last()) && change_valid(apply_changes(b, cs.drop_last()), cs.last())
    }
}

/// The board with one piece change reversed.
pub open spec fn undo_change(b: Seq<Option<Piece>>, c: PieceChange) -> Seq<Option<Piece>> {
    let b1 = match c.from {
        Some(f) => b.update(f.idx(), Some(c.piece)),
        None => b,
    };
    match c.to {
        Some(t) => b1.update(t.idx(), None),
        None => b1,
    }
}

/// The board with a list of piece changes reversed, last change first.
pub open spec fn undo_changes(b: Seq<Option<Piece>>, cs: Seq<PieceChange>) -> Seq<Option<Piece>>
    decreases cs.len(),
{
    if cs.len() == 0 {
        b
    } else {
        undo_changes(undo_change(b, cs.last()), cs.drop_last())
    }
}

/// Reversing applied changes gives back the board they were applied to.
pub proof fn lemma_undo_apply(b: Seq<Option<Piece>>, cs: Seq<PieceChange>)
    requires
        b.len() == 64,
        changes_valid(b, cs),
    ensures
        undo_changes(apply_changes(b, cs), cs) == b,
        apply_changes(b, cs).len() == 64,
    decreases cs.len(),
{
    if cs.len() > 0 {
        lemma_undo_apply(b, cs.drop_last());
        let b0 = apply_changes(b, cs.drop_last());
        lemma_undo_apply_one(b0, cs.last());
    }
}

pub proof fn lemma_undo_apply_one(b: Seq<Option<Piece>>, c: PieceChange)
    requires
        b.len() == 64,
        change_valid(b, c),
    ensures
        undo_change(apply_change(b, c), c) == b,
        apply_change(b, c).len() == 64,
{
    match (c.from, c.to) {
        (Some(f), Some(t)) => {
            let b1 = b.update(f.idx(), None);
            let b2 = b1.update(t.idx(), Some(c.piece));
            let b3 = b2.update(f.idx(), Some(c.piece));
            let b4 = b3.update(t.idx(), None);
            assert(b4 =~= b);
        },
        (Some(f), None) => {
            assert(b.update(f.idx(), None).update(f.idx(), Some(c.piece)) =~= b);
        },
        (None, Some(t)) => {
            assert(b.update(t.idx(), Some(c.piece)).update(t.idx(), None) =~= b);
        },
        (None, None) => {},
    }
}

pub proof fn lemma_apply_change_sums(z: ZobristRandoms, b: Seq<Option<Piece>>, c: PieceChange)
    requires
        b.len() == 64,
        change_valid(b, c),
    ensures
        apply_change(b, c).len() == 64,
        board_phase(apply_change(b, c), 64) == board_phase(b, 64) + change_phase_delta(c),
        board_mg(apply_change(b, c), 64) == board_mg(b, 64) + change_mg_delta(c),
        board_eg(apply_change(b, c), 64) == board_eg(b, 64) + change_eg_delta(c),
{
    let b1 = match c.from {
        Some(f) => b.update(f.idx(), None),
        None => b,
    };
    if let Some(f) = c.from {
        lemma_board_sums_update(b, f.idx(), None, 64);
    }
    if let Some(t) = c.to {
        lemma_board_sums_update(b1, t.idx(), Some(c.piece), 64);
    }
}

pub proof fn lemma_apply_changes_sums(z: ZobristRandoms, b: Seq<Option<Piece>>, cs: Seq<PieceChange>)
    requires
        b.len() == 64,
        changes_valid(b, cs),
    ensures
        apply_changes(b, cs).len() == 64,
        board_phase(apply_changes(b, cs), 64) == board_phase(b, 64) + changes_phase_delta(cs),
        board_mg(apply_changes(b, cs), 64) == board_mg(b, 64) + changes_mg_delta(cs),
        board_eg(apply_changes(b, cs), 64) == board_eg(b, 64) + changes_eg_delta(cs),
    decreases cs.len(),
{
    if cs.len() > 0 {
        lemma_apply_changes_sums(z, b, cs.drop_last());
        lemma_apply_change_sums(z, apply_changes(b, cs.drop_last()), cs.last());
    }
}

/// The pawn taken by an en passant capture stands beside the capturing pawn,
/// on the destination's file and the origin's rank.
pub open spec fn ep_victim_idx(m: Move) -> int {
    m.to_sq().file_idx() + 8 * m.from_sq().rank_idx()
}

/// The piece changes a move makes, in the order they are applied.
pub open spec fn move_changes(side: Side, m: Move, victim: Square) -> Seq<PieceChange> {
    if m.is_castling() {
        let d = CastlingDirection::spec_direction(m.from_sq(), m.to_sq())->0;
        seq![
            PieceChange { piece: Piece { side, kind: PieceKind::King }, from: Some(m.from_sq()), to: Some(m.to_sq()) },
            PieceChange { piece: Piece { side, kind: PieceKind::Rook }, from: Some(d.spec_rook_from()), to: Some(d.spec_rook_to()) },
        ]
    } else if m.is_en_passant() {
        seq![
            PieceChange { piece: Piece { side, kind: PieceKind::Pawn }, from: Some(m.from_sq()), to: Some(m.to_sq()) },
            PieceChange { piece: Piece { side: side.opp(), kind: PieceKind::Pawn }, from: Some(victim), to: None },
        ]
    } else {
        let capture: Seq<PieceChange> = match m.capture() {
            Some(k) => seq![PieceChange { piece: Piece { side: side.opp(), kind: k }, from: Some(m.to_sq()), to: None }],
            None => seq![],
        };
        match m.promo() {
            Some(pk) => capture + seq![
                PieceChange { piece: Piece { side, kind: PieceKind::Pawn }, from: Some(m.from_sq()), to: None },
                PieceChange { piece: Piece { side, kind: pk }, from: None, to: Some(m.to_sq()) },
            ],
            None => capture + seq![
                PieceChange { piece: Piece { side, kind: m.kind() }, from: Some(m.from_sq()), to: Some(m.to_sq()) },
            ],
        }
    }
}

/// The square the active side's pawn may be taken on en passant after `m`.
pub open spec fn ep_after(side: Side, m: Move) -> Option<Square> {
    if m.kind() == PieceKind::Pawn && side == Side::White && m.from_sq().rank_idx() == 1
        && m.to_sq().rank_idx() == 3 {
        Some(sq_at(m.from_sq().file_idx() + 16))
    } else if m.kind() == PieceKind::Pawn && side == Side::Black && m.from_sq().rank_idx() == 6
        && m.to_sq().rank_idx() == 4 {
        Some(sq_at(m.from_sq().file_idx() + 40))
    } else {
        None
    }
}

/// The castling rights after `side` plays `m`: moving the king or a rook from
/// its home square forfeits rights, and so does capturing on a rook corner.
pub open spec fn rights_after(rights: u8, side: Side, m: Move) -> u8 {
    let r = rights_after_move(rights, side, m.from_sq(), m.kind());
    if m.capture() is Some {
        rights_after_landing(r, m.to_sq())
    } else {
        r
    }
}

/// The square of `side`'s king, where the board has exactly one.
pub open spec fn king_idx(b: Seq<Option<Piece>>, side: Side) -> int {
    choose|t: int| 0 <= t < 64 && b[t] == Some(Piece { side, kind: PieceKind::King })
}

/// `side` has exactly one king on the board.
pub open spec fn one_king(b: Seq<Option<Piece>>, side: Side) -> bool {
    exists|t: int|
        0 <= t < 64 && b[t] == Some(Piece { side, kind: PieceKind::King }) && forall|u: int|
            0 <= u < 64 && #[trigger] b[u] == Some(Piece { side, kind: PieceKind::King }) ==> u == t
}

/// How often `k` occurs in `s`.
pub open spec fn seq_count(s: Seq<u64>, k: u64) -> nat
    decreases s.len(),
{
    if s.len() == 0 {
        0
    } else {
        seq_count(s.drop_last(), k) + (if s.last() == k { 1nat } else { 0nat })
    }
}

/// The hashes of a history of states followed by the current hash.
pub open spec fn hashes_of(hist: Seq<PositionState>, cur: u64) -> Seq<u64> {
    hist.map_values(|st: PositionState| st.zobrist_hash).push(cur)
}

/// A move fits a position: the moving piece of the side to move stands on its
/// origin and every piece change it makes fits the board.
pub open spec fn move_fits(b: Seq<Option<Piece>>, st: PositionState, m: Move) -> bool {
    &&& b.len() == 64
    &&& b[m.from_sq().idx()] == Some(Piece { side: st.active_side, kind: m.kind() })
    &&& changes_valid(b, move_changes(st.active_side, m, sq_at(ep_victim_idx(m))))
    &&& (m.is_castling() ==> CastlingDirection::spec_direction(m.from_sq(), m.to_sq()) is Some)
    &&& (m.promo() matches Some(k) ==> k != PieceKind::Pawn && k != PieceKind::King)
}

proof fn lemma_two_changes(b: Seq<Option<Piece>>, c1: PieceChange, c2: PieceChange)
    ensures
        changes_valid(b, seq![c1, c2]) == (change_valid(b, c1) && change_valid(apply_change(b, c1), c2)),
        apply_changes(b, seq![c1, c2]) == apply_change(apply_change(b, c1), c2),
{
    let s = seq![c1, c2];
    assert(s.drop_last() =~= seq![c1]);
    assert(s.last() == c2);
    lemma_one_change(b, c1);
}

proof fn lemma_three_changes(b: Seq<Option<Piece>>, c1: PieceChange, c2: PieceChange, c3: PieceChange)
    ensures
        changes_valid(b, seq![c1, c2, c3]) == (change_valid(b, c1) && change_valid(apply_change(b, c1), c2)
            && change_valid(apply_change(apply_change(b, c1), c2), c3)),
        apply_changes(b, seq![c1, c2, c3]) == apply_change(apply_change(apply_change(b, c1), c2), c3),
{
    let s = seq![c1, c2, c3];
    assert(s.drop_last() =~= seq![c1, c2]);
    assert(s.last() == c3);
    lemma_two_changes(b, c1, c2);
}

proof fn lemma_one_change(b: Seq<Option<Piece>>, c1: PieceChange)
    ensures
        changes_valid(b, seq![c1]) == change_valid(b, c1),
        apply_changes(b, seq![c1]) == apply_change(b, c1),
{
    let e = Seq::<PieceChange>::empty();
    assert(seq![c1].drop_last() =~= e);
    assert(seq![c1].last() == c1);
    assert(changes_valid(b, e));
    assert(apply_changes(b, e) == b);
}

/// An ordinary move (no castling, en passant or promotion) fits when its piece
/// stands on its origin and its recorded capture is what stands on its target.
pub proof fn lemma_plain_move_fits(b: Seq<Option<Piece>>, st: PositionState, m: Move)
    requires
        b.len() == 64,
        !m.is_castling(),
        !m.is_en_passant(),
        m.promo() is None,
        b[m.from_sq().idx()] == Some(Piece { side: st.active_side, kind: m.kind() }),
        m.from_sq() != m.to_sq(),
        match m.capture() {
            Some(k) => b[m.to_sq().idx()] == Some(Piece { side: st.active_side.opp(), kind: k }),
            None => b[m.to_sq().idx()] is None,
        },
    ensures
        move_fits(b, st, m),
{
    let side = st.active_side;
    let mv = PieceChange { piece: Piece { side, kind: m.kind() }, from: Some(m.from_sq()), to: Some(m.to_sq()) };
    match m.capture() {
        Some(k) => {
            let cap = PieceChange { piece: Piece { side: side.opp(), kind: k }, from: Some(m.to_sq()), to: None };
            assert(move_changes(side, m, sq_at(ep_victim_idx(m))) =~= seq![cap, mv]);
            lemma_two_changes(b, cap, mv);
        },
        None => {
            assert(move_changes(side, m, sq_at(ep_victim_idx(m))) =~= seq![mv]);
            lemma_one_change(b, mv);
        },
    }
}

/// A pawn promotion fits when the pawn stands on its origin and its recorded
/// capture is what stands on its target.
pub proof fn lemma_promo_move_fits(b: Seq<Option<Piece>>, st: PositionState, m: Move)
    requires
        b.len() == 64,
        !m.is_castling(),
        !m.is_en_passant(),
        m.kind() == PieceKind::Pawn,
        m.promo() matches Some(k) && k != PieceKind::Pawn && k != PieceKind::King,
        b[m.from_sq().idx()] == Some(Piece { side: st.active_side, kind: PieceKind::Pawn }),
        m.from_sq() != m.to_sq(),
        match m.capture() {
            Some(k) => b[m.to_sq().idx()] == Some(Piece { side: st.active_side.opp(), kind: k }),
            None => b[m.to_sq().idx()] is None,
        },
    ensures
        move_fits(b, st, m),
{
    let side = st.active_side;
    let pk = m.promo()->0;
    let off = PieceChange { piece: Piece { side, kind: PieceKind::Pawn }, from: Some(m.from_sq()), to: None };
    let on = PieceChange { piece: Piece { side, kind: pk }, from: None, to: Some(m.to_sq()) };
    match m.capture() {
        Some(k) => {
            let cap = PieceChange { piece: Piece { side: side.opp(), kind: k }, from: Some(m.to_sq()), to: None };
            assert(move_changes(side, m, sq_at(ep_victim_idx(m))) =~= seq![cap, off, on]);
            lemma_three_changes(b, cap, off, on);
        },
        None => {
            assert(move_changes(side, m, sq_at(ep_victim_idx(m))) =~= seq![off, on]);
            lemma_two_changes(b, off, on);
        },
    }
}

/// An en passant capture fits when the pawn stands on its origin, its target
/// is empty and the enemy pawn stands beside it.
pub proof fn lemma_ep_move_fits(b: Seq<Option<Piece>>, st: PositionState, m: Move)
    requires
        b.len() == 64,
        !m.is_castling(),
        m.is_en_passant(),
        m.kind() == PieceKind::Pawn,
        m.promo() is None,
        b[m.from_sq().idx()] == Some(Piece { side: st.active_side, kind: PieceKind::Pawn }),
        m.from_sq() != m.to_sq(),
        b[m.to_sq().idx()] is None,
        sq_at(ep_victim_idx(m)) != m.from_sq(),
        sq_at(ep_victim_idx(m)) != m.to_sq(),
        b[sq_at(ep_victim_idx(m)).idx()] == Some(Piece { side: st.active_side.opp(), kind: PieceKind::Pawn }),
    ensures
        move_fits(b, st, m),
{
    let side = st.active_side;
    let v = sq_at(ep_victim_idx(m));
    let mv = PieceChange { piece: Piece { side, kind: PieceKind::Pawn }, from: Some(m.from_sq()), to: Some(m.to_sq()) };
    let cap = PieceChange { piece: Piece { side: side.opp(), kind: PieceKind::Pawn }, from: Some(v), to: None };
    assert(move_changes(side, m, v) =~= seq![mv, cap]);
    lemma_two_changes(b, mv, cap);
}

/// A castling move fits when king and rook stand on their home squares and
/// the king's and rook's destinations are empty.
pub proof fn lemma_castle_move_fits(b: Seq<Option<Piece>>, st: PositionState, m: Move, d: CastlingDirection)
    requires
        b.len() == 64,
        m.is_castling(),
        m.kind() == PieceKind::King,
        m.promo() is None,
        d.spec_side() == st.active_side,
        m.from_sq() == d.spec_king_from(),
        m.to_sq() == d.spec_king_to(),
        b[d.spec_king_from().idx()] == Some(Piece { side: st.active_side, kind: PieceKind::King }),
        b[d.spec_rook_from().idx()] == Some(Piece { side: st.active_side, kind: PieceKind::Rook }),
        b[d.spec_king_to().idx()] is None,
        b[d.spec_rook_to().idx()] is None,
    ensures
        move_fits(b, st, m),
{
    let side = st.active_side;
    assert(CastlingDirection::spec_direction(m.from_sq(), m.to_sq()) == Some(d));
    let k = PieceChange { piece: Piece { side, kind: PieceKind::King }, from: Some(m.from_sq()), to: Some(m.to_sq()) };
    let r = PieceChange { piece: Piece { side, kind: PieceKind::Rook }, from: Some(d.spec_rook_from()), to: Some(d.spec_rook_to()) };
    assert(move_changes(side, m, sq_at(ep_victim_idx(m))) =~= seq![k, r]);
    lemma_two_changes(b, k, r);
}

/// The metadata of a position fits its board: the kept hash, phase and
/// evaluation are those of the board, and the castling rights are in range.
pub open spec fn state_ok(z: ZobristRandoms, b: Seq<Option<Piece>>, st: PositionState) -> bool {
    &&& st.zobrist_hash == position_hash(z, b, st)
    &&& st.phase_score as int == board_phase(b, 64) % 256
    &&& st.tapered_eval.mg == board_mg(b, 64)
    &&& st.tapered_eval.eg == board_eg(b, 64)
    &&& st.castling.rights < 16
}

/// Undoing the recorded changes, newest first, walks back through boards that
/// each fit the state recorded for them.
pub open spec fn history_ok(
    z: ZobristRandoms,
    b: Seq<Option<Piece>>,
    hist: Seq<PositionState>,
    logs: Seq<AlteredPieces>,
) -> bool
    decreases hist.len(),
{
    if hist.len() == 0 || logs.len() == 0 {
        hist.len() == logs.len()
    } else {
        let cs = logs.last().seq();
        let prev = undo_changes(b, cs);
        &&& hist.len() == logs.len()
        &&& logs.last().wf()
        &&& prev.len() == 64
        &&& changes_valid(prev, cs)
        &&& apply_changes(prev, cs) == b
        &&& state_ok(z, prev, hist.last())
        &&& history_ok(z, prev, hist.drop_last(), logs.drop_last())
    }
}

/// A chess position.
#[derive(Debug, Clone)]
pub struct Position {
    pub pieces: PerSide<PerPiece<Bitboard>>,
    pub sides_pieces: PerSide<Bitboard>,
    pub piece_by_square: PerSquare<Option<Piece>>,
    pub state: PositionState,
    pub history: Stack<PositionState, MAX_MOVES>,
    pub piece_change_log: Stack<AlteredPieces, MAX_MOVES>,
    pub zobrist_randoms: Arc<ZobristRandoms>,
    pub zobrists_visited: MultiSet<ZobristKey>,
    pub movegen: Arc<MoveGen>,
}

impl Position {
    /// The piece on each square, a1 first.
    pub open spec fn board(&self) -> Seq<Option<Piece>> {
        self.piece_by_square.0@
    }

    pub open spec fn zob(&self) -> ZobristRandoms {
        *self.zobrist_randoms
    }

    pub open spec fn mg(&self) -> MoveGen {
        *self.movegen
    }

    /// States before each move made since the position was set up, oldest first.
    pub open spec fn past_states(&self) -> Seq<PositionState> {
        self.history.seq()
    }

    /// Piece changes of each move made since the position was set up, oldest first.
    pub open spec fn past_changes(&self) -> Seq<AlteredPieces> {
        self.piece_change_log.seq()
    }

    /// How many positions with each hash were reached since the position was set up.
    pub open spec fn visited(&self) -> Map<ZobristKey, u64> {
        self.zobrists_visited.view()
    }

    /// Bitboards agree with the mailbox.
    pub open spec fn bb_ok(&self) -> bool {
        &&& forall|s: Side, k: PieceKind| #[trigger] self.pieces.0[s.idx()].0[k.idx()].0 == piece_bits(self.board(), s, k, 64)
        &&& forall|s: Side| #[trigger] self.sides_pieces.0[s.idx()].0 == side_bits(self.board(), s, 64)
    }

    pub closed spec fn hash_ok(&self) -> bool {
        self.state.zobrist_hash == position_hash(self.zob(), self.board(), self.state)
    }

    /// Nothing but the board, bitboards and state differ.
    pub closed spec fn frame_eq(&self, other: &Self) -> bool {
        &&& self.history == other.history
        &&& self.piece_change_log == other.piece_change_log
        &&& self.zobrist_randoms == other.zobrist_randoms
        &&& self.zobrists_visited == other.zobrists_visited
        &&& self.movegen == other.movegen
    }

    pub closed spec fn wf(&self) -> bool {
        &&& self.bb_ok()
        &&& state_ok(self.zob(), self.board(), self.state)
        &&& self.history.wf()
        &&& self.piece_change_log.wf()
        &&& history_ok(self.zob(), self.board(), self.history.seq(), self.piece_change_log.seq())
        &&& self.zobrists_visited.wf()
        &&& forall|k: u64| #[trigger] count_in(self.zobrists_visited.view(), k) == seq_count(
            hashes_of(self.history.seq(), self.state.zobrist_hash),
            k,
        )
        &&& self.movegen.wf()
    }

    /// Number of moves made since the position was set up.
    pub open spec fn num_made(&self) -> nat {
        self.history.seq().len()
    }

    pub open spec fn can_unmake(&self) -> bool {
        self.history.seq().len() > 0
    }

    /// Position model equality: everything observable is the same.
    pub open spec fn same_as(&self, other: &Self) -> bool {
        &&& self.board() == other.board()
        &&& self.state == other.state
        &&& self.history.seq() == other.history.seq()
        &&& self.piece_change_log.seq() == other.piece_change_log.seq()
        &&& self.visited() == other.visited()
        &&& self.zob() == other.zob()
        &&& self.mg() == other.mg()
    }

    // Add a piece to an empty square.
    fn add_piece(&mut self, square: &Square, piece: Piece)
        requires
            old(self).bb_ok(),
            old(self).hash_ok(),
            old(self).board()[square.idx()] is None,
        ensures
            final(self).board() == old(self).board().update(square.idx(), Some(piece)),
            final(self).bb_ok(),
            final(self).hash_ok(),
            final(self).state == (PositionState { zobrist_hash: final(self).state.zobrist_hash, ..old(self).state }),
            final(self).frame_eq(old(self)),
    {
        let ghost b = self.board();
        let i = square.index();
        let bit = square.bitboard();
        let mut pp = self.pieces.get(piece.side);
        pp.set(piece.kind, pp.get(piece.kind).union(bit));
        self.pieces.set(piece.side, pp);
        self.sides_pieces.set(piece.side, self.sides_pieces.get(piece.side).union(bit));
        self.piece_by_square.set(*square, Some(piece));
        let key = self.zobrist_randoms.piece_key(piece.side, piece.kind, *square);
        self.state.zobrist_hash = self.state.zobrist_hash ^ key;
        proof {
            let b2 = self.board();
            assert(b2 == b.update(i as int, Some(piece)));
            lemma_update_bits(b, i as int, Some(piece));
            assert forall|s: Side, k: PieceKind| #[trigger] self.pieces.0[s.idx()].0[k.idx()].0 == piece_bits(b2, s, k, 64) by {
                lemma_piece_bits(b, s, k, 64, i as int);
                let x = piece_bits(b, s, k, 64);
                lemma_clear_absent(x, i as u64);
            }
            assert forall|s: Side| #[trigger] self.sides_pieces.0[s.idx()].0 == side_bits(b2, s, 64) by {
                lemma_side_bits(b, s, 64, i as int);
                let x = side_bits(b, s, 64);
                lemma_clear_absent(x, i as u64);
            }
            lemma_board_hash_update(self.zob(), b, i as int, Some(piece), 64);
            let bh = board_hash(self.zob(), b, 64);
            let e = self.zob().ekey(self.state.en_passant);
            let c = self.zob().ckey(self.state.castling.rights);
            let s = self.zob().skey(self.state.active_side);
            lemma_xor_piece(bh, e, c, s, key);
        }
    }

    // Remove a piece from the square it stands on.
    fn remove_piece(&mut self, square: &Square, piece: Piece)
        requires
            old(self).bb_ok(),
            old(self).hash_ok(),
            old(self).board()[square.idx()] == Some(piece),
        ensures
            final(self).board() == old(self).board().update(square.idx(), None),
            final(self).bb_ok(),
            final(self).hash_ok(),
            final(self).state == (PositionState { zobrist_hash: final(self).state.zobrist_hash, ..old(self).state }),
            final(self).frame_eq(old(self)),
    {
        let ghost b = self.board();
        let i = square.index();
        let bit = square.bitboard();
        let mut pp = self.pieces.get(piece.side);
        pp.set(piece.kind, pp.get(piece.kind).intersect(bit.complement()));
        self.pieces.set(piece.side, pp);
        self.sides_pieces.set(piece.side, self.sides_pieces.get(piece.side).intersect(bit.complement()));
        self.piece_by_square.set(*square, None);
        let key = self.zobrist_randoms.piece_key(piece.side, piece.kind, *square);
        self.state.zobrist_hash = self.state.zobrist_hash ^ key;
        proof {
            let b2 = self.board();
            assert(b2 == b.update(i as int, None));
            lemma_update_bits(b, i as int, None);
            assert forall|s: Side, k: PieceKind| #[trigger] self.pieces.0[s.idx()].0[k.idx()].0 == piece_bits(b2, s, k, 64) by {
                lemma_piece_bits(b, s, k, 64, i as int);
                let x = piece_bits(b, s, k, 64);
                lemma_clear_absent(x, i as u64);
            }
            assert forall|s: Side| #[trigger] self.sides_pieces.0[s.idx()].0 == side_bits(b2, s, 64) by {
                lemma_side_bits(b, s, 64, i as int);
                let x = side_bits(b, s, 64);
                lemma_clear_absent(x, i as u64);
            }
            lemma_board_hash_update(self.zob(), b, i as int, None, 64);
            let bh = board_hash(self.zob(), b, 64);
            let e = self.zob().ekey(self.state.en_passant);
            let c = self.zob().ckey(self.state.castling.rights);
            let s = self.zob().skey(self.state.active_side);
            lemma_xor_piece(bh, e, c, s, key);
        }
    }
}

/// Bitboards after one square of the board changes.
pub proof fn lemma_update_bits(b: Seq<Option<Piece>>, i: int, v: Option<Piece>)
    requires
        b.len() == 64,
        0 <= i < 64,
    ensures
        forall|s: Side, k: PieceKind| #[trigger] piece_bits(b.update(i, v), s, k, 64) == (if v == Some(Piece { side: s, kind: k }) {
            piece_bits(b, s, k, 64) | sq_bit(i)
        } else {
            piece_bits(b, s, k, 64) & !sq_bit(i)
        }),
        forall|s: Side| #[trigger] side_bits(b.update(i, v), s, 64) == (if v is Some && v->0.side == s {
            side_bits(b, s, 64) | sq_bit(i)
        } else {
            side_bits(b, s, 64) & !sq_bit(i)
        }),
{
    let b2 = b.update(i, v);
    assert forall|s: Side, k: PieceKind| #[trigger] piece_bits(b2, s, k, 64) == (if v == Some(Piece { side: s, kind: k }) {
        piece_bits(b, s, k, 64) | sq_bit(i)
    } else {
        piece_bits(b, s, k, 64) & !sq_bit(i)
    }) by {
        let rhs = if v == Some(Piece { side: s, kind: k }) {
            piece_bits(b, s, k, 64) | sq_bit(i)
        } else {
            piece_bits(b, s, k, 64) & !sq_bit(i)
        };
        assert forall|t: int| 0 <= t < 64 implies #[trigger] has_sq(piece_bits(b2, s, k, 64), t) == has_sq(rhs, t) by {
            lemma_piece_bits(b2, s, k, 64, t);
            lemma_piece_bits(b, s, k, 64, t);
            lemma_has_sq_or(piece_bits(b, s, k, 64), i, t);
            lemma_has_sq_and_not(piece_bits(b, s, k, 64), i, t);
        }
        lemma_bits_ext(piece_bits(b2, s, k, 64), rhs);
    }
    assert forall|s: Side| #[trigger] side_bits(b2, s, 64) == (if v is Some && v->0.side == s {
        side_bits(b, s, 64) | sq_bit(i)
    } else {
        side_bits(b, s, 64) & !sq_bit(i)
    }) by {
        let rhs = if v is Some && v->0.side == s {
            side_bits(b, s, 64) | sq_bit(i)
        } else {
            side_bits(b, s, 64) & !sq_bit(i)
        };
        assert forall|t: int| 0 <= t < 64 implies #[trigger] has_sq(side_bits(b2, s, 64), t) == has_sq(rhs, t) by {
            lemma_side_bits(b2, s, 64, t);
            lemma_side_bits(b, s, 64, t);
            lemma_has_sq_or(side_bits(b, s, 64), i, t);
            lemma_has_sq_and_not(side_bits(b, s, 64), i, t);
        }
        lemma_bits_ext(side_bits(b2, s, 64), rhs);
    }
}


/// `t` is the only square holding `side`'s king.
pub open spec fn sole_king(b: Seq<Option<Piece>>, side: Side, t: int) -> bool {
    &&& 0 <= t < 64
    &&& forall|u: int| 0 <= u < 64 ==> (#[trigger] b[u] == Some(Piece { side, kind: PieceKind::King }) <==> u == t)
}

/// `side` has a single king, and it stands on a square the other side attacks.
pub open spec fn king_attacked(mg: MoveGen, b: Seq<Option<Piece>>, side: Side) -> bool {
    exists|t: int| #[trigger] sole_king(b, side, t) && attacked_by(mg, b, t, side.opp())
}

/// A castling move whose king starts on, crosses or lands on an attacked square.
pub open spec fn castles_through_check(mg: MoveGen, b: Seq<Option<Piece>>, side: Side, m: Move) -> bool {
    &&& m.is_castling()
    &&& exists|i: int| 0 <= i < 3 && attacked_by(
        mg,
        b,
        (#[trigger] CastlingDirection::spec_direction(m.from_sq(), m.to_sq())->0.spec_unattacked()[i]).idx(),
        side.opp(),
    )
}

/// The board after `side` plays `m`.
pub open spec fn board_after(b: Seq<Option<Piece>>, side: Side, m: Move) -> Seq<Option<Piece>> {
    apply_changes(b, move_changes(side, m, sq_at(ep_victim_idx(m))))
}

/// Playing `m` would leave the mover's king attacked.
pub open spec fn leaves_king_attacked(mg: MoveGen, b: Seq<Option<Piece>>, side: Side, m: Move) -> bool {
    king_attacked(mg, board_after(b, side, m), side)
}

proof fn lemma_king_bits(b: Seq<Option<Piece>>, side: Side, t: int)
    requires
        b.len() == 64,
        0 <= t < 64,
    ensures
        (piece_bits(b, side, PieceKind::King, 64) == sq_bit(t)) == sole_king(b, side, t),
{
    let bits = piece_bits(b, side, PieceKind::King, 64);
    if bits == sq_bit(t) {
        assert forall|u: int| 0 <= u < 64 implies (#[trigger] b[u] == Some(Piece { side, kind: PieceKind::King }) <==> u == t) by {
            lemma_piece_bits(b, side, PieceKind::King, 64, u);
            lemma_sq_bit_distinct(t, u);
        }
    }
    if sole_king(b, side, t) {
        assert forall|u: int| 0 <= u < 64 implies #[trigger] has_sq(bits, u) == has_sq(sq_bit(t), u) by {
            lemma_piece_bits(b, side, PieceKind::King, 64, u);
            lemma_sq_bit_distinct(t, u);
        }
        lemma_bits_ext(bits, sq_bit(t));
    }
}

/// Every prefix of a valid change list is valid, and the next change fits the
/// board the prefix leaves.
proof fn lemma_changes_prefix(b: Seq<Option<Piece>>, cs: Seq<PieceChange>, i: int)
    requires
        changes_valid(b, cs),
        0 <= i <= cs.len(),
    ensures
        changes_valid(b, cs.take(i)),
        i < cs.len() ==> change_valid(apply_changes(b, cs.take(i)), cs[i]),
        i < cs.len() ==> apply_changes(b, cs.take(i + 1)) == apply_change(apply_changes(b, cs.take(i)), cs[i]),
    decreases cs.len(),
{
    if i == cs.len() {
        assert(cs.take(i) =~= cs);
    } else {
        lemma_changes_prefix(b, cs.drop_last(), i);
        assert(cs.drop_last().take(i) =~= cs.take(i));
        let t = cs.take(i + 1);
        assert(t.drop_last() =~= cs.take(i));
        assert(t.last() == cs[i]);
        if i + 1 < cs.len() {
            lemma_changes_prefix(b, cs.drop_last(), i + 1);
            assert(cs.drop_last().take(i + 1) =~= t);
        } else {
            assert(t =~= cs);
        }
    }
}

/// How often `k` occurs grows by one per pushed `k`.
proof fn lemma_seq_count_push(s: Seq<u64>, x: u64, k: u64)
    ensures
        seq_count(s.push(x), k) == seq_count(s, k) + (if x == k { 1nat } else { 0nat }),
{
    assert(s.push(x).drop_last() =~= s);
}

proof fn lemma_seq_count_len(s: Seq<u64>, k: u64)
    ensures
        seq_count(s, k) <= s.len(),
    decreases s.len(),
{
    if s.len() > 0 {
        lemma_seq_count_len(s.drop_last(), k);
    }
}

proof fn lemma_hashes_push(hist: Seq<PositionState>, st: PositionState, cur: u64)
    ensures
        hashes_of(hist.push(st), cur) == hashes_of(hist, st.zobrist_hash).push(cur),
{
    assert(hashes_of(hist.push(st), cur) =~= hashes_of(hist, st.zobrist_hash).push(cur));
}

proof fn lemma_rights_bound(r: u8, k: u8)
    requires
        r < 16,
    ensures
        r & !k < 16,
{
    assert(r < 16 ==> r & !k < 16) by (bit_vector);
}

proof fn lemma_rights_after_bound(rights: u8, side: Side, m: Move)
    requires
        rights < 16,
    ensures
        rights_after(rights, side, m) < 16,
        rights_after_move(rights, side, m.from_sq(), m.kind()) < 16,
{
    lemma_rights_bound(rights, 1);
    lemma_rights_bound(rights, 2);
    lemma_rights_bound(rights, 3);
    lemma_rights_bound(rights, 4);
    lemma_rights_bound(rights, 8);
    lemma_rights_bound(rights, 12);
    let r = rights_after_move(rights, side, m.from_sq(), m.kind());
    lemma_rights_bound(r, 1);
    lemma_rights_bound(r, 2);
    lemma_rights_bound(r, 4);
    lemma_rights_bound(r, 8);
}

impl Position {
    fn apply_change_log_to_board(&mut self, altered_pieces: AlteredPieces)
        requires
            old(self).bb_ok(),
            old(self).hash_ok(),
            altered_pieces.wf(),
            changes_valid(old(self).board(), altered_pieces.seq()),
        ensures
            final(self).board() == apply_changes(old(self).board(), altered_pieces.seq()),
            final(self).bb_ok(),
            final(self).hash_ok(),
            final(self).state == (PositionState { zobrist_hash: final(self).state.zobrist_hash, ..old(self).state }),
            final(self).frame_eq(old(self)),
    {
        let changes = altered_pieces.piece_changes();
        let ghost cs = altered_pieces.seq();
        let ghost b0 = self.board();
        let mut i: usize = 0;
        while i < changes.len()
            invariant
                changes@ == cs,
                i <= cs.len(),
                b0 == old(self).board(),
                b0.len() == 64,
                changes_valid(b0, cs),
                self.board() == apply_changes(b0, cs.take(i as int)),
                self.bb_ok(),
                self.hash_ok(),
                self.state == (PositionState { zobrist_hash: self.state.zobrist_hash, ..old(self).state }),
                self.frame_eq(old(self)),
            decreases cs.len() - i,
        {
            let ap = changes[i];
            proof {
                lemma_changes_prefix(b0, cs, i as int);
            }
            if let Some(from) = ap.from {
                self.remove_piece(&from, ap.piece);
            }
            if let Some(to) = ap.to {
                self.add_piece(&to, ap.piece);
            }
            i = i + 1;
        }
        proof {
            assert(cs.take(cs.len() as int) =~= cs);
        }
    }

    fn reverse_change_log_to_board(&mut self, altered_pieces: AlteredPieces, Ghost(prev): Ghost<Seq<Option<Piece>>>)
        requires
            old(self).bb_ok(),
            old(self).hash_ok(),
            altered_pieces.wf(),
            prev.len() == 64,
            changes_valid(prev, altered_pieces.seq()),
            old(self).board() == apply_changes(prev, altered_pieces.seq()),
        ensures
            final(self).board() == prev,
            final(self).bb_ok(),
            final(self).hash_ok(),
            final(self).state == (PositionState { zobrist_hash: final(self).state.zobrist_hash, ..old(self).state }),
            final(self).frame_eq(old(self)),
    {
        let changes = altered_pieces.piece_changes();
        let ghost cs = altered_pieces.seq();
        proof {
            assert(cs.take(cs.len() as int) =~= cs);
        }
        let mut i: usize = changes.len();
        while i > 0
            invariant
                changes@ == cs,
                i <= cs.len(),
                prev.len() == 64,
                changes_valid(prev, cs),
                self.board() == apply_changes(prev, cs.take(i as int)),
                self.bb_ok(),
                self.hash_ok(),
                self.state == (PositionState { zobrist_hash: self.state.zobrist_hash, ..old(self).state }),
                self.frame_eq(old(self)),
            decreases i,
        {
            i = i - 1;
            let ap = changes[i];
            let ghost bi = apply_changes(prev, cs.take(i as int));
            proof {
                lemma_changes_prefix(prev, cs, i as int);
                lemma_undo_apply(prev, cs.take(i as int));
                lemma_undo_apply_one(bi, ap);
            }
            if let Some(from) = ap.from {
                self.add_piece(&from, ap.piece);
            }
            if let Some(to) = ap.to {
                self.remove_piece(&to, ap.piece);
            }
            proof {
                assert(self.board() == undo_change(apply_change(bi, ap), ap));
            }
        }
        proof {
            assert(cs.take(0) =~= Seq::<PieceChange>::empty());
        }
    }

    /// The square of the side to move's king, when it has exactly one.
    pub fn king_square(&self) -> (r: Option<Square>)
        requires
            self.bb_ok(),
        ensures
            match r {
                Some(s) => sole_king(self.board(), self.state.active_side, s.idx()),
                None => forall|t: int| !(#[trigger] sole_king(self.board(), self.state.active_side, t)),
            },
    {
        let side = self.state.active_side;
        let r = self.pieces.get(side).get(PieceKind::King).single_square();
        proof {
            let b = self.board();
            assert(self.pieces.0[side.idx()].0[PieceKind::King.idx()].0 == piece_bits(b, side, PieceKind::King, 64));
            match r {
                Some(s) => {
                    lemma_king_bits(b, side, s.idx());
                },
                None => {
                    assert forall|t: int| !(#[trigger] sole_king(b, side, t)) by {
                        if 0 <= t < 64 {
                            lemma_king_bits(b, side, t);
                        }
                    }
                },
            }
        }
        r
    }

    /// Whether the side to move's king is attacked.
    pub fn in_check(&self) -> (r: bool)
        requires
            self.wf(),
        ensures
            r == king_attacked(self.mg(), self.board(), self.state.active_side),
    {
        match self.king_square() {
            Some(s) => {
                let r = self.movegen.is_attacked(self, s);
                proof {
                    if !r {
                        assert forall|t: int| #[trigger] sole_king(self.board(), self.state.active_side, t) implies !attacked_by(self.mg(), self.board(), t, self.state.active_side.opp()) by {
                            assert(self.board()[s.idx()] == Some(Piece { side: self.state.active_side, kind: PieceKind::King }));
                        }
                    }
                }
                r
            },
            None => false,
        }
    }
}


proof fn lemma_hash_after_move(bh: u64, e0: u64, c0: u64, s0: u64, c1: u64, e1: u64, s1: u64)
    ensures
        ((((((((bh ^ e0) ^ c0) ^ s0) ^ c0) ^ c1) ^ e0) ^ e1) ^ s0) ^ s1 == ((bh ^ e1) ^ c1) ^ s1,
        ((((((bh ^ e0) ^ c0) ^ s0) ^ c0) ^ c1) ^ s0) ^ s1 == ((bh ^ e0) ^ c1) ^ s1,
{
    assert(((((((((bh ^ e0) ^ c0) ^ s0) ^ c0) ^ c1) ^ e0) ^ e1) ^ s0) ^ s1 == ((bh ^ e1) ^ c1) ^ s1
        && ((((((bh ^ e0) ^ c0) ^ s0) ^ c0) ^ c1) ^ s0) ^ s1 == ((bh ^ e0) ^ c1) ^ s1) by (bit_vector);
}

fn same_ep(a: Option<Square>, b: Option<Square>) -> (r: bool)
    ensures
        r == (a == b),
{
    match (a, b) {
        (None, None) => true,
        (Some(x), Some(y)) => x == y,
        _ => false,
    }
}

impl Position {
    /// What holds of `next` when it is this position after the legal move `m`:
    /// the move's piece changes are applied, the clocks, castling rights, en
    /// passant square and side to move are updated, and the previous state,
    /// the changes and the new hash are recorded.
    pub open spec fn after_move(&self, m: Move, next: &Position) -> bool {
        let side = self.state.active_side;
        &&& next.wf()
        &&& next.board() == board_after(self.board(), side, m)
        &&& next.state.active_side == side.opp()
        &&& next.state.castling.rights == rights_after(self.state.castling.rights, side, m)
        &&& next.state.en_passant == ep_after(side, m)
        &&& next.state.half_move_clock == (if m.kind() == PieceKind::Pawn || m.capture() is Some {
            0int
        } else if self.state.half_move_clock < 255 {
            self.state.half_move_clock + 1
        } else {
            255int
        })
        &&& next.state.full_move_number == (if side == Side::Black && self.state.full_move_number < 65535 {
            self.state.full_move_number + 1
        } else {
            self.state.full_move_number as int
        })
        &&& next.past_states() == self.past_states().push(self.state)
        &&& next.past_changes().len() == self.past_changes().len() + 1
        &&& next.past_changes().drop_last() == self.past_changes()
        &&& next.past_changes().last().seq() == move_changes(side, m, sq_at(ep_victim_idx(m)))
        &&& next.visited() == added(self.visited(), next.state.zobrist_hash)
        &&& next.zob() == self.zob()
        &&& next.mg() == self.mg()
    }

    /// What holds of `prev` when it is this position with its last move taken back.
    pub open spec fn undone_to(&self, prev: &Position) -> bool {
        &&& prev.wf()
        &&& prev.board() == undo_changes(self.board(), self.past_changes().last().seq())
        &&& prev.state == self.past_states().last()
        &&& prev.past_states() == self.past_states().drop_last()
        &&& prev.past_changes() == self.past_changes().drop_last()
        &&& prev.visited() == removed(self.visited(), self.state.zobrist_hash)
        &&& prev.zob() == self.zob()
        &&& prev.mg() == self.mg()
    }

    /// Whether none of the squares a castling king starts on, crosses or lands
    /// on is attacked.
    fn castling_squares_safe(&self, direction: CastlingDirection) -> (r: bool)
        requires
            self.wf(),
        ensures
            r == forall|j: int| 0 <= j < 3 ==> !attacked_by(
                self.mg(),
                self.board(),
                (#[trigger] direction.spec_unattacked()[j]).idx(),
                self.state.active_side.opp(),
            ),
    {
        let squares = direction.unattacked_squares_required();
        let mut i: usize = 0;
        while i < squares.len()
            invariant
                squares@ == direction.spec_unattacked(),
                i <= squares@.len(),
                self.wf(),
                forall|j: int| 0 <= j < i ==> !attacked_by(self.mg(), self.board(), (#[trigger] squares@[j]).idx(), self.state.active_side.opp()),
            decreases squares@.len() - i,
        {
            if self.movegen.is_attacked(self, squares[i]) {
                proof {
                    assert(squares@[i as int] == direction.spec_unattacked()[i as int]);
                }
                return false;
            }
            i = i + 1;
        }
        proof {
            assert forall|j: int| 0 <= j < 3 implies !attacked_by(self.mg(), self.board(), (#[trigger] direction.spec_unattacked()[j]).idx(), self.state.active_side.opp()) by {
                assert(squares@[j] == direction.spec_unattacked()[j]);
            }
        }
        true
    }

    /// The piece changes `m` makes, in the order they are applied.
    fn move_change_log(&self, m: Move) -> (r: AlteredPieces)
        requires
            move_fits(self.board(), self.state, m),
        ensures
            r.wf(),
            r.seq() == move_changes(self.state.active_side, m, sq_at(ep_victim_idx(m))),
    {
        let side = self.state.active_side;
        let mut altered = AlteredPieces::new();
        if m.castling() {
            let direction = CastlingDirection::direction(m.from(), m.to()).unwrap();
            altered.add(PieceChange {
                piece: Piece { side, kind: PieceKind::King },
                from: Some(m.from()),
                to: Some(m.to()),
            });
            altered.add(PieceChange {
                piece: Piece { side, kind: PieceKind::Rook },
                from: Some(direction.rook_from()),
                to: Some(direction.rook_to()),
            });
        } else if m.en_passant() {
            let victim_sq = Square::from_coords(m.to().file(), m.from().rank());
            proof {
                lemma_sq_at(ep_victim_idx(m));
                assert(victim_sq == sq_at(ep_victim_idx(m)));
            }
            altered.add(PieceChange {
                piece: Piece { side, kind: PieceKind::Pawn },
                from: Some(m.from()),
                to: Some(m.to()),
            });
            altered.add(PieceChange {
                piece: Piece { side: side.other(), kind: PieceKind::Pawn },
                from: Some(victim_sq),
                to: None,
            });
        } else if let Some(promotion_kind) = m.promotion() {
            if let Some(captured) = m.captured() {
                altered.add(PieceChange {
                    piece: Piece { side: side.other(), kind: captured },
                    from: Some(m.to()),
                    to: None,
                });
            }
            altered.add(PieceChange {
                piece: Piece { side, kind: PieceKind::Pawn },
                from: Some(m.from()),
                to: None,
            });
            altered.add(PieceChange {
                piece: Piece { side, kind: promotion_kind },
                from: None,
                to: Some(m.to()),
            });
        } else {
            if let Some(captured) = m.captured() {
                altered.add(PieceChange {
                    piece: Piece { side: side.other(), kind: captured },
                    from: Some(m.to()),
                    to: None,
                });
            }
            altered.add(PieceChange {
                piece: Piece { side, kind: m.piece() },
                from: Some(m.from()),
                to: Some(m.to()),
            });
        }
        proof {
            assert(altered.seq() =~= move_changes(side, m, sq_at(ep_victim_idx(m))));
        }
        altered
    }

    /// The en passant square `side`'s move `m` opens.
    fn ep_square_after(side: Side, m: Move) -> (r: Option<Square>)
        ensures
            r == ep_after(side, m),
    {
        let r = if m.piece() == PieceKind::Pawn && side == Side::White && m.from().rank().as_num() == 1
            && m.to().rank().as_num() == 3 {
            Some(Square::from_coords(m.from().file(), Rank::R3))
        } else if m.piece() == PieceKind::Pawn && side == Side::Black && m.from().rank().as_num() == 6
            && m.to().rank().as_num() == 4 {
            Some(Square::from_coords(m.from().file(), Rank::R6))
        } else {
            None
        };
        proof {
            if let Some(e) = r {
                lemma_sq_at(e.idx());
            }
        }
        r
    }

    /// After the pieces of the legal move `m` have been moved: updates the
    /// clocks, castling rights, en passant square and side to move, with the
    /// hash, and records the move.
    fn finish_move(&mut self, m: Move, altered: AlteredPieces, saved: PositionState, Ghost(p0): Ghost<Position>)
        requires
            p0.wf(),
            move_fits(p0.board(), p0.state, m),
            p0.num_made() + 1 < MAX_MOVES,
            saved == p0.state,
            altered.wf(),
            altered.seq() == move_changes(saved.active_side, m, sq_at(ep_victim_idx(m))),
            old(self).board() == board_after(p0.board(), saved.active_side, m),
            old(self).bb_ok(),
            old(self).hash_ok(),
            old(self).state == (PositionState { zobrist_hash: old(self).state.zobrist_hash, ..saved }),
            old(self).frame_eq(&p0),
        ensures
            p0.after_move(m, final(self)),
    {
        let side = saved.active_side;
        let ghost b0 = p0.board();
        let ghost cs = altered.seq();
        let ghost b1 = self.board();
        self.piece_change_log.push(altered);
        self.history.push(saved);
        let pcs = altered.piece_changes();
        proof {
            lemma_apply_changes_sums(p0.zob(), b0, cs);
            lemma_board_sum_bounds(b0, 64);
            vstd::arithmetic::div_mod::lemma_add_mod_noop_right(changes_phase_delta(cs), board_phase(b0, 64), 256);
        }
        proof {
            crate::phase::lemma_few_phase_changes_fit(pcs@);
            crate::eval::lemma_few_changes_fit(self.state.tapered_eval, pcs@);
        }
        self.state.phase_score = incremental_phase_score(self.state.phase_score, pcs.as_slice());
        self.state.tapered_eval = incremental_eval(self.state.tapered_eval, pcs.as_slice());

        let reset_half_move_clock = m.piece() == PieceKind::Pawn || m.captured().is_some();
        self.state.half_move_clock = if reset_half_move_clock {
            0
        } else {
            self.state.half_move_clock.saturating_add(1)
        };
        if side == Side::Black {
            self.state.full_move_number = self.state.full_move_number.saturating_add(1);
        }

        let old_rights = self.state.castling.rights_u8();
        proof {
            lemma_rights_after_bound(old_rights, side, m);
        }
        self.state.zobrist_hash = self.state.zobrist_hash ^ self.zobrist_randoms.castling_key(old_rights);
        let mut rights = self.state.castling;
        rights.remove_rights_for_move(side, m.from(), m.piece());
        if m.captured().is_some() {
            rights.remove_rights_for_capture(m.to());
        }
        self.state.castling = rights;
        self.state.zobrist_hash = self.state.zobrist_hash ^ self.zobrist_randoms.castling_key(rights.rights_u8());

        let new_ep_square = Position::ep_square_after(side, m);
        if !same_ep(new_ep_square, self.state.en_passant) {
            self.state.zobrist_hash = self.state.zobrist_hash ^ self.zobrist_randoms.ep_key(self.state.en_passant);
            self.state.zobrist_hash = self.state.zobrist_hash ^ self.zobrist_randoms.ep_key(new_ep_square);
            self.state.en_passant = new_ep_square;
        }

        self.state.zobrist_hash = self.state.zobrist_hash ^ self.zobrist_randoms.side_key(side);
        self.state.active_side = side.other();
        self.state.zobrist_hash = self.state.zobrist_hash ^ self.zobrist_randoms.side_key(self.state.active_side);
        let new_hash = self.state.zobrist_hash;
        proof {
            let z = p0.zob();
            lemma_hash_after_move(
                board_hash(z, b1, 64),
                z.ekey(saved.en_passant),
                z.ckey(saved.castling.rights),
                z.skey(side),
                z.ckey(self.state.castling.rights),
                z.ekey(self.state.en_passant),
                z.skey(side.opp()),
            );
            let hashes = hashes_of(p0.history.seq(), saved.zobrist_hash);
            lemma_seq_count_len(hashes, new_hash);
            assert(count_in(p0.zobrists_visited.view(), new_hash) == seq_count(hashes, new_hash));
            lemma_undo_apply(b0, cs);
            lemma_hashes_push(p0.history.seq(), saved, new_hash);
            assert(self.history.seq().drop_last() =~= p0.history.seq());
            assert(self.piece_change_log.seq().drop_last() =~= p0.piece_change_log.seq());
        }
        self.zobrists_visited.add(new_hash);
        proof {
            let hashes = hashes_of(p0.history.seq(), saved.zobrist_hash);
            assert forall|k: u64| #[trigger] count_in(self.zobrists_visited.view(), k) == seq_count(
                hashes_of(self.history.seq(), self.state.zobrist_hash),
                k,
            ) by {
                lemma_seq_count_push(hashes, new_hash, k);
                assert(count_in(p0.zobrists_visited.view(), k) == seq_count(hashes, k));
            }
        }
    }

    /// Makes the move `m`, which must fit the position. A castling move that
    /// starts on, crosses or lands on an attacked square, and a move that leaves
    /// the mover's king attacked, are refused and leave the position as it was.
    pub fn make_move(&mut self, m: Move) -> (r: Result<(), GenericErr>)
        requires
            old(self).wf(),
            move_fits(old(self).board(), old(self).state, m),
            old(self).num_made() + 1 < MAX_MOVES,
        ensures
            castles_through_check(old(self).mg(), old(self).board(), old(self).state.active_side, m)
                ==> r == Err::<(), GenericErr>(GenericErr::InvalidCastleChecked),
            !castles_through_check(old(self).mg(), old(self).board(), old(self).state.active_side, m)
                && leaves_king_attacked(old(self).mg(), old(self).board(), old(self).state.active_side, m)
                ==> r == Err::<(), GenericErr>(GenericErr::IllegalMove),
            !castles_through_check(old(self).mg(), old(self).board(), old(self).state.active_side, m)
                && !leaves_king_attacked(old(self).mg(), old(self).board(), old(self).state.active_side, m)
                ==> r is Ok,
            r is Err ==> final(self).wf() && final(self).same_as(old(self)),
            r is Ok ==> old(self).after_move(m, final(self)),
    {
        let ghost p0 = *self;
        let ghost b0 = self.board();
        let saved = self.state;
        let side = self.state.active_side;
        if m.castling() {
            let direction = CastlingDirection::direction(m.from(), m.to()).unwrap();
            if !self.castling_squares_safe(direction) {
                proof {
                    let j = choose|j: int| 0 <= j < 3 && attacked_by(self.mg(), self.board(), (#[trigger] direction.spec_unattacked()[j]).idx(), side.opp());
                    assert(attacked_by(self.mg(), b0, (CastlingDirection::spec_direction(m.from_sq(), m.to_sq())->0.spec_unattacked()[j]).idx(), side.opp()));
                }
                return Err(GenericErr::InvalidCastleChecked);
            }
        }
        let altered = self.move_change_log(m);
        self.apply_change_log_to_board(altered);
        if let Some(king) = self.king_square() {
            if self.movegen.is_attacked(self, king) {
                proof {
                    assert(sole_king(self.board(), side, king.idx()));
                }
                self.reverse_change_log_to_board(altered, Ghost(b0));
                proof {
                    assert(self.state == saved);
                }
                return Err(GenericErr::IllegalMove);
            } else {
                proof {
                    assert forall|t: int| #[trigger] sole_king(self.board(), side, t) implies !attacked_by(p0.mg(), self.board(), t, side.opp()) by {
                        assert(self.board()[king.idx()] == Some(Piece { side, kind: PieceKind::King }));
                    }
                }
            }
        }
        self.finish_move(m, altered, saved, Ghost(p0));
        Ok(())
    }

    /// Takes back the last move made.
    pub fn unmake_move(&mut self)
        requires
            old(self).wf(),
            old(self).can_unmake(),
        ensures
            old(self).undone_to(final(self)),
    {
        let ghost p1 = *self;
        let ghost hist = self.history.seq();
        let ghost cur = self.state.zobrist_hash;
        let ghost hashes = hashes_of(hist.drop_last(), hist.last().zobrist_hash);
        proof {
            assert(hist =~= hist.drop_last().push(hist.last()));
            lemma_hashes_push(hist.drop_last(), hist.last(), cur);
            assert(hashes_of(hist, cur) == hashes.push(cur));
            lemma_seq_count_push(hashes, cur, cur);
            assert(count_in(p1.zobrists_visited.view(), cur) == seq_count(hashes_of(hist, cur), cur));
        }
        let _ = self.zobrists_visited.remove(self.state.zobrist_hash);
        let ap = self.piece_change_log.pop();
        let ghost prev = undo_changes(p1.board(), ap.seq());
        self.reverse_change_log_to_board(ap, Ghost(prev));
        self.state = self.history.pop();
        proof {
            assert forall|k: u64| #[trigger] count_in(self.zobrists_visited.view(), k) == seq_count(
                hashes_of(self.history.seq(), self.state.zobrist_hash),
                k,
            ) by {
                lemma_seq_count_push(hashes, cur, k);
                assert(count_in(p1.zobrists_visited.view(), k) == seq_count(hashes_of(hist, cur), k));
            }
        }
    }
}

/// Making a move and taking it back gives back the position it was made in.
/// A pop right after a push gives back the pushed value and leaves the stack
/// (and what `peek` gives) as it was.
pub proof fn lemma_push_pop<T>(before: Seq<T>, x: T, pushed: Seq<T>, popped: T, after: Seq<T>)
    requires
        pushed == before.push(x),
        popped == pushed.last(),
        after == pushed.drop_last(),
    ensures
        popped == x,
        after == before,
{
    assert(after =~= before);
}

/// After a move is made: the other side is to move, the full-move number
/// goes up after Black's move (stopping at its largest value), and the
/// half-move clock restarts on a pawn move or capture and otherwise counts
/// on (stopping at its largest value).
pub proof fn lemma_after_move_clocks(p0: Position, m: Move, p1: Position)
    requires
        p0.after_move(m, &p1),
    ensures
        p1.state.active_side == p0.state.active_side.opp(),
        p1.state.full_move_number == (if p0.state.active_side == Side::Black && p0.state.full_move_number < 65535 {
            p0.state.full_move_number + 1
        } else {
            p0.state.full_move_number as int
        }),
        p1.state.half_move_clock == (if m.kind() == PieceKind::Pawn || m.capture() is Some {
            0
        } else if p0.state.half_move_clock < 255 {
            p0.state.half_move_clock + 1
        } else {
            255int
        }),
{
}

pub proof fn lemma_make_unmake_round_trip(p0: Position, m: Move, p1: Position, p2: Position)
    requires
        p0.wf(),
        move_fits(p0.board(), p0.state, m),
        p0.after_move(m, &p1),
        p1.undone_to(&p2),
    ensures
        p2.same_as(&p0),
{
    let side = p0.state.active_side;
    let cs = move_changes(side, m, sq_at(ep_victim_idx(m)));
    assert(p1.past_states().drop_last() =~= p0.past_states());
    lemma_undo_apply(p0.board(), cs);
    p0.zobrists_visited.lemma_counts_positive();
    let hashes = hashes_of(p0.history.seq(), p0.state.zobrist_hash);
    lemma_seq_count_len(hashes, p1.state.zobrist_hash);
    lemma_remove_undoes_add(p0.visited(), p1.state.zobrist_hash);
}

/// A game `ps[0]`, `ps[1]`, ... played by the moves `ms`.
pub open spec fn played_line(ps: Seq<Position>, ms: Seq<Move>) -> bool {
    &&& ps.len() == ms.len() + 1
    &&& forall|i: int| 0 <= i < ms.len() ==> (#[trigger] ps[i]).wf() && move_fits(ps[i].board(), ps[i].state, ms[i])
        && ps[i].after_move(ms[i], &ps[i + 1])
}

/// Positions `qs` reached from `qs[0]` by taking moves back one at a time.
pub open spec fn undone_line(qs: Seq<Position>) -> bool {
    forall|j: int| 0 <= j < qs.len() - 1 ==> (#[trigger] qs[j]).undone_to(&qs[j + 1])
}

/// Taking back the moves of a game one at a time passes back through each
/// of its positions in reverse order: after `ms` took `ps[0]` to its last
/// position, the `j`-th take-back from there gives the position `j` moves
/// before the end again.
pub proof fn lemma_unmake_line(ps: Seq<Position>, ms: Seq<Move>, qs: Seq<Position>)
    requires
        played_line(ps, ms),
        qs.len() == ps.len(),
        qs[0] == ps[ms.len() as int],
        undone_line(qs),
    ensures
        forall|j: int| 0 <= j < qs.len() ==> (#[trigger] qs[j]).same_as(&ps[ms.len() - j]),
{
    assert forall|j: int| 0 <= j < qs.len() implies (#[trigger] qs[j]).same_as(&ps[ms.len() - j]) by {
        lemma_unmake_steps(ps, ms, qs, j);
    }
}

proof fn lemma_unmake_steps(ps: Seq<Position>, ms: Seq<Move>, qs: Seq<Position>, j: int)
    requires
        played_line(ps, ms),
        qs.len() == ps.len(),
        qs[0] == ps[ms.len() as int],
        undone_line(qs),
        0 <= j < qs.len(),
    ensures
        qs[j].same_as(&ps[ms.len() - j]),
    decreases j,
{
    if j > 0 {
        lemma_unmake_steps(ps, ms, qs, j - 1);
        let i = ms.len() - j;
        assert(ps[i].wf() && ps[i].after_move(ms[i], &ps[i + 1]));
        assert(qs[j - 1].undone_to(&qs[j]));
        assert(ps[i + 1].undone_to(&qs[j]));
        lemma_make_unmake_round_trip(ps[i], ms[i], ps[i + 1], qs[j]);
    }
}


proof fn lemma_empty_board_bits(b: Seq<Option<Piece>>, n: nat)
    requires
        n <= 64,
        b.len() == 64,
        forall|t: int| 0 <= t < 64 ==> #[trigger] b[t] is None,
    ensures
        forall|s: Side, k: PieceKind| #[trigger] piece_bits(b, s, k, n) == 0,
        forall|s: Side| #[trigger] side_bits(b, s, n) == 0,
        forall|z: ZobristRandoms| #[trigger] board_hash(z, b, n) == 0,
    decreases n,
{
    if n > 0 {
        lemma_empty_board_bits(b, (n - 1) as nat);
        assert(0u64 | 0u64 == 0u64 && 0u64 ^ 0u64 == 0u64) by (bit_vector);
        assert forall|s: Side, k: PieceKind| #[trigger] piece_bits(b, s, k, n) == 0 by {
            assert(piece_bits(b, s, k, (n - 1) as nat) == 0);
        }
        assert forall|s: Side| #[trigger] side_bits(b, s, n) == 0 by {
            assert(side_bits(b, s, (n - 1) as nat) == 0);
        }
        assert forall|z: ZobristRandoms| #[trigger] board_hash(z, b, n) == 0 by {
            assert(board_hash(z, b, (n - 1) as nat) == 0);
        }
    }
}

/// The phase score and evaluation of a board, summed over its squares.
fn board_scores(pieces: &PerSquare<Option<Piece>>) -> (r: (PhaseScore, TaperedValue))
    ensures
        r.0 as int == board_phase(pieces.0@, 64) % 256,
        r.1.mg == board_mg(pieces.0@, 64),
        r.1.eg == board_eg(pieces.0@, 64),
{
    let ghost b = pieces.0@;
    let mut phase: u32 = 0;
    let mut mg: i32 = 0;
    let mut eg: i32 = 0;
    let mut i: usize = 0;
    while i < 64
        invariant
            b == pieces.0@,
            b.len() == 64,
            i <= 64,
            phase as int == board_phase(b, i as nat),
            mg as int == board_mg(b, i as nat),
            eg as int == board_eg(b, i as nat),
        decreases 64 - i,
    {
        proof {
            lemma_board_sum_bounds(b, i as nat);
            lemma_board_sum_bounds(b, i as nat + 1);
        }
        let sq = Square::from_index(i);
        if let Some(p) = pieces.get(sq) {
            let v = psqt::value(p, sq);
            phase = phase + phase_delta(p.kind) as u32;
            mg = mg + v.mg;
            eg = eg + v.eg;
        }
        i = i + 1;
    }
    proof {
        lemma_board_sum_bounds(b, 64);
    }
    ((phase % 256) as u8, TaperedValue::new(mg, eg))
}

/// The position a FEN record's fields describe, with nothing played yet.
pub open spec fn set_up_from_parts(p: Position, parts: FenParts) -> bool {
    &&& p.wf()
    &&& p.board() == parts.pieces.0@
    &&& p.state.active_side == parts.active_colour
    &&& p.state.castling == parts.castling_rights
    &&& p.state.en_passant == parts.en_passant_square
    &&& p.state.half_move_clock == parts.half_move_clock
    &&& p.state.full_move_number == parts.full_move_number
    &&& p.num_made() == 0
    &&& p.past_changes().len() == 0
    &&& p.visited() == map![p.state.zobrist_hash => 1u64]
}

impl Position {
    /// A position holding the given fields, with nothing played yet.
    fn from_parts(zobrist_randoms: Arc<ZobristRandoms>, movegen: Arc<MoveGen>, parts: &FenParts) -> (r: Position)
        requires
            movegen.wf(),
            parts.castling_rights.rights < 16,
        ensures
            set_up_from_parts(r, *parts),
            r.zob() == *zobrist_randoms,
            r.mg() == *movegen,
    {
        let e = zobrist_randoms.ep_key(parts.en_passant_square);
        let c = zobrist_randoms.castling_key(parts.castling_rights.rights_u8());
        let s = zobrist_randoms.side_key(parts.active_colour);
        let state = PositionState {
            active_side: parts.active_colour,
            castling: parts.castling_rights,
            half_move_clock: parts.half_move_clock,
            full_move_number: parts.full_move_number,
            en_passant: parts.en_passant_square,
            zobrist_hash: ((0u64 ^ e) ^ c) ^ s,
            phase_score: 0,
            tapered_eval: TaperedValue::new(0, 0),
        };
        let mut pos = Position {
            pieces: PerSide::new(PerPiece::new(Bitboard(0))),
            sides_pieces: PerSide::new(Bitboard(0)),
            piece_by_square: PerSquare::new(None),
            state,
            history: Stack::new(PositionState::new()),
            piece_change_log: Stack::new(AlteredPieces::new()),
            zobrist_randoms,
            zobrists_visited: MultiSet::new(),
            movegen,
        };
        proof {
            lemma_empty_board_bits(pos.board(), 64);
            assert(pos.bb_ok());
            assert(board_hash(pos.zob(), pos.board(), 64) == 0);
        }
        let ghost target = parts.pieces.0@;
        let ghost hist = pos.history;
        let ghost log = pos.piece_change_log;
        let mut i: usize = 0;
        while i < 64
            invariant
                i <= 64,
                target == parts.pieces.0@,
                pos.bb_ok(),
                pos.hash_ok(),
                pos.board().len() == 64,
                forall|t: int| 0 <= t < 64 ==> #[trigger] pos.board()[t] == (if t < i { target[t] } else { None }),
                pos.state == (PositionState { zobrist_hash: pos.state.zobrist_hash, ..state }),
                pos.history == hist,
                pos.piece_change_log == log,
                pos.zobrist_randoms == zobrist_randoms,
                pos.movegen == movegen,
                pos.zobrists_visited.wf(),
                pos.zobrists_visited.view() == Map::<ZobristKey, u64>::empty(),
            decreases 64 - i,
        {
            let sq = Square::from_index(i);
            if let Some(p) = parts.pieces.get(sq) {
                pos.add_piece(&sq, p);
            }
            i = i + 1;
        }
        proof {
            assert(pos.board() =~= target);
        }
        let (phase, eval) = board_scores(&pos.piece_by_square);
        pos.state.phase_score = phase;
        pos.state.tapered_eval = eval;
        let h = pos.state.zobrist_hash;
        pos.zobrists_visited.add(h);
        proof {
            assert(pos.history.seq().len() == 0);
            assert(hashes_of(pos.history.seq(), h) =~= seq![h]);
            assert forall|k: u64| #[trigger] count_in(pos.zobrists_visited.view(), k) == seq_count(
                hashes_of(pos.history.seq(), pos.state.zobrist_hash),
                k,
            ) by {
                lemma_seq_count_push(Seq::<u64>::empty(), h, k);
                assert(seq![h] =~= Seq::<u64>::empty().push(h));
            }
            assert(pos.visited() =~= map![h => 1u64]);
        }
        pos
    }

    /// Sets the position up from a FEN record. A malformed record is refused
    /// with the first error found and leaves the position as it was.
    pub fn fen_setup(&mut self, fen_str: &str) -> (r: Result<(), FenError>)
        requires
            old(self).wf(),
        ensures
            match fen_error(fen_str@) {
                Some(e) => r == Err::<(), FenError>(e) && *final(self) == *old(self),
                None => r is Ok && final(self).set_up_from(fen_str@) && final(self).zob() == old(self).zob()
                    && final(self).mg() == old(self).mg(),
            },
    {
        let parts = match fen::parse_fen(fen_str) {
            Ok(p) => p,
            Err(e) => return Err(e),
        };
        proof {
            crate::fen::lemma_castling_bits_bound(split_at_char(fen_str@, ' ')[2]);
        }
        *self = Position::from_parts(self.zobrist_randoms.clone(), self.movegen.clone(), &parts);
        Ok(())
    }

    /// The position a FEN record describes, with nothing played yet.
    pub open spec fn set_up_from(&self, s: Seq<char>) -> bool {
        let f = split_at_char(s, ' ');
        &&& self.wf()
        &&& self.board() == placement_board(split_at_char(f[0], '/'))
        &&& Some(self.state.active_side) == parse_colour(f[1])
        &&& Some(self.state.castling.rights) == parse_castling(f[2])
        &&& Some(self.state.en_passant) == parse_ep(f[3])
        &&& Some(self.state.half_move_clock as nat) == parse_uint(f[4], 255)
        &&& Some(self.state.full_move_number as nat) == parse_uint(f[5], 65535)
        &&& self.num_made() == 0
        &&& self.past_changes().len() == 0
        &&& self.visited() == map![self.state.zobrist_hash => 1u64]
    }

    /// The standard starting position.
    pub fn new(zobrists: Arc<ZobristRandoms>, movegen: Arc<MoveGen>) -> (r: Position)
        requires
            movegen.wf(),
        ensures
            r.zob() == *zobrists,
            r.mg() == *movegen,
            r.is_start_position(),
    {
        let empty = FenParts {
            pieces: PerSquare::new(None),
            active_colour: Side::White,
            castling_rights: CastlingRights::none(),
            en_passant_square: None,
            half_move_clock: 0,
            full_move_number: 0,
        };
        let mut position = Position::from_parts(zobrists, movegen, &empty);
        position.reset_to_start_fen();
        position
    }

    /// The standard starting position with nothing played yet: the board,
    /// white to move, all castling rights, no en passant square, clocks 0
    /// and 1.
    pub open spec fn is_start_position(&self) -> bool {
        &&& self.set_up_from(STARTING_FEN@)
        &&& self.board() == start_board()
        &&& self.state.active_side == Side::White
        &&& self.state.castling.rights == 15
        &&& self.state.en_passant is None
        &&& self.state.half_move_clock == 0
        &&& self.state.full_move_number == 1
    }

    /// Sets the standard starting position up.
    pub fn reset_to_start_fen(&mut self)
        requires
            old(self).wf(),
        ensures
            final(self).zob() == old(self).zob(),
            final(self).mg() == old(self).mg(),
            final(self).is_start_position(),
    {
        proof {
            crate::fen::lemma_starting_fen_reads();
        }
        let _ = self.fen_setup(STARTING_FEN);
    }

    /// The FEN record of the position.
    pub fn fen(&self) -> (r: String)
        requires
            self.wf(),
        ensures
            r@ == fen_text(
                self.board(),
                self.state.active_side,
                self.state.castling.rights,
                self.state.en_passant,
                self.state.half_move_clock as nat,
                self.state.full_move_number as nat,
            ),
    {
        fen::to_fen(self)
    }

    pub fn side_to_move(&self) -> (r: Side)
        ensures
            r == self.state.active_side,
    {
        self.state.active_side
    }

    pub fn half_move_clock(&self) -> (r: u8)
        ensures
            r == self.state.half_move_clock,
    {
        self.state.half_move_clock
    }

    /// The position's Zobrist hash, which is that of its board and state.
    pub fn get_zobrist(&self) -> (r: ZobristKey)
        requires
            self.wf(),
        ensures
            r == self.state.zobrist_hash,
            r == position_hash(self.zob(), self.board(), self.state),
    {
        self.state.zobrist_hash
    }

    /// How many of the positions since set-up, this one included, had this
    /// position's hash.
    pub fn times_position_reached(&self) -> (r: u64)
        requires
            self.wf(),
        ensures
            r == seq_count(hashes_of(self.past_states(), self.state.zobrist_hash), self.state.zobrist_hash),
    {
        self.zobrists_visited.count(self.state.zobrist_hash)
    }
}


impl Position {
    /// Castling rights of a well-formed position fit in four bits.
    pub proof fn lemma_rights_small(&self)
        requires
            self.wf(),
        ensures
            self.state.castling.rights < 16,
    {
    }
}


/// Whether the square with this index is a light one.
pub open spec fn light_idx(t: int) -> bool {
    (t % 8 + t / 8) % 2 == 1
}

pub open spec fn is_bishop(p: Option<Piece>) -> bool {
    p matches Some(pc) && pc.kind == PieceKind::Bishop
}

/// All bishops on the board, of either side, stand on squares of one colour.
pub open spec fn bishops_one_colour(b: Seq<Option<Piece>>) -> bool {
    forall|t: int, u: int|
        0 <= t < 64 && 0 <= u < 64 && is_bishop(#[trigger] b[t]) && is_bishop(#[trigger] b[u]) ==> light_idx(t) == light_idx(u)
}

pub open spec fn count_side(b: Seq<Option<Piece>>, side: Side) -> nat {
    popcount(side_bits(b, side, 64))
}

pub open spec fn count_kind(b: Seq<Option<Piece>>, side: Side, kind: PieceKind) -> nat {
    popcount(piece_bits(b, side, kind, 64))
}

pub open spec fn has_kind(b: Seq<Option<Piece>>, side: Side, kind: PieceKind) -> bool {
    piece_bits(b, side, kind, 64) != 0
}

/// What `side`'s material decides about a draw by insufficient material: its
/// first piece kind present (pawn, knight, bishop, rook, queen) settles it;
/// `None` when it has only its king.
pub open spec fn side_verdict(b: Seq<Option<Piece>>, side: Side) -> Option<bool> {
    if has_kind(b, side, PieceKind::Pawn) {
        Some(false)
    } else if has_kind(b, side, PieceKind::Knight) {
        Some(count_side(b, side) <= 2 && count_side(b, side.opp()) <= 1)
    } else if has_kind(b, side, PieceKind::Bishop) {
        Some(count_side(b, side) <= count_kind(b, side, PieceKind::Bishop) + 1
            && count_side(b, side.opp()) <= count_kind(b, side.opp(), PieceKind::Bishop) + 1
            && bishops_one_colour(b))
    } else if has_kind(b, side, PieceKind::Rook) || has_kind(b, side, PieceKind::Queen) {
        Some(false)
    } else {
        None
    }
}

/// Neither side has material to mate with: white's material decides first,
/// then black's; bare kings are a draw.
pub open spec fn insufficient_material_spec(b: Seq<Option<Piece>>) -> bool {
    match side_verdict(b, Side::White) {
        Some(v) => v,
        None => match side_verdict(b, Side::Black) {
            Some(v) => v,
            None => true,
        },
    }
}

/// The internal move an input move stands for on the board `b`.
pub open spec fn internal_move_fits(b: Seq<Option<Piece>>, input: InputMove, m: Move) -> bool {
    let p = b[input.from.idx()]->0;
    let target = b[input.to.idx()];
    &&& m.from_sq() == input.from
    &&& m.to_sq() == input.to
    &&& m.kind() == p.kind
    &&& m.promo() == input.promotion
    &&& m.capture() == (match target {
        Some(t) => Some(t.kind),
        None => None,
    })
    &&& m.is_castling() == (p.kind == PieceKind::King && (input.from.file_idx() - input.to.file_idx() == 2
        || input.to.file_idx() - input.from.file_idx() == 2))
    &&& m.is_en_passant() == (p.kind == PieceKind::Pawn && target is None && input.from.file_idx() != input.to.file_idx())
}

impl InputMove {
    /// Combines the input with the board: the moving piece, any capture, and
    /// whether it is a castling or en passant move. Refused when no piece
    /// stands on the origin.
    pub fn to_internal_move(&self, pos: &Position) -> (r: Result<Move, GenericErr>)
        ensures
            pos.board()[self.from.idx()] is None ==> r == Err::<Move, GenericErr>(GenericErr::InvalidMove),
            pos.board()[self.from.idx()] is Some ==> r is Ok && internal_move_fits(pos.board(), *self, r->Ok_0),
    {
        let from_piece = match pos.piece_by_square.get(self.from) {
            Some(p) => p,
            None => return Err(GenericErr::InvalidMove),
        };
        let to_piece = pos.piece_by_square.get(self.to);
        let captured = match to_piece {
            Some(t) => Some(t.kind),
            None => None,
        };
        let ff = self.from.file().as_num();
        let tf = self.to.file().as_num();
        let en_passant = from_piece.kind == PieceKind::Pawn && to_piece.is_none() && ff != tf;
        let castling = match from_piece.kind {
            PieceKind::King => (ff >= tf && ff - tf == 2) || (tf >= ff && tf - ff == 2),
            _ => false,
        };
        Ok(Move::new(self.from, self.to, from_piece.kind, self.promotion, captured, castling, en_passant))
    }
}

/// The game's status from the facts that decide it, in the order they are
/// checked: no legal move (mate or stalemate), the fifty-move rule,
/// threefold repetition, insufficient material.
pub open spec fn status_spec(
    no_legal_moves: bool,
    in_check: bool,
    side: Side,
    half_move_clock: u8,
    repetitions: u64,
    insufficient: bool,
) -> GameStatus {
    if no_legal_moves {
        if in_check {
            GameStatus::Won { side: side.opp(), reason: WinReason::Checkmate }
        } else {
            GameStatus::Drawn { reason: DrawReason::Stalemate }
        }
    } else if half_move_clock >= 100 {
        GameStatus::Drawn { reason: DrawReason::FiftyMoveRule }
    } else if repetitions >= 3 {
        GameStatus::Drawn { reason: DrawReason::ThreefoldRepetition }
    } else if insufficient {
        GameStatus::Drawn { reason: DrawReason::InsufficientMaterial }
    } else {
        GameStatus::Ongoing
    }
}

/// A move of the position's move list is legal.
pub open spec fn legal_in(mg: MoveGen, b: Seq<Option<Piece>>, st: PositionState, m: Move) -> bool {
    &&& move_fits(b, st, m)
    &&& !castles_through_check(mg, b, st.active_side, m)
    &&& !leaves_king_attacked(mg, b, st.active_side, m)
}

impl Position {
    /// A legal move: pseudo-legal, not castling through an attacked square
    /// and not leaving the mover's king attacked.
    pub open spec fn legal_move(&self, m: Move) -> bool {
        &&& crate::movegen::pseudo_move(self, m)
        &&& legal_in(self.mg(), self.board(), self.state, m)
    }

    /// All bishops on the board stand on squares of one colour.
    fn all_bishops_one_colour(&self) -> (r: bool)
        requires
            self.bb_ok(),
        ensures
            r == bishops_one_colour(self.board()),
    {
        let ghost b = self.board();
        let all = self.pieces.get(Side::White).get(PieceKind::Bishop).union(self.pieces.get(Side::Black).get(PieceKind::Bishop));
        proof {
            assert forall|t: int| 0 <= t < 64 implies #[trigger] all.has(t) == is_bishop(b[t]) by {
                lemma_piece_bits(b, Side::White, PieceKind::Bishop, 64, t);
                lemma_piece_bits(b, Side::Black, PieceKind::Bishop, 64, t);
                lemma_has_sq_ops(piece_bits(b, Side::White, PieceKind::Bishop, 64), piece_bits(b, Side::Black, PieceKind::Bishop, 64), t);
            }
        }
        let squares = all.iter_squares();
        if squares.len() == 0 {
            proof {
                assert forall|t: int, u: int|
                    0 <= t < 64 && 0 <= u < 64 && is_bishop(#[trigger] b[t]) && is_bishop(#[trigger] b[u]) implies light_idx(t) == light_idx(u) by {
                    assert(all.has(t));
                }
            }
            return true;
        }
        let first = squares[0].is_white();
        let mut i: usize = 0;
        while i < squares.len()
            invariant
                i <= squares@.len(),
                squares@.len() > 0,
                b == self.board(),
                b.len() == 64,
                forall|t: int| 0 <= t < 64 ==> #[trigger] all.has(t) == is_bishop(b[t]),
                forall|t: int| 0 <= t < 64 ==> (all.has(t) <==> exists|j: int| 0 <= j < squares.len() && squares[j].idx() == t),
                first == squares@[0].light(),
                forall|j: int| 0 <= j < i ==> (#[trigger] squares@[j]).light() == first,
            decreases squares@.len() - i,
        {
            if squares[i].is_white() != first {
                proof {
                    let t = squares@[i as int].idx();
                    let u = squares@[0].idx();
                    assert(0 <= t < 64 && 0 <= u < 64);
                    assert(all.has(t));
                    assert(all.has(u));
                    assert(is_bishop(b[t]) && is_bishop(b[u]));
                    assert(light_idx(t) != light_idx(u));
                }
                return false;
            }
            i = i + 1;
        }
        proof {
            assert forall|t: int, u: int|
                0 <= t < 64 && 0 <= u < 64 && is_bishop(#[trigger] b[t]) && is_bishop(#[trigger] b[u]) implies light_idx(t) == light_idx(u) by {
                assert(all.has(t));
                assert(all.has(u));
                let jt = choose|j: int| 0 <= j < squares.len() && squares[j].idx() == t;
                let ju = choose|j: int| 0 <= j < squares.len() && squares[j].idx() == u;
                assert(squares@[jt].light() == first);
                assert(squares@[ju].light() == first);
            }
        }
        true
    }

    fn side_verdict(&self, side: Side) -> (r: Option<bool>)
        requires
            self.bb_ok(),
        ensures
            r == side_verdict(self.board(), side),
    {
        let pp = self.pieces.get(side);
        let own = self.sides_pieces.get(side).num_pieces() as u64;
        let other = self.sides_pieces.get(side.other()).num_pieces() as u64;
        if pp.get(PieceKind::Pawn).0 != 0 {
            return Some(false);
        }
        if pp.get(PieceKind::Knight).0 != 0 {
            return Some(own <= 2 && other <= 1);
        }
        if pp.get(PieceKind::Bishop).0 != 0 {
            let nb = pp.get(PieceKind::Bishop).num_pieces() as u64;
            let onb = self.pieces.get(side.other()).get(PieceKind::Bishop).num_pieces() as u64;
            if own <= nb + 1 && other <= onb + 1 {
                return Some(self.all_bishops_one_colour());
            } else {
                return Some(false);
            }
        }
        if pp.get(PieceKind::Rook).0 != 0 || pp.get(PieceKind::Queen).0 != 0 {
            return Some(false);
        }
        None
    }

    /// Whether neither side has material to mate with (the FIDE cases: bare
    /// kings, a lone minor piece, bishops all on one colour).
    pub fn insufficient_material(&self) -> (r: bool)
        requires
            self.bb_ok(),
        ensures
            r == insufficient_material_spec(self.board()),
    {
        match self.side_verdict(Side::White) {
            Some(v) => v,
            None => match self.side_verdict(Side::Black) {
                Some(v) => v,
                None => true,
            },
        }
    }

    /// The static evaluation from the side to move's point of view: the
    /// tapered piece-square value, blended by phase.
    pub fn evaluate(&self) -> (r: i32)
        requires
            self.wf(),
        ensures
            r == (if self.state.active_side == Side::White {
                div_trunc(self.state.tapered_eval.mg * self.state.phase_score + self.state.tapered_eval.eg * (24 - self.state.phase_score), 24)
            } else {
                -div_trunc(self.state.tapered_eval.mg * self.state.phase_score + self.state.tapered_eval.eg * (24 - self.state.phase_score), 24)
            }),
            -2_000_000_000 < r < 2_000_000_000,
    {
        proof {
            lemma_board_sum_bounds(self.board(), 64);
            let mg = self.state.tapered_eval.mg as int;
            let eg = self.state.tapered_eval.eg as int;
            let p = self.state.phase_score as int;
            assert(-1_100_000_000 <= mg * p <= 1_100_000_000) by (nonlinear_arith)
                requires -4_000_000 <= mg <= 4_000_000, 0 <= p <= 255;
            assert(-1_000_000_000 <= eg * (24 - p) <= 1_000_000_000) by (nonlinear_arith)
                requires -4_000_000 <= eg <= 4_000_000, 0 <= p <= 255;
        }
        let v = self.state.tapered_eval.evaluate(self.state.phase_score);
        if self.state.active_side == Side::White {
            v
        } else {
            -v
        }
    }

    /// Whether the move `m`, which fits the position, is legal; the position
    /// is left as it was.
    fn is_legal(&mut self, m: Move) -> (r: bool)
        requires
            old(self).wf(),
            move_fits(old(self).board(), old(self).state, m),
        ensures
            final(self).wf(),
            final(self).same_as(old(self)),
            r == (!castles_through_check(old(self).mg(), old(self).board(), old(self).state.active_side, m)
                && !leaves_king_attacked(old(self).mg(), old(self).board(), old(self).state.active_side, m)),
    {
        let ghost p0 = *self;
        let ghost b0 = self.board();
        let saved = self.state;
        let side = self.state.active_side;
        if m.castling() {
            let direction = CastlingDirection::direction(m.from(), m.to()).unwrap();
            if !self.castling_squares_safe(direction) {
                proof {
                    let j = choose|j: int| 0 <= j < 3 && attacked_by(self.mg(), self.board(), (#[trigger] direction.spec_unattacked()[j]).idx(), side.opp());
                    assert(attacked_by(self.mg(), b0, (CastlingDirection::spec_direction(m.from_sq(), m.to_sq())->0.spec_unattacked()[j]).idx(), side.opp()));
                }
                return false;
            }
        }
        let altered = self.move_change_log(m);
        self.apply_change_log_to_board(altered);
        let mut legal = true;
        if let Some(king) = self.king_square() {
            if self.movegen.is_attacked(self, king) {
                proof {
                    assert(sole_king(self.board(), side, king.idx()));
                }
                legal = false;
            } else {
                proof {
                    assert forall|t: int| #[trigger] sole_king(self.board(), side, t) implies !attacked_by(p0.mg(), self.board(), t, side.opp()) by {
                        assert(self.board()[king.idx()] == Some(Piece { side, kind: PieceKind::King }));
                    }
                }
            }
        }
        self.reverse_change_log_to_board(altered, Ghost(b0));
        proof {
            assert(self.state == saved);
        }
        legal
    }

    /// The legal moves of the side to move, in move-generation order.
    pub fn legal_moves(&mut self) -> (r: Vec<Move>)
        requires
            old(self).wf(),
        ensures
            final(self).wf(),
            final(self).same_as(old(self)),
            forall|i: int| 0 <= i < r.len() ==> legal_in(old(self).mg(), old(self).board(), old(self).state, #[trigger] r[i]),
            forall|m: Move| #[trigger] r@.contains(m) <==> old(self).legal_move(m),
            r@.no_duplicates(),
    {
        let ghost p0 = *self;
        let pseudo = self.movegen.pseudo_legal_moves(self);
        let mut legal: Vec<Move> = Vec::new();
        let mut i: usize = 0;
        while i < pseudo.len()
            invariant
                i <= pseudo.len(),
                self.wf(),
                self.same_as(&p0),
                forall|j: int| 0 <= j < pseudo.len() ==> move_fits(p0.board(), p0.state, #[trigger] pseudo[j]),
                forall|j: int| 0 <= j < pseudo.len() ==> crate::movegen::pseudo_move(&p0, #[trigger] pseudo[j]),
                forall|j: int| 0 <= j < legal.len() ==> p0.legal_move(#[trigger] legal[j]),
                forall|m: Move| #[trigger] p0.legal_move(m) && (exists|c: int| 0 <= c < i && pseudo[c] == m) ==> legal@.contains(m),
                pseudo@.no_duplicates(),
                legal@.no_duplicates(),
                forall|k: int| 0 <= k < legal.len() ==> exists|c: int| 0 <= c < i && pseudo[c] == #[trigger] legal@[k],
            decreases pseudo.len() - i,
        {
            let m = pseudo[i];
            let ghost before = legal@;
            if self.is_legal(m) {
                legal.push(m);
                proof {
                    assert forall|a: int, c: int| 0 <= a < legal.len() && 0 <= c < legal.len() && a != c implies legal@[a] != legal@[c] by {
                        if a == before.len() || c == before.len() {
                            let other = if a == before.len() { c } else { a };
                            assert(legal@[other] == before[other]);
                            let c2 = choose|c2: int| 0 <= c2 < i && pseudo[c2] == #[trigger] before[other];
                        } else {
                            assert(legal@[a] == before[a] && legal@[c] == before[c]);
                        }
                    }
                    assert forall|k: int| 0 <= k < legal.len() implies exists|c: int| 0 <= c < i + 1 && pseudo[c] == #[trigger] legal@[k] by {
                        if k < before.len() {
                            assert(legal@[k] == before[k]);
                        } else {
                            assert(pseudo[i as int] == legal@[k]);
                        }
                    }
                }
            }
            proof {
                assert forall|m2: Move| #[trigger] p0.legal_move(m2) && (exists|c: int| 0 <= c < i + 1 && pseudo[c] == m2) implies legal@.contains(m2) by {
                    if m2 == m {
                        assert(legal@[before.len() as int] == m);
                    } else {
                        let j = choose|j: int| 0 <= j < before.len() && before[j] == m2;
                        assert(legal@[j] == m2);
                    }
                }
            }
            i = i + 1;
        }
        proof {
            assert forall|m: Move| #[trigger] legal@.contains(m) <==> p0.legal_move(m) by {
                if p0.legal_move(m) {
                    assert(pseudo@.contains(m));
                    let c = choose|c: int| 0 <= c < pseudo.len() && pseudo@[c] == m;
                    assert(pseudo[c] == m);
                }
                if legal@.contains(m) {
                    let j = choose|j: int| 0 <= j < legal.len() && legal@[j] == m;
                    assert(p0.legal_move(legal[j]));
                }
            }
        }
        legal
    }

    /// The generated move that the input stands for; refused when the move
    /// generator offers no move with its squares and promotion.
    pub fn validate_move(&self, input: InputMove) -> (r: Result<Move, GenericErr>)
        requires
            self.wf(),
        ensures
            match r {
                Ok(m) => move_fits(self.board(), self.state, m) && crate::movegen::pseudo_move(self, m)
                    && m.from_sq() == input.from && m.to_sq() == input.to && m.promo() == input.promotion
                    && forall|m2: Move| #[trigger] crate::movegen::pseudo_move(self, m2) && m2.from_sq() == input.from
                        && m2.to_sq() == input.to && m2.promo() == input.promotion ==> m2 == m,
                Err(e) => e == GenericErr::InvalidMove && !exists|m: Move| #[trigger] crate::movegen::pseudo_move(self, m)
                    && m.from_sq() == input.from && m.to_sq() == input.to && m.promo() == input.promotion,
            },
    {
        let pseudo = self.movegen.pseudo_legal_moves(self);
        let mut i: usize = 0;
        while i < pseudo.len()
            invariant
                i <= pseudo.len(),
                self.wf(),
                forall|j: int| 0 <= j < pseudo.len() ==> move_fits(self.board(), self.state, #[trigger] pseudo[j]),
                forall|j: int| 0 <= j < pseudo.len() ==> crate::movegen::pseudo_move(self, #[trigger] pseudo[j]),
                forall|m: Move| #[trigger] crate::movegen::pseudo_move(self, m) ==> pseudo@.contains(m),
                forall|j: int| 0 <= j < i ==> !(#[trigger] pseudo[j].from_sq() == input.from && pseudo[j].to_sq() == input.to
                    && pseudo[j].promo() == input.promotion),
            decreases pseudo.len() - i,
        {
            let m = pseudo[i];
            if m.same_input(&Move::new(input.from, input.to, PieceKind::Pawn, input.promotion, None, false, false)) {
                proof {
                    self.lemma_wf_bb_ok();
                    assert forall|m2: Move| #[trigger] crate::movegen::pseudo_move(self, m2) && m2.from_sq() == input.from
                        && m2.to_sq() == input.to && m2.promo() == input.promotion implies m2 == m by {
                        crate::movegen::lemma_pseudo_move_unique(self, m, m2);
                    }
                }
                return Ok(m);
            }
            i = i + 1;
        }
        proof {
            assert forall|m: Move| #[trigger] crate::movegen::pseudo_move(self, m) implies !(m.from_sq() == input.from
                && m.to_sq() == input.to && m.promo() == input.promotion) by {
                let j = choose|j: int| 0 <= j < pseudo.len() && pseudo@[j] == m;
                assert(pseudo[j] == m);
            }
        }
        Err(GenericErr::InvalidMove)
    }

    /// The game's status, given whether the side to move has no legal move.
    pub open spec fn status_given(&self, no_legal_moves: bool) -> GameStatus {
        status_spec(
            no_legal_moves,
            king_attacked(self.mg(), self.board(), self.state.active_side),
            self.state.active_side,
            self.state.half_move_clock,
            seq_count(hashes_of(self.past_states(), self.state.zobrist_hash), self.state.zobrist_hash) as u64,
            insufficient_material_spec(self.board()),
        )
    }

    /// Whether the game has ended, and how.
    pub fn game_status(&mut self) -> (r: GameStatus)
        requires
            old(self).wf(),
        ensures
            final(self).wf(),
            final(self).same_as(old(self)),
            r == old(self).status_given(!exists|m: Move| #[trigger] old(self).legal_move(m)),
    {
        let ghost p0 = *self;
        let moves = self.legal_moves();
        let no_legal_moves = moves.len() == 0;
        proof {
            if !no_legal_moves {
                let m = moves[0];
                assert(moves@.contains(m));
                assert(p0.legal_move(m));
            } else {
                assert forall|m: Move| !p0.legal_move(m) by {
                    if p0.legal_move(m) {
                        assert(moves@.contains(m));
                    }
                }
            }
        }
        let in_check = self.in_check();
        let side = self.side_to_move();
        let clock = self.half_move_clock();
        let repetitions = self.times_position_reached();
        let insufficient = self.insufficient_material();
        let r = game_status_of(no_legal_moves, in_check, side, clock, repetitions, insufficient);
        proof {
            assert(r == status_spec(no_legal_moves, in_check, side, clock, repetitions, insufficient));
        }
        r
    }
}

/// The game's status from the facts that decide it.
pub fn game_status_of(
    no_legal_moves: bool,
    in_check: bool,
    side: Side,
    half_move_clock: u8,
    repetitions: u64,
    insufficient: bool,
) -> (r: GameStatus)
    ensures
        r == status_spec(no_legal_moves, in_check, side, half_move_clock, repetitions, insufficient),
{
    if no_legal_moves {
        if in_check {
            GameStatus::Won { side: side.other(), reason: WinReason::Checkmate }
        } else {
            GameStatus::Drawn { reason: DrawReason::Stalemate }
        }
    } else if half_move_clock >= 100 {
        GameStatus::Drawn { reason: DrawReason::FiftyMoveRule }
    } else if repetitions >= 3 {
        GameStatus::Drawn { reason: DrawReason::ThreefoldRepetition }
    } else if insufficient {
        GameStatus::Drawn { reason: DrawReason::InsufficientMaterial }
    } else {
        GameStatus::Ongoing
    }
}


impl Position {
    /// How many moves were made since the position was set up.
    pub fn moves_made(&self) -> (r: usize)
        requires
            self.wf(),
        ensures
            r == self.num_made(),
    {
        self.history.len()
    }

    /// The hash, phase score and evaluation a position keeps up to date move
    /// by move are those computed from scratch from its board and state.
    pub proof fn lemma_kept_scores_are_fresh(&self)
        requires
            self.wf(),
        ensures
            self.state.zobrist_hash == position_hash(self.zob(), self.board(), self.state),
            self.state.phase_score as int == board_phase(self.board(), 64) % 256,
            self.state.tapered_eval.mg == board_mg(self.board(), 64),
            self.state.tapered_eval.eg == board_eg(self.board(), 64),
    {
    }

    /// The bitboards of a well-formed position agree with its board.
    pub proof fn lemma_wf_bb_ok(&self)
        requires
            self.wf(),
        ensures
            self.bb_ok(),
    {
    }
}


/// Two positions with the same keys, board, en passant square, castling
/// rights and side to move have the same hash, however they were reached.
pub proof fn lemma_same_position_same_hash(a: Position, b: Position)
    requires
        a.wf(),
        b.wf(),
        a.zob() == b.zob(),
        a.board() == b.board(),
        a.state.en_passant == b.state.en_passant,
        a.state.castling == b.state.castling,
        a.state.active_side == b.state.active_side,
    ensures
        a.state.zobrist_hash == b.state.zobrist_hash,
{
}


/// Writing a position's FEN record and reading it back gives the position's
/// board, side to move, castling rights, en passant square and clocks.
pub proof fn lemma_position_fen_round_trip(p: Position)
    requires
        p.wf(),
    ensures
        ({
            let text = fen_text(
                p.board(),
                p.state.active_side,
                p.state.castling.rights,
                p.state.en_passant,
                p.state.half_move_clock as nat,
                p.state.full_move_number as nat,
            );
            let f = split_at_char(text, ' ');
            &&& fen_error(text) is None
            &&& placement_board(split_at_char(f[0], '/')) == p.board()
            &&& parse_colour(f[1]) == Some(p.state.active_side)
            &&& parse_castling(f[2]) == Some(p.state.castling.rights)
            &&& parse_ep(f[3]) == Some(p.state.en_passant)
            &&& parse_uint(f[4], 255) == Some(p.state.half_move_clock as nat)
            &&& parse_uint(f[5], 65535) == Some(p.state.full_move_number as nat)
        }),
{
    p.lemma_rights_small();
    crate::fen::lemma_fen_round_trip(
        p.board(),
        p.state.active_side,
        p.state.castling.rights,
        p.state.en_passant,
        p.state.half_move_clock,
        p.state.full_move_number,
    );
}

/// A FEN record in the form the position printer writes reads back to a
/// position that prints as the same record.
pub proof fn lemma_canonical_fen_reads_back(
    p: Position,
    b: Seq<Option<Piece>>,
    side: Side,
    rights: u8,
    ep: Option<Square>,
    half: u8,
    full: u16,
)
    requires
        b.len() == 64,
        rights < 16,
        p.set_up_from(fen_text(b, side, rights, ep, half as nat, full as nat)),
    ensures
        fen_text(
            p.board(),
            p.state.active_side,
            p.state.castling.rights,
            p.state.en_passant,
            p.state.half_move_clock as nat,
            p.state.full_move_number as nat,
        ) == fen_text(b, side, rights, ep, half as nat, full as nat),
{
    crate::fen::lemma_fen_round_trip(b, side, rights, ep, half, full);
}

/// The board with the colour of every piece exchanged.
pub open spec fn colours_swapped(b: Seq<Option<Piece>>) -> Seq<Option<Piece>> {
    Seq::new(
        b.len(),
        |i: int|
            match b[i] {
                Some(p) => Some(Piece { side: p.side.opp(), kind: p.kind }),
                None => None,
            },
    )
}

proof fn lemma_swapped_bits(b: Seq<Option<Piece>>, side: Side, kind: PieceKind, n: nat)
    requires
        n <= b.len(),
    ensures
        piece_bits(colours_swapped(b), side, kind, n) == piece_bits(b, side.opp(), kind, n),
        side_bits(colours_swapped(b), side, n) == side_bits(b, side.opp(), n),
    decreases n,
{
    if n > 0 {
        lemma_swapped_bits(b, side, kind, (n - 1) as nat);
        let c = colours_swapped(b);
        assert(c[n - 1] == Some(Piece { side, kind }) <==> b[n - 1] == Some(Piece { side: side.opp(), kind }));
    }
}

proof fn lemma_swapped_bishops(b: Seq<Option<Piece>>)
    requires
        b.len() == 64,
    ensures
        bishops_one_colour(colours_swapped(b)) == bishops_one_colour(b),
{
    let c = colours_swapped(b);
    assert forall|t: int| 0 <= t < 64 implies #[trigger] is_bishop(c[t]) == is_bishop(b[t]) by {}
    if bishops_one_colour(b) {
        assert forall|t: int, u: int|
            0 <= t < 64 && 0 <= u < 64 && is_bishop(#[trigger] c[t]) && is_bishop(#[trigger] c[u]) implies light_idx(t)
            == light_idx(u) by {
            assert(is_bishop(b[t]) && is_bishop(b[u]));
        }
    }
    if bishops_one_colour(c) {
        assert forall|t: int, u: int|
            0 <= t < 64 && 0 <= u < 64 && is_bishop(#[trigger] b[t]) && is_bishop(#[trigger] b[u]) implies light_idx(t)
            == light_idx(u) by {
            assert(is_bishop(c[t]) && is_bishop(c[u]));
        }
    }
}

proof fn lemma_popcount_bits(a: u64, b: u64, x: u64)
    by (bit_vector)
    ensures
        a & b == 0 ==> (a | b) % 2 == a % 2 + b % 2,
        (a | b) / 2 == (a / 2) | (b / 2),
        a & b == 0 ==> (a / 2) & (b / 2) == 0,
        (a | b) == 0 ==> a == 0 && b == 0,
        a & !x == 0 ==> x == a | (x & !a) && a & (x & !a) == 0,
{
}

/// The set bits of two disjoint sets add up.
proof fn lemma_popcount_union(a: u64, b: u64)
    requires
        a & b == 0,
    ensures
        popcount(a | b) == popcount(a) + popcount(b),
    decreases a as int + b as int,
{
    lemma_popcount_bits(a, b, 0);
    if (a | b) != 0 {
        lemma_popcount_union(a / 2, b / 2);
    }
}

/// A non-empty set has a set bit.
proof fn lemma_popcount_nonzero(a: u64)
    requires
        a != 0,
    ensures
        popcount(a) >= 1,
    decreases a,
{
    if a % 2 == 0 {
        lemma_popcount_nonzero(a / 2);
    }
}

/// A side with its king and a piece of kind `k` has at least two pieces,
/// and, unless `k` is a bishop, at least two pieces besides its bishops.
proof fn lemma_count_king_and_piece(b: Seq<Option<Piece>>, side: Side, k: PieceKind)
    requires
        b.len() == 64,
        k != PieceKind::King,
        has_kind(b, side, PieceKind::King),
        has_kind(b, side, k),
    ensures
        count_side(b, side) >= 2,
        k != PieceKind::Bishop ==> count_side(b, side) >= count_kind(b, side, PieceKind::Bishop) + 2,
{
    let x = side_bits(b, side, 64);
    let kb = piece_bits(b, side, PieceKind::King, 64);
    let nb = piece_bits(b, side, k, 64);
    let bb = if k == PieceKind::Bishop { 0u64 } else { piece_bits(b, side, PieceKind::Bishop, 64) };
    assert forall|t: int| 0 <= t < 64 implies #[trigger] has_sq(kb & nb, t) == has_sq(0u64, t) by {
        lemma_has_sq_ops(kb, nb, t);
        lemma_piece_bits(b, side, PieceKind::King, 64, t);
        lemma_piece_bits(b, side, k, 64, t);
        lemma_has_sq_zero(t);
    }
    lemma_bits_ext(kb & nb, 0u64);
    assert forall|t: int| 0 <= t < 64 implies #[trigger] has_sq((kb | nb) & bb, t) == has_sq(0u64, t) by {
        lemma_has_sq_ops(kb | nb, bb, t);
        lemma_has_sq_ops(kb, nb, t);
        lemma_piece_bits(b, side, PieceKind::King, 64, t);
        lemma_piece_bits(b, side, k, 64, t);
        lemma_piece_bits(b, side, PieceKind::Bishop, 64, t);
        lemma_has_sq_zero(t);
    }
    lemma_bits_ext((kb | nb) & bb, 0u64);
    assert forall|t: int| 0 <= t < 64 implies #[trigger] has_sq(((kb | nb) | bb) & !x, t) == has_sq(0u64, t) by {
        lemma_has_sq_ops((kb | nb) | bb, x, t);
        lemma_has_sq_ops(kb | nb, bb, t);
        lemma_has_sq_ops(kb, nb, t);
        lemma_piece_bits(b, side, PieceKind::King, 64, t);
        lemma_piece_bits(b, side, k, 64, t);
        lemma_piece_bits(b, side, PieceKind::Bishop, 64, t);
        lemma_side_bits(b, side, 64, t);
        lemma_has_sq_zero(t);
    }
    lemma_bits_ext(((kb | nb) | bb) & !x, 0u64);
    lemma_popcount_union(kb, nb);
    lemma_popcount_union(kb | nb, bb);
    let a = (kb | nb) | bb;
    lemma_popcount_bits(a, 0, x);
    lemma_popcount_union(a, x & !a);
    lemma_popcount_nonzero(kb);
    lemma_popcount_nonzero(nb);
}

/// When both sides' material gives a verdict, the two verdicts agree.
proof fn lemma_verdicts_agree(b: Seq<Option<Piece>>)
    requires
        b.len() == 64,
        has_kind(b, Side::White, PieceKind::King),
        has_kind(b, Side::Black, PieceKind::King),
    ensures
        side_verdict(b, Side::White) is Some && side_verdict(b, Side::Black) is Some ==> side_verdict(b, Side::White)
            == side_verdict(b, Side::Black),
{
    if has_kind(b, Side::White, PieceKind::Pawn) {
        lemma_count_king_and_piece(b, Side::White, PieceKind::Pawn);
    }
    if has_kind(b, Side::White, PieceKind::Knight) {
        lemma_count_king_and_piece(b, Side::White, PieceKind::Knight);
    }
    if has_kind(b, Side::White, PieceKind::Bishop) {
        lemma_count_king_and_piece(b, Side::White, PieceKind::Bishop);
    }
    if has_kind(b, Side::White, PieceKind::Rook) {
        lemma_count_king_and_piece(b, Side::White, PieceKind::Rook);
    }
    if has_kind(b, Side::White, PieceKind::Queen) {
        lemma_count_king_and_piece(b, Side::White, PieceKind::Queen);
    }
    if has_kind(b, Side::Black, PieceKind::Pawn) {
        lemma_count_king_and_piece(b, Side::Black, PieceKind::Pawn);
    }
    if has_kind(b, Side::Black, PieceKind::Knight) {
        lemma_count_king_and_piece(b, Side::Black, PieceKind::Knight);
    }
    if has_kind(b, Side::Black, PieceKind::Bishop) {
        lemma_count_king_and_piece(b, Side::Black, PieceKind::Bishop);
    }
    if has_kind(b, Side::Black, PieceKind::Rook) {
        lemma_count_king_and_piece(b, Side::Black, PieceKind::Rook);
    }
    if has_kind(b, Side::Black, PieceKind::Queen) {
        lemma_count_king_and_piece(b, Side::Black, PieceKind::Queen);
    }
}

/// Insufficient material is judged the same for both colours: exchanging
/// the colour of every piece leaves the verdict unchanged. So king and one
/// knight or one bishop against a bare king is a draw whichever side owns
/// the minor piece.
pub proof fn lemma_insufficient_material_colour_symmetric(b: Seq<Option<Piece>>)
    requires
        b.len() == 64,
        has_kind(b, Side::White, PieceKind::King),
        has_kind(b, Side::Black, PieceKind::King),
    ensures
        insufficient_material_spec(colours_swapped(b)) == insufficient_material_spec(b),
{
    let c = colours_swapped(b);
    lemma_swapped_bishops(b);
    assert forall|s: Side, k: PieceKind| #[trigger] piece_bits(c, s, k, 64) == piece_bits(b, s.opp(), k, 64) by {
        lemma_swapped_bits(b, s, k, 64);
    }
    assert forall|s: Side| #[trigger] side_bits(c, s, 64) == side_bits(b, s.opp(), 64) by {
        lemma_swapped_bits(b, s, PieceKind::King, 64);
    }
    assert(side_verdict(c, Side::White) == side_verdict(b, Side::Black));
    assert(side_verdict(c, Side::Black) == side_verdict(b, Side::White));
    lemma_verdicts_agree(b);
}

/// Material is sufficient while a pawn stands on the board, whichever side
/// owns it.
pub proof fn lemma_pawn_is_sufficient_material(b: Seq<Option<Piece>>, owner: Side)
    requires
        b.len() == 64,
        has_kind(b, Side::White, PieceKind::King),
        has_kind(b, Side::Black, PieceKind::King),
        has_kind(b, owner, PieceKind::Pawn),
    ensures
        !insufficient_material_spec(b),
{
    lemma_count_king_and_piece(b, owner, PieceKind::Pawn);
    if has_kind(b, Side::White, PieceKind::Knight) {
        lemma_count_king_and_piece(b, Side::White, PieceKind::Knight);
    }
    if has_kind(b, Side::White, PieceKind::Bishop) {
        lemma_count_king_and_piece(b, Side::White, PieceKind::Bishop);
    }
}

/// With nothing but the two kings on the board, the material is
/// insufficient.
pub proof fn lemma_bare_kings_are_insufficient(b: Seq<Option<Piece>>)
    requires
        forall|s: Side, k: PieceKind| k != PieceKind::King ==> !#[trigger] has_kind(b, s, k),
    ensures
        insufficient_material_spec(b),
{
    assert(!has_kind(b, Side::White, PieceKind::Pawn) && !has_kind(b, Side::White, PieceKind::Knight)
        && !has_kind(b, Side::White, PieceKind::Bishop) && !has_kind(b, Side::White, PieceKind::Rook)
        && !has_kind(b, Side::White, PieceKind::Queen));
    assert(!has_kind(b, Side::Black, PieceKind::Pawn) && !has_kind(b, Side::Black, PieceKind::Knight)
        && !has_kind(b, Side::Black, PieceKind::Bishop) && !has_kind(b, Side::Black, PieceKind::Rook)
        && !has_kind(b, Side::Black, PieceKind::Queen));
}

/// Square colours alternate: neighbours along a rank or a file differ in
/// colour, and a1 is dark.
pub proof fn lemma_square_colours_alternate(t: int)
    requires
        0 <= t < 64,
    ensures
        t % 8 < 7 ==> light_idx(t) != light_idx(t + 1),
        t < 56 ==> light_idx(t) != light_idx(t + 8),
        !light_idx(0),
{
}

} // verus!
