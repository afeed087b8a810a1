//! Search: negamax with alpha-beta pruning and a transposition table, under
//! iterative deepening and a time budget.

use vstd::prelude::*;
use std::sync::Arc;
use crate::basetypes::{CastlingRights, MATE, MATE_BOUND, MAX_PLY, Move, Piece, Side, Square};
use crate::board::{
    MAX_MOVES, Position, PositionState, board_after, board_eg, board_mg, board_phase, ep_after, king_attacked,
    legal_in, rights_after,
};
use crate::eval::Score;
use crate::movegen::{MoveGen, pseudo_move_at};
use crate::psqt::{TaperedValue, div_trunc};
use crate::time_management::TimeCutoffs;
use crate::transposition_table::{ScoreBound, TT, TTHit, to_table_score};
use crate::zobrist::ZobristKey;

verus! {

/// How often, at most, progress counters are published during a search.
pub const STATS_EVENT_INTERVAL_NS: u64 = 200_000_000;

/// How many table entries the principal variation is extended by.
pub const TT_WALK_MAX_LENGTH: usize = 16;

/// The largest score magnitude a search result can carry: a stored score
/// (16 bits) moved by at most a full ply budget.
pub const SCORE_LIMIT: i32 = 32832;

/// A command sent to a running search.
#[derive(Debug, Clone, Copy, PartialEq, Eq, Structural)]
pub enum SearchCommand {
    Stop,
    /// The opponent played the move being pondered on: leave ponder mode and
    /// start enforcing the time budget.
    PonderHit,
}

/// What a look at the command queue found.
#[derive(Debug, Clone, Copy, PartialEq, Eq, Structural)]
pub enum CommandPoll {
    Command(SearchCommand),
    Empty,
    Disconnected,
}

/// The cutoffs after a ponder hit at `now`, if there are any.
pub open spec fn cutoffs_after_hit(cutoffs: Option<TimeCutoffs>, now: u64) -> Option<TimeCutoffs> {
    match cutoffs {
        Some(c) => Some(c.after_ponder_hit(now)),
        None => None,
    }
}

/// What one look at the command queue, made at `now`, does to a search's stop
/// flag and cutoffs: a stop request or a closed queue stops it, a ponder hit
/// ends pondering, an empty queue changes nothing.
pub open spec fn poll_effect(stop: bool, cutoffs: Option<TimeCutoffs>, poll: CommandPoll, now: u64) -> (bool, Option<TimeCutoffs>) {
    match poll {
        CommandPoll::Command(SearchCommand::Stop) => (true, cutoffs),
        CommandPoll::Command(SearchCommand::PonderHit) => (stop, cutoffs_after_hit(cutoffs, now)),
        CommandPoll::Empty => (stop, cutoffs),
        CommandPoll::Disconnected => (true, cutoffs),
    }
}

/// The stop flag and cutoffs after the looks `polls`, in order.
pub open spec fn polls_effect(stop: bool, cutoffs: Option<TimeCutoffs>, polls: Seq<(CommandPoll, u64)>) -> (bool, Option<TimeCutoffs>)
    decreases polls.len(),
{
    if polls.len() == 0 {
        (stop, cutoffs)
    } else {
        let (s, c) = polls_effect(stop, cutoffs, polls.drop_last());
        poll_effect(s, c, polls.last().0, polls.last().1)
    }
}

/// Constraints on one search, times in milliseconds; all optional.
#[derive(Debug, Clone, Copy, PartialEq, Eq, Structural)]
pub struct SearchLimits {
    pub depth: Option<u8>,
    pub movetime: Option<u64>,
    pub wtime: Option<u64>,
    pub btime: Option<u64>,
    pub winc: Option<u64>,
    pub binc: Option<u64>,
    /// Search on the opponent's clock: time cutoffs are ignored until a
    /// ponder hit arrives.
    pub ponder: bool,
}

impl Default for SearchLimits {
    fn default() -> (r: Self)
        ensures
            r.depth is None && r.movetime is None && r.wtime is None && r.btime is None,
            r.winc is None && r.binc is None && !r.ponder,
    {
        SearchLimits {
            depth: None,
            movetime: None,
            wtime: None,
            btime: None,
            winc: None,
            binc: None,
            ponder: false,
        }
    }
}

#[derive(Debug, Clone)]
pub struct SearchResult {
    pub best_move: Option<Move>,
    pub score: Score,
    /// Principal variation, starting with the best move.
    pub pv: Vec<Move>,
    pub nodes: u64,
}

#[derive(Debug, Clone, Copy)]
pub struct NegamaxResult {
    pub best_move: Option<Move>,
    pub score: Score,
}

/// What a search publishes.
#[derive(Debug, Clone)]
pub enum EngineEvent {
    /// One completed iterative-deepening iteration.
    Info { depth: u8, result: SearchResult },
    /// Progress counters published during an iteration.
    Stats { depth: u8, nodes: u64, hashfull: u16, tbhits: u64 },
    /// The search's final result.
    BestMove(SearchResult),
}

/// `after` is `before` followed by progress counters only.
pub open spec fn stats_after(before: Seq<EngineEvent>, after: Seq<EngineEvent>) -> bool {
    &&& before.len() <= after.len()
    &&& after.take(before.len() as int) == before
    &&& forall|i: int| before.len() <= i < after.len() ==> after[i] is Stats
}

proof fn lemma_stats_after_trans(a: Seq<EngineEvent>, b: Seq<EngineEvent>, c: Seq<EngineEvent>)
    requires
        stats_after(a, b),
        stats_after(b, c),
    ensures
        stats_after(a, c),
{
    assert(c.take(a.len() as int) =~= c.take(b.len() as int).take(a.len() as int));
    assert forall|i: int| a.len() <= i < c.len() implies c[i] is Stats by {
        if i < b.len() {
            assert(c.take(b.len() as int)[i] == c[i]);
        }
    }
}

proof fn lemma_stats_after_refl(a: Seq<EngineEvent>)
    ensures
        stats_after(a, a),
{
    assert(a.take(a.len() as int) =~= a);
}

/// The events of a search: one report per completed iteration, at depths
/// 0, 1, 2, ... in order, `n` of them, with progress counters between them
/// and nothing else.
pub open spec fn iterations_published(evs: Seq<EngineEvent>, n: nat) -> bool
    decreases evs.len(),
{
    if evs.len() == 0 {
        n == 0
    } else {
        match evs.last() {
            EngineEvent::Stats { .. } => iterations_published(evs.drop_last(), n),
            EngineEvent::Info { depth, .. } => n > 0 && depth == n - 1 && iterations_published(evs.drop_last(), (n - 1) as nat),
            EngineEvent::BestMove(_) => false,
        }
    }
}

/// `evs` begins with `e0`.
pub open spec fn extends(e0: Seq<EngineEvent>, evs: Seq<EngineEvent>) -> bool {
    e0.len() <= evs.len() && evs.take(e0.len() as int) == e0
}

proof fn lemma_published_stats(e0: Seq<EngineEvent>, b1: Seq<EngineEvent>, b2: Seq<EngineEvent>, n: nat)
    requires
        extends(e0, b1),
        iterations_published(b1.skip(e0.len() as int), n),
        stats_after(b1, b2),
    ensures
        extends(e0, b2),
        iterations_published(b2.skip(e0.len() as int), n),
        last_report(b2.skip(e0.len() as int)) == last_report(b1.skip(e0.len() as int)),
    decreases b2.len(),
{
    if b2.len() == b1.len() {
        assert(b2 =~= b1);
    } else {
        let b3 = b2.drop_last();
        assert(b3.take(b1.len() as int) =~= b2.take(b1.len() as int));
        lemma_published_stats(e0, b1, b3, n);
        assert(b2.take(e0.len() as int) =~= b3.take(e0.len() as int));
        assert(b2.skip(e0.len() as int).drop_last() =~= b3.skip(e0.len() as int));
        assert(b2[b2.len() - 1] is Stats);
    }
}

/// Each iteration report among `evs` from index `from` on gives, for its
/// depth, a score that is the root's negamax value when inside the full
/// window and a bound on it otherwise.
pub open spec fn reports_exact(evs: Seq<EngineEvent>, from: int, p: Position) -> bool {
    forall|i: int| from <= i < evs.len() ==> (#[trigger] evs[i] matches EngineEvent::Info { depth, result }
        ==> fail_soft(
        result.score as int,
        negamax_value(
            p.mg(),
            p.board(),
            p.state.active_side,
            p.state.castling.rights,
            p.state.en_passant,
            depth as nat,
            0,
        ),
        -MATE as int,
        MATE as int,
    ))
}

/// A table entry that settles a node `depth` plies deep at once: searched
/// at least as deep, and an exact score, a lower bound at or above `beta`,
/// or an upper bound at or below `alpha`.
pub open spec fn cutoff_hit(h: TTHit, depth: u8, alpha: int, beta: int) -> bool {
    h.depth >= depth && (h.bound == ScoreBound::Exact || (h.bound == ScoreBound::Lower && h.score >= beta) || (h.bound
        == ScoreBound::Upper && h.score <= alpha))
}

/// The depth a search deepens to: the limits' depth, else 255.
pub open spec fn search_depth(limits: SearchLimits) -> u8 {
    match limits.depth {
        Some(d) => d,
        None => 255,
    }
}

/// The result of the last iteration report among `evs`.
pub open spec fn last_report(evs: Seq<EngineEvent>) -> Option<SearchResult>
    decreases evs.len(),
{
    if evs.len() == 0 {
        None
    } else {
        match evs.last() {
            EngineEvent::Info { result, .. } => Some(result),
            _ => last_report(evs.drop_last()),
        }
    }
}

/// An iteration of depth `d` on `p` with a table that keeps nothing gave
/// `score` and `best_move`: the score is the root's negamax value at that
/// depth (a bound on it at the edge of the full window); a move comes only
/// from a positive depth, worth the score the same way; and one comes
/// whenever the depth is positive and a legal move exists.
pub open spec fn iteration_exact(p: Position, d: nat, score: Score, best_move: Option<Move>) -> bool {
    let st = node_state(p.state.active_side, p.state.castling.rights, p.state.en_passant);
    &&& fail_soft(
        score as int,
        negamax_value(p.mg(), p.board(), p.state.active_side, p.state.castling.rights, p.state.en_passant, d, 0),
        -MATE as int,
        MATE as int,
    )
    &&& best_move matches Some(m) ==> d > 0 && fail_soft(
        score as int,
        move_value(p.mg(), p.board(), p.state.active_side, p.state.castling.rights, p.state.en_passant, d, 0, m),
        -MATE as int,
        MATE as int,
    )
    &&& d > 0 && (exists|m: Move| #[trigger] legal_at(p.mg(), p.board(), st, m)) ==> best_move is Some
}

/// The result `r` of deepening `p` up to `max_depth`, with `n` iterations
/// completed and reported in `evs`: fewer than `max_depth` only when the
/// search was stopped or ran out of time; with none completed the score is 0;
/// else the score is the last report's, and so is the move when that report
/// has one. With a table that keeps nothing, the score is the root's negamax
/// value at the last completed depth, and so is the move's worth when that
/// depth is positive and a legal move exists.
pub open spec fn deepening_result(
    p: Position,
    keeps_nothing: bool,
    max_depth: u8,
    n: nat,
    evs: Seq<EngineEvent>,
    stopped: bool,
    timed_out: bool,
    r: SearchResult,
) -> bool {
    let st = node_state(p.state.active_side, p.state.castling.rights, p.state.en_passant);
    let d = (n - 1) as nat;
    &&& n <= max_depth
    &&& n < max_depth ==> stopped || timed_out
    &&& n == 0 ==> r.score == 0
    &&& n > 0 ==> (last_report(evs) matches Some(res) && r.score == res.score && (res.best_move is Some
        ==> r.best_move == res.best_move))
    &&& keeps_nothing && n > 0 ==> fail_soft(
        r.score as int,
        negamax_value(p.mg(), p.board(), p.state.active_side, p.state.castling.rights, p.state.en_passant, d, 0),
        -MATE as int,
        MATE as int,
    )
    &&& keeps_nothing && n > 1 && (exists|m: Move| #[trigger] legal_at(p.mg(), p.board(), st, m)) ==> (r.best_move matches Some(m)
        && fail_soft(
        r.score as int,
        move_value(p.mg(), p.board(), p.state.active_side, p.state.castling.rights, p.state.en_passant, d, 0, m),
        -MATE as int,
        MATE as int,
    ))
}

/// `a` is a prefix of `b`.
pub open spec fn prefix_of<A>(a: Seq<A>, b: Seq<A>) -> bool {
    a.len() <= b.len() && forall|i: int| 0 <= i < a.len() ==> #[trigger] b[i] == a[i]
}

/// A reply that stops a search: a stop command or a closed queue.
pub open spec fn is_stop_reply(p: CommandPoll) -> bool {
    p matches CommandPoll::Command(SearchCommand::Stop) || p is Disconnected
}

/// A stop reply is among `polls` from index `from` on.
pub open spec fn stop_polled(polls: Seq<CommandPoll>, from: int) -> bool {
    exists|i: int| from <= i < polls.len() && is_stop_reply(#[trigger] polls[i])
}

/// A clock reading among `readings` from index `from` on is past `limit`.
pub open spec fn read_past(readings: Seq<u64>, from: int, limit: u64) -> bool {
    exists|i: int| from <= i < readings.len() && #[trigger] readings[i] > limit
}

/// Not pondering, and a clock reading from index `from` on is past the hard
/// deadline of `cutoffs`.
pub open spec fn hard_passed(cutoffs: Option<TimeCutoffs>, readings: Seq<u64>, from: int) -> bool {
    match cutoffs {
        Some(c) => !c.pondering && match c.hard_limit {
            Some(l) => read_past(readings, from, l),
            None => false,
        },
        None => false,
    }
}

/// Not pondering, and a clock reading from index `from` on is past the soft
/// deadline of `cutoffs`.
pub open spec fn soft_passed(cutoffs: Option<TimeCutoffs>, readings: Seq<u64>, from: int) -> bool {
    match cutoffs {
        Some(c) => !c.pondering && match c.soft_limit {
            Some(l) => read_past(readings, from, l),
            None => false,
        },
        None => false,
    }
}

proof fn lemma_log_from_earlier(polls: Seq<CommandPoll>, readings: Seq<u64>, cutoffs: Option<TimeCutoffs>, a: int, b: int)
    requires
        0 <= a <= b,
    ensures
        stop_polled(polls, b) ==> stop_polled(polls, a),
        hard_passed(cutoffs, readings, b) ==> hard_passed(cutoffs, readings, a),
        soft_passed(cutoffs, readings, b) ==> soft_passed(cutoffs, readings, a),
{
    if stop_polled(polls, b) {
        let i = choose|i: int| b <= i < polls.len() && is_stop_reply(#[trigger] polls[i]);
        assert(is_stop_reply(polls[i]));
    }
    if cutoffs is Some {
        let c = cutoffs->0;
        if c.hard_limit is Some && read_past(readings, b, c.hard_limit->0) {
            let i = choose|i: int| b <= i < readings.len() && #[trigger] readings[i] > c.hard_limit->0;
            assert(readings[i] > c.hard_limit->0);
        }
        if c.soft_limit is Some && read_past(readings, b, c.soft_limit->0) {
            let i = choose|i: int| b <= i < readings.len() && #[trigger] readings[i] > c.soft_limit->0;
            assert(readings[i] > c.soft_limit->0);
        }
    }
}

proof fn lemma_prefix_trans<A>(a: Seq<A>, b: Seq<A>, c: Seq<A>)
    requires
        prefix_of(a, b),
        prefix_of(b, c),
    ensures
        prefix_of(a, c),
{
    assert forall|i: int| 0 <= i < a.len() implies #[trigger] c[i] == a[i] by {
        assert(b[i] == a[i]);
    }
}

proof fn lemma_stop_polled_grows(mid: Seq<CommandPoll>, end: Seq<CommandPoll>, from: int)
    requires
        0 <= from,
        prefix_of(mid, end),
        stop_polled(mid, from),
    ensures
        stop_polled(end, from),
{
    let i = choose|i: int| from <= i < mid.len() && is_stop_reply(#[trigger] mid[i]);
    assert(end[i] == mid[i]);
}

/// The world a search runs in: a clock, a command queue and an event sink.
pub trait SearchHost {
    /// Nanoseconds on a monotonic clock.
    fn now_ns(&mut self) -> u64;

    /// The next pending command, without waiting.
    fn poll_command(&mut self) -> CommandPoll;

    /// Publishes an event.
    fn emit(&mut self, event: EngineEvent);
}

/// The principal variation of every ply: row `p` holds the best line found
/// from ply `p`, in slots `64 * p ..`.
#[derive(Debug, Clone)]
pub struct PVTriangle {
    pub pv: Vec<Move>,
    pub pv_length: Vec<usize>,
}

impl PVTriangle {
    pub open spec fn wf(&self) -> bool {
        &&& self.pv@.len() == 4096
        &&& self.pv_length@.len() == 64
        &&& forall|p: int| 0 <= p < 64 ==> #[trigger] self.pv_length@[p] <= 64 - p
    }

    /// The line recorded for ply `p`.
    pub open spec fn line(&self, p: int) -> Seq<Move> {
        self.pv@.subrange(64 * p, 64 * p + self.pv_length@[p])
    }

    pub fn new() -> (r: Self)
        ensures
            r.wf(),
            forall|p: int| 0 <= p < 64 ==> #[trigger] r.line(p).len() == 0,
    {
        let mut pv: Vec<Move> = Vec::new();
        let mut i: usize = 0;
        while i < 4096
            invariant
                i <= 4096,
                pv@.len() == i,
            decreases 4096 - i,
        {
            pv.push(Move::default());
            i = i + 1;
        }
        let mut pv_length: Vec<usize> = Vec::new();
        let mut j: usize = 0;
        while j < 64
            invariant
                j <= 64,
                pv_length@.len() == j,
                forall|p: int| 0 <= p < j ==> #[trigger] pv_length@[p] == 0,
            decreases 64 - j,
        {
            pv_length.push(0);
            j = j + 1;
        }
        PVTriangle { pv, pv_length }
    }

    /// Clears the line of a ply about to be searched.
    pub fn start_negamax(&mut self, ply: usize)
        requires
            old(self).wf(),
            ply < 64,
        ensures
            final(self).wf(),
            final(self).line(ply as int).len() == 0,
            final(self).pv == old(self).pv,
            forall|p: int| 0 <= p < 64 && p != ply ==> #[trigger] final(self).line(p) == old(self).line(p),
    {
        self.pv_length.set(ply, 0);
    }

    /// Records `mv` as the best move at `ply`: its line becomes `mv` followed
    /// by the line of the next ply.
    pub fn new_best_move(&mut self, mv: Move, ply: usize)
        requires
            old(self).wf(),
            ply + 1 < 64,
        ensures
            final(self).wf(),
            final(self).line(ply as int) == seq![mv] + old(self).line(ply + 1),
            forall|p: int| 0 <= p < 64 && p != ply ==> #[trigger] final(self).line(p) == old(self).line(p),
            forall|k: int| 0 <= k < 4096 && !(64 * ply <= k <= 64 * ply + old(self).pv_length@[ply + 1])
                ==> #[trigger] final(self).pv@[k] == old(self).pv@[k],
            forall|p: int| 0 <= p < 64 && p != ply ==> #[trigger] final(self).pv_length@[p] == old(self).pv_length@[p],
            final(self).pv_length@[ply as int] == old(self).pv_length@[ply + 1] + 1,
    {
        let base = 64 * ply;
        let next = 64 * (ply + 1);
        let n = self.pv_length[ply + 1];
        self.pv.set(base, mv);
        let mut i: usize = 0;
        while i < n
            invariant
                self.pv@.len() == 4096,
                self.pv_length == old(self).pv_length,
                old(self).wf(),
                ply + 1 < 64,
                base == 64 * ply,
                next == 64 * (ply + 1),
                n == old(self).pv_length@[ply + 1],
                i <= n,
                self.pv@[base as int] == mv,
                forall|j: int| 0 <= j < i ==> #[trigger] self.pv@[base + 1 + j] == old(self).pv@[next + j],
                forall|k: int| 0 <= k < 4096 && !(base <= k <= base + i) ==> #[trigger] self.pv@[k] == old(self).pv@[k],
            decreases n - i,
        {
            let v = self.pv[next + i];
            self.pv.set(base + 1 + i, v);
            i = i + 1;
        }
        self.pv_length.set(ply, n + 1);
        proof {
            let l = self.line(ply as int);
            let want = seq![mv] + old(self).line(ply + 1);
            assert(l.len() == want.len());
            assert forall|k: int| 0 <= k < l.len() implies l[k] == want[k] by {
                if k > 0 {
                    assert(self.pv@[base + 1 + (k - 1)] == old(self).pv@[next + (k - 1)]);
                }
            }
            assert(l =~= want);
            assert forall|p: int| 0 <= p < 64 && p != ply implies #[trigger] self.line(p) == old(self).line(p) by {
                assert(self.line(p) =~= old(self).line(p));
            }
        }
    }

    /// The principal variation: the root line as far as its moves can be
    /// made, then extended from the table's best moves while they can be
    /// made, at most sixteen of them and stopping at a repeated position.
    /// The position is left as it was.
    pub fn get_pv<T: TT>(&self, pos: &mut Position, tt: &T) -> (r: Vec<Move>)
        requires
            self.wf(),
            old(pos).wf(),
            tt.inv(),
            old(pos).num_made() + 64 + TT_WALK_MAX_LENGTH + 4 < MAX_MOVES,
        ensures
            final(pos).wf(),
            final(pos).same_as(old(pos)),
            r.len() <= 64 + TT_WALK_MAX_LENGTH,
            exists|ps: Seq<Position>| ps.len() == r@.len() + 1 && ps[0] == *old(pos) && #[trigger] legal_line(ps, r@),
            exists|ps: Seq<Position>, k: int| #[trigger] follows_root(ps, r@, self.line(0), k) && legal_line(ps, r@)
                && ps.len() == r@.len() + 1 && ps[0] == *old(pos) && table_tail(*tt, ps, r@, k),
    {
        let ghost p0 = *pos;
        let mut pv: Vec<Move> = Vec::new();
        let mut trail = MoveTrail::new(Ghost(p0));
        assert(trail.moves@ =~= pv@);
        let len0 = self.pv_length[0];
        let ghost root = self.line(0);
        let mut i: usize = 0;
        let mut stopped = false;
        while i < len0
            invariant
                self.wf(),
                len0 == self.pv_length@[0],
                len0 <= 64,
                root == self.line(0),
                root.len() == len0,
                i <= len0,
                pv@.len() == i,
                trail.holds(p0, *pos, pv@.len() as nat),
                trail.moves@ == pv@,
                trail.positions@[0] == p0,
                p0.num_made() + 64 + TT_WALK_MAX_LENGTH + 4 < MAX_MOVES,
                forall|j: int| 0 <= j < i ==> same_squares(pv@[j], #[trigger] root[j]),
                stopped ==> i < len0 && !exists|m: Move| #[trigger] pos.legal_move(m) && same_squares(m, root[i as int]),
            ensures
                stopped || i == len0,
            decreases len0 - i + (if stopped { 0int } else { 1int }),
        {
            if stopped {
                break;
            }
            let mv = self.pv[i];
            assert(root[i as int] == mv);
            match pos.validate_move(mv.to_input_move()) {
                Ok(m) => {
                    let ghost before = *pos;
                    if trail.make(pos, m, Ghost(p0)) {
                        pv.push(m);
                        i = i + 1;
                    } else {
                        proof {
                            assert forall|m2: Move| !(#[trigger] pos.legal_move(m2) && same_squares(m2, root[i as int])) by {
                                if pos.legal_move(m2) && same_squares(m2, root[i as int]) {
                                    assert(before.legal_move(m2));
                                    assert(crate::movegen::pseudo_move(&before, m2));
                                    assert(m2 == m);
                                }
                            }
                        }
                        stopped = true;
                    }
                },
                Err(_) => {
                    stopped = true;
                },
            }
        }
        let ghost k0 = pv@.len() as int;
        let ghost pre = pv@;
        let ghost pk = trail.positions@[k0];
        proof {
            if k0 < len0 {
                assert(stopped);
                assert(pos.same_as(&pk));
                assert forall|m: Move| !(#[trigger] pk.legal_move(m) && same_squares(m, root[k0])) by {
                    if pk.legal_move(m) && same_squares(m, root[k0]) {
                        assert(pos.legal_move(m));
                    }
                }
            }
        }
        let mut visited_zobrists: Vec<ZobristKey> = Vec::new();
        let mut walk_counter: usize = 0;
        let mut curr_zobrist = pos.get_zobrist();
        while walk_counter < TT_WALK_MAX_LENGTH
            invariant_except_break
                forall|j: int| k0 <= j < pv@.len() ==> #[trigger] trail.positions@[j].state.zobrist_hash != curr_zobrist,
            invariant
                walk_counter <= TT_WALK_MAX_LENGTH,
                pv@.len() <= 64 + walk_counter,
                tt.inv(),
                trail.holds(p0, *pos, pv@.len() as nat),
                trail.moves@ == pv@,
                p0.num_made() + 64 + TT_WALK_MAX_LENGTH + 4 < MAX_MOVES,
                0 <= k0 <= pre.len(),
                k0 == pre.len(),
                k0 <= root.len(),
                pv@.len() >= pre.len(),
                pv@.subrange(0, k0) == pre,
                trail.positions@[k0] == pk,
                forall|j: int| 0 <= j < k0 ==> same_squares(pre[j], #[trigger] root[j]),
                k0 < root.len() ==> !exists|m: Move| #[trigger] pk.legal_move(m) && same_squares(m, root[k0]),
                pv@.len() == k0 + walk_counter,
                curr_zobrist == pos.state.zobrist_hash,
                visited_zobrists@.len() == walk_counter,
                forall|j: int| 0 <= j < walk_counter ==> #[trigger] visited_zobrists@[j]
                    == trail.positions@[k0 + j].state.zobrist_hash,
                forall|i: int| #![trigger pv@[i]] k0 <= i < pv@.len() ==> tail_move_fetched(*tt, trail.positions@[i], i, pv@[i]),
                forall|i: int, j: int| #![trigger trail.positions@[i], trail.positions@[j]] k0 <= j < i < pv@.len()
                    ==> trail.positions@[i].state.zobrist_hash != trail.positions@[j].state.zobrist_hash,
            ensures
                pv@.len() == k0 + walk_counter,
                walk_ended(*tt, trail.positions@, pv@, k0),
            decreases TT_WALK_MAX_LENGTH - walk_counter,
        {
            let n_now = pv.len();
            let hit = match tt.fetch(curr_zobrist, n_now) {
                Some(h) => h,
                None => {
                    proof {
                        assert(trail.positions@[n_now as int].state.zobrist_hash == curr_zobrist);
                    }
                    break;
                },
            };
            let ghost pos_before = *pos;
            proof {
                assert(trail.positions@[n_now as int].state.zobrist_hash == curr_zobrist);
            }
            let m = match pos.validate_move(hit.mv.to_input_move()) {
                Ok(m) => m,
                Err(_) => {
                    proof {
                        let p = trail.positions@[n_now as int];
                        assert forall|m2: Move| !(#[trigger] p.legal_move(m2) && same_squares(m2, hit.mv)) by {
                            if p.legal_move(m2) && same_squares(m2, hit.mv) {
                                assert(pos.legal_move(m2));
                                assert(crate::movegen::pseudo_move(&pos_before, m2));
                            }
                        }
                    }
                    break;
                },
            };
            let ghost positions_before = trail.positions@;
            if !trail.make(pos, m, Ghost(p0)) {
                proof {
                    let p = trail.positions@[n_now as int];
                    assert forall|m2: Move| !(#[trigger] p.legal_move(m2) && same_squares(m2, hit.mv)) by {
                        if p.legal_move(m2) && same_squares(m2, hit.mv) {
                            assert(pos_before.legal_move(m2));
                            assert(crate::movegen::pseudo_move(&pos_before, m2));
                            assert(m2 == m);
                        }
                    }
                }
                break;
            }
            let ghost pv_before = pv@;
            pv.push(m);
            proof {
                assert(pv@.subrange(0, k0) =~= pv_before.subrange(0, k0));
                let n = pv_before.len() as int;
                assert(positions_before[n].state == pos_before.state);
                assert forall|i: int| #![trigger pv@[i]] k0 <= i < pv@.len() implies tail_move_fetched(*tt, trail.positions@[i], i, pv@[i]) by {
                    if i < n {
                        assert(pv@[i] == pv_before[i]);
                        assert(trail.positions@[i] == positions_before[i]);
                    }
                }
                assert forall|i: int, j: int| #![trigger trail.positions@[i], trail.positions@[j]] k0 <= j < i < pv@.len()
                    implies trail.positions@[i].state.zobrist_hash != trail.positions@[j].state.zobrist_hash by {
                    assert(trail.positions@[i] == positions_before[i]);
                    assert(trail.positions@[j] == positions_before[j]);
                    if i == n {
                        assert(positions_before[n].state.zobrist_hash == curr_zobrist);
                        assert(positions_before[j].state.zobrist_hash != curr_zobrist);
                    }
                }
            }
            let ghost visited_before = visited_zobrists@;
            visited_zobrists.push(curr_zobrist);
            walk_counter = walk_counter + 1;
            curr_zobrist = pos.get_zobrist();
            proof {
                assert forall|j: int| 0 <= j < walk_counter implies #[trigger] visited_zobrists@[j]
                    == trail.positions@[k0 + j].state.zobrist_hash by {
                    if j < walk_counter - 1 {
                        assert(visited_zobrists@[j] == visited_before[j]);
                        assert(trail.positions@[k0 + j] == positions_before[k0 + j]);
                    }
                }
            }
            if contains_key(&visited_zobrists, curr_zobrist) {
                proof {
                    let n = pv@.len() as int;
                    let jj = choose|jj: int| 0 <= jj < visited_zobrists@.len() && visited_zobrists@[jj] == curr_zobrist;
                    assert(visited_zobrists@[jj] == trail.positions@[k0 + jj].state.zobrist_hash);
                    assert(trail.positions@[n].state.zobrist_hash == curr_zobrist);
                }
                break;
            }
            proof {
                assert forall|j: int| k0 <= j < pv@.len() implies #[trigger] trail.positions@[j].state.zobrist_hash
                    != curr_zobrist by {
                    assert(visited_zobrists@[j - k0] == trail.positions@[j].state.zobrist_hash);
                    assert(visited_zobrists@.contains(visited_zobrists@[j - k0]));
                }
            }
        }
        let ghost ps = trail.positions@;
        proof {
            assert(ps[k0] == pk);
            assert forall|j: int| 0 <= j < k0 implies same_squares(pv@[j], #[trigger] root[j]) by {
                assert(pv@[j] == pv@.subrange(0, k0)[j]);
            }
            assert(follows_root(ps, pv@, root, k0));
            assert(table_tail(*tt, ps, pv@, k0));
            assert forall|k: int| 0 <= k < pv@.len() implies (#[trigger] ps[k]).legal_move(pv@[k]) && ps[k].after_move(pv@[k], &ps[k + 1]) by {
                assert(step_ok(ps[k], trail.moves@[k], ps[k + 1]));
                reveal(step_ok);
            }
            assert(legal_line(ps, pv@));
        }
        trail.unwind(pos, Ghost(p0));
        pv
    }
}

fn contains_key(keys: &Vec<ZobristKey>, k: ZobristKey) -> (r: bool)
    ensures
        r == keys@.contains(k),
{
    let mut i: usize = 0;
    while i < keys.len()
        invariant
            i <= keys@.len(),
            forall|j: int| 0 <= j < i ==> keys@[j] != k,
        decreases keys@.len() - i,
    {
        if keys[i] == k {
            return true;
        }
        i = i + 1;
    }
    false
}

/// The moves made on a position since a starting point, with the positions
/// they passed through, so that they can be taken back.
pub struct MoveTrail {
    pub count: usize,
    pub positions: Ghost<Seq<Position>>,
    pub moves: Ghost<Seq<Move>>,
}

impl MoveTrail {
    /// `cur` is `start` after the trail's `n` moves, each made legally.
    pub open spec fn holds(&self, start: Position, cur: Position, n: nat) -> bool {
        &&& self.count == n
        &&& self.positions@.len() == n + 1
        &&& self.moves@.len() == n
        &&& self.positions@[0] == start
        &&& start.wf()
        &&& cur.wf()
        &&& cur.same_as(&self.positions@[n as int])
        &&& cur.num_made() == start.num_made() + n
        &&& self.positions@[n as int].wf()
        &&& forall|k: int| #![trigger self.moves@[k]] 0 <= k < n ==> step_ok(self.positions@[k], self.moves@[k], self.positions@[k + 1])
    }

    pub fn new(Ghost(start): Ghost<Position>) -> (r: Self)
        ensures
            r.count == 0,
            r.positions@ == seq![start],
            r.moves@.len() == 0,
    {
        let ghost ps: Seq<Position> = seq![start];
        let ghost ms: Seq<Move> = Seq::empty();
        MoveTrail { count: 0, positions: Ghost(ps), moves: Ghost(ms) }
    }

    /// Makes `m` on `pos` and records it; false, with nothing changed, when
    /// the move is refused.
    pub fn make(&mut self, pos: &mut Position, m: Move, Ghost(start): Ghost<Position>) -> (r: bool)
        requires
            old(self).holds(start, *old(pos), old(self).count as nat),
            crate::board::move_fits(old(pos).board(), old(pos).state, m),
            crate::movegen::pseudo_move(old(pos), m),
            old(pos).num_made() + 1 < MAX_MOVES,
        ensures
            r ==> final(self).moves@ == old(self).moves@.push(m),
            !r ==> final(self).moves@ == old(self).moves@,
            r ==> final(self).positions@ == old(self).positions@.push(*final(pos)),
            !r ==> final(self).positions@ == old(self).positions@,
            r == crate::board::legal_in(old(pos).mg(), old(pos).board(), old(pos).state, m),
            !r ==> final(pos).same_as(old(pos)),
            final(pos).zob() == old(pos).zob() && final(pos).mg() == old(pos).mg(),
            r ==> final(self).holds(start, *final(pos), final(self).count as nat) && final(self).count == old(self).count + 1,
            !r ==> final(self).holds(start, *final(pos), final(self).count as nat) && final(self).count == old(self).count,
    {
        let ghost p = *pos;
        match pos.make_move(m) {
            Ok(()) => {
                let ghost n = self.count as int;
                let ghost old_positions = self.positions@;
                let ghost old_moves = self.moves@;
                proof {
                    lemma_after_move_from_same_as(p, old_positions[n], m, *pos);
                }
                self.positions = Ghost(old_positions.push(*pos));
                self.moves = Ghost(old_moves.push(m));
                self.count = self.count + 1;
                proof {
                    assert(step_ok(old_positions[n], m, *pos)) by {
                        reveal(step_ok);
                    }
                    assert forall|k: int| #![trigger self.moves@[k]] 0 <= k < self.count implies step_ok(self.positions@[k], self.moves@[k], self.positions@[k + 1]) by {
                        assert(self.positions@[k] == old_positions[k]);
                        if k < n {
                            assert(self.moves@[k] == old_moves[k]);
                            assert(self.positions@[k + 1] == old_positions[k + 1]);
                        }
                    }
                }
                true
            },
            Err(_) => false,
        }
    }

    /// Takes back every move of the trail.
    pub fn unwind(&mut self, pos: &mut Position, Ghost(start): Ghost<Position>)
        requires
            old(self).holds(start, *old(pos), old(self).count as nat),
        ensures
            final(pos).wf(),
            final(pos).same_as(&start),
    {
        while self.count > 0
            invariant
                self.holds(start, *pos, self.count as nat),
            decreases self.count,
        {
            let ghost n = self.count as int;
            let ghost before = *pos;
            let ghost prev = self.positions@[n - 1];
            let ghost mid = self.positions@[n];
            pos.unmake_move();
            proof {
                assert(step_ok(prev, self.moves@[n - 1], mid));
                reveal(step_ok);
                lemma_undone_same_as(before, mid, *pos);
                crate::board::lemma_make_unmake_round_trip(prev, self.moves@[n - 1], mid, *pos);
            }
            self.positions = Ghost(self.positions@.drop_last());
            self.moves = Ghost(self.moves@.drop_last());
            self.count = self.count - 1;
        }
    }
}

/// The line `r`, played through the positions `ps`, begins with the first
/// `k` moves of `root` (by their squares and promotion), and stops following
/// `root` only where its next move names no legal move.
pub open spec fn follows_root(ps: Seq<Position>, r: Seq<Move>, root: Seq<Move>, k: int) -> bool {
    &&& 0 <= k <= root.len()
    &&& k <= r.len()
    &&& forall|i: int| 0 <= i < k ==> same_squares(r[i], #[trigger] root[i])
    &&& k < root.len() ==> !exists|m: Move| #[trigger] ps[k].legal_move(m) && same_squares(m, root[k])
}

/// Past the first `k` moves, each move of `r` names the squares and
/// promotion of the move the table gives back for the position it is played
/// from (at that ply); there are at most sixteen of them; no position the
/// walk moves on from repeats an earlier one of the walk; and the walk ended
/// for one of the reasons of [`walk_ended`].
pub open spec fn table_tail<T: TT>(tt: T, ps: Seq<Position>, r: Seq<Move>, k: int) -> bool {
    &&& r.len() - k <= TT_WALK_MAX_LENGTH
    &&& forall|i: int| #![trigger r[i]] k <= i < r.len() ==> tail_move_fetched(tt, ps[i], i, r[i])
    &&& forall|i: int, j: int| #![trigger ps[i], ps[j]] k <= j < i < r.len() ==> ps[i].state.zobrist_hash
        != ps[j].state.zobrist_hash
    &&& walk_ended(tt, ps, r, k)
}

/// Move `m`, played from `p` at ply `ply` of the line, names the squares and
/// promotion of the move a fetch of `p`'s hash gives back.
pub open spec fn tail_move_fetched<T: TT>(tt: T, p: Position, ply: int, m: Move) -> bool {
    tt.lookup(p.state.zobrist_hash, ply) matches Some(h) && same_squares(m, h.mv)
}

/// Why the walk of the table after line `r` (through positions `ps`, the
/// walk starting at `k`) ended: it added sixteen moves; the table gives
/// nothing for the last position; what it gives names no legal move there;
/// or the last position repeats one the walk moved on from.
pub open spec fn walk_ended<T: TT>(tt: T, ps: Seq<Position>, r: Seq<Move>, k: int) -> bool {
    let n = r.len() as int;
    let p = ps[n];
    ||| n - k == TT_WALK_MAX_LENGTH
    ||| tt.lookup(p.state.zobrist_hash, n) is None
    ||| (tt.lookup(p.state.zobrist_hash, n) matches Some(h) && !exists|m: Move| #[trigger] p.legal_move(m) && same_squares(m, h.mv))
    ||| exists|j: int| k <= j < n && #[trigger] ps[j].state.zobrist_hash == p.state.zobrist_hash
}

/// The bound a search result `score` found with window `(alpha, beta)` is
/// stored with: a lower bound when it reaches `beta`, exact when it raised
/// `alpha`, an upper bound otherwise.
pub open spec fn result_bound(score: int, alpha: int, beta: int) -> ScoreBound {
    if score >= beta {
        ScoreBound::Lower
    } else if score > alpha {
        ScoreBound::Exact
    } else {
        ScoreBound::Upper
    }
}

/// The table's entry for hash `z` at `ply` settles a node `depth` plies deep
/// with window `(alpha, beta)` at once.
pub open spec fn settled_by_table<T: TT>(tt: T, z: u64, ply: int, depth: u8, alpha: int, beta: int) -> bool {
    tt.lookup(z, ply) matches Some(h) && cutoff_hit(h, depth, alpha, beta)
}

/// The table names move `m` for hash `z`: it holds a move with `m`'s
/// squares and promotion there.
pub open spec fn table_names<T: TT>(tt: T, z: u64, m: Move) -> bool {
    exists|h: Move| #[trigger] tt.holds_move(z, h) && same_squares(h, m)
}

/// Two moves name the same squares and promotion.
pub open spec fn same_squares(a: Move, b: Move) -> bool {
    a.from_sq() == b.from_sq() && a.to_sq() == b.to_sq() && a.promo() == b.promo()
}

/// One recorded step: `m` is legal in `p`, and `q` is `p` after it.
#[verifier::opaque]
pub open spec fn step_ok(p: Position, m: Move, q: Position) -> bool {
    &&& p.wf()
    &&& move_fits_pos(p, m)
    &&& p.legal_move(m)
    &&& p.after_move(m, &q)
}

/// `ms` is played legally through the positions `ps`: each move is legal in
/// the position before it, and the next position is the one it leads to.
pub open spec fn legal_line(ps: Seq<Position>, ms: Seq<Move>) -> bool {
    forall|k: int| 0 <= k < ms.len() ==> (#[trigger] ps[k]).legal_move(ms[k]) && ps[k].after_move(ms[k], &ps[k + 1])
}

/// The move fits the position it is made in.
pub open spec fn move_fits_pos(p: Position, m: Move) -> bool {
    crate::board::move_fits(p.board(), p.state, m)
}

proof fn lemma_after_move_from_same_as(p: Position, q: Position, m: Move, next: Position)
    requires
        p.same_as(&q),
        q.wf(),
        p.after_move(m, &next),
        move_fits_pos(p, m),
    ensures
        q.after_move(m, &next),
        move_fits_pos(q, m),
{
}

proof fn lemma_undone_same_as(p1: Position, q1: Position, p2: Position)
    requires
        p1.same_as(&q1),
        p1.undone_to(&p2),
    ensures
        q1.undone_to(&p2),
{
}


/// The state a search reads at a node: the side to move, the castling
/// rights and the en passant square. Clocks and history play no part.
pub open spec fn node_state(side: Side, rights: u8, ep: Option<Square>) -> PositionState {
    PositionState {
        active_side: side,
        castling: CastlingRights { rights },
        half_move_clock: 0,
        full_move_number: 0,
        en_passant: ep,
        zobrist_hash: 0,
        phase_score: 0,
        tapered_eval: TaperedValue { mg: 0, eg: 0 },
    }
}

/// `m` is legal on board `b` in state `st`.
#[verifier::opaque]
pub open spec fn legal_at(mg: MoveGen, b: Seq<Option<Piece>>, st: PositionState, m: Move) -> bool {
    pseudo_move_at(b, st, m) && legal_in(mg, b, st, m)
}

/// Whether a move is legal depends on the state only through the side to
/// move, the castling rights and the en passant square.
pub proof fn lemma_legal_at_node(mg: MoveGen, b: Seq<Option<Piece>>, st: PositionState, m: Move)
    ensures
        legal_at(mg, b, st, m) == legal_at(mg, b, node_state(st.active_side, st.castling.rights, st.en_passant), m),
{
    reveal(legal_at);
}

/// The static evaluation of board `b` from `side`'s point of view: the
/// board's tapered piece-square value blended by its phase.
pub open spec fn eval_at(b: Seq<Option<Piece>>, side: Side) -> int {
    let ph = board_phase(b, 64) % 256;
    let v = div_trunc(board_mg(b, 64) * ph + board_eg(b, 64) * (24 - ph), 24);
    if side == Side::White {
        v
    } else {
        -v
    }
}

/// Holds of every integer: the term by which a node's value is chosen.
pub open spec fn is_score(v: int) -> bool {
    true
}

/// The depth-limited negamax value of a node (board `b`, `side` to move,
/// castling `rights`, en passant square `ep`) searched `depth` plies deep
/// from `ply` plies below the root: with no depth left its static evaluation
/// kept clear of mate scores; else, with no legal move, a mate score, worse
/// the sooner, when in check, and zero otherwise; else, at the last ply the
/// triangle has room for, the static evaluation again; otherwise the best
/// over its legal moves of the negation of the value after the move.
#[verifier::opaque]
pub open spec fn negamax_value(
    mg: MoveGen,
    b: Seq<Option<Piece>>,
    side: Side,
    rights: u8,
    ep: Option<Square>,
    depth: nat,
    ply: nat,
) -> int
    decreases depth,
{
    let st = node_state(side, rights, ep);
    if depth == 0 {
        clamped_eval(eval_at(b, side))
    } else if !(exists|m: Move| #[trigger] legal_at(mg, b, st, m)) {
        if king_attacked(mg, b, side) {
            -MATE + ply
        } else {
            0
        }
    } else if ply + 1 >= MAX_PLY {
        clamped_eval(eval_at(b, side))
    } else {
        choose|v: int|
            #[trigger] is_score(v) && (exists|m: Move| #[trigger] legal_at(mg, b, st, m) && v == -negamax_value(
                mg,
                board_after(b, side, m),
                side.opp(),
                rights_after(rights, side, m),
                ep_after(side, m),
                (depth - 1) as nat,
                ply + 1,
            )) && (forall|m: Move| #[trigger] legal_at(mg, b, st, m) ==> -negamax_value(
                mg,
                board_after(b, side, m),
                side.opp(),
                rights_after(rights, side, m),
                ep_after(side, m),
                (depth - 1) as nat,
                ply + 1,
            ) <= v)
    }
}

/// What move `m` is worth at a node: the negation of the value after it.
#[verifier::opaque]
pub open spec fn move_value(
    mg: MoveGen,
    b: Seq<Option<Piece>>,
    side: Side,
    rights: u8,
    ep: Option<Square>,
    depth: nat,
    ply: nat,
    m: Move,
) -> int {
    -negamax_value(
        mg,
        board_after(b, side, m),
        side.opp(),
        rights_after(rights, side, m),
        ep_after(side, m),
        (depth - 1) as nat,
        ply + 1,
    )
}

/// A fail-soft alpha-beta result `r` for window (`alpha`, `beta`) and true
/// value `v`: a bound from above when at most `alpha`, from below when at
/// least `beta`, and exact in between.
pub open spec fn fail_soft(r: int, v: int, alpha: int, beta: int) -> bool {
    &&& (r <= alpha ==> v <= r)
    &&& (r >= beta ==> v >= r)
    &&& (alpha < r < beta ==> v == r)
}

/// Among the legal moves of a list, some move is worth the most.
proof fn lemma_best_in_list(
    l: Seq<Move>,
    mg: MoveGen,
    b: Seq<Option<Piece>>,
    side: Side,
    rights: u8,
    ep: Option<Square>,
    depth: nat,
    ply: nat,
)
    requires
        exists|i: int| 0 <= i < l.len() && #[trigger] legal_at(mg, b, node_state(side, rights, ep), l[i]),
    ensures
        exists|i: int| 0 <= i < l.len() && #[trigger] legal_at(mg, b, node_state(side, rights, ep), l[i])
            && forall|j: int| 0 <= j < l.len() && #[trigger] legal_at(mg, b, node_state(side, rights, ep), l[j])
                ==> move_value(mg, b, side, rights, ep, depth, ply, l[j]) <= move_value(mg, b, side, rights, ep, depth, ply, l[i]),
    decreases l.len(),
{
    let st = node_state(side, rights, ep);
    let front = l.drop_last();
    let k = l.len() - 1;
    if exists|i: int| 0 <= i < front.len() && #[trigger] legal_at(mg, b, st, front[i]) {
        lemma_best_in_list(front, mg, b, side, rights, ep, depth, ply);
        let i1 = choose|i: int| 0 <= i < front.len() && #[trigger] legal_at(mg, b, st, front[i])
            && forall|j: int| 0 <= j < front.len() && #[trigger] legal_at(mg, b, st, front[j])
                ==> move_value(mg, b, side, rights, ep, depth, ply, front[j]) <= move_value(mg, b, side, rights, ep, depth, ply, front[i]);
        assert(front[i1] == l[i1]);
        if legal_at(mg, b, st, l[k]) && move_value(mg, b, side, rights, ep, depth, ply, l[i1]) < move_value(mg, b, side, rights, ep, depth, ply, l[k]) {
            assert forall|j: int| 0 <= j < l.len() && #[trigger] legal_at(mg, b, st, l[j])
                implies move_value(mg, b, side, rights, ep, depth, ply, l[j]) <= move_value(mg, b, side, rights, ep, depth, ply, l[k]) by {
                if j < k {
                    assert(front[j] == l[j]);
                }
            }
        } else {
            assert forall|j: int| 0 <= j < l.len() && #[trigger] legal_at(mg, b, st, l[j])
                implies move_value(mg, b, side, rights, ep, depth, ply, l[j]) <= move_value(mg, b, side, rights, ep, depth, ply, l[i1]) by {
                if j < k {
                    assert(front[j] == l[j]);
                }
            }
        }
    } else {
        let i0 = choose|i: int| 0 <= i < l.len() && #[trigger] legal_at(mg, b, st, l[i]);
        if i0 < k {
            assert(front[i0] == l[i0]);
        }
        assert(legal_at(mg, b, st, l[k]));
        assert forall|j: int| 0 <= j < l.len() && #[trigger] legal_at(mg, b, st, l[j])
            implies move_value(mg, b, side, rights, ep, depth, ply, l[j]) <= move_value(mg, b, side, rights, ep, depth, ply, l[k]) by {
            if j < k {
                assert(front[j] == l[j]);
            }
        }
    }
}

/// When every legal move of a node is in a list, the node's value (past the
/// horizon, with a legal move) is that of its best move, and no move is
/// worth more.
proof fn lemma_value_is_best(
    l: Seq<Move>,
    mg: MoveGen,
    b: Seq<Option<Piece>>,
    side: Side,
    rights: u8,
    ep: Option<Square>,
    depth: nat,
    ply: nat,
)
    requires
        depth > 0,
        ply + 1 < MAX_PLY,
        exists|m: Move| #[trigger] legal_at(mg, b, node_state(side, rights, ep), m),
        forall|m: Move| legal_at(mg, b, node_state(side, rights, ep), m) ==> #[trigger] l.contains(m),
    ensures
        exists|m: Move| #[trigger] legal_at(mg, b, node_state(side, rights, ep), m)
            && negamax_value(mg, b, side, rights, ep, depth, ply) == move_value(mg, b, side, rights, ep, depth, ply, m),
        forall|m: Move| #[trigger] legal_at(mg, b, node_state(side, rights, ep), m)
            ==> move_value(mg, b, side, rights, ep, depth, ply, m) <= negamax_value(mg, b, side, rights, ep, depth, ply),
{
    let st = node_state(side, rights, ep);
    let m0 = choose|m: Move| #[trigger] legal_at(mg, b, st, m);
    assert(l.contains(m0));
    let i0 = choose|i: int| 0 <= i < l.len() && l[i] == m0;
    assert(legal_at(mg, b, st, l[i0]));
    lemma_best_in_list(l, mg, b, side, rights, ep, depth, ply);
    let i = choose|i: int| 0 <= i < l.len() && #[trigger] legal_at(mg, b, st, l[i])
        && forall|j: int| 0 <= j < l.len() && #[trigger] legal_at(mg, b, st, l[j])
            ==> move_value(mg, b, side, rights, ep, depth, ply, l[j]) <= move_value(mg, b, side, rights, ep, depth, ply, l[i]);
    let best = l[i];
    let v = move_value(mg, b, side, rights, ep, depth, ply, best);
    assert forall|m: Move| #[trigger] legal_at(mg, b, st, m) implies move_value(mg, b, side, rights, ep, depth, ply, m) <= v by {
        assert(l.contains(m));
        let j = choose|j: int| 0 <= j < l.len() && l[j] == m;
        assert(legal_at(mg, b, st, l[j]));
    }
    lemma_value_choice(mg, b, side, rights, ep, depth, ply, best, v);
}

/// A best legal move's worth is the node's value.
proof fn lemma_value_choice(
    mg: MoveGen,
    b: Seq<Option<Piece>>,
    side: Side,
    rights: u8,
    ep: Option<Square>,
    depth: nat,
    ply: nat,
    best: Move,
    v: int,
)
    requires
        depth > 0,
        ply + 1 < MAX_PLY,
        legal_at(mg, b, node_state(side, rights, ep), best),
        v == move_value(mg, b, side, rights, ep, depth, ply, best),
        forall|m: Move| #[trigger] legal_at(mg, b, node_state(side, rights, ep), m)
            ==> move_value(mg, b, side, rights, ep, depth, ply, m) <= v,
    ensures
        negamax_value(mg, b, side, rights, ep, depth, ply) == v,
{
    let st = node_state(side, rights, ep);
    reveal(move_value);
    reveal(negamax_value);
    assert(is_score(v));
    assert(exists|m: Move| #[trigger] legal_at(mg, b, st, m) && v == -negamax_value(
        mg, board_after(b, side, m), side.opp(), rights_after(rights, side, m), ep_after(side, m), (depth - 1) as nat, ply + 1));
    let c = negamax_value(mg, b, side, rights, ep, depth, ply);
    let m1 = choose|m: Move| #[trigger] legal_at(mg, b, st, m) && c == -negamax_value(
        mg, board_after(b, side, m), side.opp(), rights_after(rights, side, m), ep_after(side, m), (depth - 1) as nat, ply + 1);
    assert(c <= v);
    assert(v <= c);
}

/// An evaluation kept clear of the mate scores.
pub open spec fn clamped_eval(v: int) -> int {
    if v >= MATE_BOUND {
        MATE_BOUND - 1
    } else if v <= -MATE_BOUND {
        -(MATE_BOUND - 1)
    } else {
        v
    }
}

fn clamp_eval(v: i32) -> (r: i32)
    ensures
        r == clamped_eval(v as int),
{
    if v >= MATE_BOUND {
        MATE_BOUND - 1
    } else if v <= -MATE_BOUND {
        -(MATE_BOUND - 1)
    } else {
        v
    }
}

/// A score as the table would store it from `ply`.
fn table_score(score: Score, ply: i32) -> (r: i64)
    requires
        0 <= ply < 65536,
    ensures
        r == to_table_score(score as int, ply as int),
{
    if score >= MATE_BOUND {
        score as i64 + ply as i64
    } else if score <= -MATE_BOUND {
        score as i64 - ply as i64
    } else {
        score as i64
    }
}

/// A search: the move generator, the table it shares between iterations,
/// and its stop and time state.
pub struct Searcher<T: TT> {
    pub movegen: Arc<MoveGen>,
    pub tt: T,
    pub stop: bool,
    /// When this search must stop, and whether it is pondering; `None` for
    /// searches without a clock.
    pub time_cutoffs: Option<TimeCutoffs>,
    pub last_stats_event_emitted: Option<u64>,
    /// The events this search has published, in order.
    pub events: Ghost<Seq<EngineEvent>>,
    /// The table as it stood when the iteration whose result was kept began.
    pub kept_from: Ghost<T>,
    /// Every reply the command queue gave this search, in order.
    pub polls: Ghost<Seq<CommandPoll>>,
    /// Every clock reading this search took, in order.
    pub readings: Ghost<Seq<u64>>,
}

impl<T: TT> Searcher<T> {
    pub open spec fn wf(&self) -> bool {
        &&& self.movegen.wf()
        &&& self.tt.inv()
    }

    pub fn new(movegen: Arc<MoveGen>, transposition_table: T) -> (r: Self)
        ensures
            r.movegen == movegen,
            r.tt == transposition_table,
            !r.stop,
            r.time_cutoffs is None,
            r.last_stats_event_emitted is None,
            r.events@ == Seq::<EngineEvent>::empty(),
            r.kept_from@ == transposition_table,
            r.polls@ == Seq::<CommandPoll>::empty(),
            r.readings@ == Seq::<u64>::empty(),
    {
        let ghost table = transposition_table;
        Searcher {
            movegen,
            tt: transposition_table,
            stop: false,
            time_cutoffs: None,
            last_stats_event_emitted: None,
            events: Ghost(Seq::empty()),
            kept_from: Ghost(table),
            polls: Ghost(Seq::empty()),
            readings: Ghost(Seq::empty()),
        }
    }

    /// The opponent played the pondered move: the cutoffs stop pondering.
    pub fn note_ponder_hit(&mut self, now: u64)
        ensures
            final(self).movegen == old(self).movegen,
            final(self).tt == old(self).tt,
            final(self).stop == old(self).stop,
            final(self).time_cutoffs is Some == old(self).time_cutoffs is Some,
            final(self).time_cutoffs matches Some(c) ==> !c.pondering,
            final(self).time_cutoffs == cutoffs_after_hit(old(self).time_cutoffs, now),
            final(self).last_stats_event_emitted == old(self).last_stats_event_emitted,
            final(self).events == old(self).events,
            final(self).kept_from == old(self).kept_from,
            final(self).polls == old(self).polls,
            final(self).readings == old(self).readings,
    {
        if let Some(cutoffs) = self.time_cutoffs {
            let mut c = cutoffs;
            c.ponder_hit(now);
            self.time_cutoffs = Some(c);
        }
    }

    pub fn pondering(&self) -> (r: bool)
        ensures
            r == (self.time_cutoffs matches Some(c) && c.pondering),
    {
        match self.time_cutoffs {
            Some(c) => c.is_pondering(),
            None => false,
        }
    }

    /// Whether the search must still wait, before reporting its result, for
    /// a ponder hit or a stop: it is pondering and was not stopped.
    pub fn awaiting_ponder_end(&self) -> (r: bool)
        ensures
            r == (!self.stop && (self.time_cutoffs matches Some(c) && c.pondering)),
    {
        !self.stop && self.pondering()
    }

    /// A command received while waiting: a stop, or a closed queue (`None`),
    /// stops the search; a ponder hit ends pondering.
    pub fn receive(&mut self, command: Option<SearchCommand>, now: u64)
        ensures
            final(self).movegen == old(self).movegen,
            final(self).tt == old(self).tt,
            command != Some(SearchCommand::PonderHit) ==> final(self).stop,
            command == Some(SearchCommand::PonderHit) ==> final(self).stop == old(self).stop && !(final(self).time_cutoffs matches Some(c) && c.pondering),
            final(self).events == old(self).events,
            final(self).kept_from == old(self).kept_from,
            final(self).polls == old(self).polls,
            final(self).readings == old(self).readings,
    {
        match command {
            Some(SearchCommand::Stop) => self.stop = true,
            Some(SearchCommand::PonderHit) => self.note_ponder_hit(now),
            None => self.stop = true,
        }
    }

    /// Reads the pending commands until the queue is empty or closed: a
    /// stop or a closed queue stops the search, a ponder hit ends pondering.
    fn drain_commands<H: SearchHost>(&mut self, host: &mut H) -> (polled: Ghost<Seq<(CommandPoll, u64)>>)
        ensures
            final(self).movegen == old(self).movegen,
            final(self).tt == old(self).tt,
            final(self).last_stats_event_emitted == old(self).last_stats_event_emitted,
            final(self).events == old(self).events,
            final(self).kept_from == old(self).kept_from,
            prefix_of(old(self).polls@, final(self).polls@),
            prefix_of(old(self).readings@, final(self).readings@),
            final(self).stop ==> old(self).stop || stop_polled(final(self).polls@, old(self).polls@.len() as int),
            old(self).stop ==> final(self).stop,
            (final(self).stop, final(self).time_cutoffs) == polls_effect(old(self).stop, old(self).time_cutoffs, polled@),
            1 <= polled@.len() <= usize::MAX,
            forall|j: int| 0 <= j < polled@.len() - 1 ==> (#[trigger] polled@[j]).0 is Command,
            polled@.len() < usize::MAX ==> !(polled@.last().0 is Command),
    {
        let ghost mut log: Seq<(CommandPoll, u64)> = Seq::empty();
        let mut i: usize = 0;
        loop
            invariant_except_break
                i < usize::MAX,
                log.len() == i,
                forall|j: int| 0 <= j < log.len() ==> (#[trigger] log[j]).0 is Command,
            invariant
                self.movegen == old(self).movegen,
                self.tt == old(self).tt,
                self.last_stats_event_emitted == old(self).last_stats_event_emitted,
                self.events == old(self).events,
                self.kept_from == old(self).kept_from,
                prefix_of(old(self).polls@, self.polls@),
                prefix_of(old(self).readings@, self.readings@),
                self.stop ==> old(self).stop || stop_polled(self.polls@, old(self).polls@.len() as int),
                old(self).stop ==> self.stop,
                (self.stop, self.time_cutoffs) == polls_effect(old(self).stop, old(self).time_cutoffs, log),
            ensures
                1 <= log.len() <= usize::MAX,
                forall|j: int| 0 <= j < log.len() - 1 ==> (#[trigger] log[j]).0 is Command,
                log.len() < usize::MAX ==> !(log.last().0 is Command),
            decreases usize::MAX - i,
        {
            let ghost before = log;
            let poll = host.poll_command();
            proof {
                let polls0 = self.polls@;
                self.polls@ = self.polls@.push(poll);
                lemma_prefix_trans(old(self).polls@, polls0, self.polls@);
                if stop_polled(polls0, old(self).polls@.len() as int) {
                    lemma_stop_polled_grows(polls0, self.polls@, old(self).polls@.len() as int);
                }
                if is_stop_reply(poll) {
                    assert(is_stop_reply(self.polls@[polls0.len() as int]));
                }
            }
            match poll {
                CommandPoll::Command(SearchCommand::Stop) => {
                    self.stop = true;
                    proof {
                        log = log.push((poll, 0u64));
                        assert(log.drop_last() =~= before);
                    }
                },
                CommandPoll::Command(SearchCommand::PonderHit) => {
                    let now = host.now_ns();
                    proof {
                        let readings0 = self.readings@;
                        self.readings@ = self.readings@.push(now);
                        lemma_prefix_trans(old(self).readings@, readings0, self.readings@);
                    }
                    self.note_ponder_hit(now);
                    proof {
                        log = log.push((poll, now));
                        assert(log.drop_last() =~= before);
                    }
                },
                CommandPoll::Empty => {
                    proof {
                        log = log.push((poll, 0u64));
                        assert(log.drop_last() =~= before);
                    }
                    break;
                },
                CommandPoll::Disconnected => {
                    self.stop = true;
                    proof {
                        log = log.push((poll, 0u64));
                        assert(log.drop_last() =~= before);
                    }
                    break;
                },
            }
            i = i + 1;
            if i >= usize::MAX {
                break;
            }
        }
        Ghost(log)
    }

    /// Checks, every 2048 nodes, for a stop request or an exceeded hard
    /// deadline, and publishes progress at most every 200 ms. True when the
    /// search must stop.
    fn check_in<H: SearchHost>(&mut self, depth: u8, nodes_searched: u64, host: &mut H) -> (r: bool)
        requires
            old(self).wf(),
        ensures
            final(self).wf(),
            final(self).movegen == old(self).movegen,
            final(self).tt == old(self).tt,
            nodes_searched & 2047 != 0 ==> !r && *final(self) == *old(self),
            nodes_searched & 2047 == 0 ==> exists|polled: Seq<(CommandPoll, u64)>|
                (final(self).stop, final(self).time_cutoffs) == #[trigger] polls_effect(old(self).stop, old(self).time_cutoffs, polled),
            nodes_searched & 2047 == 0 && final(self).stop ==> r,
            r ==> final(self).stop || hard_passed(final(self).time_cutoffs, final(self).readings@, old(self).readings@.len() as int),
            r ==> final(self).last_stats_event_emitted == old(self).last_stats_event_emitted,
            stats_after(old(self).events@, final(self).events@),
            final(self).kept_from == old(self).kept_from,
            prefix_of(old(self).polls@, final(self).polls@),
            prefix_of(old(self).readings@, final(self).readings@),
            final(self).stop ==> old(self).stop || stop_polled(final(self).polls@, old(self).polls@.len() as int),
    {
        proof {
            lemma_stats_after_refl(self.events@);
        }
        if nodes_searched & 2047 != 0 {
            return false;
        }
        let polled = self.drain_commands(host);
        if self.stop {
            return true;
        }
        let now = host.now_ns();
        proof {
            let readings0 = self.readings@;
            self.readings@ = self.readings@.push(now);
            lemma_prefix_trans(old(self).readings@, readings0, self.readings@);
            assert(self.readings@[readings0.len() as int] == now);
        }
        if let Some(c) = self.time_cutoffs {
            if c.exceeded_hard(now) {
                return true;
            }
        }
        let due = match self.last_stats_event_emitted {
            None => true,
            Some(t) => t.saturating_add(STATS_EVENT_INTERVAL_NS) < now,
        };
        if due {
            let hashfull = self.tt.hashfull();
            let event = EngineEvent::Stats { depth, nodes: nodes_searched, hashfull, tbhits: 0 };
            proof {
                let before = self.events@;
                self.events@ = self.events@.push(event);
                assert(self.events@.take(before.len() as int) =~= before);
            }
            host.emit(event);
            self.last_stats_event_emitted = Some(now);
        }
        false
    }

    /// Negamax with fail-soft alpha-beta pruning from `ply` plies below the
    /// root, `depth` plies still to search. `None` only when a stop came from
    /// the command queue (or the search was already stopped) or a clock
    /// reading taken during the call passed the hard deadline; with no poll
    /// and no reading there is always a result. A table entry that settles
    /// the node is answered at once. The position is left as it was. With a
    /// table that keeps nothing, the score is the node's negamax value when
    /// it falls inside the window and a bound on it otherwise, and so is the
    /// best move's worth.
    #[verifier::rlimit(40)]
    fn negamax<H: SearchHost>(
        &mut self,
        pos: &mut Position,
        depth: u8,
        ply: usize,
        alpha0: Score,
        beta: Score,
        nodes_searched: &mut u64,
        pv: &mut PVTriangle,
        host: &mut H,
    ) -> (r: Option<NegamaxResult>)
        requires
            old(self).wf(),
            old(pos).wf(),
            old(pv).wf(),
            ply < MAX_PLY,
            depth as int + ply <= 255,
            -SCORE_LIMIT <= alpha0 <= SCORE_LIMIT,
            -SCORE_LIMIT <= beta <= SCORE_LIMIT,
            alpha0 < beta,
            old(pos).num_made() + MAX_PLY - ply + 2 < MAX_MOVES,
        ensures
            final(self).wf(),
            final(self).movegen == old(self).movegen,
            final(self).tt.keeps_nothing() == old(self).tt.keeps_nothing(),
            final(pos).wf(),
            final(pos).same_as(old(pos)),
            final(pv).wf(),
            r matches Some(res) ==> -SCORE_LIMIT <= res.score <= SCORE_LIMIT,
            old(self).tt.keeps_nothing() ==> (r matches Some(res) ==> fail_soft(
                res.score as int,
                negamax_value(
                    old(pos).mg(),
                    old(pos).board(),
                    old(pos).state.active_side,
                    old(pos).state.castling.rights,
                    old(pos).state.en_passant,
                    depth as nat,
                    ply as nat,
                ),
                alpha0 as int,
                beta as int,
            )),
            old(self).tt.keeps_nothing() ==> (r matches Some(res) ==> (res.best_move matches Some(m) ==> legal_at(
                old(pos).mg(),
                old(pos).board(),
                node_state(old(pos).state.active_side, old(pos).state.castling.rights, old(pos).state.en_passant),
                m,
            ) && fail_soft(
                res.score as int,
                move_value(
                    old(pos).mg(),
                    old(pos).board(),
                    old(pos).state.active_side,
                    old(pos).state.castling.rights,
                    old(pos).state.en_passant,
                    depth as nat,
                    ply as nat,
                    m,
                ),
                alpha0 as int,
                beta as int,
            ))),
            r is None ==> final(self).stop || hard_passed(final(self).time_cutoffs, final(self).readings@, old(self).readings@.len() as int),
            stats_after(old(self).events@, final(self).events@),
            final(self).kept_from == old(self).kept_from,
            prefix_of(old(self).polls@, final(self).polls@),
            prefix_of(old(self).readings@, final(self).readings@),
            final(self).stop ==> old(self).stop || stop_polled(final(self).polls@, old(self).polls@.len() as int),
            r matches Some(res) ==> (res.best_move matches Some(m) ==> old(pos).legal_move(m)
                || old(self).tt.holds_move(old(pos).state.zobrist_hash, m)),
            old(self).tt.keeps_nothing() ==> (r matches Some(res) && res.best_move is Some ==> depth > 0 && ply + 1 < MAX_PLY),
            r matches Some(res) ==> (res.best_move matches Some(m) ==> (-32767 <= to_table_score(res.score as int, ply as int)
                <= 32767 ==> table_names(final(self).tt, old(pos).state.zobrist_hash, m) || final(self).tt.refuses_store(
                old(pos).state.zobrist_hash,
                depth,
            ))),
            r matches Some(res) ==> (res.best_move matches Some(m) ==> (-32767 <= to_table_score(res.score as int, ply as int)
                <= 32767 && !settled_by_table(old(self).tt, old(pos).state.zobrist_hash, ply as int, depth, alpha0 as int, beta as int)
                ==> (final(self).tt.lookup(old(pos).state.zobrist_hash, ply as int) matches Some(h) && h.score == res.score
                && h.depth == depth && h.bound == result_bound(res.score as int, alpha0 as int, beta as int) && same_squares(h.mv, m))
                || final(self).tt.refuses_store(old(pos).state.zobrist_hash, depth))),
            old(self).tt.lookup(old(pos).state.zobrist_hash, ply as int) matches Some(h) ==> (depth > 0
                && cutoff_hit(h, depth, alpha0 as int, beta as int) ==> (r matches Some(res) ==> res.best_move == Some(h.mv)
                && res.score == h.score)),
            old(self).tt.keeps_nothing() ==> (r matches Some(res) ==> (depth > 0 && ply + 1 < MAX_PLY && (exists|m: Move|
                #[trigger] legal_at(
                    old(pos).mg(),
                    old(pos).board(),
                    node_state(old(pos).state.active_side, old(pos).state.castling.rights, old(pos).state.en_passant),
                    m,
                )) ==> res.best_move is Some)),
        decreases depth,
    {
        let ghost p0 = *pos;
        let ghost keeps_nothing = self.tt.keeps_nothing();
        let ghost mg0 = p0.mg();
        let ghost b0 = p0.board();
        let ghost side0 = p0.state.active_side;
        let ghost rights0 = p0.state.castling.rights;
        let ghost ep0 = p0.state.en_passant;
        let ghost st0 = node_state(side0, rights0, ep0);
        let mut alpha = alpha0;
        pv.start_negamax(ply);
        if *nodes_searched < u64::MAX {
            *nodes_searched = *nodes_searched + 1;
        }
        if self.check_in(depth + ply as u8, *nodes_searched, host) {
            return None;
        }
        if depth == 0 {
            let e = pos.evaluate();
            proof {
                pos.lemma_kept_scores_are_fresh();
                reveal(negamax_value);
                assert(e == eval_at(b0, side0));
            }
            return Some(NegamaxResult { best_move: None, score: clamp_eval(e) });
        }
        let zobrist = pos.get_zobrist();
        let mut tt_move: Option<Move> = None;
        if let Some(tt_hit) = self.tt.fetch(zobrist, ply) {
            tt_move = Some(tt_hit.mv);
            if tt_hit.depth >= depth {
                match tt_hit.bound {
                    ScoreBound::Exact => {
                        return Some(NegamaxResult { best_move: tt_move, score: tt_hit.score });
                    },
                    ScoreBound::Lower => {
                        if tt_hit.score >= beta {
                            return Some(NegamaxResult { best_move: tt_move, score: tt_hit.score });
                        }
                    },
                    ScoreBound::Upper => {
                        if tt_hit.score <= alpha {
                            return Some(NegamaxResult { best_move: tt_move, score: tt_hit.score });
                        }
                    },
                }
            }
        }
        if ply + 1 >= MAX_PLY {
            let legal = pos.legal_moves();
            if legal.len() == 0 {
                proof {
                    reveal(negamax_value);
                    assert forall|m: Move| !#[trigger] legal_at(mg0, b0, st0, m) by {
                        if legal_at(mg0, b0, st0, m) {
                            lemma_legal_at_node(mg0, b0, p0.state, m);
                            reveal(legal_at);
                            assert(legal@.contains(m));
                        }
                    }
                }
                if pos.in_check() {
                    return Some(NegamaxResult { best_move: None, score: -MATE + ply as Score });
                } else {
                    return Some(NegamaxResult { best_move: None, score: 0 });
                }
            }
            let e = pos.evaluate();
            proof {
                assert(legal@.contains(legal[0]));
                lemma_legal_at_node(mg0, b0, p0.state, legal[0]);
                reveal(legal_at);
                assert(legal_at(mg0, b0, st0, legal[0]));
                pos.lemma_kept_scores_are_fresh();
                reveal(negamax_value);
                assert(e == eval_at(b0, side0));
            }
            return Some(NegamaxResult { best_move: None, score: clamp_eval(e) });
        }
        let starting_alpha = alpha;
        let mut best_score: Score = i32::MIN;
        let mut best_move: Option<Move> = None;
        proof {
            pos.lemma_wf_bb_ok();
        }
        let mut moves = self.movegen.pseudo_legal_moves(pos);
        let ghost generated = moves@;
        if let Some(m) = tt_move {
            move_to_front(&mut moves, m);
        }
        proof {
            assert forall|j: int| 0 <= j < moves.len() implies crate::movegen::pseudo_move(&p0, #[trigger] moves[j]) by {
                assert(generated.contains(moves@[j]));
                let k = choose|k: int| 0 <= k < generated.len() && generated[k] == moves@[j];
                assert(crate::movegen::pseudo_move(&p0, generated[k]));
            }
            if keeps_nothing {
                assert(tt_move is None);
                assert forall|j: int| 0 <= j < moves.len() implies crate::movegen::pseudo_move(&p0, #[trigger] moves[j]) by {
                }
                assert forall|m: Move| #[trigger] legal_at(mg0, b0, st0, m) implies moves@.contains(m) by {
                    lemma_legal_at_node(mg0, b0, p0.state, m);
                    reveal(legal_at);
                    assert(crate::movegen::pseudo_move(&p0, m));
                }
            }
        }
        let mut i: usize = 0;
        while i < moves.len()
            invariant_except_break
                alpha < beta,
            invariant
                self.wf(),
                self.movegen == old(self).movegen,
                stats_after(old(self).events@, self.events@),
                self.kept_from == old(self).kept_from,
                prefix_of(old(self).polls@, self.polls@),
                prefix_of(old(self).readings@, self.readings@),
                self.stop ==> old(self).stop || stop_polled(self.polls@, old(self).polls@.len() as int),
                pos.wf(),
                pos.same_as(&p0),
                p0 == *old(pos),
                p0.wf(),
                pv.wf(),
                forall|j: int| 0 <= j < moves.len() ==> crate::movegen::pseudo_move(&p0, #[trigger] moves[j]),
                best_move matches Some(m) ==> p0.legal_move(m),
                ply + 1 < MAX_PLY,
                depth > 0,
                depth as int + ply <= 255,
                p0.num_made() + MAX_PLY - ply + 2 < MAX_MOVES,
                -SCORE_LIMIT <= alpha <= SCORE_LIMIT,
                -SCORE_LIMIT <= beta <= SCORE_LIMIT,
                best_move is None ==> best_score == i32::MIN,
                best_move is Some ==> -SCORE_LIMIT <= best_score <= SCORE_LIMIT,
                i <= moves.len(),
                forall|j: int| 0 <= j < moves.len() ==> crate::board::move_fits(p0.board(), p0.state, #[trigger] moves[j]),
                alpha0 < beta,
                keeps_nothing == old(self).tt.keeps_nothing(),
                self.tt.keeps_nothing() == keeps_nothing,
                mg0 == p0.mg() && b0 == p0.board() && side0 == p0.state.active_side,
                rights0 == p0.state.castling.rights && ep0 == p0.state.en_passant,
                st0 == node_state(side0, rights0, ep0),
                alpha == (if best_move is Some && best_score > alpha0 { best_score } else { alpha0 }),
                best_move is Some ==> best_score > i32::MIN,
                keeps_nothing && best_score < beta ==> forall|j: int| 0 <= j < i && #[trigger] legal_at(mg0, b0, st0, moves[j])
                    ==> move_value(mg0, b0, side0, rights0, ep0, depth as nat, ply as nat, moves[j]) <= best_score,
                keeps_nothing && best_move is Some && alpha0 < best_score < beta ==> exists|j: int| 0 <= j < i
                    && #[trigger] legal_at(mg0, b0, st0, moves[j])
                    && move_value(mg0, b0, side0, rights0, ep0, depth as nat, ply as nat, moves[j]) == best_score,
                keeps_nothing && best_score >= beta ==> exists|j: int| 0 <= j < i && #[trigger] legal_at(mg0, b0, st0, moves[j])
                    && move_value(mg0, b0, side0, rights0, ep0, depth as nat, ply as nat, moves[j]) >= best_score,
                keeps_nothing && best_move is None ==> forall|j: int| 0 <= j < i ==> !#[trigger] legal_at(mg0, b0, st0, moves[j]),
                keeps_nothing && best_move is Some ==> exists|j: int| 0 <= j < i && #[trigger] legal_at(mg0, b0, st0, moves[j]),
                keeps_nothing ==> (best_move matches Some(m) ==> legal_at(mg0, b0, st0, m) && fail_soft(
                    best_score as int,
                    move_value(mg0, b0, side0, rights0, ep0, depth as nat, ply as nat, m),
                    alpha0 as int,
                    beta as int,
                )),
                keeps_nothing ==> forall|j: int| 0 <= j < moves.len() ==> crate::movegen::pseudo_move(&p0, #[trigger] moves[j]),
                keeps_nothing ==> forall|m: Move| #[trigger] legal_at(mg0, b0, st0, m) ==> moves@.contains(m),
            ensures
                (i >= moves.len() && alpha < beta) || best_score >= beta,
            decreases moves.len() - i,
        {
            let cm = moves[i];
            proof {
                assert(crate::board::move_fits(p0.board(), p0.state, moves[i as int]));
            }
            let ghost ci = i as int;
            let ghost best_old = best_score;
            let ghost alpha_old = alpha;
            let ghost had_best = best_move is Some;
            i = i + 1;
            let ghost before = *pos;
            match pos.make_move(cm) {
                Err(_) => {
                    proof {
                        if keeps_nothing {
                            lemma_legal_at_node(mg0, b0, p0.state, cm);
                            reveal(legal_at);
                            assert(!legal_at(mg0, b0, st0, moves[ci]));
                            assert forall|j: int| 0 <= j < i && #[trigger] legal_at(mg0, b0, st0, moves[j]) implies j < ci by {}
                        }
                    }
                    continue;
                },
                Ok(()) => {},
            }
            proof {
                if keeps_nothing {
                    lemma_legal_at_node(mg0, b0, p0.state, cm);
                    reveal(legal_at);
                    assert(legal_at(mg0, b0, st0, moves[ci]));
                }
            }
            let ghost mid = *pos;
            let ghost events_before = self.events@;
            let ghost polls_before = self.polls@;
            let ghost readings_before = self.readings@;
            let ghost stop_before = self.stop;
            let subsearch = self.negamax(pos, depth - 1, ply + 1, -beta, -alpha, nodes_searched, pv, host);
            let ghost after_search = *pos;
            pos.unmake_move();
            proof {
                lemma_stats_after_trans(old(self).events@, events_before, self.events@);
                lemma_prefix_trans(old(self).polls@, polls_before, self.polls@);
                lemma_prefix_trans(old(self).readings@, readings_before, self.readings@);
                lemma_log_from_earlier(
                    self.polls@,
                    self.readings@,
                    self.time_cutoffs,
                    old(self).readings@.len() as int,
                    readings_before.len() as int,
                );
                lemma_log_from_earlier(
                    self.polls@,
                    self.readings@,
                    self.time_cutoffs,
                    old(self).polls@.len() as int,
                    polls_before.len() as int,
                );
                if stop_before && !old(self).stop {
                    lemma_stop_polled_grows(polls_before, self.polls@, old(self).polls@.len() as int);
                }
                assert(before.same_as(&p0));
                assert(move_fits_pos(before, cm));
                lemma_undone_same_as(after_search, mid, *pos);
                lemma_after_move_from_same_as(before, p0, cm, mid);
                crate::board::lemma_make_unmake_round_trip(p0, cm, mid, *pos);
                assert(pos.same_as(&p0));
            }
            let sub = match subsearch {
                None => {
                    return None;
                },
                Some(s) => s,
            };
            let score = -sub.score;
            let ghost f = move_value(mg0, b0, side0, rights0, ep0, depth as nat, ply as nat, cm);
            proof {
                if keeps_nothing {
                    reveal(move_value);
                    assert(f == -negamax_value(mid.mg(), mid.board(), mid.state.active_side, mid.state.castling.rights,
                        mid.state.en_passant, (depth - 1) as u8 as nat, (ply + 1) as nat));
                    assert(score <= alpha_old ==> f <= score);
                    assert(score >= beta ==> f >= score);
                    assert(alpha_old < score < beta ==> f == score);
                }
            }
            if score > best_score {
                best_score = score;
                best_move = Some(cm);
            }
            if best_score > alpha {
                alpha = best_score;
                if let Some(b) = best_move {
                    pv.new_best_move(b, ply);
                }
            }
            proof {
                if keeps_nothing {
                    assert(moves[ci] == cm);
                    assert(legal_at(mg0, b0, st0, moves[ci]));
                    if best_score < beta {
                        assert forall|j: int| 0 <= j < i && #[trigger] legal_at(mg0, b0, st0, moves[j])
                            implies move_value(mg0, b0, side0, rights0, ep0, depth as nat, ply as nat, moves[j]) <= best_score by {
                            if j < ci {
                                assert(best_old <= best_score);
                            }
                        }
                    }
                    if best_score != best_old {
                        if alpha0 < best_score < beta {
                            assert(move_value(mg0, b0, side0, rights0, ep0, depth as nat, ply as nat, moves[ci]) == best_score);
                        }
                        if best_score >= beta {
                            assert(move_value(mg0, b0, side0, rights0, ep0, depth as nat, ply as nat, moves[ci]) >= best_score);
                        }
                    }
                }
            }
            if alpha >= beta {
                break;
            }
        }
        proof {
            if keeps_nothing {
                reveal(negamax_value);
                if best_move is None {
                    assert forall|m: Move| !#[trigger] legal_at(mg0, b0, st0, m) by {
                        if legal_at(mg0, b0, st0, m) {
                            assert(moves@.contains(m));
                            let j = choose|j: int| 0 <= j < moves.len() && moves@[j] == m;
                            assert(moves[j] == m);
                        }
                    }
                } else {
                    lemma_value_is_best(moves@, mg0, b0, side0, rights0, ep0, depth as nat, ply as nat);
                    let v = negamax_value(mg0, b0, side0, rights0, ep0, depth as nat, ply as nat);
                    let mstar = choose|m: Move| #[trigger] legal_at(mg0, b0, st0, m)
                        && v == move_value(mg0, b0, side0, rights0, ep0, depth as nat, ply as nat, m);
                    if best_score < beta {
                        assert(moves@.contains(mstar));
                        let j = choose|j: int| 0 <= j < moves.len() && moves@[j] == mstar;
                        assert(moves[j] == mstar);
                        assert(v <= best_score);
                        if alpha0 < best_score {
                            let k = choose|k: int| 0 <= k < i && #[trigger] legal_at(mg0, b0, st0, moves[k])
                                && move_value(mg0, b0, side0, rights0, ep0, depth as nat, ply as nat, moves[k]) == best_score;
                            assert(v >= best_score);
                        }
                    } else {
                        let k = choose|k: int| 0 <= k < i && #[trigger] legal_at(mg0, b0, st0, moves[k])
                            && move_value(mg0, b0, side0, rights0, ep0, depth as nat, ply as nat, moves[k]) >= best_score;
                        assert(v >= best_score);
                    }
                }
            }
        }
        match best_move {
            None => {
                if pos.in_check() {
                    Some(NegamaxResult { best_move: None, score: -MATE + ply as Score })
                } else {
                    Some(NegamaxResult { best_move: None, score: 0 })
                }
            },
            Some(b) => {
                let bound = if best_score >= beta {
                    ScoreBound::Lower
                } else if best_score > starting_alpha {
                    ScoreBound::Exact
                } else {
                    ScoreBound::Upper
                };
                let stored = table_score(best_score, ply as i32);
                if -32767 <= stored && stored <= 32767 {
                    self.tt.store(zobrist, b, best_score, bound, depth, ply as i32);
                }
                Some(NegamaxResult { best_move: best_move, score: best_score })
            },
        }
    }

    /// Iterative deepening from depth 0 up to the depth limit, until stopped
    /// or out of time; each completed iteration is published, and the result
    /// is the last one's (every depth below the limit is completed unless a
    /// stop came from the command queue, or a clock reading taken during the
    /// search passed the soft deadline before an iteration or the hard one
    /// within it). With no
    /// iteration completed the first legal move is chosen. The position is
    /// left as it was. The move is legal, or the move the table held for the
    /// position when the kept iteration began. The events published are one
    /// report per completed iteration, at depths 0, 1, 2, ... in order, with
    /// progress counters between them. With a table that keeps nothing, the
    /// move is legal and the score is the negamax value of a completed depth
    /// (a bound on it when it is a mate score at the edge of the window), and
    /// so is each report's score at its depth.
    pub fn search<H: SearchHost>(&mut self, pos: &mut Position, limits: &SearchLimits, host: &mut H) -> (r: SearchResult)
        requires
            old(self).wf(),
            old(pos).wf(),
            old(pos).num_made() + 64 + TT_WALK_MAX_LENGTH + 4 < MAX_MOVES,
        ensures
            final(self).wf(),
            final(self).movegen == old(self).movegen,
            final(pos).wf(),
            final(pos).same_as(old(pos)),
            extends(old(self).events@, final(self).events@),
            prefix_of(old(self).polls@, final(self).polls@),
            prefix_of(old(self).readings@, final(self).readings@),
            final(self).stop ==> old(self).stop || stop_polled(final(self).polls@, old(self).polls@.len() as int),
            old(self).tt.keeps_nothing() ==> reports_exact(final(self).events@, old(self).events@.len() as int, *old(pos)),
            -SCORE_LIMIT <= r.score <= SCORE_LIMIT,
            r.pv.len() <= 64 + TT_WALK_MAX_LENGTH,
            r.best_move is None ==> !exists|m: Move| #[trigger] old(pos).legal_move(m),
            exists|ps: Seq<Position>| ps.len() == r.pv@.len() + 1 && ps[0].same_as(old(pos)) && #[trigger] legal_line(ps, r.pv@),
            old(self).tt.keeps_nothing() ==> (r.best_move matches Some(m) ==> old(pos).legal_move(m)),
            r.best_move matches Some(m) ==> old(pos).legal_move(m) || final(self).kept_from@.holds_move(
                old(pos).state.zobrist_hash,
                m,
            ),
            (exists|m: Move| #[trigger] old(pos).legal_move(m)) ==> r.best_move is Some,
            exists|n: nat| #[trigger] iterations_published(final(self).events@.skip(old(self).events@.len() as int), n)
                && deepening_result(
                *old(pos),
                old(self).tt.keeps_nothing(),
                search_depth(*limits),
                n,
                final(self).events@.skip(old(self).events@.len() as int),
                final(self).stop,
                soft_passed(final(self).time_cutoffs, final(self).readings@, old(self).readings@.len() as int)
                    || hard_passed(final(self).time_cutoffs, final(self).readings@, old(self).readings@.len() as int),
                r,
            ),
    {
        let ghost p0 = *pos;
        let ghost keeps_nothing = self.tt.keeps_nothing();
        let ghost mg0 = p0.mg();
        let ghost b0 = p0.board();
        let ghost side0 = p0.state.active_side;
        let ghost rights0 = p0.state.castling.rights;
        let ghost ep0 = p0.state.en_passant;
        let ghost st0 = node_state(side0, rights0, ep0);
        let max_depth: u8 = match limits.depth {
            Some(d) => d,
            None => 255,
        };
        let now = host.now_ns();
        proof {
            self.readings@ = self.readings@.push(now);
        }
        self.time_cutoffs = TimeCutoffs::from_search_limit(limits, pos.side_to_move(), now);
        self.tt.new_search();
        let mut pv_triangle = PVTriangle::new();
        let mut score: Score = 0;
        let mut best_move: Option<Move> = None;
        let mut nodes_searched: u64 = 0;
        let mut depth: u8 = 0;
        proof {
            assert(self.events@.take(self.events@.len() as int) =~= self.events@);
            assert(self.events@.skip(self.events@.len() as int) =~= Seq::<EngineEvent>::empty());
        }
        while depth < max_depth
            invariant
                self.wf(),
                self.movegen == old(self).movegen,
                best_move matches Some(m) ==> p0.legal_move(m) || self.kept_from@.holds_move(p0.state.zobrist_hash, m),
                extends(old(self).events@, self.events@),
                prefix_of(old(self).polls@, self.polls@),
                prefix_of(old(self).readings@, self.readings@),
                self.stop ==> old(self).stop || stop_polled(self.polls@, old(self).polls@.len() as int),
                iterations_published(self.events@.skip(old(self).events@.len() as int), depth as nat),
                keeps_nothing ==> reports_exact(self.events@, old(self).events@.len() as int, p0),
                pos.wf(),
                pos.same_as(&p0),
                p0.num_made() + 64 + TT_WALK_MAX_LENGTH + 4 < MAX_MOVES,
                pv_triangle.wf(),
                -SCORE_LIMIT <= score <= SCORE_LIMIT,
                keeps_nothing == old(self).tt.keeps_nothing(),
                self.tt.keeps_nothing() == keeps_nothing,
                mg0 == p0.mg() && b0 == p0.board() && side0 == p0.state.active_side,
                rights0 == p0.state.castling.rights && ep0 == p0.state.en_passant,
                st0 == node_state(side0, rights0, ep0),
                keeps_nothing ==> (best_move matches Some(m) ==> legal_at(mg0, b0, st0, m)),
                depth <= max_depth,
                max_depth == search_depth(*limits),
                depth == 0 ==> score == 0 && best_move is None,
                depth > 0 ==> (last_report(self.events@.skip(old(self).events@.len() as int)) matches Some(res)
                    && res.score == score && res.best_move == best_move),
                keeps_nothing && depth > 0 ==> iteration_exact(p0, (depth - 1) as nat, score, best_move),
            ensures
                depth == max_depth || self.stop || soft_passed(self.time_cutoffs, self.readings@, old(self).readings@.len() as int)
                    || hard_passed(self.time_cutoffs, self.readings@, old(self).readings@.len() as int),
            decreases max_depth - depth,
        {
            if let Some(c) = self.time_cutoffs {
                let now = host.now_ns();
                proof {
                    let readings0 = self.readings@;
                    self.readings@ = self.readings@.push(now);
                    lemma_prefix_trans(old(self).readings@, readings0, self.readings@);
                    assert(self.readings@[readings0.len() as int] == now);
                }
                if c.exceeded_soft(now) {
                    break;
                }
            }
            let ghost events_before = self.events@;
            let ghost table_before = self.tt;
            let ghost polls_before = self.polls@;
            let ghost readings_before = self.readings@;
            let ghost stop_before = self.stop;
            let searched = self.negamax(pos, depth, 0, -MATE, MATE, &mut nodes_searched, &mut pv_triangle, host);
            proof {
                lemma_prefix_trans(old(self).polls@, polls_before, self.polls@);
                lemma_prefix_trans(old(self).readings@, readings_before, self.readings@);
                lemma_log_from_earlier(
                    self.polls@,
                    self.readings@,
                    self.time_cutoffs,
                    old(self).readings@.len() as int,
                    readings_before.len() as int,
                );
                lemma_log_from_earlier(
                    self.polls@,
                    self.readings@,
                    self.time_cutoffs,
                    old(self).polls@.len() as int,
                    polls_before.len() as int,
                );
                if stop_before && !old(self).stop {
                    lemma_stop_polled_grows(polls_before, self.polls@, old(self).polls@.len() as int);
                }
                lemma_published_stats(old(self).events@, events_before, self.events@, depth as nat);
                if keeps_nothing {
                    let e1 = self.events@;
                    assert forall|i: int| old(self).events@.len() <= i < e1.len() && !(#[trigger] e1[i] is Stats)
                        implies i < events_before.len() && e1[i] == events_before[i] by {
                        if i < events_before.len() {
                            assert(e1.take(events_before.len() as int)[i] == e1[i]);
                        }
                    }
                }
            }
            match searched {
                Some(result) => {
                    score = result.score;
                    best_move = result.best_move;
                    proof {
                        self.kept_from@ = table_before;
                    }
                    proof {
                        if keeps_nothing {
                            let v = negamax_value(mg0, b0, side0, rights0, ep0, depth as nat, 0);
                            assert(fail_soft(score as int, v, -MATE as int, MATE as int));
                            assert(fail_soft(score as int, v, -MATE as int, MATE as int)
                                && (best_move matches Some(m) ==> depth > 0 && fail_soft(
                                    score as int,
                                    move_value(mg0, b0, side0, rights0, ep0, depth as nat, 0, m),
                                    -MATE as int,
                                    MATE as int,
                                )) && (depth > 0 && (exists|m: Move| #![trigger legal_at(mg0, b0, node_state(side0, rights0, ep0), m)] legal_at(mg0, b0, node_state(side0, rights0, ep0), m)) ==> best_move is Some));
                        }
                    }
                    let line = pv_triangle.get_pv(pos, &self.tt);
                    let event = EngineEvent::Info {
                        depth,
                        result: SearchResult { best_move, score, pv: line, nodes: nodes_searched },
                    };
                    proof {
                        let e0 = old(self).events@;
                        let before = self.events@;
                        self.events@ = self.events@.push(event);
                        assert(self.events@.take(e0.len() as int) =~= before.take(e0.len() as int));
                        assert(self.events@[before.len() as int] == event);
                        assert(self.events@.skip(e0.len() as int).drop_last() =~= before.skip(e0.len() as int));
                        assert(self.events@.skip(e0.len() as int).last() == event);
                    }
                    host.emit(event);
                },
                None => {
                    break;
                },
            }
            depth = depth + 1;
        }
        if best_move.is_none() {
            let ghost p1 = *pos;
            let legal = pos.legal_moves();
            if legal.len() > 0 {
                best_move = Some(legal[0]);
                proof {
                    assert(legal@.contains(legal[0]));
                    assert(p1.legal_move(legal[0]));
                    lemma_legal_at_node(mg0, b0, p0.state, legal[0]);
                    reveal(legal_at);
                }
            } else {
                proof {
                    assert forall|m: Move| !p0.legal_move(m) by {
                        if p0.legal_move(m) {
                            assert(p1.legal_move(m));
                            assert(legal@.contains(m));
                        }
                    }
                }
            }
        }
        let ghost p2 = *pos;
        let line = pv_triangle.get_pv(pos, &self.tt);
        proof {
            if keeps_nothing {
                if best_move is Some {
                    let m = best_move->0;
                    lemma_legal_at_node(mg0, b0, p0.state, m);
                    reveal(legal_at);
                    assert(p0.legal_move(m));
                }
            }
            let ps = choose|ps: Seq<Position>| ps.len() == line@.len() + 1 && ps[0] == p2 && #[trigger] legal_line(ps, line@);
            assert(ps[0].same_as(&p0));
        }
        SearchResult { best_move, score, pv: line, nodes: nodes_searched }
    }
}

/// Moves `m`, if present, to the front of the list, swapping it with the
/// first move.
fn move_to_front(moves: &mut Vec<Move>, m: Move)
    ensures
        final(moves)@.len() == old(moves)@.len(),
        forall|j: int| 0 <= j < final(moves)@.len() ==> old(moves)@.contains(#[trigger] final(moves)@[j]),
        !old(moves)@.contains(m) ==> final(moves)@ == old(moves)@,
        forall|i: int| 0 <= i < old(moves)@.len() && old(moves)@[i] == m && (forall|j: int| 0 <= j < i ==> old(moves)@[j] != m)
            ==> final(moves)@ == #[trigger] old(moves)@.update(0, m).update(i, old(moves)@[0]),
{
    let mut i: usize = 0;
    while i < moves.len()
        invariant
            moves@ == old(moves)@,
            i <= moves@.len(),
            forall|j: int| 0 <= j < i ==> old(moves)@[j] != m,
        decreases moves@.len() - i,
    {
        if moves[i] == m {
            let first = moves[0];
            let found = moves[i];
            moves.set(0, found);
            moves.set(i, first);
            proof {
                assert(moves@ =~= old(moves)@.update(0, m).update(i as int, old(moves)@[0]));
                assert forall|k: int| 0 <= k < old(moves)@.len() && old(moves)@[k] == m
                    && (forall|j: int| 0 <= j < k ==> old(moves)@[j] != m) implies moves@ == #[trigger] old(moves)@.update(0, m).update(k, old(moves)@[0]) by {
                    if k < i {
                    } else if k > i {
                        assert(old(moves)@[i as int] == m);
                    }
                }
                assert forall|j: int| 0 <= j < moves@.len() implies old(moves)@.contains(#[trigger] moves@[j]) by {
                    if j == 0 {
                        assert(old(moves)@[i as int] == moves@[j]);
                    } else if j == i {
                        assert(old(moves)@[0] == moves@[j]);
                    } else {
                        assert(old(moves)@[j] == moves@[j]);
                    }
                }
            }
            return;
        }
        i = i + 1;
    }
    proof {
        assert forall|j: int| 0 <= j < moves@.len() implies old(moves)@.contains(#[trigger] moves@[j]) by {
            assert(old(moves)@[j] == moves@[j]);
        }
        assert(!old(moves)@.contains(m));
    }
}

} // verus!
