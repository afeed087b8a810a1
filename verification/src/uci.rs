//! The UCI protocol as the engine speaks it: reading command lines, moves in
//! long algebraic notation and the limits of a `go` command, and writing the
//! lines that report a search.

use vstd::prelude::*;
use crate::basetypes::{InputMove, Move, PieceKind, Square, file_char, parse_square_name, rank_char, square_name, uci_name};
use crate::fen::{decimal_text, parse_number, parse_uint, push_decimal};
use crate::board::{MAX_MOVES, Position};
use crate::fen::{FenError, fen_error};
use crate::search::{EngineEvent, MoveTrail, SearchLimits, SearchResult, legal_line, step_ok};
use crate::text::{str_chars, string_from_chars};

verus! {

/// What handling one line of input leads to.
#[derive(Debug, PartialEq, Eq)]
pub enum CommandOutcome {
    /// Lines to answer with at once (possibly none).
    Continue(Vec<String>),
    Quit,
}

/// The piece a promotion suffix letter names.
pub open spec fn promotion_of_char(c: char) -> Option<PieceKind> {
    if c == 'q' {
        Some(PieceKind::Queen)
    } else if c == 'r' {
        Some(PieceKind::Rook)
    } else if c == 'b' {
        Some(PieceKind::Bishop)
    } else if c == 'n' {
        Some(PieceKind::Knight)
    } else {
        None
    }
}

/// The squares and promotion a move in long algebraic notation names: two
/// square names, then an optional promotion letter.
pub open spec fn uci_move_of(s: Seq<char>) -> Option<(int, int, Option<PieceKind>)> {
    if (s.len() == 4 || s.len() == 5) && parse_square_name(s.subrange(0, 2)) is Some && parse_square_name(
        s.subrange(2, 4),
    ) is Some && (s.len() == 4 || promotion_of_char(s[4]) is Some) {
        Some(
            (
                parse_square_name(s.subrange(0, 2))->0,
                parse_square_name(s.subrange(2, 4))->0,
                if s.len() == 5 {
                    promotion_of_char(s[4])
                } else {
                    None
                },
            ),
        )
    } else {
        None
    }
}

/// Reads a move in long algebraic notation, such as "e2e4" or "e7e8q".
pub fn parse_uci_move(s: &str) -> (r: Option<InputMove>)
    ensures
        match uci_move_of(s@) {
            Some((f, t, p)) => r matches Some(m) && m.from.idx() == f && m.to.idx() == t && m.promotion == p,
            None => r is None,
        },
{
    let chars = str_chars(s);
    if chars.len() != 4 && chars.len() != 5 {
        return None;
    }
    let mut a: Vec<char> = Vec::new();
    a.push(chars[0]);
    a.push(chars[1]);
    let mut b: Vec<char> = Vec::new();
    b.push(chars[2]);
    b.push(chars[3]);
    proof {
        assert(a@ =~= s@.subrange(0, 2));
        assert(b@ =~= s@.subrange(2, 4));
    }
    let from = match Square::from_chars(&a) {
        Ok(sq) => sq,
        Err(_) => return None,
    };
    let to = match Square::from_chars(&b) {
        Ok(sq) => sq,
        Err(_) => return None,
    };
    let promotion = if chars.len() == 5 {
        match chars[4] {
            'q' => Some(PieceKind::Queen),
            'r' => Some(PieceKind::Rook),
            'b' => Some(PieceKind::Bishop),
            'n' => Some(PieceKind::Knight),
            _ => return None,
        }
    } else {
        None
    };
    Some(InputMove { from, to, promotion })
}

/// The whitespace that separates tokens: the characters with Unicode's
/// White_Space property (tab to carriage return, space, next line, no-break
/// space, ogham space mark, the spaces from en quad to hair space, line and
/// paragraph separators, narrow no-break space, medium mathematical space and
/// ideographic space).
pub open spec fn is_space(c: char) -> bool {
    ||| '\u{9}' <= c <= '\u{D}'
    ||| c == ' '
    ||| c == '\u{85}'
    ||| c == '\u{A0}'
    ||| c == '\u{1680}'
    ||| '\u{2000}' <= c <= '\u{200A}'
    ||| c == '\u{2028}'
    ||| c == '\u{2029}'
    ||| c == '\u{202F}'
    ||| c == '\u{205F}'
    ||| c == '\u{3000}'
}

/// Whether `c` separates tokens.
pub fn is_white_space(c: char) -> (r: bool)
    ensures
        r == is_space(c),
{
    ('\u{9}' <= c && c <= '\u{D}') || c == ' ' || c == '\u{85}' || c == '\u{A0}' || c == '\u{1680}'
        || ('\u{2000}' <= c && c <= '\u{200A}') || c == '\u{2028}' || c == '\u{2029}' || c == '\u{202F}'
        || c == '\u{205F}' || c == '\u{3000}'
}

/// The tokens of `s` (maximal runs of non-whitespace), and whether `s` ends
/// inside a token.
pub open spec fn tokens_of(s: Seq<char>) -> (Seq<Seq<char>>, bool)
    decreases s.len(),
{
    if s.len() == 0 {
        (Seq::<Seq<char>>::empty(), false)
    } else {
        let (w, open) = tokens_of(s.drop_last());
        let c = s.last();
        if is_space(c) {
            (w, false)
        } else if open && w.len() > 0 {
            (w.update(w.len() - 1, w.last().push(c)), true)
        } else {
            (w.push(seq![c]), true)
        }
    }
}

/// The whitespace-separated tokens of `s`.
fn split_tokens(s: &Vec<char>) -> (r: Vec<Vec<char>>)
    ensures
        r@.len() == tokens_of(s@).0.len(),
        forall|i: int| 0 <= i < r@.len() ==> (#[trigger] r@[i])@ == tokens_of(s@).0[i],
{
    let mut tokens: Vec<Vec<char>> = Vec::new();
    let mut cur: Vec<char> = Vec::new();
    let mut open = false;
    let mut i: usize = 0;
    proof {
        assert(s@.take(0) =~= Seq::<char>::empty());
    }
    while i < s.len()
        invariant
            i <= s.len(),
            open == tokens_of(s@.take(i as int)).1,
            !open ==> cur@.len() == 0,
            open ==> tokens_of(s@.take(i as int)).0.len() > 0 && tokens.len() + 1 == tokens_of(s@.take(i as int)).0.len()
                && cur@ == tokens_of(s@.take(i as int)).0.last(),
            !open ==> tokens.len() == tokens_of(s@.take(i as int)).0.len(),
            forall|j: int| 0 <= j < tokens.len() ==> (#[trigger] tokens@[j])@ == tokens_of(s@.take(i as int)).0[j],
        decreases s.len() - i,
    {
        let c = s[i];
        proof {
            assert(s@.take(i as int + 1).drop_last() =~= s@.take(i as int));
            assert(s@.take(i as int + 1).last() == c);
        }
        if is_white_space(c) {
            if open {
                tokens.push(cur);
                cur = Vec::new();
                open = false;
            }
        } else {
            cur.push(c);
            proof {
                if !open {
                    assert(cur@ =~= seq![c]);
                }
            }
            open = true;
        }
        i = i + 1;
    }
    proof {
        assert(s@.take(s@.len() as int) =~= s@);
    }
    if open {
        tokens.push(cur);
    }
    tokens
}

/// The value a millisecond argument at `i` gives, if it is there and reads
/// as a number.
pub open spec fn ms_arg(ts: Seq<Seq<char>>, i: int) -> Option<u64> {
    if 0 <= i < ts.len() {
        match parse_uint(ts[i], u64::MAX as nat) {
            Some(v) => Some(v as u64),
            None => None,
        }
    } else {
        None
    }
}

/// The limits a `go` command's tokens from `i` on set over `l`: `depth`,
/// `movetime`, `wtime`, `btime`, `winc` and `binc` take the next token as
/// their value (`None` when it is missing or not a number); other tokens
/// are skipped.
pub open spec fn go_limits_from(ts: Seq<Seq<char>>, i: int, l: SearchLimits) -> SearchLimits
    decreases ts.len() + 1 - i,
{
    if i < 0 || i >= ts.len() {
        l
    } else {
        let t = ts[i];
        if t == seq!['d', 'e', 'p', 't', 'h'] {
            let d = if i + 1 < ts.len() {
                match parse_uint(ts[i + 1], 255) {
                    Some(v) => Some(v as u8),
                    None => None,
                }
            } else {
                None
            };
            go_limits_from(ts, i + 2, SearchLimits { depth: d, ..l })
        } else if t == seq!['m', 'o', 'v', 'e', 't', 'i', 'm', 'e'] {
            go_limits_from(ts, i + 2, SearchLimits { movetime: ms_arg(ts, i + 1), ..l })
        } else if t == seq!['w', 't', 'i', 'm', 'e'] {
            go_limits_from(ts, i + 2, SearchLimits { wtime: ms_arg(ts, i + 1), ..l })
        } else if t == seq!['b', 't', 'i', 'm', 'e'] {
            go_limits_from(ts, i + 2, SearchLimits { btime: ms_arg(ts, i + 1), ..l })
        } else if t == seq!['w', 'i', 'n', 'c'] {
            go_limits_from(ts, i + 2, SearchLimits { winc: ms_arg(ts, i + 1), ..l })
        } else if t == seq!['b', 'i', 'n', 'c'] {
            go_limits_from(ts, i + 2, SearchLimits { binc: ms_arg(ts, i + 1), ..l })
        } else {
            go_limits_from(ts, i + 1, l)
        }
    }
}

/// The limits with nothing set.
pub open spec fn no_limits() -> SearchLimits {
    SearchLimits { depth: None, movetime: None, wtime: None, btime: None, winc: None, binc: None, ponder: false }
}

fn chars_eq(a: &Vec<char>, b: &Vec<char>) -> (r: bool)
    ensures
        r == (a@ == b@),
{
    if a.len() != b.len() {
        return false;
    }
    let mut i: usize = 0;
    while i < a.len()
        invariant
            a@.len() == b@.len(),
            i <= a@.len(),
            forall|j: int| 0 <= j < i ==> a@[j] == b@[j],
        decreases a@.len() - i,
    {
        if a[i] != b[i] {
            return false;
        }
        i = i + 1;
    }
    assert(a@ =~= b@);
    true
}

fn word_depth() -> (r: Vec<char>)
    ensures
        r@ == seq!['d', 'e', 'p', 't', 'h'],
{
    let r = vec!['d', 'e', 'p', 't', 'h'];
    assert(r@ =~= seq!['d', 'e', 'p', 't', 'h']);
    r
}

fn word_movetime() -> (r: Vec<char>)
    ensures
        r@ == seq!['m', 'o', 'v', 'e', 't', 'i', 'm', 'e'],
{
    let r = vec!['m', 'o', 'v', 'e', 't', 'i', 'm', 'e'];
    assert(r@ =~= seq!['m', 'o', 'v', 'e', 't', 'i', 'm', 'e']);
    r
}

fn word_wtime() -> (r: Vec<char>)
    ensures
        r@ == seq!['w', 't', 'i', 'm', 'e'],
{
    let r = vec!['w', 't', 'i', 'm', 'e'];
    assert(r@ =~= seq!['w', 't', 'i', 'm', 'e']);
    r
}

fn word_btime() -> (r: Vec<char>)
    ensures
        r@ == seq!['b', 't', 'i', 'm', 'e'],
{
    let r = vec!['b', 't', 'i', 'm', 'e'];
    assert(r@ =~= seq!['b', 't', 'i', 'm', 'e']);
    r
}

fn word_winc() -> (r: Vec<char>)
    ensures
        r@ == seq!['w', 'i', 'n', 'c'],
{
    let r = vec!['w', 'i', 'n', 'c'];
    assert(r@ =~= seq!['w', 'i', 'n', 'c']);
    r
}

fn word_binc() -> (r: Vec<char>)
    ensures
        r@ == seq!['b', 'i', 'n', 'c'],
{
    let r = vec!['b', 'i', 'n', 'c'];
    assert(r@ =~= seq!['b', 'i', 'n', 'c']);
    r
}

fn ms_value(tokens: &Vec<Vec<char>>, i: usize) -> (r: Option<u64>)
    ensures
        r == ms_arg(tokens@.map_values(|t: Vec<char>| t@), i as int),
{
    let ghost ts = tokens@.map_values(|t: Vec<char>| t@);
    if i < tokens.len() {
        match parse_number(&tokens[i], u64::MAX) {
            Some(v) => Some(v),
            None => None,
        }
    } else {
        None
    }
}

/// Reads the arguments of a `go` command into search limits. Tokens the
/// engine does not act on (`ponder`, `infinite`, `nodes`, ...) are skipped.
pub fn parse_go_limits(args: &str) -> (r: SearchLimits)
    ensures
        r == go_limits_from(tokens_of(args@).0, 0, no_limits()),
{
    let chars = str_chars(args);
    let tokens = split_tokens(&chars);
    let ghost ts = tokens@.map_values(|t: Vec<char>| t@);
    proof {
        assert(ts =~= tokens_of(args@).0);
    }
    limits_from_tokens(&tokens, 0)
}

/// The limits the tokens from `start` on set, as [`go_limits_from`] reads them.
fn limits_from_tokens(tokens: &Vec<Vec<char>>, start: usize) -> (r: SearchLimits)
    ensures
        r == go_limits_from(tokens@.map_values(|t: Vec<char>| t@), start as int, no_limits()),
{
    let ghost ts = tokens@.map_values(|t: Vec<char>| t@);
    let mut limits = SearchLimits {
        depth: None,
        movetime: None,
        wtime: None,
        btime: None,
        winc: None,
        binc: None,
        ponder: false,
    };
    let mut i: usize = start;
    proof {
        if start >= tokens.len() {
            assert(go_limits_from(ts, start as int, limits) == limits);
        }
    }
    while i < tokens.len()
        invariant
            ts == tokens@.map_values(|t: Vec<char>| t@),
            go_limits_from(ts, i as int, limits) == go_limits_from(ts, start as int, no_limits()),
        decreases tokens.len() - i,
    {
        let t = &tokens[i];
        let ghost ii = i as int;
        let ghost li = limits;
        proof {
            assert(ts[i as int] == t@);
            if i + 1 < tokens.len() {
                assert(ts[i + 1] == tokens@[i + 1]@);
            }
            assert(go_limits_from(ts, ts.len() as int, li) == li);
        }
        if chars_eq(t, &word_depth()) {
            let d: Option<u8> = if i + 1 < tokens.len() {
                match parse_number(&tokens[i + 1], 255) {
                    Some(v) => Some(v as u8),
                    None => None,
                }
            } else {
                None
            };
            limits.depth = d;
            i = if i + 1 < tokens.len() { i + 2 } else { tokens.len() };
        } else if chars_eq(t, &word_movetime()) {
            limits.movetime = ms_value(&tokens, i + 1);
            i = if i + 1 < tokens.len() { i + 2 } else { tokens.len() };
        } else if chars_eq(t, &word_wtime()) {
            limits.wtime = ms_value(&tokens, i + 1);
            i = if i + 1 < tokens.len() { i + 2 } else { tokens.len() };
        } else if chars_eq(t, &word_btime()) {
            limits.btime = ms_value(&tokens, i + 1);
            i = if i + 1 < tokens.len() { i + 2 } else { tokens.len() };
        } else if chars_eq(t, &word_winc()) {
            limits.winc = ms_value(&tokens, i + 1);
            i = if i + 1 < tokens.len() { i + 2 } else { tokens.len() };
        } else if chars_eq(t, &word_binc()) {
            limits.binc = ms_value(&tokens, i + 1);
            i = if i + 1 < tokens.len() { i + 2 } else { tokens.len() };
        } else {
            i = i + 1;
        }
        proof {
            assert(go_limits_from(ts, ts.len() as int, limits) == limits);
            if i as int != ii + 1 {
                assert(go_limits_from(ts, ii + 2, limits) == go_limits_from(ts, i as int, limits));
            }
            assert(go_limits_from(ts, ii, li) == go_limits_from(ts, i as int, limits));
        }
    }
    limits
}

/// A move can be written in UCI notation: it promotes to no pawn or king.
pub open spec fn printable(m: Move) -> bool {
    m.promo() != Some(PieceKind::Pawn) && m.promo() != Some(PieceKind::King)
}

/// A move in UCI notation.
pub open spec fn move_text(m: Move) -> Seq<char> {
    uci_name(m.from_sq().idx(), m.to_sq().idx(), m.promo())
}

/// A signed integer in decimal, with a leading minus sign when negative.
pub open spec fn signed_text(v: int) -> Seq<char> {
    if v < 0 {
        seq!['-'] + decimal_text((-v) as nat)
    } else {
        decimal_text(v as nat)
    }
}

/// The time spent and the nodes per second, when the time is known; the
/// rate only once a millisecond has passed.
pub open spec fn timing_text(nodes: nat, elapsed_ms: Option<u128>) -> Seq<char> {
    match elapsed_ms {
        None => seq![],
        Some(ms) => " time "@ + decimal_text(ms as nat) + (if ms > 0 {
            " nps "@ + decimal_text(nodes * 1000 / (ms as nat))
        } else {
            seq![]
        }),
    }
}

/// Each move of the line, preceded by a space.
pub open spec fn line_text(pv: Seq<Move>) -> Seq<char>
    decreases pv.len(),
{
    if pv.len() == 0 {
        seq![]
    } else {
        line_text(pv.drop_last()) + " "@ + move_text(pv.last())
    }
}

/// The moves a report of `event` writes out are all printable.
pub open spec fn event_printable(event: EngineEvent) -> bool {
    match event {
        EngineEvent::Info { depth, result } => forall|i: int| 0 <= i < result.pv@.len() ==> #[trigger] printable(result.pv@[i]),
        EngineEvent::Stats { depth, nodes, hashfull, tbhits } => true,
        EngineEvent::BestMove(result) => match result.best_move {
            Some(m) => printable(m) && (result.pv@.len() > 1 ==> printable(result.pv@[1])),
            None => true,
        },
    }
}

/// The UCI line that reports `event`, `elapsed_ms` being the time since the
/// `go` that started the search, when known.
pub open spec fn event_text(event: EngineEvent, elapsed_ms: Option<u128>) -> Seq<char> {
    match event {
        EngineEvent::Info { depth, result } => "info depth "@ + decimal_text(depth as nat) + " score cp "@
            + signed_text(result.score as int) + " nodes "@ + decimal_text(result.nodes as nat)
            + timing_text(result.nodes as nat, elapsed_ms) + " tbhits 0"@ + (if result.pv@.len() > 0 {
            " pv"@ + line_text(result.pv@)
        } else {
            seq![]
        }),
        EngineEvent::Stats { depth, nodes, hashfull, tbhits } => "info depth "@ + decimal_text(depth as nat)
            + " nodes "@ + decimal_text(nodes as nat) + timing_text(nodes as nat, elapsed_ms) + " hashfull "@
            + decimal_text(hashfull as nat) + " tbhits "@ + decimal_text(tbhits as nat),
        EngineEvent::BestMove(result) => "bestmove "@ + match result.best_move {
            Some(m) => move_text(m),
            None => "0000"@,
        } + (if result.best_move is Some && result.pv@.len() > 1 {
            " ponder "@ + move_text(result.pv@[1])
        } else {
            seq![]
        }),
    }
}

/// Appends the characters of a string.
fn push_text(out: &mut Vec<char>, s: &str)
    ensures
        final(out)@ == old(out)@ + s@,
{
    let cs = str_chars(s);
    let mut i: usize = 0;
    while i < cs.len()
        invariant
            i <= cs@.len(),
            cs@ == s@,
            out@ == old(out)@ + cs@.subrange(0, i as int),
        decreases cs@.len() - i,
    {
        out.push(cs[i]);
        i = i + 1;
        assert(out@ =~= old(out)@ + cs@.subrange(0, i as int));
    }
    assert(cs@.subrange(0, cs@.len() as int) =~= cs@);
}

/// Appends a move in UCI notation.
fn push_move(out: &mut Vec<char>, m: &Move)
    requires
        printable(*m),
    ensures
        final(out)@ == old(out)@ + move_text(*m),
{
    let s = m.to_uci_string();
    push_text(out, s.as_str());
}

/// Appends the time and rate, as [`timing_text`] gives them.
fn push_timing(out: &mut Vec<char>, nodes: u64, elapsed_ms: Option<u128>)
    ensures
        final(out)@ == old(out)@ + timing_text(nodes as nat, elapsed_ms),
{
    if let Some(ms) = elapsed_ms {
        push_text(out, " time ");
        push_decimal(out, ms);
        if ms > 0 {
            push_text(out, " nps ");
            let nps = (nodes as u128) * 1000 / ms;
            push_decimal(out, nps);
        }
    }
    assert(out@ =~= old(out)@ + timing_text(nodes as nat, elapsed_ms));
}

/// Renders an [`EngineEvent`] as the UCI line it produces; `elapsed_ms` is
/// the time since the `go` that started the search, when known. The node
/// rate is worked out here from the nodes reported; no table-base is probed,
/// so an iteration reports `tbhits 0`, and the ponder move is the second
/// move of the principal variation.
pub fn format_event(event: &EngineEvent, elapsed_ms: Option<u128>) -> (r: String)
    requires
        event_printable(*event),
    ensures
        r@ == event_text(*event, elapsed_ms),
{
    let mut out: Vec<char> = Vec::new();
    match event {
        EngineEvent::Info { depth, result } => {
            push_text(&mut out, "info depth ");
            push_decimal(&mut out, *depth as u128);
            push_text(&mut out, " score cp ");
            if result.score < 0 {
                out.push('-');
                push_decimal(&mut out, (-(result.score as i64)) as u128);
            } else {
                push_decimal(&mut out, result.score as u128);
            }
            push_text(&mut out, " nodes ");
            push_decimal(&mut out, result.nodes as u128);
            push_timing(&mut out, result.nodes, elapsed_ms);
            push_text(&mut out, " tbhits 0");
            let ghost head = out@;
            if result.pv.len() > 0 {
                push_text(&mut out, " pv");
                let ghost start = out@;
                let mut i: usize = 0;
                while i < result.pv.len()
                    invariant
                        i <= result.pv@.len(),
                        forall|j: int| 0 <= j < result.pv@.len() ==> #[trigger] printable(result.pv@[j]),
                        out@ == start + line_text(result.pv@.subrange(0, i as int)),
                    decreases result.pv@.len() - i,
                {
                    let ghost before = out@;
                    push_text(&mut out, " ");
                    push_move(&mut out, &result.pv[i]);
                    proof {
                        let pre = result.pv@.subrange(0, i as int + 1);
                        assert(pre.drop_last() =~= result.pv@.subrange(0, i as int));
                        assert(pre.last() == result.pv@[i as int]);
                        assert(out@ =~= start + line_text(pre));
                    }
                    i = i + 1;
                }
                assert(result.pv@.subrange(0, result.pv@.len() as int) =~= result.pv@);
            }
        },
        EngineEvent::Stats { depth, nodes, hashfull, tbhits } => {
            push_text(&mut out, "info depth ");
            push_decimal(&mut out, *depth as u128);
            push_text(&mut out, " nodes ");
            push_decimal(&mut out, *nodes as u128);
            push_timing(&mut out, *nodes, elapsed_ms);
            push_text(&mut out, " hashfull ");
            push_decimal(&mut out, *hashfull as u128);
            push_text(&mut out, " tbhits ");
            push_decimal(&mut out, *tbhits as u128);
        },
        EngineEvent::BestMove(result) => {
            push_text(&mut out, "bestmove ");
            match result.best_move {
                Some(m) => push_move(&mut out, &m),
                None => push_text(&mut out, "0000"),
            }
            if result.best_move.is_some() && result.pv.len() > 1 {
                push_text(&mut out, " ponder ");
                push_move(&mut out, &result.pv[1]);
            }
        },
    }
    assert(out@ =~= event_text(*event, elapsed_ms));
    string_from_chars(&out)
}

/// What one line of UCI input asks of the engine.
#[derive(Debug)]
pub enum UciRequest {
    /// `uci`: the engine names itself.
    Identify,
    /// `isready`.
    Ready,
    /// `ucinewgame`.
    NewGame,
    /// `position`: a fresh game, set up from the FEN when one is given (else
    /// the starting position), then the moves in the order given.
    SetPosition { fen: Option<String>, moves: Vec<String> },
    /// `go`, with the limits its arguments set.
    Go(SearchLimits),
    /// `stop`.
    Stop,
    /// `quit`.
    Quit,
    /// Anything else (`setoption`, `debug`, `register`, `ponderhit`, blank or
    /// unknown lines): accepted without effect.
    Ignore,
}

/// The index of the first `moves` token at or after `i`, or the number of tokens.
pub open spec fn first_moves(ts: Seq<Seq<char>>, i: int) -> int
    decreases ts.len() - i,
{
    if i < 0 || i >= ts.len() {
        ts.len() as int
    } else if ts[i] == "moves"@ {
        i
    } else {
        first_moves(ts, i + 1)
    }
}

/// The tokens joined by single spaces.
pub open spec fn joined(ts: Seq<Seq<char>>) -> Seq<char>
    decreases ts.len(),
{
    if ts.len() == 0 {
        seq![]
    } else if ts.len() == 1 {
        ts[0]
    } else {
        joined(ts.drop_last()) + " "@ + ts.last()
    }
}

/// The FEN a `position` command's arguments give: after `fen`, the tokens up
/// to `moves`, joined by spaces.
pub open spec fn position_fen(args: Seq<Seq<char>>) -> Option<Seq<char>> {
    if args.len() > 0 && args[0] == "fen"@ {
        Some(joined(args.subrange(1, first_moves(args, 0))))
    } else {
        None
    }
}

/// Where a `position` command's arguments may hold `moves`: after
/// `startpos`, after the FEN, or first.
pub open spec fn moves_index(args: Seq<Seq<char>>) -> int {
    if args.len() > 0 && args[0] == "startpos"@ {
        1
    } else if args.len() > 0 && args[0] == "fen"@ {
        first_moves(args, 0)
    } else {
        0
    }
}

/// The moves a `position` command's arguments list: the tokens after
/// `moves`, when it stands where it may.
pub open spec fn position_moves(args: Seq<Seq<char>>) -> Seq<Seq<char>> {
    let k = moves_index(args);
    if 0 <= k < args.len() && args[k] == "moves"@ {
        args.subrange(k + 1, args.len() as int)
    } else {
        seq![]
    }
}

/// The command word is one the engine acts on.
pub open spec fn known_command(w: Seq<char>) -> bool {
    w == "uci"@ || w == "isready"@ || w == "ucinewgame"@ || w == "position"@ || w == "go"@ || w == "stop"@
        || w == "quit"@
}

/// The request a line's tokens make, given as the kind it must be and what it carries.
pub open spec fn request_matches(r: UciRequest, ts: Seq<Seq<char>>) -> bool {
    let args = ts.subrange(1, ts.len() as int);
    match r {
        UciRequest::Identify => ts.len() > 0 && ts[0] == "uci"@,
        UciRequest::Ready => ts.len() > 0 && ts[0] == "isready"@,
        UciRequest::NewGame => ts.len() > 0 && ts[0] == "ucinewgame"@,
        UciRequest::SetPosition { fen, moves } => ts.len() > 0 && ts[0] == "position"@ && match fen {
            Some(f) => position_fen(args) == Some(f@),
            None => position_fen(args) is None,
        } && moves@.len() == position_moves(args).len() && forall|i: int|
            0 <= i < moves@.len() ==> (#[trigger] moves@[i])@ == position_moves(args)[i],
        UciRequest::Go(l) => ts.len() > 0 && ts[0] == "go"@ && l == go_limits_from(ts, 1, no_limits()),
        UciRequest::Stop => ts.len() > 0 && ts[0] == "stop"@,
        UciRequest::Quit => ts.len() > 0 && ts[0] == "quit"@,
        UciRequest::Ignore => ts.len() == 0 || !known_command(ts[0]),
    }
}

/// Reads one line of UCI input: its first token names the command, the
/// rest are its arguments.
pub fn parse_command(line: &str) -> (r: UciRequest)
    ensures
        request_matches(r, tokens_of(line@).0),
{
    let chars = str_chars(line);
    let tokens = split_tokens(&chars);
    let ghost ts = tokens@.map_values(|t: Vec<char>| t@);
    proof {
        assert(ts =~= tokens_of(line@).0);
    }
    if tokens.len() == 0 {
        return UciRequest::Ignore;
    }
    let cmd = &tokens[0];
    assert(cmd@ == ts[0]);
    if chars_eq(cmd, &str_chars("uci")) {
        UciRequest::Identify
    } else if chars_eq(cmd, &str_chars("isready")) {
        UciRequest::Ready
    } else if chars_eq(cmd, &str_chars("ucinewgame")) {
        UciRequest::NewGame
    } else if chars_eq(cmd, &str_chars("position")) {
        position_request(&tokens)
    } else if chars_eq(cmd, &str_chars("go")) {
        UciRequest::Go(limits_from_tokens(&tokens, 1))
    } else if chars_eq(cmd, &str_chars("stop")) {
        UciRequest::Stop
    } else if chars_eq(cmd, &str_chars("quit")) {
        UciRequest::Quit
    } else {
        UciRequest::Ignore
    }
}

/// The request of a `position` line, from all of its tokens.
fn position_request(tokens: &Vec<Vec<char>>) -> (r: UciRequest)
    requires
        tokens@.len() > 0,
        tokens@[0]@ == "position"@,
    ensures
        request_matches(r, tokens@.map_values(|t: Vec<char>| t@)),
{
    let ghost ts = tokens@.map_values(|t: Vec<char>| t@);
    let ghost args = ts.subrange(1, ts.len() as int);
    proof {
        reveal_strlit("fen");
        reveal_strlit("moves");
        reveal_strlit("startpos");
    }
    let n = tokens.len();
    proof {
        if n > 1 {
            assert(args[0] == tokens@[1]@);
        }
        assert("fen"@.len() == 3 && "startpos"@.len() == 8);
    }
    let moves_word = str_chars("moves");
    let mut fen: Option<String> = None;
    let mut k: usize = 1;
    if n > 1 && chars_eq(&tokens[1], &str_chars("startpos")) {
        k = 2;
    } else if n > 1 && chars_eq(&tokens[1], &str_chars("fen")) {
        proof {
            assert(args[0] == tokens@[1]@);
            assert("fen"@.len() == 3 && "moves"@.len() == 5);
            assert(args[0] != "moves"@);
            assert(first_moves(args, 0) == first_moves(args, 1));
        }
        let mut e: usize = 2;
        while e < n && !chars_eq(&tokens[e], &moves_word)
            invariant
                2 <= e <= n,
                n == tokens@.len(),
                ts == tokens@.map_values(|t: Vec<char>| t@),
                args == ts.subrange(1, ts.len() as int),
                moves_word@ == "moves"@,
                first_moves(args, e - 1) == first_moves(args, 0),
            decreases n - e,
        {
            assert(args[e - 1] == tokens@[e as int]@);
            e = e + 1;
        }
        proof {
            if e < n {
                assert(args[e - 1] == tokens@[e as int]@);
            }
            assert(first_moves(args, e - 1) == e - 1);
        }
        let mut buf: Vec<char> = Vec::new();
        let mut j: usize = 2;
        while j < e
            invariant
                2 <= j <= e <= n,
                n == tokens@.len(),
                ts == tokens@.map_values(|t: Vec<char>| t@),
                buf@ == joined(ts.subrange(2, j as int)),
            decreases e - j,
        {
            let ghost before = buf@;
            if j > 2 {
                let sp = str_chars(" ");
                let mut q: usize = 0;
                while q < sp.len()
                    invariant
                        q <= sp@.len(),
                        sp@ == " "@,
                        buf@ == before + sp@.subrange(0, q as int),
                    decreases sp@.len() - q,
                {
                    buf.push(sp[q]);
                    q = q + 1;
                    assert(buf@ =~= before + sp@.subrange(0, q as int));
                }
                assert(sp@.subrange(0, sp@.len() as int) =~= sp@);
            }
            let ghost mid = buf@;
            let t = &tokens[j];
            let mut q: usize = 0;
            while q < t.len()
                invariant
                    q <= t@.len(),
                    buf@ == mid + t@.subrange(0, q as int),
                decreases t@.len() - q,
            {
                buf.push(t[q]);
                q = q + 1;
                assert(buf@ =~= mid + t@.subrange(0, q as int));
            }
            proof {
                assert(t@.subrange(0, t@.len() as int) =~= t@);
                let s2 = ts.subrange(2, j as int + 1);
                assert(s2.drop_last() =~= ts.subrange(2, j as int));
                assert(s2.last() == t@);
                if j == 2 {
                    assert(s2.len() == 1);
                    assert(buf@ =~= joined(s2));
                } else {
                    assert(buf@ =~= joined(s2));
                }
            }
            j = j + 1;
        }
        proof {
            assert(args.subrange(1, first_moves(args, 0)) =~= ts.subrange(2, e as int));
        }
        fen = Some(string_from_chars(&buf));
        k = e;
    }
    proof {
        assert(moves_index(args) == k - 1);
    }
    let mut moves: Vec<String> = Vec::new();
    if k < n && chars_eq(&tokens[k], &moves_word) {
        let mut j: usize = k + 1;
        while j < n
            invariant
                k + 1 <= j <= n,
                n == tokens@.len(),
                ts == tokens@.map_values(|t: Vec<char>| t@),
                moves@.len() == j - (k + 1),
                forall|i: int| 0 <= i < moves@.len() ==> (#[trigger] moves@[i])@ == ts[k + 1 + i],
            decreases n - j,
        {
            moves.push(string_from_chars(&tokens[j]));
            j = j + 1;
        }
        proof {
            assert(args[k - 1] == tokens@[k as int]@);
            assert forall|i: int| 0 <= i < moves@.len() implies (#[trigger] moves@[i])@ == position_moves(args)[i] by {
                assert(position_moves(args)[i] == args[k + i]);
            }
        }
    } else {
        proof {
            if k < n {
                assert(args[k - 1] == tokens@[k as int]@);
            }
        }
    }
    proof {
        assert(ts[0] == "position"@);
        assert(moves@.len() == position_moves(args).len());
        if fen is Some {
            assert(position_fen(args) == Some(fen->0@));
        } else {
            assert(position_fen(args) is None);
        }
    }
    UciRequest::SetPosition { fen, moves }
}

/// The texts of a list of strings.
pub open spec fn texts_of(moves: Seq<String>) -> Seq<Seq<char>> {
    moves.map_values(|t: String| t@)
}

/// Move `m` is the move the text `s` names: its squares and promotion.
pub open spec fn names(m: Move, s: Seq<char>) -> bool {
    uci_move_of(s) == Some((m.from_sq().idx(), m.to_sq().idx(), m.promo()))
}

/// The position a `position` command starts from: the starting position, or
/// the FEN's position when one is given.
pub open spec fn set_up_by(p: Position, fen: Option<Seq<char>>) -> bool {
    match fen {
        None => p.is_start_position(),
        Some(f) => p.set_up_from(f),
    }
}

/// Why the moves stop at text `s` in position `p`: it names no move, the
/// game's history is full, or no legal move has its squares and promotion.
pub open spec fn stops_at(p: Position, s: Seq<char>) -> bool {
    ||| uci_move_of(s) is None
    ||| p.num_made() + 1 >= MAX_MOVES
    ||| !exists|m: Move| #[trigger] p.legal_move(m) && names(m, s)
}

/// The positions `ps` and moves `ms` are the game a `position` command with
/// these `moves` plays from `ps[0]`: the first `k` texts, each naming a legal
/// move played in turn, and a stop at the next text when there is one.
pub open spec fn plays_texts(ps: Seq<Position>, ms: Seq<Move>, moves: Seq<Seq<char>>, k: int) -> bool {
    &&& 0 <= k <= moves.len()
    &&& ms.len() == k
    &&& ps.len() == k + 1
    &&& legal_line(ps, ms)
    &&& forall|i: int| 0 <= i < k ==> names(#[trigger] ms[i], moves[i])
    &&& k < moves.len() ==> stops_at(ps[k], moves[k])
}

/// Sets up the game a `position` command names: a fresh game from the
/// starting position, or from the FEN when one is given; then plays the
/// moves in turn until one does not read as a move, names no legal move, or
/// the game's history is full. Gives the FEN's error when it does not read
/// (the position is then the starting one), else how many moves were played.
#[verifier::rlimit(60)]
pub fn apply_position(pos: &mut Position, fen: Option<&str>, moves: &Vec<String>) -> (r: Result<usize, FenError>)
    requires
        old(pos).wf(),
    ensures
        final(pos).wf(),
        final(pos).zob() == old(pos).zob(),
        final(pos).mg() == old(pos).mg(),
        match fen {
            Some(f) => (r is Err <==> fen_error(f@) is Some) && (r matches Err(e) ==> Some(e) == fen_error(f@)
                && final(pos).is_start_position()),
            None => r is Ok,
        },
        r matches Ok(k) ==> exists|ps: Seq<Position>, ms: Seq<Move>| #[trigger] plays_texts(
            ps,
            ms,
            texts_of(moves@),
            k as int,
        ) && set_up_by(ps[0], match fen {
            Some(f) => Some(f@),
            None => None,
        }) && final(pos).same_as(&ps[k as int]),
{
    pos.reset_to_start_fen();
    if let Some(f) = fen {
        match pos.fen_setup(f) {
            Err(e) => {
                return Err(e);
            },
            Ok(()) => {},
        }
    }
    let ghost texts = texts_of(moves@);
    let ghost p0 = *pos;
    let ghost fen_text = match fen {
        Some(f) => Some(f@),
        None => None,
    };
    assert(set_up_by(p0, fen_text));
    let mut trail = MoveTrail::new(Ghost(p0));
    let mut played: usize = 0;
    let mut stopped = false;
    proof {
        assert(trail.moves@ =~= Seq::<Move>::empty());
    }
    while played < moves.len() && !stopped
        invariant
            p0.wf(),
            texts == texts_of(moves@),
            played <= moves@.len(),
            trail.holds(p0, *pos, played as nat),
            trail.moves@.len() == played,
            trail.positions@[0] == p0,
            forall|i: int| 0 <= i < played ==> names(#[trigger] trail.moves@[i], texts[i]),
            stopped ==> played < moves@.len() && stops_at(*pos, texts[played as int]),
            pos.zob() == p0.zob() && pos.mg() == p0.mg(),
        decreases moves@.len() - played + (if stopped { 0int } else { 1int }),
    {
        assert(texts[played as int] == moves@[played as int]@);
        let text = moves[played].as_str();
        match parse_uci_move(text) {
            None => {
                stopped = true;
            },
            Some(input) => {
                if pos.moves_made() >= MAX_MOVES - 1 {
                    stopped = true;
                } else {
                    match pos.validate_move(input) {
                        Err(_) => {
                            proof {
                                assert forall|m: Move| !(#[trigger] pos.legal_move(m) && names(m, texts[played as int])) by {
                                    if pos.legal_move(m) && names(m, texts[played as int]) {
                                        assert(crate::movegen::pseudo_move(pos, m));
                                    }
                                }
                            }
                            stopped = true;
                        },
                        Ok(m) => {
                            let ghost before = *pos;
                            if trail.make(pos, m, Ghost(p0)) {
                                played = played + 1;
                            } else {
                                proof {
                                    assert forall|m2: Move| !(#[trigger] pos.legal_move(m2) && names(m2, texts[played as int])) by {
                                        if pos.legal_move(m2) && names(m2, texts[played as int]) {
                                            assert(before.legal_move(m2));
                                            assert(crate::movegen::pseudo_move(&before, m2));
                                            assert(m2 == m);
                                        }
                                    }
                                }
                                stopped = true;
                            }
                        },
                    }
                }
            },
        }
    }
    let ghost ps = trail.positions@;
    let ghost ms = trail.moves@;
    proof {
        assert forall|k: int| 0 <= k < ms.len() implies (#[trigger] ps[k]).legal_move(ms[k]) && ps[k].after_move(ms[k], &ps[k + 1]) by {
            assert(step_ok(ps[k], trail.moves@[k], ps[k + 1]));
            reveal(step_ok);
        }
        assert(legal_line(ps, ms));
        if played < moves@.len() {
            assert(stopped);
            assert(pos.same_as(&ps[played as int]));
            assert(stops_at(ps[played as int], texts[played as int])) by {
                if !(uci_move_of(texts[played as int]) is None) && ps[played as int].num_made() + 1 < MAX_MOVES {
                    assert forall|m: Move| !(#[trigger] ps[played as int].legal_move(m) && names(m, texts[played as int])) by {
                        if ps[played as int].legal_move(m) && names(m, texts[played as int]) {
                            assert(pos.legal_move(m));
                        }
                    }
                }
            }
        }
        assert(plays_texts(ps, ms, texts, played as int));
        assert(ps[0] == p0);
        assert(pos.same_as(&ps[played as int]));
        assert(plays_texts(ps, ms, texts_of(moves@), played as int) && set_up_by(ps[0], fen_text)
            && pos.same_as(&ps[played as int]));
        assert(exists|ps: Seq<Position>, ms: Seq<Move>| #[trigger] plays_texts(ps, ms, texts_of(moves@), played as int)
            && set_up_by(ps[0], fen_text) && pos.same_as(&ps[played as int]));
    }
    let r: Result<usize, FenError> = Ok(played);
    assert(r matches Ok(k) && k == played);
    r
}

/// A square's name reads back as the square.
proof fn lemma_square_name_reads_back(i: int)
    requires
        0 <= i < 64,
    ensures
        parse_square_name(square_name(i)) == Some(i),
{
    let f = i % 8;
    let r = i / 8;
    assert(file_char(f) as int == f + 97);
    assert(rank_char(r) as int == r + 49);
}

/// Reading back the UCI name of a move gives its squares and promotion:
/// long algebraic notation written for any two squares and any promotion a
/// move can have names exactly that move.
pub proof fn lemma_uci_name_reads_back(from: int, to: int, promotion: Option<PieceKind>)
    requires
        0 <= from < 64,
        0 <= to < 64,
        promotion != Some(PieceKind::Pawn),
        promotion != Some(PieceKind::King),
    ensures
        uci_move_of(uci_name(from, to, promotion)) == Some((from, to, promotion)),
{
    lemma_square_name_reads_back(from);
    lemma_square_name_reads_back(to);
    let s = uci_name(from, to, promotion);
    assert(s.subrange(0, 2) =~= square_name(from));
    assert(s.subrange(2, 4) =~= square_name(to));
}

/// A clock token of a `go` command followed by a number sets that value, for
/// the side and field the token names, and nothing else: `wtime` and `winc`
/// are White's clock and increment, `btime` and `binc` Black's.
pub proof fn lemma_go_clock_tokens(num: Seq<char>, l: SearchLimits)
    requires
        parse_uint(num, u64::MAX as nat) is Some,
    ensures
        ({
            let v = Some(parse_uint(num, u64::MAX as nat)->0 as u64);
            &&& go_limits_from(seq![seq!['w', 't', 'i', 'm', 'e'], num], 0, l) == SearchLimits { wtime: v, ..l }
            &&& go_limits_from(seq![seq!['b', 't', 'i', 'm', 'e'], num], 0, l) == SearchLimits { btime: v, ..l }
            &&& go_limits_from(seq![seq!['w', 'i', 'n', 'c'], num], 0, l) == SearchLimits { winc: v, ..l }
            &&& go_limits_from(seq![seq!['b', 'i', 'n', 'c'], num], 0, l) == SearchLimits { binc: v, ..l }
        }),
{
    let w = seq![seq!['w', 't', 'i', 'm', 'e'], num];
    let b = seq![seq!['b', 't', 'i', 'm', 'e'], num];
    let wi = seq![seq!['w', 'i', 'n', 'c'], num];
    let bi = seq![seq!['b', 'i', 'n', 'c'], num];
    assert(w[0] =~= seq!['w', 't', 'i', 'm', 'e']);
    assert(b[0] =~= seq!['b', 't', 'i', 'm', 'e']);
    assert(wi[0] =~= seq!['w', 'i', 'n', 'c']);
    assert(bi[0] =~= seq!['b', 'i', 'n', 'c']);
    assert(b[0] != seq!['d', 'e', 'p', 't', 'h']);
    assert(b[0] != seq!['m', 'o', 'v', 'e', 't', 'i', 'm', 'e']);
    assert(b[0] != seq!['w', 't', 'i', 'm', 'e']) by {
        assert(b[0][0] != seq!['w', 't', 'i', 'm', 'e'][0]);
    }
    assert(wi[0] != seq!['d', 'e', 'p', 't', 'h']);
    assert(wi[0] != seq!['m', 'o', 'v', 'e', 't', 'i', 'm', 'e']);
    assert(wi[0] != seq!['w', 't', 'i', 'm', 'e']);
    assert(wi[0] != seq!['b', 't', 'i', 'm', 'e']);
    assert(bi[0] != seq!['d', 'e', 'p', 't', 'h']);
    assert(bi[0] != seq!['m', 'o', 'v', 'e', 't', 'i', 'm', 'e']);
    assert(bi[0] != seq!['w', 't', 'i', 'm', 'e']);
    assert(bi[0] != seq!['b', 't', 'i', 'm', 'e']);
    assert(bi[0] != seq!['w', 'i', 'n', 'c']) by {
        assert(bi[0][0] != seq!['w', 'i', 'n', 'c'][0]);
    }
    assert(w[0] != seq!['d', 'e', 'p', 't', 'h']);
    assert(w[0] != seq!['m', 'o', 'v', 'e', 't', 'i', 'm', 'e']);
    let v = Some(parse_uint(num, u64::MAX as nat)->0 as u64);
    assert(ms_arg(w, 1) == v && ms_arg(b, 1) == v && ms_arg(wi, 1) == v && ms_arg(bi, 1) == v);
    assert(go_limits_from(w, 2, SearchLimits { wtime: v, ..l }) == SearchLimits { wtime: v, ..l });
    assert(go_limits_from(b, 2, SearchLimits { btime: v, ..l }) == SearchLimits { btime: v, ..l });
    assert(go_limits_from(wi, 2, SearchLimits { winc: v, ..l }) == SearchLimits { winc: v, ..l });
    assert(go_limits_from(bi, 2, SearchLimits { binc: v, ..l }) == SearchLimits { binc: v, ..l });
}

} // verus!
