//! Forsyth-Edwards Notation: reading a position's six fields from text, and
//! writing them back.

use vstd::prelude::*;
use crate::basetypes::{
    CastlingDirection, CastlingRights, PerSquare, Piece, PieceKind, Side, Square, lemma_sq_at, parse_square_name,
    sq_at, square_name,
};
use crate::board::Position;
use crate::text::{str_chars, string_from_chars};

verus! {

/// Why a FEN string was refused.
#[derive(Debug, Clone, Copy, PartialEq, Eq, Structural)]
pub enum FenError {
    IncorrectPartLength,
    IncorrectNumRanks,
    InvalidPiecePlacement,
    InvalidColour,
    InvalidEPSquare,
    InvalidHalfMoveClock,
    InvalidFullMoveNumber,
    InvalidCastlingRights,
}

pub const STARTING_FEN: &'static str = "rnbqkbnr/pppppppp/8/8/8/8/PPPPPPPP/RNBQKBNR w KQkq - 0 1";

/// The six fields of a FEN record.
#[derive(Debug, Clone, Copy)]
pub struct FenParts {
    pub pieces: PerSquare<Option<Piece>>,
    pub active_colour: Side,
    pub castling_rights: CastlingRights,
    pub en_passant_square: Option<Square>,
    pub half_move_clock: u8,
    pub full_move_number: u16,
}

// ----------------------------------------------------------------------
// The grammar, as spec functions on character sequences.
// ----------------------------------------------------------------------

/// `s` cut at every `sep`, empty pieces kept, as `str::split` cuts it.
pub open spec fn split_at_char(s: Seq<char>, sep: char) -> Seq<Seq<char>>
    decreases s.len(),
{
    if s.len() == 0 {
        seq![Seq::<char>::empty()]
    } else {
        let t = split_at_char(s.drop_last(), sep);
        if s.last() == sep {
            t.push(Seq::<char>::empty())
        } else {
            t.update(t.len() - 1, t.last().push(s.last()))
        }
    }
}

pub open spec fn is_digit(c: char) -> bool {
    '0' <= c <= '9'
}

pub open spec fn digit_value(c: char) -> nat {
    (c as int - 48) as nat
}

/// The number a string of decimal digits denotes.
pub open spec fn digits_value(s: Seq<char>) -> nat
    decreases s.len(),
{
    if s.len() == 0 {
        0
    } else {
        digits_value(s.drop_last()) * 10 + digit_value(s.last())
    }
}

pub open spec fn all_digits(s: Seq<char>) -> bool {
    forall|i: int| 0 <= i < s.len() ==> is_digit(#[trigger] s[i])
}

/// An unsigned number no greater than `max`, written as `str::parse` reads
/// one: an optional `+`, then one or more ASCII digits.
pub open spec fn parse_uint(s: Seq<char>, max: nat) -> Option<nat> {
    let d = if s.len() > 0 && s[0] == '+' {
        s.subrange(1, s.len() as int)
    } else {
        s
    };
    if d.len() > 0 && all_digits(d) && digits_value(d) <= max {
        Some(digits_value(d))
    } else {
        None
    }
}

/// The piece a FEN letter names: upper case for white, lower case for black.
pub open spec fn piece_of_char(c: char) -> Option<Piece> {
    if c == 'P' {
        Some(Piece { side: Side::White, kind: PieceKind::Pawn })
    } else if c == 'N' {
        Some(Piece { side: Side::White, kind: PieceKind::Knight })
    } else if c == 'B' {
        Some(Piece { side: Side::White, kind: PieceKind::Bishop })
    } else if c == 'R' {
        Some(Piece { side: Side::White, kind: PieceKind::Rook })
    } else if c == 'Q' {
        Some(Piece { side: Side::White, kind: PieceKind::Queen })
    } else if c == 'K' {
        Some(Piece { side: Side::White, kind: PieceKind::King })
    } else if c == 'p' {
        Some(Piece { side: Side::Black, kind: PieceKind::Pawn })
    } else if c == 'n' {
        Some(Piece { side: Side::Black, kind: PieceKind::Knight })
    } else if c == 'b' {
        Some(Piece { side: Side::Black, kind: PieceKind::Bishop })
    } else if c == 'r' {
        Some(Piece { side: Side::Black, kind: PieceKind::Rook })
    } else if c == 'q' {
        Some(Piece { side: Side::Black, kind: PieceKind::Queen })
    } else if c == 'k' {
        Some(Piece { side: Side::Black, kind: PieceKind::King })
    } else {
        None
    }
}

/// The squares one rank's text fills, in order: a digit is that many empty
/// squares, a letter one piece.
pub open spec fn expand_rank(s: Seq<char>) -> Seq<Option<Piece>>
    decreases s.len(),
{
    if s.len() == 0 {
        Seq::<Option<Piece>>::empty()
    } else {
        let c = s.last();
        expand_rank(s.drop_last()) + (if is_digit(c) {
            Seq::new(digit_value(c), |i: int| None::<Piece>)
        } else {
            seq![piece_of_char(c)]
        })
    }
}

/// The squares the rank texts fill, from the last text (rank 1) to the first.
pub open spec fn expand_ranks(rs: Seq<Seq<char>>) -> Seq<Option<Piece>>
    decreases rs.len(),
{
    if rs.len() == 0 {
        Seq::<Option<Piece>>::empty()
    } else {
        expand_ranks(rs.subrange(1, rs.len() as int)) + expand_rank(rs[0])
    }
}

/// Every character of the rank texts is a digit or a piece letter, and they
/// fill no more than the 64 squares.
pub open spec fn placement_ok(rs: Seq<Seq<char>>) -> bool {
    &&& forall|i: int, j: int|
        0 <= i < rs.len() && 0 <= j < rs[i].len() ==> (is_digit(#[trigger] rs[i][j]) || piece_of_char(rs[i][j]) is Some)
    &&& expand_ranks(rs).len() <= 64
}

/// The board the rank texts describe, a1 first; squares left unfilled are empty.
pub open spec fn placement_board(rs: Seq<Seq<char>>) -> Seq<Option<Piece>> {
    let flat = expand_ranks(rs);
    Seq::new(64, |i: int| if i < flat.len() { flat[i] } else { None })
}

pub open spec fn parse_colour(s: Seq<char>) -> Option<Side> {
    if s == seq!['w'] {
        Some(Side::White)
    } else if s == seq!['b'] {
        Some(Side::Black)
    } else {
        None
    }
}

/// The castling-rights bit a FEN letter stands for.
pub open spec fn castling_char_bit(c: char) -> Option<u8> {
    if c == 'K' {
        Some(1u8)
    } else if c == 'Q' {
        Some(2u8)
    } else if c == 'k' {
        Some(4u8)
    } else if c == 'q' {
        Some(8u8)
    } else {
        None
    }
}

pub open spec fn castling_bits(s: Seq<char>) -> u8
    decreases s.len(),
{
    if s.len() == 0 {
        0
    } else {
        castling_bits(s.drop_last()) | castling_char_bit(s.last())->0
    }
}

/// The castling rights field: `-`, or a non-empty run of the letters K, Q, k, q.
pub open spec fn parse_castling(s: Seq<char>) -> Option<u8> {
    if s == seq!['-'] {
        Some(0u8)
    } else if s.len() > 0 && forall|i: int| 0 <= i < s.len() ==> #[trigger] castling_char_bit(s[i]) is Some {
        Some(castling_bits(s))
    } else {
        None
    }
}

/// The en passant field: `-`, or a square's name.
pub open spec fn parse_ep(s: Seq<char>) -> Option<Option<Square>> {
    if s == seq!['-'] {
        Some(None)
    } else {
        match parse_square_name(s) {
            Some(i) => Some(Some(sq_at(i))),
            None => None,
        }
    }
}

/// The first error met reading a FEN record, field by field, if any.
pub open spec fn fen_error(s: Seq<char>) -> Option<FenError> {
    let f = split_at_char(s, ' ');
    if f.len() != 6 {
        Some(FenError::IncorrectPartLength)
    } else if split_at_char(f[0], '/').len() != 8 {
        Some(FenError::IncorrectNumRanks)
    } else if !placement_ok(split_at_char(f[0], '/')) {
        Some(FenError::InvalidPiecePlacement)
    } else if parse_colour(f[1]) is None {
        Some(FenError::InvalidColour)
    } else if parse_castling(f[2]) is None {
        Some(FenError::InvalidCastlingRights)
    } else if parse_ep(f[3]) is None {
        Some(FenError::InvalidEPSquare)
    } else if parse_uint(f[4], 255) is None {
        Some(FenError::InvalidHalfMoveClock)
    } else if parse_uint(f[5], 65535) is None {
        Some(FenError::InvalidFullMoveNumber)
    } else {
        None
    }
}

/// The parts read from a FEN record that has no error.
pub open spec fn fen_parts_ok(s: Seq<char>, p: FenParts) -> bool {
    let f = split_at_char(s, ' ');
    &&& p.pieces.0@ == placement_board(split_at_char(f[0], '/'))
    &&& Some(p.active_colour) == parse_colour(f[1])
    &&& Some(p.castling_rights.rights) == parse_castling(f[2])
    &&& Some(p.en_passant_square) == parse_ep(f[3])
    &&& Some(p.half_move_clock as nat) == parse_uint(f[4], 255)
    &&& Some(p.full_move_number as nat) == parse_uint(f[5], 65535)
}

// ----------------------------------------------------------------------
// Reading.
// ----------------------------------------------------------------------

proof fn lemma_split_nonempty(s: Seq<char>, sep: char)
    ensures
        split_at_char(s, sep).len() >= 1,
    decreases s.len(),
{
    if s.len() > 0 {
        lemma_split_nonempty(s.drop_last(), sep);
    }
}

/// `s` cut at every `sep`.
fn split_chars(s: &Vec<char>, sep: char) -> (r: Vec<Vec<char>>)
    ensures
        r@.len() == split_at_char(s@, sep).len(),
        forall|i: int| 0 <= i < r@.len() ==> (#[trigger] r@[i])@ == split_at_char(s@, sep)[i],
{
    let mut parts: Vec<Vec<char>> = Vec::new();
    let mut cur: Vec<char> = Vec::new();
    let mut i: usize = 0;
    proof {
        assert(s@.take(0) =~= Seq::<char>::empty());
    }
    while i < s.len()
        invariant
            i <= s.len(),
            parts@.len() + 1 == split_at_char(s@.take(i as int), sep).len(),
            forall|j: int| 0 <= j < parts@.len() ==> (#[trigger] parts@[j])@ == split_at_char(s@.take(i as int), sep)[j],
            cur@ == split_at_char(s@.take(i as int), sep).last(),
        decreases s.len() - i,
    {
        let c = s[i];
        proof {
            assert(s@.take(i as int + 1).drop_last() =~= s@.take(i as int));
            lemma_split_nonempty(s@.take(i as int), sep);
        }
        if c == sep {
            parts.push(cur);
            cur = Vec::new();
        } else {
            cur.push(c);
        }
        i = i + 1;
    }
    proof {
        assert(s@.take(s@.len() as int) =~= s@);
    }
    parts.push(cur);
    parts
}

/// Reads an unsigned number no greater than `max` as `str::parse` does.
pub fn parse_number(s: &Vec<char>, max: u64) -> (r: Option<u64>)
    ensures
        match parse_uint(s@, max as nat) {
            Some(v) => r == Some(v as u64),
            None => r is None,
        },
{
    let start: usize = if s.len() > 0 && s[0] == '+' { 1 } else { 0 };
    let ghost d = if s@.len() > 0 && s@[0] == '+' { s@.subrange(1, s@.len() as int) } else { s@ };
    proof {
        assert(d =~= s@.subrange(start as int, s@.len() as int));
    }
    if start >= s.len() {
        return None;
    }
    let cap: u128 = max as u128 + 1;
    let mut acc: u128 = 0;
    let mut i: usize = start;
    proof {
        assert(s@.subrange(start as int, i as int) =~= Seq::<char>::empty());
    }
    while i < s.len()
        invariant
            start <= i <= s.len(),
            cap == max + 1,
            d == s@.subrange(start as int, s@.len() as int),
            d == (if s@.len() > 0 && s@[0] == '+' { s@.subrange(1, s@.len() as int) } else { s@ }),
            all_digits(s@.subrange(start as int, i as int)),
            acc as int == if digits_value(s@.subrange(start as int, i as int)) > max {
                max + 1
            } else {
                digits_value(s@.subrange(start as int, i as int)) as int
            },
        decreases s.len() - i,
    {
        let c = s[i];
        if !('0' <= c && c <= '9') {
            proof {
                assert(d[i - start] == c);
                assert(!is_digit(d[i - start]));
                assert(!all_digits(d));
            }
            return None;
        }
        let dv: u128 = (c as u32 - 48) as u128;
        let ghost prefix = s@.subrange(start as int, i as int);
        proof {
            assert(s@.subrange(start as int, i as int + 1) =~= prefix.push(c));
            assert(s@.subrange(start as int, i as int + 1).drop_last() =~= prefix);
        }
        if acc >= cap {
            acc = cap;
        } else {
            let n = acc * 10 + dv;
            acc = if n >= cap { cap } else { n };
        }
        i = i + 1;
    }
    proof {
        assert(s@.subrange(start as int, s@.len() as int) == d);
    }
    if acc >= cap {
        None
    } else {
        Some(acc as u64)
    }
}

fn piece_from_char(c: char) -> (r: Option<Piece>)
    ensures
        r == piece_of_char(c),
{
    match c {
        'P' => Some(Piece { side: Side::White, kind: PieceKind::Pawn }),
        'N' => Some(Piece { side: Side::White, kind: PieceKind::Knight }),
        'B' => Some(Piece { side: Side::White, kind: PieceKind::Bishop }),
        'R' => Some(Piece { side: Side::White, kind: PieceKind::Rook }),
        'Q' => Some(Piece { side: Side::White, kind: PieceKind::Queen }),
        'K' => Some(Piece { side: Side::White, kind: PieceKind::King }),
        'p' => Some(Piece { side: Side::Black, kind: PieceKind::Pawn }),
        'n' => Some(Piece { side: Side::Black, kind: PieceKind::Knight }),
        'b' => Some(Piece { side: Side::Black, kind: PieceKind::Bishop }),
        'r' => Some(Piece { side: Side::Black, kind: PieceKind::Rook }),
        'q' => Some(Piece { side: Side::Black, kind: PieceKind::Queen }),
        'k' => Some(Piece { side: Side::Black, kind: PieceKind::King }),
        _ => None,
    }
}


proof fn lemma_expand_ranks_len(rs: Seq<Seq<char>>, k: int)
    requires
        0 <= k <= rs.len(),
    ensures
        expand_ranks(rs).len() >= expand_ranks(rs.subrange(k, rs.len() as int)).len(),
    decreases k,
{
    if k == 0 {
        assert(rs.subrange(0, rs.len() as int) =~= rs);
    } else {
        let rest = rs.subrange(1, rs.len() as int);
        lemma_expand_ranks_len(rest, k - 1);
        assert(rest.subrange(k - 1, rest.len() as int) =~= rs.subrange(k, rs.len() as int));
    }
}

proof fn lemma_expand_rank_len(s: Seq<char>, j: int)
    requires
        0 <= j <= s.len(),
    ensures
        expand_rank(s).len() >= expand_rank(s.take(j)).len(),
    decreases s.len(),
{
    if j == s.len() {
        assert(s.take(j) =~= s);
    } else {
        lemma_expand_rank_len(s.drop_last(), j);
        assert(s.drop_last().take(j) =~= s.take(j));
    }
}

proof fn lemma_expand_ranks_step(rs: Seq<Seq<char>>, k: int)
    requires
        0 <= k < rs.len(),
    ensures
        expand_ranks(rs.subrange(k, rs.len() as int)) == expand_ranks(rs.subrange(k + 1, rs.len() as int)) + expand_rank(rs[k]),
{
    let t = rs.subrange(k, rs.len() as int);
    assert(t.subrange(1, t.len() as int) =~= rs.subrange(k + 1, rs.len() as int));
    assert(t[0] == rs[k]);
}

/// The board from the piece placement field.
fn fen_parse_pieces(field: &Vec<char>) -> (r: Result<PerSquare<Option<Piece>>, FenError>)
    ensures
        split_at_char(field@, '/').len() != 8 ==> r == Err::<PerSquare<Option<Piece>>, FenError>(FenError::IncorrectNumRanks),
        split_at_char(field@, '/').len() == 8 && !placement_ok(split_at_char(field@, '/'))
            ==> r == Err::<PerSquare<Option<Piece>>, FenError>(FenError::InvalidPiecePlacement),
        split_at_char(field@, '/').len() == 8 && placement_ok(split_at_char(field@, '/'))
            ==> r is Ok && r->Ok_0.0@ == placement_board(split_at_char(field@, '/')),
{
    let ranks = split_chars(field, '/');
    let ghost rs = split_at_char(field@, '/');
    if ranks.len() != 8 {
        return Err(FenError::IncorrectNumRanks);
    }
    let mut pieces: PerSquare<Option<Piece>> = PerSquare::new(None);
    let mut n: usize = 0;
    let mut k: usize = 8;
    proof {
        assert(rs.subrange(8, 8) =~= Seq::<Seq<char>>::empty());
        assert(pieces.0@.len() == 64);
    }
    while k > 0
        invariant
            ranks@.len() == 8,
            rs == split_at_char(field@, '/'),
            rs.len() == 8,
            forall|i: int| 0 <= i < 8 ==> (#[trigger] ranks@[i])@ == rs[i],
            k <= 8,
            n as int == expand_ranks(rs.subrange(k as int, 8)).len(),
            n <= 64,
            forall|i: int, j: int| k <= i < 8 && 0 <= j < rs[i].len() ==> (is_digit(#[trigger] rs[i][j]) || piece_of_char(rs[i][j]) is Some),
            pieces.0@.len() == 64,
            forall|t: int| 0 <= t < 64 ==> #[trigger] pieces.0@[t] == (if t < n { expand_ranks(rs.subrange(k as int, 8))[t] } else { None }),
        decreases k,
    {
        k = k - 1;
        let rank: &Vec<char> = &ranks[k];
        let ghost base = expand_ranks(rs.subrange(k as int + 1, 8));
        proof {
            lemma_expand_ranks_step(rs, k as int);
        }
        let mut j: usize = 0;
        proof {
            assert(rank@.take(0) =~= Seq::<char>::empty());
        }
        while j < rank.len()
            invariant
                rank@ == rs[k as int],
                j <= rank@.len(),
                rs == split_at_char(field@, '/'),
                rs.len() == 8,
                k < 8,
                base == expand_ranks(rs.subrange(k as int + 1, 8)),
                n as int == base.len() + expand_rank(rank@.take(j as int)).len(),
                n <= 64,
                forall|jj: int| 0 <= jj < j ==> (is_digit(#[trigger] rank@[jj]) || piece_of_char(rank@[jj]) is Some),
                pieces.0@.len() == 64,
                forall|t: int| 0 <= t < 64 ==> #[trigger] pieces.0@[t] == (if t < n { (base + expand_rank(rank@.take(j as int)))[t] } else { None }),
            decreases rank@.len() - j,
        {
            let c = rank[j];
            let ghost pre = rank@.take(j as int);
            proof {
                assert(rank@.take(j as int + 1).drop_last() =~= pre);
                assert(rank@.take(j as int + 1).last() == c);
                lemma_expand_rank_len(rank@, j as int + 1);
                lemma_expand_ranks_len(rs, k as int);
                lemma_expand_ranks_step(rs, k as int);
            }
            if '0' <= c && c <= '9' {
                let d: usize = (c as u32 - 48) as usize;
                if n + d > 64 {
                    return Err(FenError::InvalidPiecePlacement);
                }
                n = n + d;
                proof {
                    assert(base + expand_rank(rank@.take(j as int + 1)) =~= (base + expand_rank(pre)) + Seq::new(d as nat, |i: int| None::<Piece>));
                }
            } else {
                match piece_from_char(c) {
                    None => {
                        proof {
                            assert(rs[k as int][j as int] == c);
                        }
                        return Err(FenError::InvalidPiecePlacement);
                    },
                    Some(p) => {
                        if n >= 64 {
                            return Err(FenError::InvalidPiecePlacement);
                        }
                        let ghost before = pieces.0@;
                        pieces.set(Square::from_index(n), Some(p));
                        n = n + 1;
                        proof {
                            assert(base + expand_rank(rank@.take(j as int + 1)) =~= (base + expand_rank(pre)).push(Some(p)));
                        }
                    },
                }
            }
            j = j + 1;
        }
        proof {
            assert(rank@.take(rank@.len() as int) =~= rank@);
        }
    }
    proof {
        assert(rs.subrange(0, 8) =~= rs);
        assert(pieces.0@ =~= placement_board(rs));
    }
    Ok(pieces)
}

fn fen_parse_colour(s: &Vec<char>) -> (r: Result<Side, FenError>)
    ensures
        match parse_colour(s@) {
            Some(c) => r == Ok::<Side, FenError>(c),
            None => r == Err::<Side, FenError>(FenError::InvalidColour),
        },
{
    if s.len() == 1 && s[0] == 'w' {
        proof {
            assert(s@ =~= seq!['w']);
        }
        Ok(Side::White)
    } else if s.len() == 1 && s[0] == 'b' {
        proof {
            assert(s@ =~= seq!['b']);
            assert(s@ != seq!['w']);
        }
        Ok(Side::Black)
    } else {
        proof {
            assert(s@ != seq!['w'] && s@ != seq!['b']) by {
                if s@ == seq!['w'] || s@ == seq!['b'] {
                    assert(s@.len() == 1);
                }
            }
        }
        Err(FenError::InvalidColour)
    }
}

fn fen_parse_castling_rights(s: &Vec<char>) -> (r: Result<CastlingRights, FenError>)
    ensures
        match parse_castling(s@) {
            Some(b) => r is Ok && r->Ok_0.rights == b,
            None => r == Err::<CastlingRights, FenError>(FenError::InvalidCastlingRights),
        },
{
    if s.len() == 0 {
        return Err(FenError::InvalidCastlingRights);
    }
    if s.len() == 1 && s[0] == '-' {
        proof {
            assert(s@ =~= seq!['-']);
        }
        return Ok(CastlingRights::none());
    }
    proof {
        assert(s@ != seq!['-']) by {
            if s@ == seq!['-'] {
                assert(s@.len() == 1);
            }
        }
        assert(s@.take(0) =~= Seq::<char>::empty());
    }
    let mut rights = CastlingRights::none();
    let mut i: usize = 0;
    while i < s.len()
        invariant
            i <= s@.len(),
            s@.len() > 0,
            s@ != seq!['-'],
            rights.rights == castling_bits(s@.take(i as int)),
            forall|j: int| 0 <= j < i ==> #[trigger] castling_char_bit(s@[j]) is Some,
        decreases s@.len() - i,
    {
        let c = s[i];
        proof {
            assert(s@.take(i as int + 1).drop_last() =~= s@.take(i as int));
            assert(s@.take(i as int + 1).last() == c);
        }
        match c {
            'K' => rights.add_rights(CastlingDirection::WK),
            'Q' => rights.add_rights(CastlingDirection::WQ),
            'k' => rights.add_rights(CastlingDirection::BK),
            'q' => rights.add_rights(CastlingDirection::BQ),
            _ => {
                proof {
                    assert(castling_char_bit(s@[i as int]) is None);
                }
                return Err(FenError::InvalidCastlingRights);
            },
        }
        i = i + 1;
    }
    proof {
        assert(s@.take(s@.len() as int) =~= s@);
    }
    Ok(rights)
}

fn fen_parse_en_passant_square(s: &Vec<char>) -> (r: Result<Option<Square>, FenError>)
    ensures
        match parse_ep(s@) {
            Some(e) => r == Ok::<Option<Square>, FenError>(e),
            None => r == Err::<Option<Square>, FenError>(FenError::InvalidEPSquare),
        },
{
    if s.len() == 1 && s[0] == '-' {
        proof {
            assert(s@ =~= seq!['-']);
        }
        return Ok(None);
    }
    proof {
        assert(s@ != seq!['-']) by {
            if s@ == seq!['-'] {
                assert(s@.len() == 1);
            }
        }
    }
    match Square::from_chars(s) {
        Ok(sq) => {
            proof {
                lemma_sq_at(sq.idx());
            }
            Ok(Some(sq))
        },
        Err(_) => Err(FenError::InvalidEPSquare),
    }
}

/// Reads a FEN record: its six space-separated fields in order, stopping at
/// the first one that is malformed.
pub fn parse_fen(fen: &str) -> (r: Result<FenParts, FenError>)
    ensures
        match fen_error(fen@) {
            Some(e) => r == Err::<FenParts, FenError>(e),
            None => r is Ok && fen_parts_ok(fen@, r->Ok_0),
        },
{
    let chars = str_chars(fen);
    let fields = split_chars(&chars, ' ');
    if fields.len() != 6 {
        return Err(FenError::IncorrectPartLength);
    }
    let pieces = match fen_parse_pieces(&fields[0]) {
        Ok(p) => p,
        Err(e) => return Err(e),
    };
    let active_colour = match fen_parse_colour(&fields[1]) {
        Ok(c) => c,
        Err(e) => return Err(e),
    };
    let castling_rights = match fen_parse_castling_rights(&fields[2]) {
        Ok(c) => c,
        Err(e) => return Err(e),
    };
    let en_passant_square = match fen_parse_en_passant_square(&fields[3]) {
        Ok(e) => e,
        Err(e) => return Err(e),
    };
    let half_move_clock: u8 = match parse_number(&fields[4], 255) {
        Some(v) => v as u8,
        None => return Err(FenError::InvalidHalfMoveClock),
    };
    let full_move_number: u16 = match parse_number(&fields[5], 65535) {
        Some(v) => v as u16,
        None => return Err(FenError::InvalidFullMoveNumber),
    };
    Ok(FenParts { pieces, active_colour, castling_rights, en_passant_square, half_move_clock, full_move_number })
}


// ----------------------------------------------------------------------
// Writing.
// ----------------------------------------------------------------------

pub open spec fn digit_char(d: nat) -> char {
    (d + 48) as char
}

/// The decimal digits of `n`, without leading zeros.
pub open spec fn decimal_text(n: nat) -> Seq<char>
    decreases n,
{
    if n < 10 {
        seq![digit_char(n)]
    } else {
        decimal_text(n / 10).push(digit_char(n % 10))
    }
}

/// The FEN letter of a piece.
pub open spec fn fen_char(p: Piece) -> char {
    match (p.side, p.kind) {
        (Side::White, PieceKind::Pawn) => 'P',
        (Side::White, PieceKind::Knight) => 'N',
        (Side::White, PieceKind::Bishop) => 'B',
        (Side::White, PieceKind::Rook) => 'R',
        (Side::White, PieceKind::Queen) => 'Q',
        (Side::White, PieceKind::King) => 'K',
        (Side::Black, PieceKind::Pawn) => 'p',
        (Side::Black, PieceKind::Knight) => 'n',
        (Side::Black, PieceKind::Bishop) => 'b',
        (Side::Black, PieceKind::Rook) => 'r',
        (Side::Black, PieceKind::Queen) => 'q',
        (Side::Black, PieceKind::King) => 'k',
    }
}

pub open spec fn blanks_text(blanks: nat) -> Seq<char> {
    if blanks > 0 {
        seq![digit_char(blanks)]
    } else {
        Seq::<char>::empty()
    }
}

/// The text of rank `r` from file `f` on, with `blanks` empty squares
/// counted before `f` and not yet written.
pub open spec fn rank_text(b: Seq<Option<Piece>>, r: int, f: int, blanks: nat) -> Seq<char>
    decreases 8 - f,
{
    if f >= 8 {
        blanks_text(blanks)
    } else {
        match b[8 * r + f] {
            None => rank_text(b, r, f + 1, blanks + 1),
            Some(p) => blanks_text(blanks) + seq![fen_char(p)] + rank_text(b, r, f + 1, 0),
        }
    }
}

/// The texts of ranks `r` down to 1, separated by `/`.
pub open spec fn ranks_text(b: Seq<Option<Piece>>, r: int) -> Seq<char>
    decreases r,
{
    if r <= 0 {
        rank_text(b, 0, 0, 0)
    } else {
        rank_text(b, r, 0, 0) + seq!['/'] + ranks_text(b, r - 1)
    }
}

pub open spec fn colour_text(s: Side) -> Seq<char> {
    match s {
        Side::White => seq!['w'],
        Side::Black => seq!['b'],
    }
}

/// The castling field: the letters of the rights held, in the order K, Q,
/// k, q, or `-` when none is held.
pub open spec fn castling_text(rights: u8) -> Seq<char> {
    let t = (if rights & 1 != 0 { seq!['K'] } else { Seq::<char>::empty() }) + (if rights & 2 != 0 {
        seq!['Q']
    } else {
        Seq::<char>::empty()
    }) + (if rights & 4 != 0 { seq!['k'] } else { Seq::<char>::empty() }) + (if rights & 8 != 0 {
        seq!['q']
    } else {
        Seq::<char>::empty()
    });
    if t.len() == 0 {
        seq!['-']
    } else {
        t
    }
}

pub open spec fn ep_text(e: Option<Square>) -> Seq<char> {
    match e {
        Some(s) => square_name(s.idx()),
        None => seq!['-'],
    }
}

/// The FEN record of a position's fields.
pub open spec fn fen_text(
    b: Seq<Option<Piece>>,
    side: Side,
    rights: u8,
    ep: Option<Square>,
    half: nat,
    full: nat,
) -> Seq<char> {
    ranks_text(b, 7) + seq![' '] + colour_text(side) + seq![' '] + castling_text(rights) + seq![' ']
        + ep_text(ep) + seq![' '] + decimal_text(half) + seq![' '] + decimal_text(full)
}

/// Appends the decimal digits of `n`.
pub fn push_decimal(out: &mut Vec<char>, n: u128)
    ensures
        final(out)@ == old(out)@ + decimal_text(n as nat),
    decreases n,
{
    if n >= 10 {
        push_decimal(out, n / 10);
    }
    let d = n % 10;
    let c = (d + 48) as u8 as char;
    proof {
        assert(c == digit_char(d as nat));
    }
    out.push(c);
    proof {
        if n >= 10 {
            assert(decimal_text(n as nat) == decimal_text((n / 10) as nat).push(digit_char((n % 10) as nat)));
        }
    }
    assert(out@ =~= old(out)@ + decimal_text(n as nat));
}

fn fen_char_of(p: Piece) -> (c: char)
    ensures
        c == fen_char(p),
{
    match (p.side, p.kind) {
        (Side::White, PieceKind::Pawn) => 'P',
        (Side::White, PieceKind::Knight) => 'N',
        (Side::White, PieceKind::Bishop) => 'B',
        (Side::White, PieceKind::Rook) => 'R',
        (Side::White, PieceKind::Queen) => 'Q',
        (Side::White, PieceKind::King) => 'K',
        (Side::Black, PieceKind::Pawn) => 'p',
        (Side::Black, PieceKind::Knight) => 'n',
        (Side::Black, PieceKind::Bishop) => 'b',
        (Side::Black, PieceKind::Rook) => 'r',
        (Side::Black, PieceKind::Queen) => 'q',
        (Side::Black, PieceKind::King) => 'k',
    }
}

fn push_rank(out: &mut Vec<char>, pieces: &PerSquare<Option<Piece>>, r: usize)
    requires
        r < 8,
    ensures
        final(out)@ == old(out)@ + rank_text(pieces.0@, r as int, 0, 0),
{
    let ghost b = pieces.0@;
    let mut blanks: usize = 0;
    let mut f: usize = 0;
    while f < 8
        invariant
            r < 8,
            b == pieces.0@,
            f <= 8,
            blanks <= f,
            out@ + rank_text(b, r as int, f as int, blanks as nat) == old(out)@ + rank_text(b, r as int, 0, 0),
        decreases 8 - f,
    {
        let ghost before = out@;
        match pieces.get(Square::from_index(8 * r + f)) {
            None => {
                blanks = blanks + 1;
            },
            Some(p) => {
                if blanks > 0 {
                    out.push((blanks as u8 + 48) as char);
                }
                out.push(fen_char_of(p));
                proof {
                    assert(out@ =~= before + blanks_text(blanks as nat) + seq![fen_char(p)]);
                    assert(before + rank_text(b, r as int, f as int, blanks as nat) =~= out@ + rank_text(b, r as int, f as int + 1, 0));
                }
                blanks = 0;
            },
        }
        f = f + 1;
    }
    let ghost before = out@;
    if blanks > 0 {
        out.push((blanks as u8 + 48) as char);
    }
    proof {
        assert(out@ =~= before + blanks_text(blanks as nat));
    }
}

fn push_castling(out: &mut Vec<char>, rights: CastlingRights)
    ensures
        final(out)@ == old(out)@ + castling_text(rights.rights),
{
    let ghost before = out@;
    let start = out.len();
    let r = rights.rights_u8();
    if r & 1 != 0 {
        out.push('K');
    }
    if r & 2 != 0 {
        out.push('Q');
    }
    if r & 4 != 0 {
        out.push('k');
    }
    if r & 8 != 0 {
        out.push('q');
    }
    if out.len() == start {
        out.push('-');
    }
    proof {
        let t = (if r & 1 != 0 { seq!['K'] } else { Seq::<char>::empty() }) + (if r & 2 != 0 {
            seq!['Q']
        } else {
            Seq::<char>::empty()
        }) + (if r & 4 != 0 { seq!['k'] } else { Seq::<char>::empty() }) + (if r & 8 != 0 {
            seq!['q']
        } else {
            Seq::<char>::empty()
        });
        if t.len() == 0 {
            assert(out@ =~= before + seq!['-']);
        } else {
            assert(out@ =~= before + t);
        }
    }
}

fn push_placement(out: &mut Vec<char>, pieces: &PerSquare<Option<Piece>>)
    ensures
        final(out)@ == old(out)@ + ranks_text(pieces.0@, 7),
{
    let ghost b = pieces.0@;
    let ghost start = out@;
    let mut r: usize = 7;
    push_rank(out, pieces, 7);
    while r > 0
        invariant
            r <= 7,
            b == pieces.0@,
            out@ + (if r > 0 { seq!['/'] + ranks_text(b, r - 1) } else { Seq::<char>::empty() }) == start + ranks_text(b, 7),
        decreases r,
    {
        let ghost before = out@;
        out.push('/');
        push_rank(out, pieces, r - 1);
        proof {
            assert(ranks_text(b, r - 1) == (if r - 1 > 0 {
                rank_text(b, r - 1, 0, 0) + seq!['/'] + ranks_text(b, r - 2)
            } else {
                rank_text(b, 0, 0, 0)
            }));
            if r - 1 > 0 {
                assert(before + (seq!['/'] + ranks_text(b, r - 1)) =~= out@ + (seq!['/'] + ranks_text(b, r - 2)));
            } else {
                assert(before + (seq!['/'] + ranks_text(b, r - 1)) =~= out@ + Seq::<char>::empty());
            }
        }
        r = r - 1;
    }
    proof {
        assert(out@ =~= start + ranks_text(b, 7));
    }
}

fn push_ep(out: &mut Vec<char>, ep: Option<Square>)
    ensures
        final(out)@ == old(out)@ + ep_text(ep),
{
    match ep {
        Some(sq) => {
            let i = sq.index();
            out.push((97 + (i % 8)) as u8 as char);
            out.push((49 + (i / 8)) as u8 as char);
        },
        None => out.push('-'),
    }
    assert(out@ =~= old(out)@ + ep_text(ep));
}

/// Writes the FEN record of a position's fields.
pub fn format_fen_parts(parts: &FenParts) -> (s: String)
    ensures
        s@ == fen_text(
            parts.pieces.0@,
            parts.active_colour,
            parts.castling_rights.rights,
            parts.en_passant_square,
            parts.half_move_clock as nat,
            parts.full_move_number as nat,
        ),
{
    let mut out: Vec<char> = Vec::new();
    push_placement(&mut out, &parts.pieces);
    let ghost s1 = out@;
    out.push(' ');
    match parts.active_colour {
        Side::White => out.push('w'),
        Side::Black => out.push('b'),
    }
    out.push(' ');
    let ghost s2 = out@;
    push_castling(&mut out, parts.castling_rights);
    out.push(' ');
    push_ep(&mut out, parts.en_passant_square);
    out.push(' ');
    let ghost s3 = out@;
    push_decimal(&mut out, parts.half_move_clock as u128);
    out.push(' ');
    push_decimal(&mut out, parts.full_move_number as u128);
    proof {
        assert(s2 =~= s1 + seq![' '] + colour_text(parts.active_colour) + seq![' ']);
        assert(out@ =~= fen_text(
            parts.pieces.0@,
            parts.active_colour,
            parts.castling_rights.rights,
            parts.en_passant_square,
            parts.half_move_clock as nat,
            parts.full_move_number as nat,
        ));
    }
    string_from_chars(&out)
}


/// The rights read from a castling field fit in four bits.
pub proof fn lemma_castling_bits_bound(s: Seq<char>)
    ensures
        parse_castling(s) matches Some(r) ==> r < 16,
{
    lemma_castling_bits_small(s);
}

proof fn lemma_castling_bits_small(s: Seq<char>)
    ensures
        (forall|i: int| 0 <= i < s.len() ==> #[trigger] castling_char_bit(s[i]) is Some) ==> castling_bits(s) < 16,
    decreases s.len(),
{
    if s.len() > 0 {
        lemma_castling_bits_small(s.drop_last());
        if forall|i: int| 0 <= i < s.len() ==> #[trigger] castling_char_bit(s[i]) is Some {
            assert forall|i: int| 0 <= i < s.drop_last().len() implies #[trigger] castling_char_bit(s.drop_last()[i]) is Some by {
                assert(s.drop_last()[i] == s[i]);
            }
            let x = castling_bits(s.drop_last());
            let b = castling_char_bit(s.last())->0;
            assert(castling_char_bit(s[s.len() - 1]) is Some);
            assert(x < 16 && b < 16 ==> x | b < 16) by (bit_vector);
        }
    }
}

/// The FEN record of a position.
pub fn to_fen(position: &Position) -> (r: String)
    requires
        position.wf(),
    ensures
        r@ == fen_text(
            position.board(),
            position.state.active_side,
            position.state.castling.rights,
            position.state.en_passant,
            position.state.half_move_clock as nat,
            position.state.full_move_number as nat,
        ),
{
    proof {
        position.lemma_rights_small();
    }
    format_fen_parts(&to_fen_parts(position))
}

fn to_fen_parts(position: &Position) -> (r: FenParts)
    ensures
        r.pieces == position.piece_by_square,
        r.active_colour == position.state.active_side,
        r.castling_rights == position.state.castling,
        r.en_passant_square == position.state.en_passant,
        r.half_move_clock == position.state.half_move_clock,
        r.full_move_number == position.state.full_move_number,
{
    FenParts {
        pieces: position.piece_by_square,
        active_colour: position.state.active_side,
        castling_rights: position.state.castling,
        en_passant_square: position.state.en_passant,
        half_move_clock: position.state.half_move_clock,
        full_move_number: position.state.full_move_number,
    }
}


// ----------------------------------------------------------------------
// Reading back what was written.
// ----------------------------------------------------------------------

/// Cutting at a separator between two texts cuts each of them.
proof fn lemma_split_join(a: Seq<char>, b: Seq<char>, sep: char)
    ensures
        split_at_char(a + seq![sep] + b, sep) == split_at_char(a, sep) + split_at_char(b, sep),
    decreases b.len(),
{
    if b.len() == 0 {
        assert(a + seq![sep] + b =~= a.push(sep));
        assert((a.push(sep)).drop_last() =~= a);
        assert(split_at_char(a, sep) + split_at_char(b, sep) =~= split_at_char(a, sep).push(Seq::<char>::empty()));
    } else {
        let b2 = b.drop_last();
        let c = b.last();
        lemma_split_join(a, b2, sep);
        lemma_split_nonempty(b2, sep);
        lemma_split_nonempty(a, sep);
        let whole = a + seq![sep] + b;
        assert(whole.drop_last() =~= a + seq![sep] + b2);
        assert(whole.last() == c);
        let x = split_at_char(a, sep);
        let y = split_at_char(b2, sep);
        if c == sep {
            assert((x + y).push(Seq::<char>::empty()) =~= x + y.push(Seq::<char>::empty()));
        } else {
            assert((x + y).update((x + y).len() - 1, (x + y).last().push(c)) =~= x + y.update(y.len() - 1, y.last().push(c)));
        }
    }
}

/// A text without the separator is one piece.
proof fn lemma_split_single(a: Seq<char>, sep: char)
    requires
        forall|i: int| 0 <= i < a.len() ==> a[i] != sep,
    ensures
        split_at_char(a, sep) == seq![a],
    decreases a.len(),
{
    if a.len() > 0 {
        let a2 = a.drop_last();
        assert forall|i: int| 0 <= i < a2.len() implies a2[i] != sep by {
            assert(a2[i] == a[i]);
        }
        lemma_split_single(a2, sep);
        assert(a[a.len() - 1] != sep);
        assert(a2.push(a.last()) =~= a);
        assert(seq![a2].update(0, a2.push(a.last())) =~= seq![a]);
    } else {
        assert(a =~= Seq::<char>::empty());
    }
}

/// What a rank's text may hold: digits one to eight, piece letters.
pub open spec fn rank_char_ok(c: char) -> bool {
    ('1' <= c <= '8') || piece_of_char(c) is Some
}

proof fn lemma_fen_char(p: Piece)
    ensures
        piece_of_char(fen_char(p)) == Some(p),
        !is_digit(fen_char(p)),
        fen_char(p) != ' ' && fen_char(p) != '/',
{
}

proof fn lemma_expand_rank_join(s1: Seq<char>, s2: Seq<char>)
    ensures
        expand_rank(s1 + s2) == expand_rank(s1) + expand_rank(s2),
    decreases s2.len(),
{
    if s2.len() == 0 {
        assert(s1 + s2 =~= s1);
        assert(expand_rank(s1) + expand_rank(s2) =~= expand_rank(s1));
    } else {
        lemma_expand_rank_join(s1, s2.drop_last());
        assert((s1 + s2).drop_last() =~= s1 + s2.drop_last());
        assert((s1 + s2).last() == s2.last());
        let c = s2.last();
        let tail = if is_digit(c) {
            Seq::new(digit_value(c), |i: int| None::<Piece>)
        } else {
            seq![piece_of_char(c)]
        };
        assert(expand_rank(s1) + expand_rank(s2.drop_last()) + tail =~= expand_rank(s1) + (expand_rank(s2.drop_last()) + tail));
    }
}

proof fn lemma_blanks_text(k: nat)
    requires
        k <= 8,
    ensures
        expand_rank(blanks_text(k)) == Seq::new(k, |i: int| None::<Piece>),
        forall|i: int| 0 <= i < blanks_text(k).len() ==> rank_char_ok(#[trigger] blanks_text(k)[i]),
        forall|i: int| 0 <= i < blanks_text(k).len() ==> blanks_text(k)[i] != ' ' && blanks_text(k)[i] != '/',
{
    if k > 0 {
        let t = blanks_text(k);
        assert(t.drop_last() =~= Seq::<char>::empty());
        assert(digit_value(digit_char(k)) == k);
        assert(expand_rank(Seq::<char>::empty()) + Seq::new(k, |i: int| None::<Piece>) =~= Seq::new(k, |i: int| None::<Piece>));
    } else {
        assert(Seq::new(0, |i: int| None::<Piece>) =~= Seq::<Option<Piece>>::empty());
    }
}

/// A rank's text fills exactly that rank's squares from file `f` on, after
/// the `k` empty squares still to be written.
proof fn lemma_rank_text(b: Seq<Option<Piece>>, r: int, f: int, k: nat)
    requires
        b.len() == 64,
        0 <= r < 8,
        0 <= f <= 8,
        k <= f,
        forall|t: int| 8 * r + f - k <= t < 8 * r + f ==> #[trigger] b[t] is None,
    ensures
        expand_rank(rank_text(b, r, f, k)) == b.subrange(8 * r + f - k, 8 * r + 8),
        forall|i: int| 0 <= i < rank_text(b, r, f, k).len() ==> rank_char_ok(#[trigger] rank_text(b, r, f, k)[i]),
        forall|i: int| 0 <= i < rank_text(b, r, f, k).len() ==> rank_text(b, r, f, k)[i] != ' ' && rank_text(b, r, f, k)[i] != '/',
    decreases 8 - f,
{
    let t = rank_text(b, r, f, k);
    let lo = 8 * r + f - k;
    if f >= 8 {
        lemma_blanks_text(k);
        assert forall|i: int| 0 <= i < k implies #[trigger] b.subrange(lo, 8 * r + 8)[i] == None::<Piece> by {
            assert(b[lo + i] is None);
        }
        assert(b.subrange(lo, 8 * r + 8) =~= Seq::new(k, |i: int| None::<Piece>));
    } else {
        match b[8 * r + f] {
            None => {
                lemma_rank_text(b, r, f + 1, k + 1);
            },
            Some(p) => {
                lemma_rank_text(b, r, f + 1, 0);
                lemma_blanks_text(k);
                lemma_fen_char(p);
                let bt = blanks_text(k);
                let rest = rank_text(b, r, f + 1, 0);
                lemma_expand_rank_join(bt + seq![fen_char(p)], rest);
                lemma_expand_rank_join(bt, seq![fen_char(p)]);
                assert(seq![fen_char(p)].drop_last() =~= Seq::<char>::empty());
                assert(expand_rank(Seq::<char>::empty()) =~= Seq::<Option<Piece>>::empty());
                assert(expand_rank(seq![fen_char(p)]) =~= seq![Some(p)]);
                let want = b.subrange(lo, 8 * r + 8);
                let got = Seq::new(k, |i: int| None::<Piece>) + seq![Some(p)] + b.subrange(8 * r + f + 1, 8 * r + 8);
                assert forall|i: int| 0 <= i < want.len() implies #[trigger] got[i] == want[i] by {
                    if i < k {
                        assert(b[lo + i] is None);
                    }
                }
                assert(got =~= want);
                assert forall|i: int| 0 <= i < t.len() implies rank_char_ok(#[trigger] t[i]) && t[i] != ' ' && t[i] != '/' by {
                    if i < bt.len() {
                        assert(t[i] == bt[i]);
                    } else if i == bt.len() {
                        assert(t[i] == fen_char(p));
                    } else {
                        assert(t[i] == rest[i - bt.len() - 1]);
                    }
                }
            },
        }
    }
}

/// The ranks' texts from rank `r` down, cut at `/`, and what they fill.
proof fn lemma_ranks_text(b: Seq<Option<Piece>>, r: int)
    requires
        b.len() == 64,
        0 <= r < 8,
    ensures
        split_at_char(ranks_text(b, r), '/').len() == r + 1,
        forall|i: int| 0 <= i <= r ==> #[trigger] split_at_char(ranks_text(b, r), '/')[i] == rank_text(b, r - i, 0, 0),
        expand_ranks(split_at_char(ranks_text(b, r), '/')) == b.subrange(0, 8 * r + 8),
        forall|i: int| 0 <= i < ranks_text(b, r).len() ==> #[trigger] ranks_text(b, r)[i] != ' ',
    decreases r,
{
    lemma_rank_text(b, r, 0, 0);
    let t = rank_text(b, r, 0, 0);
    lemma_split_single(t, '/');
    if r == 0 {
        let rs = split_at_char(ranks_text(b, 0), '/');
        assert(rs == seq![t]);
        assert(rs.subrange(1, 1) =~= Seq::<Seq<char>>::empty());
        assert(expand_ranks(Seq::<Seq<char>>::empty()) =~= Seq::<Option<Piece>>::empty());
        assert(expand_ranks(rs) =~= expand_rank(t));
    } else {
        lemma_ranks_text(b, r - 1);
        let rest = ranks_text(b, r - 1);
        lemma_split_join(t, rest, '/');
        let rs = split_at_char(ranks_text(b, r), '/');
        let rs2 = split_at_char(rest, '/');
        assert(rs == seq![t] + rs2);
        assert forall|i: int| 0 <= i <= r implies #[trigger] rs[i] == rank_text(b, r - i, 0, 0) by {
            if i > 0 {
                assert(rs[i] == rs2[i - 1]);
            }
        }
        assert(rs.subrange(1, rs.len() as int) =~= rs2);
        assert(rs[0] == t);
        assert(b.subrange(0, 8 * r) + b.subrange(8 * r, 8 * r + 8) =~= b.subrange(0, 8 * r + 8));
        let whole = ranks_text(b, r);
        assert forall|i: int| 0 <= i < whole.len() implies #[trigger] whole[i] != ' ' by {
            if i < t.len() {
                assert(whole[i] == t[i]);
            } else if i > t.len() {
                assert(whole[i] == rest[i - t.len() - 1]);
            }
        }
    }
}

proof fn lemma_decimal_text(n: nat)
    ensures
        decimal_text(n).len() > 0,
        all_digits(decimal_text(n)),
        digits_value(decimal_text(n)) == n,
        decimal_text(n)[0] != '+',
        forall|i: int| 0 <= i < decimal_text(n).len() ==> #[trigger] decimal_text(n)[i] != ' ',
    decreases n,
{
    let t = decimal_text(n);
    if n < 10 {
        assert(t.drop_last() =~= Seq::<char>::empty());
        assert(digit_value(digit_char(n)) == n);
        assert(digits_value(Seq::<char>::empty()) == 0);
        assert(t.last() == digit_char(n));
        assert(digits_value(t) == digits_value(t.drop_last()) * 10 + digit_value(t.last()));
    } else {
        assert(digit_value(digit_char(n % 10)) == n % 10);
        lemma_decimal_text(n / 10);
        let t2 = decimal_text(n / 10);
        assert(t.drop_last() =~= t2);
        assert(t[0] == t2[0]);
        assert forall|i: int| 0 <= i < t.len() implies is_digit(#[trigger] t[i]) && t[i] != ' ' by {
            if i < t2.len() {
                assert(t[i] == t2[i]);
            }
        }
        assert((n / 10) * 10 + n % 10 == n);
        assert(t.last() == digit_char(n % 10));
        assert(digits_value(t) == digits_value(t.drop_last()) * 10 + digit_value(t.last()));
    }
}

proof fn lemma_decimal_parse(n: nat, max: nat)
    requires
        n <= max,
    ensures
        parse_uint(decimal_text(n), max) == Some(n),
{
    lemma_decimal_text(n);
}

proof fn lemma_castling_bits_push(s: Seq<char>, c: char)
    ensures
        castling_bits(s.push(c)) == castling_bits(s) | castling_char_bit(c)->0,
{
    assert(s.push(c).drop_last() =~= s);
}

proof fn lemma_castling_text(r: u8)
    requires
        r < 16,
    ensures
        parse_castling(castling_text(r)) == Some(r),
        forall|i: int| 0 <= i < castling_text(r).len() ==> #[trigger] castling_text(r)[i] != ' ',
{
    let e = Seq::<char>::empty();
    let t1 = if r & 1 != 0 { seq!['K'] } else { e };
    let t2 = t1 + (if r & 2 != 0 { seq!['Q'] } else { e });
    let t3 = t2 + (if r & 4 != 0 { seq!['k'] } else { e });
    let t4 = t3 + (if r & 8 != 0 { seq!['q'] } else { e });
    assert(castling_text(r) == if t4.len() == 0 { seq!['-'] } else { t4 });
    let b1: u8 = if r & 1 != 0 { 1 } else { 0 };
    let b2: u8 = if r & 2 != 0 { 2 } else { 0 };
    let b3: u8 = if r & 4 != 0 { 4 } else { 0 };
    let b4: u8 = if r & 8 != 0 { 8 } else { 0 };
    assert(castling_bits(e) == 0);
    if r & 1 != 0 {
        lemma_castling_bits_push(e, 'K');
        assert(e.push('K') =~= t1);
    }
    assert(castling_bits(t1) == 0u8 | b1) by {
        assert(0u8 | 0u8 == 0u8) by (bit_vector);
    }
    if r & 2 != 0 {
        lemma_castling_bits_push(t1, 'Q');
        assert(t1.push('Q') =~= t2);
    } else {
        assert(t2 =~= t1);
    }
    if r & 4 != 0 {
        lemma_castling_bits_push(t2, 'k');
        assert(t2.push('k') =~= t3);
    } else {
        assert(t3 =~= t2);
    }
    if r & 8 != 0 {
        lemma_castling_bits_push(t3, 'q');
        assert(t3.push('q') =~= t4);
    } else {
        assert(t4 =~= t3);
    }
    assert(r < 16 ==> {
        let b1: u8 = if r & 1 != 0 { 1 } else { 0 };
        let b2: u8 = if r & 2 != 0 { 2 } else { 0 };
        let b3: u8 = if r & 4 != 0 { 4 } else { 0 };
        let b4: u8 = if r & 8 != 0 { 8 } else { 0 };
        &&& (((0u8 | b1) | b2) | b3) | b4 == r
        &&& (0u8 | b1) | 0u8 == 0u8 | b1
        &&& ((0u8 | b1) | b2) | 0u8 == (0u8 | b1) | b2
        &&& (((0u8 | b1) | b2) | b3) | 0u8 == ((0u8 | b1) | b2) | b3
        &&& (b1 == 0 && b2 == 0 && b3 == 0 && b4 == 0 ==> r == 0)
    }) by (bit_vector);
    assert(castling_bits(t2) == (0u8 | b1) | b2);
    assert(castling_bits(t3) == ((0u8 | b1) | b2) | b3);
    assert(castling_bits(t4) == (((0u8 | b1) | b2) | b3) | b4);
    assert forall|i: int| 0 <= i < t4.len() implies #[trigger] castling_char_bit(t4[i]) is Some && t4[i] != ' ' && t4[i] != '-' by {
    }
    if t4.len() > 0 {
        assert(t4 != seq!['-']) by {
            if t4 == seq!['-'] {
                assert(t4[0] == '-');
            }
        }
    }
}

proof fn lemma_ep_text(e: Option<Square>)
    ensures
        parse_ep(ep_text(e)) == Some(e),
        forall|i: int| 0 <= i < ep_text(e).len() ==> #[trigger] ep_text(e)[i] != ' ',
{
    if let Some(s) = e {
        let i = s.idx();
        lemma_sq_at(i);
        assert(0 <= i < 64);
        let t = square_name(i);
        assert(t != seq!['-']) by {
            if t == seq!['-'] {
                assert(t[0] == '-');
            }
        }
        assert(i % 8 + 8 * (i / 8) == i);
        assert(sq_at(i) == s);
    }
}

/// Reading back a written FEN record gives the fields it was written from.
pub proof fn lemma_fen_round_trip(
    b: Seq<Option<Piece>>,
    side: Side,
    rights: u8,
    ep: Option<Square>,
    half: u8,
    full: u16,
)
    requires
        b.len() == 64,
        rights < 16,
    ensures
        fen_error(fen_text(b, side, rights, ep, half as nat, full as nat)) is None,
        placement_board(split_at_char(split_at_char(fen_text(b, side, rights, ep, half as nat, full as nat), ' ')[0], '/')) == b,
        parse_colour(split_at_char(fen_text(b, side, rights, ep, half as nat, full as nat), ' ')[1]) == Some(side),
        parse_castling(split_at_char(fen_text(b, side, rights, ep, half as nat, full as nat), ' ')[2]) == Some(rights),
        parse_ep(split_at_char(fen_text(b, side, rights, ep, half as nat, full as nat), ' ')[3]) == Some(ep),
        parse_uint(split_at_char(fen_text(b, side, rights, ep, half as nat, full as nat), ' ')[4], 255) == Some(half as nat),
        parse_uint(split_at_char(fen_text(b, side, rights, ep, half as nat, full as nat), ' ')[5], 65535) == Some(full as nat),
{
    let p = ranks_text(b, 7);
    let c = colour_text(side);
    let k = castling_text(rights);
    let e = ep_text(ep);
    let h = decimal_text(half as nat);
    let f = decimal_text(full as nat);
    lemma_ranks_text(b, 7);
    lemma_castling_text(rights);
    lemma_ep_text(ep);
    lemma_decimal_text(half as nat);
    lemma_decimal_text(full as nat);
    lemma_decimal_parse(half as nat, 255);
    lemma_decimal_parse(full as nat, 65535);
    lemma_split_single(p, ' ');
    lemma_split_single(c, ' ');
    lemma_split_single(k, ' ');
    lemma_split_single(e, ' ');
    lemma_split_single(h, ' ');
    lemma_split_single(f, ' ');
    let x1 = p;
    let x2 = x1 + seq![' '] + c;
    let x3 = x2 + seq![' '] + k;
    let x4 = x3 + seq![' '] + e;
    let x5 = x4 + seq![' '] + h;
    let x6 = x5 + seq![' '] + f;
    assert(x6 == fen_text(b, side, rights, ep, half as nat, full as nat));
    lemma_split_join(x1, c, ' ');
    lemma_split_join(x2, k, ' ');
    lemma_split_join(x3, e, ' ');
    lemma_split_join(x4, h, ' ');
    lemma_split_join(x5, f, ' ');
    let parts = split_at_char(x6, ' ');
    assert(parts =~= seq![p, c, k, e, h, f]);
    let rs = split_at_char(p, '/');
    assert(b.subrange(0, 64) =~= b);
    assert(placement_board(rs) =~= b);
    assert forall|i: int, j: int| 0 <= i < rs.len() && 0 <= j < rs[i].len() implies (is_digit(#[trigger] rs[i][j])
        || piece_of_char(rs[i][j]) is Some) by {
        assert(rs[i] == rank_text(b, 7 - i, 0, 0));
        lemma_rank_text(b, 7 - i, 0, 0);
        assert(rank_char_ok(rank_text(b, 7 - i, 0, 0)[j]));
    }
    assert(parse_colour(c) == Some(side));
}


/// The board of the standard starting position.
pub open spec fn start_board() -> Seq<Option<Piece>> {
    Seq::new(64, |i: int| start_square(i))
}

pub open spec fn back_rank_kind(f: int) -> PieceKind {
    if f == 0 || f == 7 {
        PieceKind::Rook
    } else if f == 1 || f == 6 {
        PieceKind::Knight
    } else if f == 2 || f == 5 {
        PieceKind::Bishop
    } else if f == 3 {
        PieceKind::Queen
    } else {
        PieceKind::King
    }
}

pub open spec fn start_square(i: int) -> Option<Piece> {
    if 0 <= i < 8 {
        Some(Piece { side: Side::White, kind: back_rank_kind(i) })
    } else if 8 <= i < 16 {
        Some(Piece { side: Side::White, kind: PieceKind::Pawn })
    } else if 48 <= i < 56 {
        Some(Piece { side: Side::Black, kind: PieceKind::Pawn })
    } else if 56 <= i < 64 {
        Some(Piece { side: Side::Black, kind: back_rank_kind(i - 56) })
    } else {
        None
    }
}

proof fn lemma_start_ranks()
    ensures
        rank_text(start_board(), 0, 0, 0) == seq!['R', 'N', 'B', 'Q', 'K', 'B', 'N', 'R'],
        rank_text(start_board(), 1, 0, 0) == seq!['P', 'P', 'P', 'P', 'P', 'P', 'P', 'P'],
        rank_text(start_board(), 6, 0, 0) == seq!['p', 'p', 'p', 'p', 'p', 'p', 'p', 'p'],
        rank_text(start_board(), 7, 0, 0) == seq!['r', 'n', 'b', 'q', 'k', 'b', 'n', 'r'],
        forall|r: int| 2 <= r < 6 ==> #[trigger] rank_text(start_board(), r, 0, 0) == seq!['8'],
{
    let b = start_board();
    assert forall|r: int| 2 <= r < 6 implies #[trigger] rank_text(b, r, 0, 0) == seq!['8'] by {
        assert(rank_text(b, r, 8, 8) == seq!['8']);
        assert(rank_text(b, r, 7, 7) == seq!['8']);
        assert(rank_text(b, r, 6, 6) == seq!['8']);
        assert(rank_text(b, r, 5, 5) == seq!['8']);
        assert(rank_text(b, r, 4, 4) == seq!['8']);
        assert(rank_text(b, r, 3, 3) == seq!['8']);
        assert(rank_text(b, r, 2, 2) == seq!['8']);
        assert(rank_text(b, r, 1, 1) == seq!['8']);
    }
    let e = Seq::<char>::empty();
    assert(rank_text(b, 0, 8, 0) == e);
    assert(rank_text(b, 0, 7, 0) =~= seq!['R']);
    assert(rank_text(b, 0, 6, 0) =~= seq!['N', 'R']);
    assert(rank_text(b, 0, 5, 0) =~= seq!['B', 'N', 'R']);
    assert(rank_text(b, 0, 4, 0) =~= seq!['K', 'B', 'N', 'R']);
    assert(rank_text(b, 0, 3, 0) =~= seq!['Q', 'K', 'B', 'N', 'R']);
    assert(rank_text(b, 0, 2, 0) =~= seq!['B', 'Q', 'K', 'B', 'N', 'R']);
    assert(rank_text(b, 0, 1, 0) =~= seq!['N', 'B', 'Q', 'K', 'B', 'N', 'R']);
    assert(rank_text(b, 0, 0, 0) =~= seq!['R', 'N', 'B', 'Q', 'K', 'B', 'N', 'R']);
    assert(rank_text(b, 7, 8, 0) == e);
    assert(rank_text(b, 7, 7, 0) =~= seq!['r']);
    assert(rank_text(b, 7, 6, 0) =~= seq!['n', 'r']);
    assert(rank_text(b, 7, 5, 0) =~= seq!['b', 'n', 'r']);
    assert(rank_text(b, 7, 4, 0) =~= seq!['k', 'b', 'n', 'r']);
    assert(rank_text(b, 7, 3, 0) =~= seq!['q', 'k', 'b', 'n', 'r']);
    assert(rank_text(b, 7, 2, 0) =~= seq!['b', 'q', 'k', 'b', 'n', 'r']);
    assert(rank_text(b, 7, 1, 0) =~= seq!['n', 'b', 'q', 'k', 'b', 'n', 'r']);
    assert(rank_text(b, 7, 0, 0) =~= seq!['r', 'n', 'b', 'q', 'k', 'b', 'n', 'r']);
    assert(rank_text(b, 1, 8, 0) == e);
    assert(rank_text(b, 1, 7, 0) =~= seq!['P']);
    assert(rank_text(b, 1, 6, 0) =~= seq!['P', 'P']);
    assert(rank_text(b, 1, 5, 0) =~= seq!['P', 'P', 'P']);
    assert(rank_text(b, 1, 4, 0) =~= seq!['P', 'P', 'P', 'P']);
    assert(rank_text(b, 1, 3, 0) =~= seq!['P', 'P', 'P', 'P', 'P']);
    assert(rank_text(b, 1, 2, 0) =~= seq!['P', 'P', 'P', 'P', 'P', 'P']);
    assert(rank_text(b, 1, 1, 0) =~= seq!['P', 'P', 'P', 'P', 'P', 'P', 'P']);
    assert(rank_text(b, 1, 0, 0) =~= seq!['P', 'P', 'P', 'P', 'P', 'P', 'P', 'P']);
    assert(rank_text(b, 6, 8, 0) == e);
    assert(rank_text(b, 6, 7, 0) =~= seq!['p']);
    assert(rank_text(b, 6, 6, 0) =~= seq!['p', 'p']);
    assert(rank_text(b, 6, 5, 0) =~= seq!['p', 'p', 'p']);
    assert(rank_text(b, 6, 4, 0) =~= seq!['p', 'p', 'p', 'p']);
    assert(rank_text(b, 6, 3, 0) =~= seq!['p', 'p', 'p', 'p', 'p']);
    assert(rank_text(b, 6, 2, 0) =~= seq!['p', 'p', 'p', 'p', 'p', 'p']);
    assert(rank_text(b, 6, 1, 0) =~= seq!['p', 'p', 'p', 'p', 'p', 'p', 'p']);
    assert(rank_text(b, 6, 0, 0) =~= seq!['p', 'p', 'p', 'p', 'p', 'p', 'p', 'p']);
}

/// The standard starting FEN is the record of the starting position: white
/// to move, all four castling rights, no en passant square, clocks 0 and 1.
pub proof fn lemma_starting_fen()
    ensures
        STARTING_FEN@ == fen_text(start_board(), Side::White, 15, None, 0, 1),
{
    reveal_strlit("rnbqkbnr/pppppppp/8/8/8/8/PPPPPPPP/RNBQKBNR w KQkq - 0 1");
    lemma_start_ranks();
    let b = start_board();
    assert(ranks_text(b, 0) == rank_text(b, 0, 0, 0));
    assert(castling_text(15) =~= seq!['K', 'Q', 'k', 'q']) by {
        assert(15u8 & 1 != 0 && 15u8 & 2 != 0 && 15u8 & 4 != 0 && 15u8 & 8 != 0) by (bit_vector);
    }
    assert(decimal_text(0) == seq!['0']);
    assert(decimal_text(1) == seq!['1']);
    let eight = seq!['8'];
    assert(rank_text(b, 2, 0, 0) == eight);
    assert(rank_text(b, 3, 0, 0) == eight);
    assert(rank_text(b, 4, 0, 0) == eight);
    assert(rank_text(b, 5, 0, 0) == eight);
    let r1 = ranks_text(b, 1);
    assert(r1 =~= seq!['P', 'P', 'P', 'P', 'P', 'P', 'P', 'P', '/', 'R', 'N', 'B', 'Q', 'K', 'B', 'N', 'R']);
    let r2 = ranks_text(b, 2);
    assert(r2 =~= seq!['8', '/'] + r1);
    let r3 = ranks_text(b, 3);
    assert(r3 =~= seq!['8', '/'] + r2);
    let r4 = ranks_text(b, 4);
    assert(r4 =~= seq!['8', '/'] + r3);
    let r5 = ranks_text(b, 5);
    assert(r5 =~= seq!['8', '/'] + r4);
    let r6 = ranks_text(b, 6);
    assert(r6 =~= seq!['p', 'p', 'p', 'p', 'p', 'p', 'p', 'p', '/'] + r5);
    let r7 = ranks_text(b, 7);
    assert(r7 =~= seq!['r', 'n', 'b', 'q', 'k', 'b', 'n', 'r', '/'] + r6);
    assert(r7 =~= seq![
        'r', 'n', 'b', 'q', 'k', 'b', 'n', 'r', '/', 'p', 'p', 'p', 'p', 'p', 'p', 'p', 'p', '/', '8', '/', '8',
        '/', '8', '/', '8', '/', 'P', 'P', 'P', 'P', 'P', 'P', 'P', 'P', '/', 'R', 'N', 'B', 'Q', 'K', 'B', 'N',
        'R',
    ]);
    assert(fen_text(b, Side::White, 15, None, 0, 1) =~= STARTING_FEN@);
}


/// The standard starting FEN reads without error as the starting position.
pub proof fn lemma_starting_fen_reads()
    ensures
        fen_error(STARTING_FEN@) is None,
        placement_board(split_at_char(split_at_char(STARTING_FEN@, ' ')[0], '/')) == start_board(),
        parse_colour(split_at_char(STARTING_FEN@, ' ')[1]) == Some(Side::White),
        parse_castling(split_at_char(STARTING_FEN@, ' ')[2]) == Some(15u8),
        parse_ep(split_at_char(STARTING_FEN@, ' ')[3]) == Some(None::<Square>),
        parse_uint(split_at_char(STARTING_FEN@, ' ')[4], 255) == Some(0nat),
        parse_uint(split_at_char(STARTING_FEN@, ' ')[5], 65535) == Some(1nat),
{
    lemma_starting_fen();
    lemma_fen_round_trip(start_board(), Side::White, 15, None, 0, 1);
}

} // verus!
