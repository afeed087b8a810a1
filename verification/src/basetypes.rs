//! Core value types shared across the engine: sides, pieces, squares, moves,
//! castling rights and bitboards.

use vstd::prelude::*;
use crate::text::{str_chars, string_from_chars};

verus! {

/// The score of being mated at the root; a mate `n` plies away scores
/// `MATE - n` for the winner.
pub const MATE: i32 = 32000;

/// The deepest ply the search reaches.
pub const MAX_PLY: usize = 64;

/// Scores at least this far from zero are mate scores.
pub const MATE_BOUND: i32 = 31936;

/// How a game was won.
#[derive(Debug, Clone, Copy, PartialEq, Eq, Structural)]
pub enum WinReason {
    Checkmate,
}

/// How a game was drawn.
#[derive(Debug, Clone, Copy, PartialEq, Eq, Structural)]
pub enum DrawReason {
    Stalemate,
    FiftyMoveRule,
    ThreefoldRepetition,
    InsufficientMaterial,
}

/// Whether a game has ended, and how.
#[derive(Debug, Clone, Copy, PartialEq, Eq, Structural)]
pub enum GameStatus {
    Ongoing,
    Won { side: Side, reason: WinReason },
    Drawn { reason: DrawReason },
}

/// Errors raised when a move or square cannot be accepted.
#[derive(Debug, Clone, Copy, PartialEq, Eq, Structural)]
pub enum GenericErr {
    SquareParseError,
    InvalidMove,
    IllegalMove,
    InvalidCastleSquares,
    InvalidCastleChecked,
}

#[derive(Debug, Clone, Copy, PartialEq, Eq, Structural)]
pub enum Side {
    White,
    Black,
}

impl Side {
    pub open spec fn idx(self) -> int {
        self as u8 as int
    }

    pub open spec fn opp(self) -> Side {
        match self {
            Side::White => Side::Black,
            Side::Black => Side::White,
        }
    }

    /// The opposing side.
    pub fn other(&self) -> (r: Side)
        ensures
            r == self.opp(),
    {
        match self {
            Side::White => Side::Black,
            Side::Black => Side::White,
        }
    }

    pub fn index(self) -> (r: usize)
        ensures
            r as int == self.idx(),
            r < 2,
    {
        self as usize
    }

    pub fn from_index(i: usize) -> (r: Side)
        requires
            i < 2,
        ensures
            r.idx() == i,
    {
        if i == 0 {
            Side::White
        } else {
            Side::Black
        }
    }
}

#[derive(Debug, Clone, Copy, PartialEq, Eq, Structural)]
pub enum PieceKind {
    Pawn,
    Knight,
    Bishop,
    Rook,
    Queen,
    King,
}

impl PieceKind {
    pub open spec fn idx(self) -> int {
        self as u8 as int
    }

    pub fn index(self) -> (r: usize)
        ensures
            r as int == self.idx(),
            r < 6,
    {
        self as usize
    }

    pub fn from_index(i: usize) -> (r: PieceKind)
        requires
            i < 6,
        ensures
            r.idx() == i,
    {
        match i {
            0 => PieceKind::Pawn,
            1 => PieceKind::Knight,
            2 => PieceKind::Bishop,
            3 => PieceKind::Rook,
            4 => PieceKind::Queen,
            _ => PieceKind::King,
        }
    }
}

/// Piece kinds that move by sliding along a ray until blocked.
#[derive(Debug, Clone, Copy, PartialEq, Eq, Structural)]
pub enum SlidingPieceKind {
    Bishop,
    Rook,
}

/// Piece kinds whose moves come from precomputed, per-square lookup tables.
#[derive(Debug, Clone, Copy, PartialEq, Eq, Structural)]
pub enum IndexedPieceKind {
    Knight,
    Bishop,
    Rook,
    King,
}

impl SlidingPieceKind {
    pub open spec fn idx(self) -> int {
        self as u8 as int
    }

    pub fn index(self) -> (r: usize)
        ensures
            r as int == self.idx(),
            r < 2,
    {
        self as usize
    }

    pub open spec fn kind(self) -> PieceKind {
        match self {
            SlidingPieceKind::Bishop => PieceKind::Bishop,
            SlidingPieceKind::Rook => PieceKind::Rook,
        }
    }

    pub fn to_piece_kind(self) -> (r: PieceKind)
        ensures
            r == self.kind(),
    {
        match self {
            SlidingPieceKind::Bishop => PieceKind::Bishop,
            SlidingPieceKind::Rook => PieceKind::Rook,
        }
    }

    pub fn from_piece_kind(pk: PieceKind) -> (r: Option<SlidingPieceKind>)
        ensures
            r matches Some(s) ==> s.kind() == pk,
            r is None <==> (pk != PieceKind::Bishop && pk != PieceKind::Rook),
    {
        match pk {
            PieceKind::Bishop => Some(SlidingPieceKind::Bishop),
            PieceKind::Rook => Some(SlidingPieceKind::Rook),
            _ => None,
        }
    }
}

impl IndexedPieceKind {
    pub open spec fn idx(self) -> int {
        self as u8 as int
    }

    pub fn index(self) -> (r: usize)
        ensures
            r as int == self.idx(),
            r < 4,
    {
        self as usize
    }

    pub fn from_index(i: usize) -> (r: IndexedPieceKind)
        requires
            i < 4,
        ensures
            r.idx() == i,
    {
        match i {
            0 => IndexedPieceKind::Knight,
            1 => IndexedPieceKind::Bishop,
            2 => IndexedPieceKind::Rook,
            _ => IndexedPieceKind::King,
        }
    }

    pub open spec fn kind(self) -> PieceKind {
        match self {
            IndexedPieceKind::Knight => PieceKind::Knight,
            IndexedPieceKind::Bishop => PieceKind::Bishop,
            IndexedPieceKind::Rook => PieceKind::Rook,
            IndexedPieceKind::King => PieceKind::King,
        }
    }

    pub fn to_piece_kind(self) -> (r: PieceKind)
        ensures
            r == self.kind(),
    {
        match self {
            IndexedPieceKind::Knight => PieceKind::Knight,
            IndexedPieceKind::Bishop => PieceKind::Bishop,
            IndexedPieceKind::Rook => PieceKind::Rook,
            IndexedPieceKind::King => PieceKind::King,
        }
    }

    pub fn from_piece_kind(pk: PieceKind) -> (r: Option<IndexedPieceKind>)
        ensures
            r matches Some(s) ==> s.kind() == pk,
            r is None <==> (pk == PieceKind::Pawn || pk == PieceKind::Queen),
    {
        match pk {
            PieceKind::Knight => Some(IndexedPieceKind::Knight),
            PieceKind::Bishop => Some(IndexedPieceKind::Bishop),
            PieceKind::Rook => Some(IndexedPieceKind::Rook),
            PieceKind::King => Some(IndexedPieceKind::King),
            _ => None,
        }
    }
}

#[derive(Debug, Clone, Copy, PartialEq, Eq, Structural)]
pub struct Piece {
    pub side: Side,
    pub kind: PieceKind,
}

pub open spec fn unicode_char_of(side: Side, kind: PieceKind) -> char {
    match (side, kind) {
        (Side::White, PieceKind::Pawn) => '♟',
        (Side::White, PieceKind::Knight) => '♞',
        (Side::White, PieceKind::Bishop) => '♝',
        (Side::White, PieceKind::Rook) => '♜',
        (Side::White, PieceKind::Queen) => '♛',
        (Side::White, PieceKind::King) => '♚',
        (Side::Black, PieceKind::Pawn) => '♙',
        (Side::Black, PieceKind::Knight) => '♘',
        (Side::Black, PieceKind::Bishop) => '♗',
        (Side::Black, PieceKind::Rook) => '♖',
        (Side::Black, PieceKind::Queen) => '♕',
        (Side::Black, PieceKind::King) => '♔',
    }
}

impl Piece {
    pub const NO_PIECE_CHAR: char = '□';

    /// The chess glyph used when printing the board.
    pub fn to_unicode_char(self) -> (c: char)
        ensures
            c == unicode_char_of(self.side, self.kind),
    {
        match (self.side, self.kind) {
            (Side::White, PieceKind::Pawn) => '♟',
            (Side::White, PieceKind::Knight) => '♞',
            (Side::White, PieceKind::Bishop) => '♝',
            (Side::White, PieceKind::Rook) => '♜',
            (Side::White, PieceKind::Queen) => '♛',
            (Side::White, PieceKind::King) => '♚',
            (Side::Black, PieceKind::Pawn) => '♙',
            (Side::Black, PieceKind::Knight) => '♘',
            (Side::Black, PieceKind::Bishop) => '♗',
            (Side::Black, PieceKind::Rook) => '♖',
            (Side::Black, PieceKind::Queen) => '♕',
            (Side::Black, PieceKind::King) => '♔',
        }
    }
}


/// A square of the board, a1 = 0 ... h8 = 63 (file + 8 * rank).
#[derive(Debug, Clone, Copy, PartialEq, Eq, Structural)]
pub enum Square {
    A1, B1, C1, D1, E1, F1, G1, H1,
    A2, B2, C2, D2, E2, F2, G2, H2,
    A3, B3, C3, D3, E3, F3, G3, H3,
    A4, B4, C4, D4, E4, F4, G4, H4,
    A5, B5, C5, D5, E5, F5, G5, H5,
    A6, B6, C6, D6, E6, F6, G6, H6,
    A7, B7, C7, D7, E7, F7, G7, H7,
    A8, B8, C8, D8, E8, F8, G8, H8
}

/// The one-bit mask of square index `i`.
pub open spec fn sq_bit(i: int) -> u64 {
    1u64 << (i as u64)
}

/// Whether square index `i` is set in bit set `b`.
pub open spec fn has_sq(b: u64, i: int) -> bool {
    b & sq_bit(i) != 0
}

/// The character naming a file: 'a' .. 'h'.
pub open spec fn file_char(f: int) -> char {
    (f + 97) as char
}

/// The character naming a rank: '1' .. '8'.
pub open spec fn rank_char(r: int) -> char {
    (r + 49) as char
}

/// A square's name in algebraic notation, e.g. "d4".
pub open spec fn square_name(i: int) -> Seq<char> {
    seq![file_char(i % 8), rank_char(i / 8)]
}

/// The file index named by `c`, letters taken case-insensitively.
pub open spec fn file_of_char(c: char) -> Option<int> {
    if 'a' <= c <= 'h' {
        Some(c as int - 97)
    } else if 'A' <= c <= 'H' {
        Some(c as int - 65)
    } else {
        None
    }
}

/// The rank index named by `c`.
pub open spec fn rank_of_char(c: char) -> Option<int> {
    if '1' <= c <= '8' {
        Some(c as int - 49)
    } else {
        None
    }
}

/// The square index a two-character name denotes, if it denotes one.
pub open spec fn parse_square_name(s: Seq<char>) -> Option<int> {
    if s.len() == 2 && file_of_char(s[0]) is Some && rank_of_char(s[1]) is Some {
        Some(file_of_char(s[0])->0 + 8 * rank_of_char(s[1])->0)
    } else {
        None
    }
}

impl Square {
    pub open spec fn idx(self) -> int {
        self as u8 as int
    }

    pub open spec fn file_idx(self) -> int {
        self.idx() % 8
    }

    pub open spec fn rank_idx(self) -> int {
        self.idx() / 8
    }

    pub open spec fn light(self) -> bool {
        (self.file_idx() + self.rank_idx()) % 2 == 1
    }

    pub fn index(self) -> (r: usize)
        ensures
            r as int == self.idx(),
            r < 64,
    {
        self as usize
    }

    pub fn from_index(i: usize) -> (r: Square)
        requires
            i < 64,
        ensures
            r.idx() == i as int,
    {
        match i {
            0 => Square::A1,
            1 => Square::B1,
            2 => Square::C1,
            3 => Square::D1,
            4 => Square::E1,
            5 => Square::F1,
            6 => Square::G1,
            7 => Square::H1,
            8 => Square::A2,
            9 => Square::B2,
            10 => Square::C2,
            11 => Square::D2,
            12 => Square::E2,
            13 => Square::F2,
            14 => Square::G2,
            15 => Square::H2,
            16 => Square::A3,
            17 => Square::B3,
            18 => Square::C3,
            19 => Square::D3,
            20 => Square::E3,
            21 => Square::F3,
            22 => Square::G3,
            23 => Square::H3,
            24 => Square::A4,
            25 => Square::B4,
            26 => Square::C4,
            27 => Square::D4,
            28 => Square::E4,
            29 => Square::F4,
            30 => Square::G4,
            31 => Square::H4,
            32 => Square::A5,
            33 => Square::B5,
            34 => Square::C5,
            35 => Square::D5,
            36 => Square::E5,
            37 => Square::F5,
            38 => Square::G5,
            39 => Square::H5,
            40 => Square::A6,
            41 => Square::B6,
            42 => Square::C6,
            43 => Square::D6,
            44 => Square::E6,
            45 => Square::F6,
            46 => Square::G6,
            47 => Square::H6,
            48 => Square::A7,
            49 => Square::B7,
            50 => Square::C7,
            51 => Square::D7,
            52 => Square::E7,
            53 => Square::F7,
            54 => Square::G7,
            55 => Square::H7,
            56 => Square::A8,
            57 => Square::B8,
            58 => Square::C8,
            59 => Square::D8,
            60 => Square::E8,
            61 => Square::F8,
            62 => Square::G8,
            _ => Square::H8,
        }
    }

    /// The single-square bitboard of this square.
    pub fn bitboard(self) -> (r: Bitboard)
        ensures
            r.0 == sq_bit(self.idx()),
    {
        Bitboard(1u64 << (self as u64))
    }

    /// Parses a two-character square name such as "e4" (letters in either case).
    pub fn from_string(from: &str) -> (r: Result<Square, GenericErr>)
        ensures
            match parse_square_name(from@) {
                Some(i) => r is Ok && r->Ok_0.idx() == i,
                None => r == Err::<Square, GenericErr>(GenericErr::SquareParseError),
            },
    {
        let chars = str_chars(from);
        Square::from_chars(&chars)
    }

    /// Parses a square name given as characters.
    pub fn from_chars(chars: &Vec<char>) -> (r: Result<Square, GenericErr>)
        ensures
            match parse_square_name(chars@) {
                Some(i) => r is Ok && r->Ok_0.idx() == i,
                None => r == Err::<Square, GenericErr>(GenericErr::SquareParseError),
            },
    {
        if chars.len() != 2 {
            return Err(GenericErr::SquareParseError);
        }
        let f = chars[0];
        let r = chars[1];
        let file: usize = if 'a' <= f && f <= 'h' {
            (f as u32 - 97) as usize
        } else if 'A' <= f && f <= 'H' {
            (f as u32 - 65) as usize
        } else {
            return Err(GenericErr::SquareParseError);
        };
        if !('1' <= r && r <= '8') {
            return Err(GenericErr::SquareParseError);
        }
        let rank: usize = (r as u32 - 49) as usize;
        Ok(Square::from_index(file + 8 * rank))
    }

    /// The square's name in algebraic notation.
    pub fn to_string(self) -> (s: String)
        ensures
            s@ == square_name(self.idx()),
    {
        let i = self.index();
        let f = (97 + (i % 8)) as u8 as char;
        let r = (49 + (i / 8)) as u8 as char;
        let mut v: Vec<char> = Vec::new();
        v.push(f);
        v.push(r);
        assert(v@ =~= square_name(self.idx()));
        string_from_chars(&v)
    }

    pub fn from_coords(file: File, rank: Rank) -> (r: Square)
        ensures
            r.idx() == file.idx() + 8 * rank.idx(),
    {
        Square::from_index(file.as_num() + 8 * rank.as_num())
    }

    pub fn rank(self) -> (r: Rank)
        ensures
            r.idx() == self.rank_idx(),
    {
        Rank::from_num(self.index() / 8)
    }

    pub fn file(self) -> (r: File)
        ensures
            r.idx() == self.file_idx(),
    {
        File::from_num(self.index() % 8)
    }

    /// Whether this is a light square (h1 and a8 are light).
    pub fn is_white(self) -> (r: bool)
        ensures
            r == self.light(),
    {
        let i = self.index();
        (i % 8 + i / 8) % 2 == 1
    }
}

#[derive(Debug, Clone, Copy, PartialEq, Eq, Structural)]
pub enum File {
    A,
    B,
    C,
    D,
    E,
    F,
    G,
    H,
}

impl File {
    pub open spec fn idx(self) -> int {
        self as u8 as int
    }

    pub fn as_num(self) -> (r: usize)
        ensures
            r as int == self.idx(),
            r < 8,
    {
        self as usize
    }

    pub fn from_num(i: usize) -> (r: File)
        requires
            i < 8,
        ensures
            r.idx() == i,
    {
        match i {
            0 => File::A,
            1 => File::B,
            2 => File::C,
            3 => File::D,
            4 => File::E,
            5 => File::F,
            6 => File::G,
            _ => File::H,
        }
    }
}

#[derive(Debug, Clone, Copy, PartialEq, Eq, Structural)]
pub enum Rank {
    R1,
    R2,
    R3,
    R4,
    R5,
    R6,
    R7,
    R8,
}

impl Rank {
    pub open spec fn idx(self) -> int {
        self as u8 as int
    }

    pub fn as_num(self) -> (r: usize)
        ensures
            r as int == self.idx(),
            r < 8,
    {
        self as usize
    }

    pub fn from_num(i: usize) -> (r: Rank)
        requires
            i < 8,
        ensures
            r.idx() == i,
    {
        match i {
            0 => Rank::R1,
            1 => Rank::R2,
            2 => Rank::R3,
            3 => Rank::R4,
            4 => Rank::R5,
            5 => Rank::R6,
            6 => Rank::R7,
            _ => Rank::R8,
        }
    }
}

/// The UCI letter of a promotion piece.
pub open spec fn promotion_char(k: PieceKind) -> char {
    match k {
        PieceKind::Queen => 'q',
        PieceKind::Rook => 'r',
        PieceKind::Bishop => 'b',
        _ => 'n',
    }
}

/// A move in UCI long algebraic notation: "e2e4", "e7e8q".
pub open spec fn uci_name(from: int, to: int, promotion: Option<PieceKind>) -> Seq<char> {
    match promotion {
        Some(k) => square_name(from) + square_name(to) + seq![promotion_char(k)],
        None => square_name(from) + square_name(to),
    }
}

/// Three-bit code of an optional promotion piece, as packed by [`Move::bits`].
pub open spec fn promotion_code(p: Option<PieceKind>) -> int {
    match p {
        None => 0,
        Some(k) => k.idx() + 1,
    }
}

/// The 16-bit packing of a move's squares and promotion.
pub open spec fn move_bits(from: int, to: int, promotion: Option<PieceKind>) -> int {
    from + 64 * to + 4096 * promotion_code(promotion)
}

/// `m` is the move [`Move::from_bits`] rebuilds from `bits`.
pub open spec fn decoded_move(bits: int, m: Move) -> bool {
    &&& m.from_sq().idx() == bits % 64
    &&& m.to_sq().idx() == (bits / 64) % 64
    &&& m.promo() == (if (bits / 4096) % 8 == 0 || (bits / 4096) % 8 == 7 {
        None::<PieceKind>
    } else {
        Some(choose|k: PieceKind| k.idx() == (bits / 4096) % 8 - 1)
    })
    &&& m.kind() == PieceKind::Pawn
    &&& m.capture() is None && !m.is_castling() && !m.is_en_passant()
}

/// The packing of a move's squares and promotion fits in 15 bits and never
/// uses promotion code 7.
pub proof fn lemma_move_bits_range(m: Move)
    ensures
        0 <= move_bits(m.from_sq().idx(), m.to_sq().idx(), m.promo()) < 28672,
        (move_bits(m.from_sq().idx(), m.to_sq().idx(), m.promo()) / 4096) % 8 != 7,
{
    let f = m.from_sq().idx();
    let t = m.to_sq().idx();
    let c = promotion_code(m.promo());
    assert(0 <= f < 64 && 0 <= t < 64 && 0 <= c <= 6);
    assert((f + 64 * t + 4096 * c) / 4096 == c) by (nonlinear_arith)
        requires 0 <= f < 64, 0 <= t < 64, 0 <= c <= 6;
}

/// The packing of a move's squares and promotion decodes to a move with
/// those squares and promotion.
pub proof fn lemma_move_bits_decode(m: Move)
    ensures
        exists|h: Move| #[trigger] decoded_move(move_bits(m.from_sq().idx(), m.to_sq().idx(), m.promo()), h)
            && h.from_sq() == m.from_sq() && h.to_sq() == m.to_sq() && h.promo() == m.promo(),
{
    let f = m.from_sq().idx();
    let t = m.to_sq().idx();
    let c = promotion_code(m.promo());
    let mb = move_bits(f, t, m.promo());
    assert(0 <= f < 64 && 0 <= t < 64 && 0 <= c <= 6);
    assert(mb % 64 == f && (mb / 64) % 64 == t && (mb / 4096) % 8 == c) by (nonlinear_arith)
        requires
            mb == f + 64 * t + 4096 * c,
            0 <= f < 64,
            0 <= t < 64,
            0 <= c <= 6,
    ;
    let h = Move {
        from: m.from,
        to: m.to,
        piece_kind: PieceKind::Pawn,
        promotion: m.promotion,
        captured: None,
        castling: false,
        en_passant: false,
    };
    if m.promo() is Some {
        let k = m.promo()->0;
        let k2 = choose|k2: PieceKind| k2.idx() == c - 1;
        assert(k.idx() == c - 1);
        lemma_kind_idx_inj(k, k2);
    }
    assert(decoded_move(mb, h));
}

#[derive(Debug, Clone, Copy, PartialEq, Eq, Structural)]
pub struct Move {
    from: Square,
    to: Square,
    piece_kind: PieceKind,
    promotion: Option<PieceKind>,
    captured: Option<PieceKind>,
    castling: bool,
    en_passant: bool,
}

impl Move {
    pub closed spec fn from_sq(self) -> Square {
        self.from
    }

    pub closed spec fn to_sq(self) -> Square {
        self.to
    }

    pub closed spec fn kind(self) -> PieceKind {
        self.piece_kind
    }

    pub closed spec fn promo(self) -> Option<PieceKind> {
        self.promotion
    }

    pub closed spec fn capture(self) -> Option<PieceKind> {
        self.captured
    }

    pub closed spec fn is_castling(self) -> bool {
        self.castling
    }

    pub closed spec fn is_en_passant(self) -> bool {
        self.en_passant
    }

    pub fn new(
        from: Square,
        to: Square,
        piece_kind: PieceKind,
        promotion: Option<PieceKind>,
        captured: Option<PieceKind>,
        castling: bool,
        en_passant: bool,
    ) -> (m: Move)
        ensures
            m.from_sq() == from && m.to_sq() == to && m.kind() == piece_kind,
            m.promo() == promotion && m.capture() == captured,
            m.is_castling() == castling && m.is_en_passant() == en_passant,
    {
        Move { from, to, piece_kind, promotion, captured, castling, en_passant }
    }

    /// Moves that agree on every part are equal.
    pub proof fn lemma_move_ext(a: Move, b: Move)
        requires
            a.from_sq() == b.from_sq() && a.to_sq() == b.to_sq() && a.kind() == b.kind(),
            a.promo() == b.promo() && a.capture() == b.capture(),
            a.is_castling() == b.is_castling() && a.is_en_passant() == b.is_en_passant(),
        ensures
            a == b,
    {
    }

    /// The placeholder move a1a1 (a pawn, no flags).
    pub fn default() -> (m: Move)
        ensures
            m.from_sq() == Square::A1 && m.to_sq() == Square::A1 && m.kind() == PieceKind::Pawn,
            m.promo() is None && m.capture() is None && !m.is_castling() && !m.is_en_passant(),
    {
        Move::new(Square::A1, Square::A1, PieceKind::Pawn, None, None, false, false)
    }

    /// The squares and promotion piece of this move, as a client would enter them.
    pub fn to_input_move(&self) -> (r: InputMove)
        ensures
            r.from == self.from_sq() && r.to == self.to_sq() && r.promotion == self.promo(),
    {
        InputMove { from: self.from, to: self.to, promotion: self.promotion }
    }

    pub fn from(&self) -> (r: Square)
        ensures
            r == self.from_sq(),
    {
        self.from
    }

    pub fn to(&self) -> (r: Square)
        ensures
            r == self.to_sq(),
    {
        self.to
    }

    pub fn piece(&self) -> (r: PieceKind)
        ensures
            r == self.kind(),
    {
        self.piece_kind
    }

    pub fn promotion(&self) -> (r: Option<PieceKind>)
        ensures
            r == self.promo(),
    {
        self.promotion
    }

    pub fn captured(&self) -> (r: Option<PieceKind>)
        ensures
            r == self.capture(),
    {
        self.captured
    }

    pub fn castling(&self) -> (r: bool)
        ensures
            r == self.is_castling(),
    {
        self.castling
    }

    pub fn en_passant(&self) -> (r: bool)
        ensures
            r == self.is_en_passant(),
    {
        self.en_passant
    }

    /// Whether two moves name the same squares and promotion.
    pub fn same_input(&self, other: &Move) -> (r: bool)
        ensures
            r == (self.from_sq() == other.from_sq() && self.to_sq() == other.to_sq() && self.promo()
                == other.promo()),
    {
        self.from == other.from && self.to == other.to && match (self.promotion, other.promotion) {
            (None, None) => true,
            (Some(a), Some(b)) => a == b,
            _ => false,
        }
    }

    /// Packs the squares and promotion piece into 16 bits: from in bits 0-5,
    /// to in bits 6-11, promotion code in bits 12-14.
    pub fn bits(&self) -> (r: u16)
        ensures
            r as int == move_bits(self.from_sq().idx(), self.to_sq().idx(), self.promo()),
    {
        let code: u16 = match self.promotion {
            None => 0,
            Some(k) => k.index() as u16 + 1,
        };
        self.from.index() as u16 + 64 * self.to.index() as u16 + 4096 * code
    }

    /// Rebuilds a move from [`Move::bits`]: squares and promotion come from the
    /// bits, the remaining fields are left at their neutral values.
    pub fn from_bits(bits: u16) -> (m: Move)
        ensures
            decoded_move(bits as int, m),
            m.from_sq().idx() == bits as int % 64,
            m.to_sq().idx() == (bits as int / 64) % 64,
            m.promo() == (if (bits as int / 4096) % 8 == 0 || (bits as int / 4096) % 8 == 7 {
                None::<PieceKind>
            } else {
                Some(choose|k: PieceKind| k.idx() == (bits as int / 4096) % 8 - 1)
            }),
            m.kind() == PieceKind::Pawn,
            m.capture() is None && !m.is_castling() && !m.is_en_passant(),
            (bits as int) < 32768 && (bits as int / 4096) % 8 != 7 ==> move_bits(
                m.from_sq().idx(),
                m.to_sq().idx(),
                m.promo(),
            ) == bits as int,
    {
        let from = Square::from_index((bits % 64) as usize);
        let to = Square::from_index(((bits / 64) % 64) as usize);
        let code = ((bits / 4096) % 8) as usize;
        let promotion = if code == 0 || code == 7 {
            None
        } else {
            let k = PieceKind::from_index(code - 1);
            assert(k.idx() == (bits as int / 4096) % 8 - 1);
            Some(k)
        };
        Move::new(from, to, PieceKind::Pawn, promotion, None, false, false)
    }

    /// UCI notation of the move, e.g. "e2e4" or "e7e8q".
    pub fn to_uci_string(&self) -> (s: String)
        requires
            self.promo() != Some(PieceKind::Pawn) && self.promo() != Some(PieceKind::King),
        ensures
            s@ == uci_name(self.from_sq().idx(), self.to_sq().idx(), self.promo()),
    {
        let a = str_chars(self.from.to_string().as_str());
        let b = str_chars(self.to.to_string().as_str());
        let mut v: Vec<char> = Vec::new();
        v.push(a[0]);
        v.push(a[1]);
        v.push(b[0]);
        v.push(b[1]);
        match self.promotion {
            Some(k) => {
                let c = match k {
                    PieceKind::Queen => 'q',
                    PieceKind::Rook => 'r',
                    PieceKind::Bishop => 'b',
                    _ => 'n',
                };
                v.push(c);
            },
            None => {},
        }
        assert(v@ =~= uci_name(self.from.idx(), self.to.idx(), self.promotion));
        string_from_chars(&v)
    }
}

/// A move as entered by a client: squares and an optional promotion piece.
#[derive(Debug, Clone, Copy, PartialEq, Eq, Structural)]
pub struct InputMove {
    pub from: Square,
    pub to: Square,
    pub promotion: Option<PieceKind>,
}

/// The name the client-facing API gives an [`InputMove`].
pub type UnvalidatedMove = InputMove;

#[derive(Debug, Clone, Copy, PartialEq, Eq, Structural)]
pub enum CastlingDirection {
    WK,
    WQ,
    BK,
    BQ,
}

impl CastlingDirection {
    /// The bit of this direction in a [`CastlingRights`] set.
    pub open spec fn bit(self) -> u8 {
        match self {
            CastlingDirection::WK => 1,
            CastlingDirection::WQ => 2,
            CastlingDirection::BK => 4,
            CastlingDirection::BQ => 8,
        }
    }

    pub open spec fn spec_king_from(self) -> Square {
        match self {
            CastlingDirection::WK | CastlingDirection::WQ => Square::E1,
            _ => Square::E8,
        }
    }

    pub open spec fn spec_king_to(self) -> Square {
        match self {
            CastlingDirection::WQ => Square::C1,
            CastlingDirection::WK => Square::G1,
            CastlingDirection::BQ => Square::C8,
            CastlingDirection::BK => Square::G8,
        }
    }

    pub open spec fn spec_rook_from(self) -> Square {
        match self {
            CastlingDirection::WQ => Square::A1,
            CastlingDirection::WK => Square::H1,
            CastlingDirection::BQ => Square::A8,
            CastlingDirection::BK => Square::H8,
        }
    }

    pub open spec fn spec_rook_to(self) -> Square {
        match self {
            CastlingDirection::WQ => Square::D1,
            CastlingDirection::WK => Square::F1,
            CastlingDirection::BQ => Square::D8,
            CastlingDirection::BK => Square::F8,
        }
    }

    pub open spec fn spec_side(self) -> Side {
        match self {
            CastlingDirection::WK | CastlingDirection::WQ => Side::White,
            _ => Side::Black,
        }
    }

    /// Squares the king starts on, crosses and lands on.
    pub open spec fn spec_unattacked(self) -> Seq<Square> {
        match self {
            CastlingDirection::WQ => seq![Square::E1, Square::D1, Square::C1],
            CastlingDirection::WK => seq![Square::E1, Square::F1, Square::G1],
            CastlingDirection::BQ => seq![Square::E8, Square::D8, Square::C8],
            CastlingDirection::BK => seq![Square::E8, Square::F8, Square::G8],
        }
    }

    /// Squares between king and rook, which must be empty.
    pub open spec fn spec_empty(self) -> Seq<Square> {
        match self {
            CastlingDirection::WQ => seq![Square::D1, Square::C1, Square::B1],
            CastlingDirection::WK => seq![Square::F1, Square::G1],
            CastlingDirection::BQ => seq![Square::D8, Square::C8, Square::B8],
            CastlingDirection::BK => seq![Square::F8, Square::G8],
        }
    }

    pub open spec fn spec_direction(from: Square, to: Square) -> Option<CastlingDirection> {
        if from == Square::E1 && to == Square::C1 {
            Some(CastlingDirection::WQ)
        } else if from == Square::E1 && to == Square::G1 {
            Some(CastlingDirection::WK)
        } else if from == Square::E8 && to == Square::C8 {
            Some(CastlingDirection::BQ)
        } else if from == Square::E8 && to == Square::G8 {
            Some(CastlingDirection::BK)
        } else {
            None
        }
    }

    /// The castling direction of a king move between these squares, if any.
    pub fn direction(from: Square, to: Square) -> (r: Option<CastlingDirection>)
        ensures
            r == Self::spec_direction(from, to),
    {
        match (from, to) {
            (Square::E1, Square::C1) => Some(CastlingDirection::WQ),
            (Square::E1, Square::G1) => Some(CastlingDirection::WK),
            (Square::E8, Square::C8) => Some(CastlingDirection::BQ),
            (Square::E8, Square::G8) => Some(CastlingDirection::BK),
            _ => None,
        }
    }

    /// The castling-rights set holding just this direction.
    pub fn rights(self) -> (r: CastlingRights)
        ensures
            r.rights == self.bit(),
    {
        match self {
            CastlingDirection::WQ => CastlingRights { rights: 2 },
            CastlingDirection::WK => CastlingRights { rights: 1 },
            CastlingDirection::BQ => CastlingRights { rights: 8 },
            CastlingDirection::BK => CastlingRights { rights: 4 },
        }
    }

    pub fn unattacked_squares_required(self) -> (r: Vec<Square>)
        ensures
            r@ == self.spec_unattacked(),
    {
        let v = match self {
            CastlingDirection::WQ => vec![Square::E1, Square::D1, Square::C1],
            CastlingDirection::WK => vec![Square::E1, Square::F1, Square::G1],
            CastlingDirection::BQ => vec![Square::E8, Square::D8, Square::C8],
            CastlingDirection::BK => vec![Square::E8, Square::F8, Square::G8],
        };
        assert(v@ =~= self.spec_unattacked());
        v
    }

    pub fn rook_from(self) -> (r: Square)
        ensures
            r == self.spec_rook_from(),
    {
        match self {
            CastlingDirection::WQ => Square::A1,
            CastlingDirection::WK => Square::H1,
            CastlingDirection::BQ => Square::A8,
            CastlingDirection::BK => Square::H8,
        }
    }

    pub fn rook_to(self) -> (r: Square)
        ensures
            r == self.spec_rook_to(),
    {
        match self {
            CastlingDirection::WQ => Square::D1,
            CastlingDirection::WK => Square::F1,
            CastlingDirection::BQ => Square::D8,
            CastlingDirection::BK => Square::F8,
        }
    }

    pub fn king_from(self) -> (r: Square)
        ensures
            r == self.spec_king_from(),
    {
        match self {
            CastlingDirection::WQ => Square::E1,
            CastlingDirection::WK => Square::E1,
            CastlingDirection::BQ => Square::E8,
            CastlingDirection::BK => Square::E8,
        }
    }

    pub fn king_to(self) -> (r: Square)
        ensures
            r == self.spec_king_to(),
    {
        match self {
            CastlingDirection::WQ => Square::C1,
            CastlingDirection::WK => Square::G1,
            CastlingDirection::BQ => Square::C8,
            CastlingDirection::BK => Square::G8,
        }
    }

    pub fn empty_squares(self) -> (r: Vec<Square>)
        ensures
            r@ == self.spec_empty(),
    {
        let v = match self {
            CastlingDirection::WQ => vec![Square::D1, Square::C1, Square::B1],
            CastlingDirection::WK => vec![Square::F1, Square::G1],
            CastlingDirection::BQ => vec![Square::D8, Square::C8, Square::B8],
            CastlingDirection::BK => vec![Square::F8, Square::G8],
        };
        assert(v@ =~= self.spec_empty());
        v
    }

    /// The kingside and queenside directions of `side`, kingside first.
    pub fn for_side(side: Side) -> (r: [CastlingDirection; 2])
        ensures
            side == Side::White ==> r@ == seq![CastlingDirection::WK, CastlingDirection::WQ],
            side == Side::Black ==> r@ == seq![CastlingDirection::BK, CastlingDirection::BQ],
    {
        match side {
            Side::White => {
                let a = [CastlingDirection::WK, CastlingDirection::WQ];
                assert(a@ =~= seq![CastlingDirection::WK, CastlingDirection::WQ]);
                a
            },
            Side::Black => {
                let a = [CastlingDirection::BK, CastlingDirection::BQ];
                assert(a@ =~= seq![CastlingDirection::BK, CastlingDirection::BQ]);
                a
            },
        }
    }
}

/// The castling rights left after `side` moves a `kind` from `from`: a king
/// leaving its home square loses both rights, a rook leaving its corner loses
/// that side's right.
pub open spec fn rights_after_move(rights: u8, side: Side, from: Square, kind: PieceKind) -> u8 {
    if side == Side::White && from == Square::E1 && kind == PieceKind::King {
        rights & !3u8
    } else if side == Side::White && from == Square::A1 && kind == PieceKind::Rook {
        rights & !2u8
    } else if side == Side::White && from == Square::H1 && kind == PieceKind::Rook {
        rights & !1u8
    } else if side == Side::Black && from == Square::E8 && kind == PieceKind::King {
        rights & !12u8
    } else if side == Side::Black && from == Square::A8 && kind == PieceKind::Rook {
        rights & !8u8
    } else if side == Side::Black && from == Square::H8 && kind == PieceKind::Rook {
        rights & !4u8
    } else {
        rights
    }
}

/// The castling rights left once square `sq` is landed on: a rook corner
/// that is moved onto (its rook captured) loses that corner's right.
pub open spec fn rights_after_landing(rights: u8, sq: Square) -> u8 {
    if sq == Square::H1 {
        rights & !1u8
    } else if sq == Square::A1 {
        rights & !2u8
    } else if sq == Square::H8 {
        rights & !4u8
    } else if sq == Square::A8 {
        rights & !8u8
    } else {
        rights
    }
}

/// A set of castling rights, one bit per [`CastlingDirection`].
#[derive(Debug, Clone, Copy, PartialEq, Eq, Structural)]
pub struct CastlingRights {
    pub rights: u8,
}

impl CastlingRights {
    /// No castling rights.
    pub fn none() -> (r: CastlingRights)
        ensures
            r.rights == 0,
    {
        CastlingRights { rights: 0 }
    }

    /// All four castling rights.
    pub fn all() -> (r: CastlingRights)
        ensures
            r.rights == 15,
    {
        CastlingRights { rights: 15 }
    }

    pub const NUM_RIGHTS_COMBOS: usize = 16;

    pub open spec fn wf(self) -> bool {
        self.rights < 16
    }

    pub fn new(rights: CastlingRights) -> (r: Self)
        ensures
            r == rights,
    {
        rights
    }

    pub fn any_rights(self) -> (r: bool)
        ensures
            r == (self.rights != 0),
    {
        self.rights != 0
    }

    pub fn has_rights(self, direction: CastlingDirection) -> (r: bool)
        ensures
            r == (self.rights & direction.bit() != 0),
    {
        (self.rights & direction.rights().rights) != 0
    }

    pub fn add_rights(&mut self, direction: CastlingDirection)
        ensures
            final(self).rights == old(self).rights | direction.bit(),
    {
        self.rights = self.rights | direction.rights().rights;
    }

    pub fn remove_rights(&mut self, direction: CastlingDirection)
        ensures
            final(self).rights == old(self).rights & !direction.bit(),
    {
        self.rights = self.rights & !direction.rights().rights;
    }

    /// Drops the rights a move of `piece_kind` from `from` by `side` forfeits.
    pub fn remove_rights_for_move(&mut self, side: Side, from: Square, piece_kind: PieceKind)
        ensures
            final(self).rights == rights_after_move(old(self).rights, side, from, piece_kind),
    {
        if self.any_rights() {
            match (side, from, piece_kind) {
                (Side::White, Square::E1, PieceKind::King) => {
                    self.remove_rights(CastlingDirection::WK);
                    self.remove_rights(CastlingDirection::WQ);
                    assert(forall|x: u8| x & !1u8 & !2u8 == #[trigger] (x & !3u8)) by (bit_vector);
                },
                (Side::White, Square::A1, PieceKind::Rook) => {
                    self.remove_rights(CastlingDirection::WQ);
                },
                (Side::White, Square::H1, PieceKind::Rook) => {
                    self.remove_rights(CastlingDirection::WK);
                },
                (Side::Black, Square::E8, PieceKind::King) => {
                    self.remove_rights(CastlingDirection::BK);
                    self.remove_rights(CastlingDirection::BQ);
                    assert(forall|x: u8| x & !4u8 & !8u8 == #[trigger] (x & !12u8)) by (bit_vector);
                },
                (Side::Black, Square::A8, PieceKind::Rook) => {
                    self.remove_rights(CastlingDirection::BQ);
                },
                (Side::Black, Square::H8, PieceKind::Rook) => {
                    self.remove_rights(CastlingDirection::BK);
                },
                _ => {},
            }
        } else {
            assert(forall|m: u8| 0u8 & m == 0u8) by (bit_vector);
        }
    }

    /// Drops the right tied to a rook corner that a move lands on.
    pub fn remove_rights_for_capture(&mut self, to: Square)
        ensures
            final(self).rights == rights_after_landing(old(self).rights, to),
    {
        match to {
            Square::H1 => self.remove_rights(CastlingDirection::WK),
            Square::A1 => self.remove_rights(CastlingDirection::WQ),
            Square::H8 => self.remove_rights(CastlingDirection::BK),
            Square::A8 => self.remove_rights(CastlingDirection::BQ),
            _ => {},
        }
    }

    /// The rights as a number in 0..16, used to index Zobrist keys.
    pub fn rights_u8(self) -> (r: u8)
        ensures
            r == self.rights,
    {
        self.rights
    }
}

/// Two to the power `k`.
pub open spec fn p2(k: nat) -> nat
    decreases k,
{
    if k == 0 {
        1
    } else {
        2 * p2((k - 1) as nat)
    }
}

/// Number of set bits.
pub open spec fn popcount(b: u64) -> nat
    decreases b,
{
    if b == 0 {
        0
    } else {
        (b % 2) as nat + popcount(b / 2)
    }
}

/// Parallel bit extract: the bits of `bits` at the set positions of `mask`,
/// packed together from the least significant end.
pub open spec fn pext(bits: u64, mask: u64) -> nat
    decreases mask,
{
    if mask == 0 {
        0
    } else {
        let rest = mask & ((mask - 1) as u64);
        let low = mask & !((mask - 1) as u64);
        proof {
            assert(mask != 0 ==> mask & ((mask - 1) as u64) < mask) by (bit_vector);
        }
        (if bits & low != 0 { 1nat } else { 0nat }) + 2 * pext(bits, rest)
    }
}

/// Bit facts about a mask: its lowest bit and the rest of it, its subsets,
/// and sets holding the lowest square.
pub proof fn lemma_mask_bits(b1: u64, b2: u64, m: u64)
    by (bit_vector)
    ensures
        m != 0 ==> m & ((m - 1) as u64) < m,
        m == 0 ==> b1 & m == 0,
        m != 0 ==> ((b1 & (m & !((m - 1) as u64)) != 0) == (b2 & (m & !((m - 1) as u64)) != 0)
            && b1 & (m & ((m - 1) as u64)) == b2 & (m & ((m - 1) as u64)) ==> b1 & m == b2 & m),
        b1 & !m == 0 ==> b1 & m == b1,
        b1 & !m == 0 ==> b1 <= m,
        (b1 & m) & !m == 0,
        0u64 & !m == 0,
        m & !m == 0,
        m != 0 && m & !b2 == 0 ==> b2 & (m & !((m - 1) as u64)) != 0,
        m & !b2 == 0 ==> (m & ((m - 1) as u64)) & !b2 == 0,
        m != 0 ==> (m & !((m - 1) as u64)) + (m & ((m - 1) as u64)) == m,
        m != 0 ==> (m & !((m - 1) as u64)) >= 1,
        m != 0 && m & 1u64 == 0 ==> (m & !((m - 1) as u64)) >= 2,
        m != 0 && (m & ((m - 1) as u64)) != 0 ==> ((m & ((m - 1) as u64)) & !(((m & ((m - 1) as u64)) - 1) as u64))
            >= 2 * (m & !((m - 1) as u64)),
        (sq_bit(0) | b2) & 1u64 != 0,
        (rank_bits(0) | b2) & 1u64 != 0,
        b1 & 1u64 != 0 ==> (b1 | b2) & 1u64 != 0,
        b2 & 1u64 != 0 ==> (b1 & !b2) & 1u64 == 0,
{
}

/// Packing a larger set under `mask` gives a larger index: the index of any
/// bit set is at most that of a superset of `mask`.
pub proof fn lemma_pext_le(b: u64, c: u64, mask: u64)
    requires
        mask & !c == 0,
    ensures
        pext(b, mask) <= pext(c, mask),
    decreases mask,
{
    lemma_mask_bits(b, c, mask);
    if mask != 0 {
        let rest = mask & ((mask - 1) as u64);
        lemma_pext_le(b, c, rest);
    }
}

/// The packed index times the mask's lowest bit is at most the mask.
pub proof fn lemma_pext_scaled_bound(b: u64, mask: u64)
    ensures
        mask != 0 ==> pext(b, mask) * (mask & !((mask - 1) as u64)) <= mask,
        mask == 0 ==> pext(b, mask) == 0,
    decreases mask,
{
    lemma_mask_bits(b, b, mask);
    if mask != 0 {
        let rest = mask & ((mask - 1) as u64);
        let low = mask & !((mask - 1) as u64);
        lemma_pext_scaled_bound(b, rest);
        let x: int = if b & low != 0 { 1 } else { 0 };
        let p = pext(b, rest) as int;
        assert(pext(b, mask) == x + 2 * p);
        if rest != 0 {
            let low_r = rest & !((rest - 1) as u64);
            assert(p * low_r <= rest);
            assert((x + 2 * p) * low <= low + p * low_r) by (nonlinear_arith)
                requires 0 <= x <= 1, p >= 0, low >= 1, low_r >= 2 * low;
        } else {
            assert(p == 0);
            assert((x + 2 * p) * low <= low) by (nonlinear_arith)
                requires 0 <= x <= 1, p == 0, low >= 1;
        }
    }
}

/// A mask without its lowest square packs every set to an index below its
/// largest value.
pub proof fn lemma_pext_small(b: u64, mask: u64)
    requires
        mask & 1u64 == 0,
    ensures
        pext(b, mask) < 0xffff_ffff_ffff_ffffu64,
{
    lemma_pext_scaled_bound(b, mask);
    lemma_mask_bits(b, b, mask);
    if mask != 0 {
        let low = mask & !((mask - 1) as u64);
        let p = pext(b, mask) as int;
        assert(p * 2 <= p * low) by (nonlinear_arith)
            requires p >= 0, low >= 2;
    }
}

/// Two bit sets whose bits under `mask` pack to one index agree under `mask`.
pub proof fn lemma_pext_injective(b1: u64, b2: u64, mask: u64)
    requires
        pext(b1, mask) == pext(b2, mask),
    ensures
        b1 & mask == b2 & mask,
    decreases mask,
{
    lemma_mask_bits(b1, b2, mask);
    if mask == 0 {
        lemma_mask_bits(b2, b1, mask);
    } else {
        let rest = mask & ((mask - 1) as u64);
        lemma_pext_injective(b1, b2, rest);
    }
}

/// The carry-rippler step `(b - mask) & mask` from a subset `b` of `mask`:
/// the next subset in increasing order, or zero after `mask` itself.
pub proof fn lemma_subset_step(b: u64, m: u64, t: u64, s: u64)
    by (bit_vector)
    requires
        b & !m == 0,
        t == (if b >= m { (b - m) as u64 } else { (b + (0xffff_ffff_ffff_ffffu64 - m) + 1) as u64 }),
    ensures
        (t & m) & !m == 0,
        b <= m,
        b != m ==> (t & m) > b,
        b == m ==> (t & m) == 0,
        b != m && s & !m == 0 && b < s ==> (t & m) <= s,
{
}

pub proof fn lemma_has_sq_or(b: u64, s: int, t: int)
    requires
        0 <= s < 64,
        0 <= t < 64,
    ensures
        has_sq(b | sq_bit(s), t) == (has_sq(b, t) || s == t),
{
    let s64 = s as u64;
    let t64 = t as u64;
    assert(has_sq(b | (1u64 << s64), t64 as int) == (has_sq(b, t64 as int) || s64 == t64)) by {
        assert(s64 < 64 && t64 < 64 ==> ((b | (1u64 << s64)) & (1u64 << t64) != 0) == ((b & (
        1u64 << t64)) != 0 || s64 == t64)) by (bit_vector);
    }
}

pub proof fn lemma_has_sq_and_not(b: u64, s: int, t: int)
    requires
        0 <= s < 64,
        0 <= t < 64,
    ensures
        has_sq(b & !sq_bit(s), t) == (has_sq(b, t) && s != t),
{
    let s64 = s as u64;
    let t64 = t as u64;
    assert(s64 < 64 && t64 < 64 ==> ((b & !(1u64 << s64)) & (1u64 << t64) != 0) == ((b & (1u64
        << t64)) != 0 && s64 != t64)) by (bit_vector);
}

pub proof fn lemma_has_sq_ops(a: u64, b: u64, t: int)
    requires
        0 <= t < 64,
    ensures
        has_sq(a | b, t) == (has_sq(a, t) || has_sq(b, t)),
        has_sq(a & b, t) == (has_sq(a, t) && has_sq(b, t)),
        has_sq(a & !b, t) == (has_sq(a, t) && !has_sq(b, t)),
        has_sq(!a, t) == !has_sq(a, t),
        has_sq(a ^ b, t) == (has_sq(a, t) != has_sq(b, t)),
{
    let t64 = t as u64;
    assert(t64 < 64 ==> {
        &&& ((a | b) & (1u64 << t64) != 0) == ((a & (1u64 << t64)) != 0 || (b & (1u64 << t64)) != 0)
        &&& ((a & b) & (1u64 << t64) != 0) == ((a & (1u64 << t64)) != 0 && (b & (1u64 << t64)) != 0)
        &&& ((a & !b) & (1u64 << t64) != 0) == ((a & (1u64 << t64)) != 0 && !((b & (1u64 << t64)) != 0))
        &&& (!a & (1u64 << t64) != 0) == !((a & (1u64 << t64)) != 0)
        &&& ((a ^ b) & (1u64 << t64) != 0) == ((a & (1u64 << t64)) != 0 != ((b & (1u64 << t64)) != 0))
    }) by (bit_vector);
}

pub proof fn lemma_has_sq_zero(t: int)
    requires
        0 <= t < 64,
    ensures
        !has_sq(0u64, t),
        has_sq(sq_bit(t), t),
{
    let t64 = t as u64;
    assert(t64 < 64 ==> (0u64 & (1u64 << t64)) == 0 && ((1u64 << t64) & (1u64 << t64)) != 0) by (bit_vector);
}

pub proof fn lemma_sq_bit_distinct(s: int, t: int)
    requires
        0 <= s < 64,
        0 <= t < 64,
    ensures
        has_sq(sq_bit(s), t) == (s == t),
{
    lemma_has_sq_or(0u64, s, t);
    lemma_has_sq_zero(t);
    assert(0u64 | sq_bit(s) == sq_bit(s)) by {
        let s64 = s as u64;
        assert(0u64 | (1u64 << s64) == (1u64 << s64)) by (bit_vector);
    }
}

/// Two bit sets with the same squares are equal.
pub proof fn lemma_bits_ext(a: u64, b: u64)
    requires
        forall|t: int| 0 <= t < 64 ==> #[trigger] has_sq(a, t) == has_sq(b, t),
    ensures
        a == b,
{
    if a != b {
        let x = a ^ b;
        assert(a != b ==> a ^ b != 0) by (bit_vector);
        vstd::std_specs::bits::axiom_u64_trailing_zeros(x);
        let t = vstd::std_specs::bits::u64_trailing_zeros(x) as u64;
        assert(t < 64);
        assert((x >> t) & 1u64 == 1u64);
        assert(t < 64 && (x >> t) & 1u64 == 1u64 && x == a ^ b ==> ((a & (1u64 << t)) != 0) != ((b
            & (1u64 << t)) != 0)) by (bit_vector);
        assert(has_sq(a, t as int) != has_sq(b, t as int));
    }
}

/// A set of squares, one bit per square index.
#[derive(Debug, Clone, Copy, PartialEq, Eq, Structural)]
pub struct Bitboard(pub u64);

impl Bitboard {

    pub open spec fn has(self, i: int) -> bool {
        has_sq(self.0, i)
    }

    pub fn from(bits: u64) -> (r: Self)
        ensures
            r.0 == bits,
    {
        Bitboard(bits)
    }

    pub fn to(&self) -> (r: u64)
        ensures
            r == self.0,
    {
        self.0
    }

    /// Shifts towards higher squares for a positive offset, lower for a negative one.
    pub fn shift_offset(&self, offset: i8) -> (r: Self)
        requires
            -64 < offset < 64,
        ensures
            offset > 0 ==> r.0 == self.0 << (offset as u64),
            offset <= 0 ==> r.0 == self.0 >> ((-offset) as u64),
    {
        if offset > 0 {
            Bitboard(self.0 << (offset as u32))
        } else {
            Bitboard(self.0 >> ((-offset) as u32))
        }
    }

    pub fn union(self, other: Bitboard) -> (r: Bitboard)
        ensures
            r.0 == self.0 | other.0,
    {
        Bitboard(self.0 | other.0)
    }

    pub fn intersect(self, other: Bitboard) -> (r: Bitboard)
        ensures
            r.0 == self.0 & other.0,
    {
        Bitboard(self.0 & other.0)
    }

    pub fn toggle(self, other: Bitboard) -> (r: Bitboard)
        ensures
            r.0 == self.0 ^ other.0,
    {
        Bitboard(self.0 ^ other.0)
    }

    pub fn complement(self) -> (r: Bitboard)
        ensures
            r.0 == !self.0,
    {
        Bitboard(!self.0)
    }

    pub fn is_empty(self) -> (r: bool)
        ensures
            r == (self.0 == 0),
    {
        self.0 == 0
    }

    /// The square of a one-square bitboard; `None` for any other bitboard.
    pub fn single_square(self) -> (r: Option<Square>)
        ensures
            match r {
                Some(s) => self.0 == sq_bit(s.idx()),
                None => forall|i: int| 0 <= i < 64 ==> self.0 != #[trigger] sq_bit(i),
            },
    {
        let b = self.0;
        if b != 0 && (b & (b - 1)) == 0 {
            proof {
                vstd::std_specs::bits::axiom_u64_trailing_zeros(b);
            }
            let t = b.trailing_zeros();
            assert(t < 64);
            let t64 = t as u64;
            assert(b != 0 && b & ((b - 1) as u64) == 0 && t64 < 64 && (b >> t64) & 1u64 == 1u64 ==> b
                == 1u64 << t64) by (bit_vector);
            Some(Square::from_index(t as usize))
        } else {
            assert forall|i: int| 0 <= i < 64 implies b != #[trigger] sq_bit(i) by {
                let i64 = i as u64;
                assert(i64 < 64 ==> (1u64 << i64) != 0 && (1u64 << i64) & (((1u64 << i64) - 1) as u64) == 0)
                    by (bit_vector);
            }
            None
        }
    }

    /// Packs the bits of this bitboard that lie under `mask` into the low bits
    /// of the result, in mask order.
    pub fn compressed_index(self, mask: u64) -> (r: usize)
        ensures
            pext(self.0, mask) <= usize::MAX ==> r as int == pext(self.0, mask),
            pext(self.0, mask) > usize::MAX ==> r == usize::MAX,
    {
        let x = Bitboard::compressed_index_fallback(self.0, mask);
        if x <= usize::MAX as u64 {
            x as usize
        } else {
            usize::MAX
        }
    }

    /// Portable parallel bit extract.
    pub(crate) fn compressed_index_fallback(bits: u64, mask: u64) -> (r: u64)
        ensures
            r as int == pext(bits, mask),
    {
        let mut mask = mask;
        let ghost mask0 = mask;
        let mut result: u64 = 0;
        let mut next_bit: u64 = 1;
        let ghost mut k: nat = 0;
        assert(mask & (((1u64 << 0u64) - 1) as u64) == 0) by (bit_vector);
        while mask != 0
            invariant
                k <= 64,
                k < 64 ==> next_bit as int == p2(k) && mask & (((1u64 << (k as u64)) - 1) as u64) == 0,
                k == 64 ==> mask == 0,
                (result as int) < p2(k),
                pext(bits, mask0) == result as int + p2(k) * pext(bits, mask),
            decreases mask,
        {
            let lsb = mask & !(mask - 1);
            let rest = mask & (mask - 1);
            let ghost kk = k as u64;
            proof {
                assert(mask != 0 ==> mask & ((mask - 1) as u64) < mask) by (bit_vector);
                lemma_p2_u64(k);
            }
            let ghost bitv: nat = if bits & lsb != 0 { 1 } else { 0 };
            let ghost res0 = result as int;
            assert(pext(bits, mask) == bitv + 2 * pext(bits, rest));
            if bits & lsb != 0 {
                assert(kk < 64 && (result as int) < (1u64 << kk) ==> result | (1u64 << kk)
                    == result + (1u64 << kk)) by (bit_vector);
                result = result | next_bit;
            }
            assert(result as int == res0 + bitv * p2(k));
            assert(res0 + p2(k) * pext(bits, mask) == result as int + 2 * p2(k) * pext(bits, rest)) by (nonlinear_arith)
                requires
                    pext(bits, mask) == bitv + 2 * pext(bits, rest),
                    result as int == res0 + bitv * p2(k),
            ;
            proof {
                assert(kk < 64 && mask != 0 && mask & (((1u64 << kk) - 1) as u64) == 0 ==> (kk + 1 < 64
                    ==> (mask & ((mask - 1) as u64)) & (((1u64 << ((kk + 1) as u64)) - 1) as u64) == 0) && (kk + 1 == 64
                    ==> mask & ((mask - 1) as u64) == 0)) by (bit_vector);
            }
            next_bit = next_bit << 1;
            mask = rest;
            proof {
                k = k + 1;
                if k < 64 {
                    lemma_p2_u64(k);
                    assert(next_bit as int == p2(k)) by {
                        assert(kk < 63 ==> (1u64 << kk) << 1u64 == 1u64 << ((kk + 1) as u64)) by (bit_vector);
                    }
                }
            }
        }
        assert(mask == 0);
        assert(pext(bits, 0u64) == 0);
        result
    }

    /// The set squares in increasing order.
    pub fn iter_squares(self) -> (r: Vec<Square>)
        ensures
            forall|i: int, j: int| 0 <= i < j < r.len() ==> r[i].idx() < r[j].idx(),
            forall|t: int| 0 <= t < 64 ==> (self.has(t) <==> exists|i: int| 0 <= i < r.len() && r[i].idx() == t),
    {
        let mut it = SquaresIter(self.0);
        let mut out: Vec<Square> = Vec::new();
        while it.0 != 0
            invariant
                forall|i: int, j: int| 0 <= i < j < out.len() ==> out[i].idx() < out[j].idx(),
                forall|t: int| 0 <= t < 64 ==> (self.has(t) <==> (has_sq(it.0, t) || exists|i: int|
                    0 <= i < out.len() && out[i].idx() == t)),
                forall|i: int, t: int| 0 <= i < out.len() && 0 <= t < 64 && #[trigger] has_sq(it.0, t) ==> #[trigger] out[i].idx() < t,
            decreases it.0,
        {
            let ghost before = it.0;
            let s = it.next().unwrap();
            proof {
                assert forall|t: int| 0 <= t < 64 implies (self.has(t) <==> (has_sq(it.0, t) || exists|i: int|
                    0 <= i < out.len() + 1 && out@.push(s)[i].idx() == t)) by {
                    if t == s.idx() {
                        assert(out@.push(s)[out.len() as int].idx() == t);
                    } else {
                        if exists|i: int| 0 <= i < out.len() && out[i].idx() == t {
                            let i = choose|i: int| 0 <= i < out.len() && out[i].idx() == t;
                            assert(out@.push(s)[i] == out[i]);
                        }
                        if exists|i: int| 0 <= i < out.len() + 1 && out@.push(s)[i].idx() == t {
                            let i = choose|i: int| 0 <= i < out.len() + 1 && out@.push(s)[i].idx() == t;
                            assert(i < out.len());
                            assert(out@[i].idx() == t);
                        }
                    }
                }
                assert forall|i: int| 0 <= i < out.len() implies #[trigger] out[i].idx() < s.idx() by {
                    assert(has_sq(before, s.idx()));
                }
            }
            out.push(s);
        }
        proof {
            assert forall|t: int| 0 <= t < 64 implies !has_sq(it.0, t) by {
                lemma_has_sq_zero(t);
            }
        }
        out
    }

    /// Number of occupied squares.
    pub fn num_pieces(self) -> (r: u32)
        ensures
            r as nat == popcount(self.0),
    {
        count_set_bits(self.0)
    }
}

/// A value below two to the power `k` has at most `k` set bits.
proof fn lemma_popcount_below(x: u64, k: nat)
    requires
        (x as nat) < p2(k),
    ensures
        popcount(x) <= k,
    decreases k,
{
    if x != 0 && k > 0 {
        lemma_popcount_below(x / 2, (k - 1) as nat);
    }
}

/// The number of set bits, counted from the lowest bit up.
fn count_set_bits(b: u64) -> (r: u32)
    ensures
        r as nat == popcount(b),
{
    proof {
        lemma_p2_u64(63);
        assert(1u64 << 63u64 == 0x8000_0000_0000_0000u64) by (bit_vector);
        assert(p2(64) == 2 * p2(63));
        lemma_popcount_below(b, 64);
    }
    let mut x: u64 = b;
    let mut c: u32 = 0;
    while x != 0
        invariant
            c as nat + popcount(x) == popcount(b),
            popcount(b) <= 64,
        decreases x,
    {
        c = c + (x % 2) as u32;
        x = x / 2;
    }
    c
}

pub proof fn lemma_p2_u64(k: nat)
    requires
        k < 64,
    ensures
        p2(k) == (1u64 << (k as u64)) as int,
    decreases k,
{
    if k == 0 {
        assert(1u64 << 0u64 == 1u64) by (bit_vector);
    } else {
        lemma_p2_u64((k - 1) as nat);
        let km = (k - 1) as u64;
        assert(km < 63 ==> (1u64 << ((km + 1) as u64)) == 2 * (1u64 << km)) by (bit_vector);
    }
}

/// Walks the set squares of a bitboard from the lowest up.
pub struct SquaresIter(pub u64);

impl SquaresIter {
    /// The lowest remaining square, which is then cleared.
    pub fn next(&mut self) -> (r: Option<Square>)
        ensures
            old(self).0 == 0 ==> r is None && final(self).0 == 0,
            old(self).0 != 0 ==> r is Some && has_sq(old(self).0, r->0.idx()) && (forall|t: int|
                0 <= t < r->0.idx() ==> !#[trigger] has_sq(old(self).0, t)) && (forall|t: int|
                0 <= t < 64 ==> #[trigger] has_sq(final(self).0, t) == (has_sq(old(self).0, t)
                && t != r->0.idx())),
            final(self).0 <= old(self).0,
            old(self).0 != 0 ==> final(self).0 < old(self).0,
    {
        let b = self.0;
        if b == 0 {
            return None;
        }
        proof {
            vstd::std_specs::bits::axiom_u64_trailing_zeros(b);
        }
        let t = b.trailing_zeros();
        let t64 = t as u64;
        assert(t64 < 64);
        self.0 = b & (b - 1);
        proof {
            assert(b != 0 ==> b & ((b - 1) as u64) < b) by (bit_vector);
            assert((b >> t64) & 1u64 == 1u64 ==> b & (1u64 << t64) != 0) by (bit_vector);
            assert forall|j: int| 0 <= j < t64 implies !has_sq(b, j) by {
                let j64 = j as u64;
                assert(j64 < t64 && t64 < 64 && b << ((64 - t64) as u64) == 0 ==> b & (1u64 << j64) == 0)
                    by (bit_vector);
            }
            assert forall|j: int| 0 <= j < 64 implies #[trigger] has_sq(b & ((b - 1) as u64), j) == (
            has_sq(b, j) && j != t64) by {
                let j64 = j as u64;
                assert(j64 < 64 && t64 < 64 && b << ((64 - t64) as u64) == 0 && (b >> t64) & 1u64 == 1u64
                    ==> ((b & ((b - 1) as u64)) & (1u64 << j64) != 0) == ((b & (1u64 << j64)) != 0 && j64
                    != t64)) by (bit_vector);
            }
        }
        Some(Square::from_index(t as usize))
    }
}

/// Bit set of rank `r` (0-based).
pub open spec fn rank_bits(r: int) -> u64 {
    0xffu64 << ((8 * r) as u64)
}

/// Bit set of file `f` (0-based).
pub open spec fn file_bits(f: int) -> u64 {
    0x0101_0101_0101_0101u64 << (f as u64)
}

/// The bitboard of rank `r`.
pub fn bb_rank(r: Rank) -> (b: Bitboard)
    ensures
        b.0 == rank_bits(r.idx()),
{
    Bitboard(0xffu64 << (8 * r.as_num() as u64))
}

/// The bitboard of file `f`.
pub fn bb_file(f: File) -> (b: Bitboard)
    ensures
        b.0 == file_bits(f.idx()),
{
    Bitboard(0x0101_0101_0101_0101u64 << (f.as_num() as u64))
}


/// Keys of a table with one value per key: an enum whose `key_count`
/// variants are numbered from 0 in order.
pub trait EnumKey: Copy + Sized {
    spec fn key_count() -> nat;

    /// The number of this key.
    spec fn key_index(self) -> int;

    /// The number of keys.
    fn count() -> (r: usize)
        ensures
            r == Self::key_count(),
    ;

    fn index(self) -> (r: usize)
        ensures
            r == self.key_index(),
            r < Self::key_count(),
    ;

    fn from_index(i: usize) -> (r: Self)
        requires
            i < Self::key_count(),
        ensures
            r.key_index() == i,
    ;
    /// Keys with the same number are the same key.
    proof fn lemma_index_injective(a: Self, b: Self)
        requires
            a.key_index() == b.key_index(),
        ensures
            a == b,
    ;
}

impl EnumKey for IndexedPieceKind {
    open spec fn key_count() -> nat {
        4
    }

    open spec fn key_index(self) -> int {
        self.idx()
    }

    fn count() -> (r: usize) {
        4
    }

    fn index(self) -> (r: usize) {
        IndexedPieceKind::index(self)
    }

    fn from_index(i: usize) -> (r: Self) {
        IndexedPieceKind::from_index(i)
    }
    proof fn lemma_index_injective(a: Self, b: Self) {
    }
}

impl EnumKey for SlidingPieceKind {
    open spec fn key_count() -> nat {
        2
    }

    open spec fn key_index(self) -> int {
        self.idx()
    }

    fn count() -> (r: usize) {
        2
    }

    fn index(self) -> (r: usize) {
        SlidingPieceKind::index(self)
    }

    fn from_index(i: usize) -> (r: Self) {
        if i == 0 {
            SlidingPieceKind::Bishop
        } else {
            SlidingPieceKind::Rook
        }
    }
    proof fn lemma_index_injective(a: Self, b: Self) {
    }
}

/// A table with one value per key, in key order.
pub struct EnumMap<K: EnumKey, T> {
    values: Vec<T>,
    keys: Ghost<Option<K>>,
}

impl<K: EnumKey, T> EnumMap<K, T> {
    /// The values, the one for key number `i` at `i`.
    pub closed spec fn view(&self) -> Seq<T> {
        self.values@
    }

    pub closed spec fn wf(&self) -> bool {
        self.values@.len() == K::key_count()
    }

    /// The table holding `values`, one per key in key order.
    pub fn from_array(values: Vec<T>) -> (r: Self)
        requires
            values@.len() == K::key_count(),
        ensures
            r.wf(),
            r@ == values@,
    {
        EnumMap { values, keys: Ghost(None) }
    }

    /// The table holding `f(k)` for each key `k`.
    pub fn from_fn<F: Fn(K) -> T>(f: F) -> (r: Self)
        requires
            forall|k: K| #[trigger] call_requires(f, (k,)),
        ensures
            r.wf(),
            forall|k: K| 0 <= k.key_index() < K::key_count() ==> call_ensures(f, (k,), #[trigger] r@[k.key_index()]),
    {
        let n = K::count();
        let mut values: Vec<T> = Vec::new();
        let ghost mut ks: Seq<K> = Seq::empty();
        let mut i: usize = 0;
        while i < n
            invariant
                n == K::key_count(),
                i <= n,
                values@.len() == i,
                ks.len() == i,
                forall|k: K| #[trigger] call_requires(f, (k,)),
                forall|j: int| 0 <= j < i ==> (#[trigger] ks[j]).key_index() == j && call_ensures(f, (ks[j],), values@[j]),
            decreases n - i,
        {
            let k = K::from_index(i);
            let v = f(k);
            values.push(v);
            proof {
                ks = ks.push(k);
            }
            i = i + 1;
        }
        let r = EnumMap { values, keys: Ghost(None) };
        proof {
            assert forall|k: K| 0 <= k.key_index() < K::key_count() implies call_ensures(f, (k,), #[trigger] r@[k.key_index()]) by {
                let j = k.key_index();
                assert(ks[j].key_index() == j);
                K::lemma_index_injective(k, ks[j]);
            }
        }
        r
    }

    /// The value for key `k`.
    pub fn get(&self, k: K) -> (r: &T)
        requires
            self.wf(),
        ensures
            *r == self@[k.key_index()],
    {
        let i = k.index();
        &self.values[i]
    }

    /// Sets the value for key `k`.
    pub fn set(&mut self, k: K, v: T)
        requires
            old(self).wf(),
        ensures
            final(self).wf(),
            final(self)@ == old(self)@.update(k.key_index(), v),
    {
        let i = k.index();
        self.values.set(i, v);
    }
}

impl<K: EnumKey, T: Copy> EnumMap<K, T> {
    /// The table holding `default_value` for every key.
    pub fn new(default_value: T) -> (r: Self)
        ensures
            r.wf(),
            forall|i: int| 0 <= i < K::key_count() ==> #[trigger] r@[i] == default_value,
    {
        let n = K::count();
        let mut values: Vec<T> = Vec::new();
        let mut i: usize = 0;
        while i < n
            invariant
                n == K::key_count(),
                i <= n,
                values@.len() == i,
                forall|j: int| 0 <= j < i ==> #[trigger] values@[j] == default_value,
            decreases n - i,
        {
            values.push(default_value);
            i = i + 1;
        }
        EnumMap { values, keys: Ghost(None) }
    }

    /// The (key, value) pairs in key order.
    pub fn iter(&self) -> (r: Vec<(K, T)>)
        requires
            self.wf(),
        ensures
            r@.len() == K::key_count(),
            forall|i: int| 0 <= i < r@.len() ==> (#[trigger] r@[i]).0.key_index() == i && r@[i].1 == self@[i],
    {
        let n = K::count();
        let mut out: Vec<(K, T)> = Vec::new();
        let mut i: usize = 0;
        while i < n
            invariant
                n == K::key_count(),
                self.wf(),
                i <= n,
                out@.len() == i,
                forall|j: int| 0 <= j < i ==> (#[trigger] out@[j]).0.key_index() == j && out@[j].1 == self@[j],
            decreases n - i,
        {
            out.push((K::from_index(i), self.values[i]));
            i = i + 1;
        }
        out
    }
}

/// One value per PieceKind.
#[derive(Debug, Clone, Copy)]
pub struct PerPiece<T>(pub [T; 6]);

impl<T: Copy> PerPiece<T> {
    pub fn from_array(values: [T; 6]) -> (r: Self)
        ensures
            r.0 == values,
    {
        PerPiece(values)
    }

    pub fn new(default_value: T) -> (r: Self)
        ensures
            forall|i: int| 0 <= i < 6 ==> #[trigger] r.0[i] == default_value,
    {
        PerPiece([default_value; 6])
    }

    pub fn get(&self, k: PieceKind) -> (r: T)
        ensures
            r == self.0[k.idx()],
    {
        self.0[k.index()]
    }

    pub fn set(&mut self, k: PieceKind, v: T)
        ensures
            final(self).0@ == old(self).0@.update(k.idx(), v),
    {
        self.0[k.index()] = v;
    }

    /// The (key, value) pairs in key order.
    pub fn iter(&self) -> (r: Vec<(PieceKind, T)>)
        ensures
            r.len() == 6,
            forall|i: int| 0 <= i < 6 ==> (#[trigger] r[i]).0.idx() == i && r[i].1 == self.0[i],
    {
        let mut out: Vec<(PieceKind, T)> = Vec::new();
        let mut i: usize = 0;
        while i < 6
            invariant
                i <= 6,
                out.len() == i,
                forall|j: int| 0 <= j < i ==> (#[trigger] out[j]).0.idx() == j && out[j].1 == self.0[j],
            decreases 6 - i,
        {
            out.push((PieceKind::from_index(i), self.0[i]));
            i = i + 1;
        }
        out
    }
}

/// One value per Side.
#[derive(Debug, Clone, Copy)]
pub struct PerSide<T>(pub [T; 2]);

impl<T: Copy> PerSide<T> {
    pub fn from_array(values: [T; 2]) -> (r: Self)
        ensures
            r.0 == values,
    {
        PerSide(values)
    }

    pub fn new(default_value: T) -> (r: Self)
        ensures
            forall|i: int| 0 <= i < 2 ==> #[trigger] r.0[i] == default_value,
    {
        PerSide([default_value; 2])
    }

    pub fn get(&self, k: Side) -> (r: T)
        ensures
            r == self.0[k.idx()],
    {
        self.0[k.index()]
    }

    pub fn set(&mut self, k: Side, v: T)
        ensures
            final(self).0@ == old(self).0@.update(k.idx(), v),
    {
        self.0[k.index()] = v;
    }

    /// The (key, value) pairs in key order.
    pub fn iter(&self) -> (r: Vec<(Side, T)>)
        ensures
            r.len() == 2,
            forall|i: int| 0 <= i < 2 ==> (#[trigger] r[i]).0.idx() == i && r[i].1 == self.0[i],
    {
        let mut out: Vec<(Side, T)> = Vec::new();
        let mut i: usize = 0;
        while i < 2
            invariant
                i <= 2,
                out.len() == i,
                forall|j: int| 0 <= j < i ==> (#[trigger] out[j]).0.idx() == j && out[j].1 == self.0[j],
            decreases 2 - i,
        {
            out.push((Side::from_index(i), self.0[i]));
            i = i + 1;
        }
        out
    }
}

/// One value per Square.
#[derive(Debug, Clone, Copy)]
pub struct PerSquare<T>(pub [T; 64]);

impl<T: Copy> PerSquare<T> {
    pub fn from_array(values: [T; 64]) -> (r: Self)
        ensures
            r.0 == values,
    {
        PerSquare(values)
    }

    pub fn new(default_value: T) -> (r: Self)
        ensures
            forall|i: int| 0 <= i < 64 ==> #[trigger] r.0[i] == default_value,
    {
        PerSquare([default_value; 64])
    }

    pub fn get(&self, k: Square) -> (r: T)
        ensures
            r == self.0[k.idx()],
    {
        self.0[k.index()]
    }

    pub fn set(&mut self, k: Square, v: T)
        ensures
            final(self).0@ == old(self).0@.update(k.idx(), v),
    {
        self.0[k.index()] = v;
    }

    /// The (key, value) pairs in key order.
    pub fn iter(&self) -> (r: Vec<(Square, T)>)
        ensures
            r.len() == 64,
            forall|i: int| 0 <= i < 64 ==> (#[trigger] r[i]).0.idx() == i && r[i].1 == self.0[i],
    {
        let mut out: Vec<(Square, T)> = Vec::new();
        let mut i: usize = 0;
        while i < 64
            invariant
                i <= 64,
                out.len() == i,
                forall|j: int| 0 <= j < i ==> (#[trigger] out[j]).0.idx() == j && out[j].1 == self.0[j],
            decreases 64 - i,
        {
            out.push((Square::from_index(i), self.0[i]));
            i = i + 1;
        }
        out
    }
}

/// Two piece kinds with one index are one kind.
pub proof fn lemma_kind_idx_inj(a: PieceKind, b: PieceKind)
    requires
        a.idx() == b.idx(),
    ensures
        a == b,
{
}

/// Two squares with one index are one square.
pub proof fn lemma_square_idx_inj(a: Square, b: Square)
    requires
        a.idx() == b.idx(),
    ensures
        a == b,
{
}

/// The square with index `i`.
pub open spec fn sq_at(i: int) -> Square {
    choose|s: Square| s.idx() == i
}

pub proof fn lemma_sq_at(i: int)
    requires
        0 <= i < 64,
    ensures
        sq_at(i).idx() == i,
{
    if i == 0 {
        assert(Square::A1.idx() == i);
    } else if i == 1 {
        assert(Square::B1.idx() == i);
    } else if i == 2 {
        assert(Square::C1.idx() == i);
    } else if i == 3 {
        assert(Square::D1.idx() == i);
    } else if i == 4 {
        assert(Square::E1.idx() == i);
    } else if i == 5 {
        assert(Square::F1.idx() == i);
    } else if i == 6 {
        assert(Square::G1.idx() == i);
    } else if i == 7 {
        assert(Square::H1.idx() == i);
    } else if i == 8 {
        assert(Square::A2.idx() == i);
    } else if i == 9 {
        assert(Square::B2.idx() == i);
    } else if i == 10 {
        assert(Square::C2.idx() == i);
    } else if i == 11 {
        assert(Square::D2.idx() == i);
    } else if i == 12 {
        assert(Square::E2.idx() == i);
    } else if i == 13 {
        assert(Square::F2.idx() == i);
    } else if i == 14 {
        assert(Square::G2.idx() == i);
    } else if i == 15 {
        assert(Square::H2.idx() == i);
    } else if i == 16 {
        assert(Square::A3.idx() == i);
    } else if i == 17 {
        assert(Square::B3.idx() == i);
    } else if i == 18 {
        assert(Square::C3.idx() == i);
    } else if i == 19 {
        assert(Square::D3.idx() == i);
    } else if i == 20 {
        assert(Square::E3.idx() == i);
    } else if i == 21 {
        assert(Square::F3.idx() == i);
    } else if i == 22 {
        assert(Square::G3.idx() == i);
    } else if i == 23 {
        assert(Square::H3.idx() == i);
    } else if i == 24 {
        assert(Square::A4.idx() == i);
    } else if i == 25 {
        assert(Square::B4.idx() == i);
    } else if i == 26 {
        assert(Square::C4.idx() == i);
    } else if i == 27 {
        assert(Square::D4.idx() == i);
    } else if i == 28 {
        assert(Square::E4.idx() == i);
    } else if i == 29 {
        assert(Square::F4.idx() == i);
    } else if i == 30 {
        assert(Square::G4.idx() == i);
    } else if i == 31 {
        assert(Square::H4.idx() == i);
    } else if i == 32 {
        assert(Square::A5.idx() == i);
    } else if i == 33 {
        assert(Square::B5.idx() == i);
    } else if i == 34 {
        assert(Square::C5.idx() == i);
    } else if i == 35 {
        assert(Square::D5.idx() == i);
    } else if i == 36 {
        assert(Square::E5.idx() == i);
    } else if i == 37 {
        assert(Square::F5.idx() == i);
    } else if i == 38 {
        assert(Square::G5.idx() == i);
    } else if i == 39 {
        assert(Square::H5.idx() == i);
    } else if i == 40 {
        assert(Square::A6.idx() == i);
    } else if i == 41 {
        assert(Square::B6.idx() == i);
    } else if i == 42 {
        assert(Square::C6.idx() == i);
    } else if i == 43 {
        assert(Square::D6.idx() == i);
    } else if i == 44 {
        assert(Square::E6.idx() == i);
    } else if i == 45 {
        assert(Square::F6.idx() == i);
    } else if i == 46 {
        assert(Square::G6.idx() == i);
    } else if i == 47 {
        assert(Square::H6.idx() == i);
    } else if i == 48 {
        assert(Square::A7.idx() == i);
    } else if i == 49 {
        assert(Square::B7.idx() == i);
    } else if i == 50 {
        assert(Square::C7.idx() == i);
    } else if i == 51 {
        assert(Square::D7.idx() == i);
    } else if i == 52 {
        assert(Square::E7.idx() == i);
    } else if i == 53 {
        assert(Square::F7.idx() == i);
    } else if i == 54 {
        assert(Square::G7.idx() == i);
    } else if i == 55 {
        assert(Square::H7.idx() == i);
    } else if i == 56 {
        assert(Square::A8.idx() == i);
    } else if i == 57 {
        assert(Square::B8.idx() == i);
    } else if i == 58 {
        assert(Square::C8.idx() == i);
    } else if i == 59 {
        assert(Square::D8.idx() == i);
    } else if i == 60 {
        assert(Square::E8.idx() == i);
    } else if i == 61 {
        assert(Square::F8.idx() == i);
    } else if i == 62 {
        assert(Square::G8.idx() == i);
    } else if i == 63 {
        assert(Square::H8.idx() == i);
    }
}


} // verus!
