//! Zobrist hashing keys, drawn once from a ChaCha stream with a fixed seed.

use vstd::prelude::*;
use rand::RngExt;
use rand::SeedableRng;
use rand_chacha::ChaCha20Rng;
use crate::basetypes::{CastlingRights, PerPiece, PerSide, PerSquare, PieceKind, Side, Square};

verus! {

pub type ZobristKey = u64;

#[verifier::external_type_specification]
#[verifier::external_body]
pub struct ExChaCha20Rng(ChaCha20Rng);

/// The 64-bit value rand_chacha's ChaCha20 generator, seeded with `seed`
/// and set to stream `stream`, gives from its output at 32-bit word `word`:
/// that word as the low half and the next word as the high half.
pub uninterp spec fn chacha20_u64(seed: Seq<u8>, stream: u64, word: nat) -> u64;

/// The seed a ChaCha20 generator was made with.
pub uninterp spec fn rng_seed(rng: ChaCha20Rng) -> Seq<u8>;

/// The stream number (nonce) a ChaCha20 generator is set to.
pub uninterp spec fn rng_stream(rng: ChaCha20Rng) -> u64;

/// How far into its output stream, in 32-bit words, a ChaCha20 generator has read.
pub uninterp spec fn rng_word_pos(rng: ChaCha20Rng) -> nat;

/// `rand_chacha::ChaCha20Rng::from_seed` (through `rand::SeedableRng`): a
/// generator for `seed` on stream 0, at the start of that stream (word 0).
#[verifier::external_body]
fn seeded_rng(seed: [u8; 32]) -> (r: ChaCha20Rng)
    ensures
        rng_seed(r) == seed@,
        rng_stream(r) == 0,
        rng_word_pos(r) == 0,
{
    ChaCha20Rng::from_seed(seed)
}

/// `rand::RngExt::random::<u64>` on the ChaCha generator: `next_u64`, which
/// reads the next two 32-bit words of the stream, the first as the low half;
/// the generator moves two words on and keeps its seed and stream.
#[verifier::external_body]
fn next_random_key(rng: &mut ChaCha20Rng) -> (r: ZobristKey)
    requires
        rng_word_pos(*old(rng)) < 0x1_0000_0000,
    ensures
        r == chacha20_u64(rng_seed(*old(rng)), rng_stream(*old(rng)), rng_word_pos(*old(rng))),
        rng_seed(*final(rng)) == rng_seed(*old(rng)),
        rng_stream(*final(rng)) == rng_stream(*old(rng)),
        rng_word_pos(*final(rng)) == rng_word_pos(*old(rng)) + 2,
{
    rng.random::<ZobristKey>()
}

/// The seed the keys are drawn with: 32 bytes of 54.
pub open spec fn zobrist_seed() -> Seq<u8> {
    Seq::new(32, |i: int| 54u8)
}

/// The key drawn `n`-th from stream 0 of the seeded generator.
pub open spec fn nth_key(n: nat) -> u64 {
    chacha20_u64(zobrist_seed(), 0, 2 * n)
}

/// The random keys XORed together into a position hash.
#[derive(Debug)]
pub struct ZobristRandoms {
    piece_randoms: PerSide<PerPiece<PerSquare<ZobristKey>>>,
    side_randoms: PerSide<ZobristKey>,
    castling_randoms: [ZobristKey; 16],
    ep_square_randoms: PerSquare<ZobristKey>,
    ep_empty_random: ZobristKey,
}

impl ZobristRandoms {
    /// Key of a piece of `side` and `kind` on square index `sq`.
    pub closed spec fn pkey(&self, side: Side, kind: PieceKind, sq: int) -> ZobristKey {
        self.piece_randoms.0[side.idx()].0[kind.idx()].0[sq]
    }

    /// Key of the side to move.
    pub closed spec fn skey(&self, side: Side) -> ZobristKey {
        self.side_randoms.0[side.idx()]
    }

    /// Key of a castling-rights set.
    pub closed spec fn ckey(&self, rights: u8) -> ZobristKey {
        self.castling_randoms[rights as int]
    }

    /// Key of an en passant square, or of there being none.
    pub closed spec fn ekey(&self, ep: Option<Square>) -> ZobristKey {
        match ep {
            Some(s) => self.ep_square_randoms.0[s.idx()],
            None => self.ep_empty_random,
        }
    }

    /// The keys, drawn in turn from a ChaCha20 stream with a fixed seed:
    /// the piece keys by side, kind and square, then the two side keys, the
    /// sixteen castling-rights keys, the en passant square keys and the key
    /// for no en passant square.
    pub fn new() -> (r: Self)
        ensures
            forall|s: Side, k: PieceKind, q: int| 0 <= q < 64 ==> #[trigger] r.pkey(s, k, q)
                == nth_key((s.idx() * 384 + k.idx() * 64 + q) as nat),
            r.skey(Side::White) == nth_key(768),
            r.skey(Side::Black) == nth_key(769),
            forall|c: u8| c < 16 ==> #[trigger] r.ckey(c) == nth_key((770 + c) as nat),
            forall|q: Square| #[trigger] r.ekey(Some(q)) == nth_key((786 + q.idx()) as nat),
            r.ekey(None) == nth_key(850),
    {
        let seed = [54u8; 32];
        proof {
            assert(seed@ =~= zobrist_seed());
        }
        let mut random = seeded_rng(seed);
        let mut piece_randoms: PerSide<PerPiece<PerSquare<ZobristKey>>> = PerSide::new(
            PerPiece::new(PerSquare::new(0)),
        );
        let mut s: usize = 0;
        while s < 2
            invariant
                s <= 2,
                rng_seed(random) == zobrist_seed(),
                rng_stream(random) == 0,
                rng_word_pos(random) == 2 * (s * 384),
                forall|si: int, k: int, q: int| 0 <= si < s && 0 <= k < 6 && 0 <= q < 64
                    ==> #[trigger] piece_randoms.0[si].0[k].0[q] == nth_key((si * 384 + k * 64 + q) as nat),
            decreases 2 - s,
        {
            let mut per_piece: PerPiece<PerSquare<ZobristKey>> = PerPiece::new(PerSquare::new(0));
            let mut k: usize = 0;
            while k < 6
                invariant
                    s < 2,
                    k <= 6,
                    rng_seed(random) == zobrist_seed(),
                    rng_stream(random) == 0,
                    rng_word_pos(random) == 2 * (s * 384 + k * 64),
                    forall|kk: int, q: int| 0 <= kk < k && 0 <= q < 64
                        ==> #[trigger] per_piece.0[kk].0[q] == nth_key((s * 384 + kk * 64 + q) as nat),
                decreases 6 - k,
            {
                let mut per_square: PerSquare<ZobristKey> = PerSquare::new(0);
                let mut q: usize = 0;
                while q < 64
                    invariant
                        s < 2,
                        k < 6,
                        q <= 64,
                        rng_seed(random) == zobrist_seed(),
                        rng_stream(random) == 0,
                        rng_word_pos(random) == 2 * (s * 384 + k * 64 + q),
                        forall|qq: int| 0 <= qq < q ==> #[trigger] per_square.0[qq] == nth_key((s * 384 + k * 64 + qq) as nat),
                    decreases 64 - q,
                {
                    let key = next_random_key(&mut random);
                    per_square.set(Square::from_index(q), key);
                    q = q + 1;
                }
                per_piece.set(PieceKind::from_index(k), per_square);
                k = k + 1;
            }
            piece_randoms.set(Side::from_index(s), per_piece);
            s = s + 1;
        }
        let mut side_randoms: PerSide<ZobristKey> = PerSide::new(0);
        side_randoms.set(Side::White, next_random_key(&mut random));
        side_randoms.set(Side::Black, next_random_key(&mut random));
        let mut castling_randoms: [ZobristKey; 16] = [0; 16];
        let mut c: usize = 0;
        while c < 16
            invariant
                c <= 16,
                rng_seed(random) == zobrist_seed(),
                rng_stream(random) == 0,
                rng_word_pos(random) == 2 * (770 + c),
                forall|cc: int| 0 <= cc < c ==> #[trigger] castling_randoms@[cc] == nth_key((770 + cc) as nat),
            decreases 16 - c,
        {
            castling_randoms[c] = next_random_key(&mut random);
            c = c + 1;
        }
        let mut ep_square_randoms: PerSquare<ZobristKey> = PerSquare::new(0);
        let mut q: usize = 0;
        while q < 64
            invariant
                q <= 64,
                rng_seed(random) == zobrist_seed(),
                rng_stream(random) == 0,
                rng_word_pos(random) == 2 * (786 + q),
                forall|qq: int| 0 <= qq < q ==> #[trigger] ep_square_randoms.0[qq] == nth_key((786 + qq) as nat),
            decreases 64 - q,
        {
            ep_square_randoms.set(Square::from_index(q), next_random_key(&mut random));
            q = q + 1;
        }
        let ep_empty_random = next_random_key(&mut random);
        let r = ZobristRandoms {
            piece_randoms,
            side_randoms,
            castling_randoms,
            ep_square_randoms,
            ep_empty_random,
        };
        proof {
            assert forall|s: Side, k: PieceKind, q: int| 0 <= q < 64 implies #[trigger] r.pkey(s, k, q)
                == nth_key((s.idx() * 384 + k.idx() * 64 + q) as nat) by {
                assert(r.piece_randoms.0[s.idx()].0[k.idx()].0[q] == nth_key((s.idx() * 384 + k.idx() * 64 + q) as nat));
            }
        }
        r
    }

    pub fn piece_key(&self, side: Side, piece_kind: PieceKind, square: Square) -> (r: ZobristKey)
        ensures
            r == self.pkey(side, piece_kind, square.idx()),
    {
        self.piece_randoms.get(side).get(piece_kind).get(square)
    }

    pub fn side_key(&self, side: Side) -> (r: ZobristKey)
        ensures
            r == self.skey(side),
    {
        self.side_randoms.get(side)
    }

    pub fn castling_key(&self, rights: u8) -> (r: ZobristKey)
        requires
            (rights as usize) < CastlingRights::NUM_RIGHTS_COMBOS,
        ensures
            r == self.ckey(rights),
    {
        self.castling_randoms[rights as usize]
    }

    pub fn ep_key(&self, ep_square: Option<Square>) -> (r: ZobristKey)
        ensures
            r == self.ekey(ep_square),
    {
        match ep_square {
            Some(s) => self.ep_square_randoms.get(s),
            None => self.ep_empty_random,
        }
    }
}

} // verus!
