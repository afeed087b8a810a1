//! The transposition table: search results kept per position hash, one
//! slot per hash bucket, each slot a key and a packed data word.

use vstd::prelude::*;
use crate::basetypes::{MATE_BOUND, Move, decoded_move, lemma_move_bits_decode, lemma_move_bits_range, move_bits, promotion_code};
use crate::eval::Score;

verus! {

/// What a stored score says about the position's true score.
#[derive(Debug, Clone, Copy, PartialEq, Eq, Structural)]
pub enum ScoreBound {
    Lower,
    Upper,
    Exact,
}

/// The two-bit code of a bound; 0 marks a missing entry.
pub open spec fn bound_code(b: ScoreBound) -> u64 {
    match b {
        ScoreBound::Lower => 1,
        ScoreBound::Upper => 2,
        ScoreBound::Exact => 3,
    }
}

pub open spec fn bound_of_code(c: u64) -> Option<ScoreBound> {
    if c == 1 {
        Some(ScoreBound::Lower)
    } else if c == 2 {
        Some(ScoreBound::Upper)
    } else if c == 3 {
        Some(ScoreBound::Exact)
    } else {
        None
    }
}

impl ScoreBound {
    pub fn from_bits(bits: u64) -> (r: Option<ScoreBound>)
        ensures
            r == bound_of_code(bits),
    {
        match bits {
            1 => Some(ScoreBound::Lower),
            2 => Some(ScoreBound::Upper),
            3 => Some(ScoreBound::Exact),
            _ => None,
        }
    }

    fn code(self) -> (r: u64)
        ensures
            r == bound_code(self),
    {
        match self {
            ScoreBound::Lower => 1,
            ScoreBound::Upper => 2,
            ScoreBound::Exact => 3,
        }
    }
}

/// The largest search-iteration number an entry records (six bits).
pub const SEARCH_ITERATION_NUM_MASK: u8 = 63;

/// One table entry as read back.
#[derive(Debug, Clone, Copy)]
pub struct TTHit {
    pub mv: Move,
    pub score: Score,
    pub depth: u8,
    pub bound: ScoreBound,
    pub search_iteration: u8,
}

/// The 16-bit two's complement number `x` holds.
pub open spec fn i16_of(x: u64) -> int {
    if x < 32768 {
        x as int
    } else {
        x - 65536
    }
}

/// The data word of a hit: move in bits 0-15, score (16-bit two's
/// complement) in bits 16-31, depth in 32-39, bound in 40-41, search
/// iteration in 42-47.
pub open spec fn hit_bits(mv_bits: u64, score: i32, depth: u8, bound: ScoreBound, search_iteration: u8) -> u64 {
    mv_bits | ((score as u16 as u64) << 16u64) | ((depth as u64) << 32u64) | (bound_code(bound) << 40u64) | ((
    search_iteration as u64) << 42u64)
}

/// `h` is the hit the data word `data` holds, its score moved by `shift`.
pub open spec fn hit_decodes(data: u64, h: TTHit, shift: int) -> bool {
    &&& decoded_move((data % 65536) as int, h.mv)
    &&& h.score == i16_of((data >> 16u64) & 0xffff) + shift
    &&& h.depth == (data >> 32u64) & 0xff
    &&& Some(h.bound) == bound_of_code((data >> 40u64) & 3)
    &&& h.search_iteration == (data >> 42u64) & 63
}

/// Packing a hit and reading the word back gives the hit's squares and
/// promotion, score, depth, bound and search iteration.
pub proof fn lemma_marshall_round_trip(h: TTHit, h2: TTHit)
    requires
        -32767 <= h.score <= 32767,
        h.search_iteration <= 63,
        hit_decodes(
            hit_bits(
                move_bits(h.mv.from_sq().idx(), h.mv.to_sq().idx(), h.mv.promo()) as u64,
                h.score,
                h.depth,
                h.bound,
                h.search_iteration,
            ),
            h2,
            0,
        ),
    ensures
        h2.mv.from_sq() == h.mv.from_sq(),
        h2.mv.to_sq() == h.mv.to_sq(),
        h2.mv.promo() == h.mv.promo(),
        h2.score == h.score,
        h2.depth == h.depth,
        h2.bound == h.bound,
        h2.search_iteration == h.search_iteration,
{
    let f = h.mv.from_sq().idx();
    let t = h.mv.to_sq().idx();
    let c = promotion_code(h.mv.promo());
    let mb = move_bits(f, t, h.mv.promo());
    lemma_move_bits_range(h.mv);
    lemma_hit_roundtrip(mb as u64, h.score, h.depth, h.bound, h.search_iteration);
    assert(0 <= f < 64 && 0 <= t < 64 && 0 <= c <= 6);
    assert(mb % 64 == f && (mb / 64) % 64 == t && (mb / 4096) % 8 == c) by (nonlinear_arith)
        requires
            mb == f + 64 * t + 4096 * c,
            0 <= f < 64,
            0 <= t < 64,
            0 <= c <= 6,
    ;
    crate::basetypes::lemma_square_idx_inj(h2.mv.from_sq(), h.mv.from_sq());
    crate::basetypes::lemma_square_idx_inj(h2.mv.to_sq(), h.mv.to_sq());
    if h.mv.promo() is Some {
        let k = h.mv.promo()->0;
        let k2 = h2.mv.promo()->0;
        crate::basetypes::lemma_kind_idx_inj(k, k2);
    }
}

/// A packed hit decodes to one hit only.
pub proof fn lemma_hit_decodes_unique(data: u64, h1: TTHit, h2: TTHit, shift: int)
    requires
        hit_decodes(data, h1, shift),
        hit_decodes(data, h2, shift),
    ensures
        h1 == h2,
{
    Move::lemma_move_ext(h1.mv, h2.mv);
}

/// Reading back a packed hit gives its fields.
pub proof fn lemma_hit_roundtrip(mv_bits: u64, score: i32, depth: u8, bound: ScoreBound, search_iteration: u8)
    requires
        mv_bits < 32768,
        -32768 <= score <= 32767,
        search_iteration <= 63,
    ensures
        hit_bits(mv_bits, score, depth, bound, search_iteration) % 65536 == mv_bits,
        i16_of((hit_bits(mv_bits, score, depth, bound, search_iteration) >> 16u64) & 0xffff) == score,
        (hit_bits(mv_bits, score, depth, bound, search_iteration) >> 32u64) & 0xff == depth,
        bound_of_code((hit_bits(mv_bits, score, depth, bound, search_iteration) >> 40u64) & 3) == Some(bound),
        (hit_bits(mv_bits, score, depth, bound, search_iteration) >> 42u64) & 63 == search_iteration,
        hit_bits(mv_bits, score, depth, bound, search_iteration) != 0,
{
    let s16 = score as u16;
    let b = bound_code(bound);
    assert(1 <= b <= 3);
    assert(mv_bits < 32768 && 1 <= b <= 3 && search_iteration <= 63 ==> {
        let x = mv_bits | ((s16 as u64) << 16u64) | ((depth as u64) << 32u64) | (b << 40u64) | ((search_iteration as u64) << 42u64);
        &&& x % 65536 == mv_bits
        &&& (x >> 16u64) & 0xffff == s16 as u64
        &&& (x >> 32u64) & 0xff == depth as u64
        &&& (x >> 40u64) & 3 == b
        &&& (x >> 42u64) & 63 == search_iteration as u64
        &&& x != 0
    }) by (bit_vector);
    assert((0 <= score ==> (score as u16) as u64 == score as u64) && (score < 0 ==> ((score as u16) as u64) as int
        == score as int + 65536)) by (bit_vector)
        requires
            -32768 <= score <= 32767,
    ;
}

impl TTHit {
    /// Packs the hit into one data word.
    pub fn marshall(&self) -> (r: u64)
        requires
            -32767 <= self.score <= 32767,
            self.search_iteration <= SEARCH_ITERATION_NUM_MASK,
        ensures
            r == hit_bits(
                move_bits(self.mv.from_sq().idx(), self.mv.to_sq().idx(), self.mv.promo()) as u64,
                self.score,
                self.depth,
                self.bound,
                self.search_iteration,
            ),
    {
        let mv = self.mv.bits() as u64;
        let score = self.score as u16 as u64;
        mv | (score << 16u64) | ((self.depth as u64) << 32u64) | (self.bound.code() << 40u64) | ((self.search_iteration as u64) << 42u64)
    }

    /// Unpacks a data word whose bound code is valid.
    pub fn unmarshall(bits: u64) -> (r: TTHit)
        requires
            bound_of_code((bits >> 40u64) & 3) is Some,
        ensures
            hit_decodes(bits, r, 0),
    {
        let raw = ((bits >> 16u64) & 0xffff) as u16;
        let score: i32 = raw as i16 as i32;
        proof {
            assert(((bits >> 16u64) & 0xffff) as u16 as u64 == (bits >> 16u64) & 0xffff
                && ((bits >> 32u64) & 0xff) as u8 as u64 == (bits >> 32u64) & 0xff
                && (((bits >> 42u64) as u8) & 63u8) as u64 == (bits >> 42u64) & 63
                && (raw < 32768 ==> (raw as i16) as i32 == raw as i32)
                && (raw >= 32768 ==> ((raw as i16) as i32) as int == raw as int - 65536)
                && bits as u16 == bits % 65536) by (bit_vector);
        }
        let bound = match ScoreBound::from_bits((bits >> 40u64) & 3) {
            Some(b) => b,
            None => ScoreBound::Exact,
        };

        TTHit {
            mv: Move::from_bits(bits as u16),
            score,
            depth: ((bits >> 32u64) & 0xff) as u8,
            bound,
            search_iteration: ((bits >> 42u64) as u8) & SEARCH_ITERATION_NUM_MASK,
        }
    }
}

/// A stored score as read back `ply` plies from the root: mate scores are
/// kept relative to the node, and moved by the ply on the way in and out.
pub open spec fn from_table_score(score: int, ply: int) -> int {
    if score >= MATE_BOUND {
        score - ply
    } else if score <= -MATE_BOUND {
        score + ply
    } else {
        score
    }
}

/// A score as stored from `ply` plies from the root.
pub open spec fn to_table_score(score: int, ply: int) -> int {
    if score >= MATE_BOUND {
        score + ply
    } else if score <= -MATE_BOUND {
        score - ply
    } else {
        score
    }
}

/// One slot: the key is the position hash xored with the data word, so a
/// torn or foreign entry fails the check on read.
#[derive(Debug, Clone, Copy, PartialEq, Eq, Structural)]
pub struct TTEntry {
    pub key: u64,
    pub data: u64,
}

impl TTEntry {
    pub fn is_data_empty(&self) -> (r: bool)
        ensures
            r == (self.data == 0),
    {
        self.data == 0
    }
}

/// The slot a hash falls in: the high 64 bits of `zobrist * len`.
pub open spec fn slot_of(zobrist: u64, len: nat) -> int {
    (zobrist as int * len) / 0x1_0000_0000_0000_0000
}

/// How many of the first `n` entries hold data.
pub open spec fn filled_count(entries: Seq<TTEntry>, n: nat) -> nat
    decreases n,
{
    if n == 0 {
        0
    } else {
        filled_count(entries, (n - 1) as nat) + (if entries[n - 1].data != 0 { 1nat } else { 0nat })
    }
}

/// A store replaces the entry when the slot is empty or unreadable, when the
/// entry is from another search, or when the new depth plus two beats it.
pub open spec fn replaces(old_data: u64, depth: u8, search_iteration: u8) -> bool {
    ||| old_data == 0
    ||| bound_of_code((old_data >> 40u64) & 3) is None
    ||| (old_data >> 42u64) & 63 != search_iteration
    ||| depth + 2 > (old_data >> 32u64) & 0xff
}

/// What a transposition table offers the search.
pub trait TT {
    spec fn inv(&self) -> bool;

    /// The table keeps nothing: every fetch misses.
    spec fn keeps_nothing(&self) -> bool;

    /// The table holds move `m` for hash `zobrist`: a fetch of that hash
    /// may give it back.
    spec fn holds_move(&self, zobrist: u64, m: Move) -> bool;

    /// What a fetch of hash `zobrist` at `ply` gives back.
    spec fn lookup(&self, zobrist: u64, ply: int) -> Option<TTHit>;

    /// A store for hash `zobrist` at `depth` would leave the table as it is:
    /// it keeps a deeper entry of the current search there, or keeps nothing.
    spec fn refuses_store(&self, zobrist: u64, depth: u8) -> bool;

    /// Starts a new search: entries of older searches become replaceable.
    fn new_search(&mut self)
        requires
            old(self).inv(),
        ensures
            final(self).inv(),
            final(self).keeps_nothing() == old(self).keeps_nothing(),
    ;

    /// The entry stored for this hash, its mate score moved by `ply`.
    fn fetch(&self, zobrist: u64, ply: usize) -> (r: Option<TTHit>)
        requires
            self.inv(),
            ply < 65536,
        ensures
            r matches Some(h) ==> -32768 - ply <= h.score <= 32767 + ply,
            self.keeps_nothing() ==> r is None,
            r matches Some(h) ==> self.holds_move(zobrist, h.mv),
            r == self.lookup(zobrist, ply as int),
    ;

    /// Stores a search result for this hash.
    fn store(&mut self, zobrist: u64, mv: Move, score: Score, bound: ScoreBound, depth: u8, ply: i32)
        requires
            old(self).inv(),
            0 <= ply < 65536,
            -32767 <= to_table_score(score as int, ply as int) <= 32767,
        ensures
            final(self).inv(),
            final(self).keeps_nothing() == old(self).keeps_nothing(),
            (exists|h: Move| #[trigger] final(self).holds_move(zobrist, h) && h.from_sq() == mv.from_sq() && h.to_sq()
                == mv.to_sq() && h.promo() == mv.promo()) || final(self).refuses_store(zobrist, depth),
            (final(self).lookup(zobrist, ply as int) matches Some(h) && h.score == score && h.depth == depth && h.bound
                == bound && h.mv.from_sq() == mv.from_sq() && h.mv.to_sq() == mv.to_sq() && h.mv.promo() == mv.promo())
                || final(self).refuses_store(zobrist, depth),
    ;

    /// How many of the first thousand slots are filled.
    fn hashfull(&self) -> (r: u16)
        requires
            self.inv(),
        ensures
            r <= 1000,
    ;
}

/// The table in use.
#[derive(Debug, Clone)]
pub struct ActiveTranspositionTable {
    pub entries: Vec<TTEntry>,
    pub search_iteration: u8,
}

impl ActiveTranspositionTable {
    pub open spec fn wf(&self) -> bool {
        &&& self.entries@.len() > 0
        &&& self.search_iteration <= SEARCH_ITERATION_NUM_MASK
    }

    /// The entry the hash falls on.
    pub open spec fn entry_for(&self, zobrist: u64) -> TTEntry {
        self.entries@[slot_of(zobrist, self.entries@.len())]
    }

    /// A table of about `size_in_megabytes` megabytes.
    pub fn new(size_in_megabytes: usize) -> (r: Self)
        requires
            0 < size_in_megabytes,
            size_in_megabytes * 1048576 <= usize::MAX,
        ensures
            r.wf(),
            r.entries@.len() == size_in_megabytes * 65536,
            r.search_iteration == 0,
            forall|i: int| 0 <= i < r.entries@.len() ==> #[trigger] r.entries@[i] == (TTEntry { key: 0, data: 0 }),
    {
        Self::new_with_num_slots(size_in_megabytes * 65536)
    }

    /// A table of `num_slots` empty slots.
    pub fn new_with_num_slots(num_slots: usize) -> (r: Self)
        requires
            num_slots > 0,
        ensures
            r.wf(),
            r.entries@.len() == num_slots,
            r.search_iteration == 0,
            forall|i: int| 0 <= i < r.entries@.len() ==> #[trigger] r.entries@[i] == (TTEntry { key: 0, data: 0 }),
    {
        let mut entries: Vec<TTEntry> = Vec::new();
        let mut i: usize = 0;
        while i < num_slots
            invariant
                i <= num_slots,
                entries@.len() == i,
                forall|j: int| 0 <= j < i ==> #[trigger] entries@[j] == (TTEntry { key: 0, data: 0 }),
            decreases num_slots - i,
        {
            entries.push(TTEntry { key: 0, data: 0 });
            i = i + 1;
        }
        ActiveTranspositionTable { entries, search_iteration: 0 }
    }

    /// The slot a hash falls in.
    pub fn hash_zobrist(&self, zobrist: u64) -> (r: usize)
        requires
            self.entries@.len() > 0,
        ensures
            r == slot_of(zobrist, self.entries@.len()),
            r < self.entries@.len(),
    {
        let len = self.entries.len();
        proof {
            assert((zobrist as u128) * (len as u128) <= 0xffff_ffff_ffff_ffffu128 * 0xffff_ffff_ffff_ffffu128) by (nonlinear_arith)
                requires
                    zobrist <= 0xffff_ffff_ffff_ffffu64,
                    len <= 0xffff_ffff_ffff_ffffu64;
        }
        let product: u128 = (zobrist as u128) * (len as u128);
        let x = product >> 64u128;
        proof {
            assert(product >> 64u128 == product / 0x1_0000_0000_0000_0000u128) by (bit_vector);
            assert((zobrist as int * len as int) / 0x1_0000_0000_0000_0000 < len as int) by (nonlinear_arith)
                requires
                    0 <= zobrist < 0x1_0000_0000_0000_0000,
                    len > 0;
            assert((zobrist as int * len as int) / 0x1_0000_0000_0000_0000 >= 0) by (nonlinear_arith)
                requires
                    0 <= zobrist,
                    len > 0;
        }
        x as usize
    }

    /// Starts a new search; the iteration number counts modulo 64.
    pub fn new_search(&mut self)
        requires
            old(self).wf(),
        ensures
            final(self).wf(),
            final(self).entries == old(self).entries,
            final(self).search_iteration == (old(self).search_iteration + 1) % 64,
    {
        let next = self.search_iteration + 1;
        self.search_iteration = next & SEARCH_ITERATION_NUM_MASK;
        proof {
            assert(next <= 64 ==> next & 63 == next % 64) by (bit_vector);
        }
    }

    /// How many of the first thousand slots hold data; 0 for a table of
    /// fewer than a thousand slots.
    pub fn hashfull(&self) -> (r: u16)
        ensures
            self.entries@.len() < 1000 ==> r == 0,
            self.entries@.len() >= 1000 ==> r == filled_count(self.entries@, 1000),
            r <= 1000,
    {
        if self.entries.len() < 1000 {
            return 0;
        }
        let mut count: u16 = 0;
        let mut i: usize = 0;
        while i < 1000
            invariant
                i <= 1000,
                self.entries@.len() >= 1000,
                count == filled_count(self.entries@, i as nat),
                count <= i,
            decreases 1000 - i,
        {
            if !self.entries[i].is_data_empty() {
                count = count + 1;
            }
            i = i + 1;
        }
        count
    }

    /// The entry stored for this hash, if its check passes and its bound is
    /// readable; mate scores come back moved by `ply`.
    pub fn fetch(&self, zobrist: u64, ply: usize) -> (r: Option<TTHit>)
        requires
            self.wf(),
            ply < 65536,
        ensures
            (self.entry_for(zobrist).key ^ self.entry_for(zobrist).data != zobrist
                || bound_of_code((self.entry_for(zobrist).data >> 40u64) & 3) is None) <==> r is None,
            r matches Some(h) ==> hit_decodes(
                self.entry_for(zobrist).data,
                h,
                from_table_score(i16_of((self.entry_for(zobrist).data >> 16u64) & 0xffff), ply as int) - i16_of(
                    (self.entry_for(zobrist).data >> 16u64) & 0xffff,
                ),
            ),
            r matches Some(h) ==> -32768 - ply <= h.score <= 32767 + ply,
    {
        let slot = self.hash_zobrist(zobrist);
        let entry = self.entries[slot];
        let key = entry.key;
        let data = entry.data;
        if key ^ data != zobrist {
            return None;
        }
        if ScoreBound::from_bits((data >> 40u64) & 3).is_none() {
            return None;
        }
        let mut hit = TTHit::unmarshall(data);
        proof {
            let x = (data >> 16u64) & 0xffff;
            assert(x <= 0xffff) by (bit_vector)
                requires x == (data >> 16u64) & 0xffff;
        }
        if hit.score >= MATE_BOUND {
            hit.score = hit.score - ply as Score;
        } else if hit.score <= -MATE_BOUND {
            hit.score = hit.score + ply as Score;
        }
        Some(hit)
    }

    /// Stores a search result for this hash, unless the slot holds a deeper
    /// entry of the current search; mate scores are stored moved by `ply`.
    pub fn store(&mut self, zobrist: u64, mv: Move, score: Score, bound: ScoreBound, depth: u8, ply: i32)
        requires
            old(self).wf(),
            0 <= ply < 65536,
            -32767 <= to_table_score(score as int, ply as int) <= 32767,
        ensures
            final(self).wf(),
            final(self).search_iteration == old(self).search_iteration,
            final(self).entries@.len() == old(self).entries@.len(),
            ({
                let slot = slot_of(zobrist, old(self).entries@.len());
                let data = hit_bits(
                    move_bits(mv.from_sq().idx(), mv.to_sq().idx(), mv.promo()) as u64,
                    to_table_score(score as int, ply as int) as i32,
                    depth,
                    bound,
                    old(self).search_iteration,
                );
                if replaces(old(self).entries@[slot].data, depth, old(self).search_iteration) {
                    final(self).entries@ == old(self).entries@.update(slot, TTEntry { key: zobrist ^ data, data })
                } else {
                    final(self).entries@ == old(self).entries@
                }
            }),
    {
        let slot = self.hash_zobrist(zobrist);
        let old_data = self.entries[slot].data;
        let search_iteration = self.search_iteration;
        let replace_slot = if old_data == 0 {
            true
        } else if ScoreBound::from_bits((old_data >> 40u64) & 3).is_none() {
            true
        } else {
            let old_hit = TTHit::unmarshall(old_data);
            old_hit.search_iteration != search_iteration || depth as i32 + 2 > old_hit.depth as i32
        };
        if !replace_slot {
            return;
        }
        let stored = if score >= MATE_BOUND {
            score + ply
        } else if score <= -MATE_BOUND {
            score - ply
        } else {
            score
        };
        let data = TTHit { mv, score: stored, depth, bound, search_iteration }.marshall();
        self.entries.set(slot, TTEntry { key: zobrist ^ data, data });
    }
}

impl TT for ActiveTranspositionTable {
    open spec fn inv(&self) -> bool {
        self.wf()
    }

    open spec fn keeps_nothing(&self) -> bool {
        false
    }

    open spec fn holds_move(&self, zobrist: u64, m: Move) -> bool {
        &&& self.entry_for(zobrist).key ^ self.entry_for(zobrist).data == zobrist
        &&& decoded_move((self.entry_for(zobrist).data % 65536) as int, m)
    }

    open spec fn lookup(&self, zobrist: u64, ply: int) -> Option<TTHit> {
        let data = self.entry_for(zobrist).data;
        if self.entry_for(zobrist).key ^ data != zobrist || (bound_of_code((data >> 40u64) & 3) is None) {
            None
        } else {
            let stored = i16_of((data >> 16u64) & 0xffff);
            Some(choose|h: TTHit| #[trigger] hit_decodes(data, h, from_table_score(stored, ply) - stored))
        }
    }

    open spec fn refuses_store(&self, zobrist: u64, depth: u8) -> bool {
        !replaces(self.entry_for(zobrist).data, depth, self.search_iteration)
    }

    fn new_search(&mut self)
        ensures
            final(self).entries == old(self).entries,
            final(self).search_iteration == (old(self).search_iteration + 1) % 64,
    {
        ActiveTranspositionTable::new_search(self);
    }

    fn fetch(&self, zobrist: u64, ply: usize) -> (r: Option<TTHit>)
        ensures
            (self.entry_for(zobrist).key ^ self.entry_for(zobrist).data != zobrist
                || bound_of_code((self.entry_for(zobrist).data >> 40u64) & 3) is None) <==> r is None,
            r matches Some(h) ==> hit_decodes(
                self.entry_for(zobrist).data,
                h,
                from_table_score(i16_of((self.entry_for(zobrist).data >> 16u64) & 0xffff), ply as int) - i16_of(
                    (self.entry_for(zobrist).data >> 16u64) & 0xffff,
                ),
            ),
    {
        let r = ActiveTranspositionTable::fetch(self, zobrist, ply);
        proof {
            if r is Some {
                let h = r->0;
                let data = self.entry_for(zobrist).data;
                let stored = i16_of((data >> 16u64) & 0xffff);
                let c = choose|h2: TTHit| #[trigger] hit_decodes(data, h2, from_table_score(stored, ply as int) - stored);
                lemma_hit_decodes_unique(data, h, c, from_table_score(stored, ply as int) - stored);
            }
        }
        r
    }

    fn store(&mut self, zobrist: u64, mv: Move, score: Score, bound: ScoreBound, depth: u8, ply: i32)
        ensures
            final(self).search_iteration == old(self).search_iteration,
            final(self).entries@.len() == old(self).entries@.len(),
            ({
                let slot = slot_of(zobrist, old(self).entries@.len());
                let data = hit_bits(
                    move_bits(mv.from_sq().idx(), mv.to_sq().idx(), mv.promo()) as u64,
                    to_table_score(score as int, ply as int) as i32,
                    depth,
                    bound,
                    old(self).search_iteration,
                );
                if replaces(old(self).entries@[slot].data, depth, old(self).search_iteration) {
                    final(self).entries@ == old(self).entries@.update(slot, TTEntry { key: zobrist ^ data, data })
                } else {
                    final(self).entries@ == old(self).entries@
                }
            }),
    {
        let ghost t0 = *self;
        ActiveTranspositionTable::store(self, zobrist, mv, score, bound, depth, ply);
        proof {
            if replaces(t0.entry_for(zobrist).data, depth, t0.search_iteration) {
                lemma_fetch_after_store(t0, *self, zobrist, mv, score, bound, depth, ply);
                lemma_move_bits_decode(mv);
                let h = choose|h: Move| #[trigger] decoded_move(move_bits(mv.from_sq().idx(), mv.to_sq().idx(), mv.promo()), h)
                    && h.from_sq() == mv.from_sq() && h.to_sq() == mv.to_sq() && h.promo() == mv.promo();
                assert(self.holds_move(zobrist, h));
                let data = self.entry_for(zobrist).data;
                let stored = i16_of((data >> 16u64) & 0xffff);
                let shift = from_table_score(stored, ply as int) - stored;
                assert(from_table_score(stored, ply as int) == score);
                let w = TTHit { mv: h, score, depth, bound, search_iteration: t0.search_iteration };
                assert(hit_decodes(data, w, shift));
                let c = choose|c: TTHit| #[trigger] hit_decodes(data, c, shift);
                lemma_hit_decodes_unique(data, w, c, shift);
                assert(self.lookup(zobrist, ply as int) == Some(w));
            }
        }
    }

    fn hashfull(&self) -> (r: u16)
        ensures
            self.entries@.len() < 1000 ==> r == 0,
            self.entries@.len() >= 1000 ==> r == filled_count(self.entries@, 1000),
    {
        ActiveTranspositionTable::hashfull(self)
    }
}

/// A table that keeps nothing.
#[derive(Debug, Clone, Copy)]
pub struct NoopTranspositionTable;

impl TT for NoopTranspositionTable {
    open spec fn inv(&self) -> bool {
        true
    }

    open spec fn keeps_nothing(&self) -> bool {
        true
    }

    open spec fn holds_move(&self, zobrist: u64, m: Move) -> bool {
        false
    }

    open spec fn lookup(&self, zobrist: u64, ply: int) -> Option<TTHit> {
        None
    }

    open spec fn refuses_store(&self, zobrist: u64, depth: u8) -> bool {
        true
    }

    fn new_search(&mut self) {
    }

    fn fetch(&self, zobrist: u64, ply: usize) -> (r: Option<TTHit>)
        ensures
            r is None,
    {
        None
    }

    fn store(&mut self, zobrist: u64, mv: Move, score: Score, bound: ScoreBound, depth: u8, ply: i32) {
    }

    fn hashfull(&self) -> (r: u16)
        ensures
            r == 0,
    {
        0
    }
}

/// A read of a hash right after a store that replaced its slot gives back
/// what was stored: the move's squares and promotion, depth, bound, the
/// search iteration, and the score (mate scores moved by the two plies).
pub proof fn lemma_fetch_after_store(
    t0: ActiveTranspositionTable,
    t1: ActiveTranspositionTable,
    zobrist: u64,
    mv: Move,
    score: Score,
    bound: ScoreBound,
    depth: u8,
    ply: i32,
)
    requires
        t0.wf(),
        -32767 <= to_table_score(score as int, ply as int) <= 32767,
        t1.search_iteration == t0.search_iteration,
        t1.entries@ == t0.entries@.update(
            slot_of(zobrist, t0.entries@.len()),
            TTEntry {
                key: zobrist ^ hit_bits(
                    move_bits(mv.from_sq().idx(), mv.to_sq().idx(), mv.promo()) as u64,
                    to_table_score(score as int, ply as int) as i32,
                    depth,
                    bound,
                    t0.search_iteration,
                ),
                data: hit_bits(
                    move_bits(mv.from_sq().idx(), mv.to_sq().idx(), mv.promo()) as u64,
                    to_table_score(score as int, ply as int) as i32,
                    depth,
                    bound,
                    t0.search_iteration,
                ),
            },
        ),
    ensures
        t1.entry_for(zobrist).key ^ t1.entry_for(zobrist).data == zobrist,
        t1.entry_for(zobrist).data % 65536 == move_bits(mv.from_sq().idx(), mv.to_sq().idx(), mv.promo()),
        i16_of((t1.entry_for(zobrist).data >> 16u64) & 0xffff) == to_table_score(score as int, ply as int),
        (t1.entry_for(zobrist).data >> 32u64) & 0xff == depth,
        bound_of_code((t1.entry_for(zobrist).data >> 40u64) & 3) == Some(bound),
        (t1.entry_for(zobrist).data >> 42u64) & 63 == t0.search_iteration,
{
    let mb = move_bits(mv.from_sq().idx(), mv.to_sq().idx(), mv.promo());
    lemma_move_bits_range(mv);
    let ts = to_table_score(score as int, ply as int) as i32;
    let d = hit_bits(mb as u64, ts, depth, bound, t0.search_iteration);
    lemma_hit_roundtrip(mb as u64, ts, depth, bound, t0.search_iteration);
    let slot = slot_of(zobrist, t0.entries@.len());
    assert(0 <= slot < t0.entries@.len()) by {
        let len = t0.entries@.len();
        assert((zobrist as int * len) / 0x1_0000_0000_0000_0000 < len) by (nonlinear_arith)
            requires
                0 <= zobrist < 0x1_0000_0000_0000_0000,
                len > 0;
        assert((zobrist as int * len) / 0x1_0000_0000_0000_0000 >= 0) by (nonlinear_arith)
            requires
                0 <= zobrist,
                len > 0;
    }
    assert((zobrist ^ d) ^ d == zobrist) by (bit_vector);
}

} // verus!
