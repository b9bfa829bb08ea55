//! The transposition table: a power-of-two array of entries keyed by the
//! low bits of the position hash, with mate scores normalized to the probe
//! height and a generational replacement policy.
use vstd::prelude::*;
use crate::types::Score;
use crate::moves::Move;
use crate::position::Position;

verus! {

/// Mate scores are encoded near this bound; see `score_to_tt`.
pub const MATE: Score = 30000;

pub const INFINITE: Score = 30001;

/// Scores at or above this magnitude denote a forced mate.
pub const MATE_IN_MAX: Score = 29800;

pub const MAX_DEPTH: u8 = 100;

pub const FLAG_EXACT: u8 = 1;

pub const FLAG_UPPER: u8 = 2;

pub const FLAG_LOWER: u8 = 3;

/// A stored score: mate distances are rebased from the root to the node
/// that stores them.
pub open spec fn spec_score_to_tt(s: int, height: int) -> int {
    if s >= MATE_IN_MAX {
        s + height
    } else if s <= -MATE_IN_MAX {
        s - height
    } else {
        s
    }
}

/// A probed score: mate distances are rebased from the storing node back
/// to the probing root.
pub open spec fn spec_score_from_tt(s: int, height: int) -> int {
    if s >= MATE_IN_MAX {
        s - height
    } else if s <= -MATE_IN_MAX {
        s + height
    } else {
        s
    }
}

/// Storing and reading back at the same height returns the score given.
pub proof fn lemma_tt_score_round_trip(s: int, height: int)
    requires
        -MATE <= s <= MATE,
        0 <= height <= MAX_DEPTH,
    ensures
        spec_score_from_tt(spec_score_to_tt(s, height), height) == s,
{
}

pub fn score_to_tt(s: Score, height: u8) -> (r: Score)
    requires
        -MATE <= s <= MATE,
        height <= MAX_DEPTH,
    ensures
        r == spec_score_to_tt(s as int, height as int),
{
    if s >= MATE_IN_MAX {
        s + height as Score
    } else if s <= -MATE_IN_MAX {
        s - height as Score
    } else {
        s
    }
}

pub fn score_from_tt(s: Score, height: u8) -> (r: Score)
    requires
        -MATE - MAX_DEPTH <= s <= MATE + MAX_DEPTH,
        height <= MAX_DEPTH,
    ensures
        r == spec_score_from_tt(s as int, height as int),
{
    if s >= MATE_IN_MAX {
        s - height as Score
    } else if s <= -MATE_IN_MAX {
        s + height as Score
    } else {
        s
    }
}

/// One cached search result: the full hash for verification, the best
/// move, the height-normalized score, the search depth, and the packed
/// generation and bound kind.
#[derive(Clone, Copy, PartialEq, Eq, Structural, Debug)]
pub struct TTEntry {
    pub hash: u64,
    pub mv: Move,
    pub score: Score,
    pub depth: u8,
    pub age_bound: u8,
}

/// The bound-kind bits of a packed age-bound byte.
proof fn lemma_flag_bits(b: u8)
    by (bit_vector)
    ensures
        b & 3 == b % 4,
{
}

impl TTEntry {
    /// An empty slot.
    pub fn empty() -> (r: TTEntry)
        ensures
            r.mv.0 == 0 && r.depth == 0 && r.hash == 0 && r.age_bound == 0 && r.score == 0,
    {
        TTEntry { hash: 0, mv: Move(0), score: 0, depth: 0, age_bound: 0 }
    }

    pub fn is_some(&self) -> (r: bool)
        ensures
            r <==> self.mv.0 != 0,
    {
        self.mv.0 != 0
    }

    pub fn is_hit(&self, pos: &Position) -> (r: bool)
        ensures
            r <==> self.hash == pos@.hash,
    {
        self.hash == pos.hash
    }

    pub fn is_lower(&self) -> (r: bool)
        ensures
            r <==> self.age_bound % 4 == FLAG_LOWER,
    {
        proof {
            lemma_flag_bits(self.age_bound);
        }
        self.age_bound & 3 == FLAG_LOWER
    }

    pub fn is_exact(&self) -> (r: bool)
        ensures
            r <==> self.age_bound % 4 == FLAG_EXACT,
    {
        proof {
            lemma_flag_bits(self.age_bound);
        }
        self.age_bound & 3 == FLAG_EXACT
    }

    pub fn is_upper(&self) -> (r: bool)
        ensures
            r <==> self.age_bound % 4 == FLAG_UPPER,
    {
        proof {
            lemma_flag_bits(self.age_bound);
        }
        self.age_bound & 3 == FLAG_UPPER
    }

    /// The stored score rebased to the probing height.
    pub fn score(&self, height: u8) -> (r: Score)
        requires
            -MATE - MAX_DEPTH <= self.score <= MATE + MAX_DEPTH,
            height <= MAX_DEPTH,
        ensures
            r == spec_score_from_tt(self.score as int, height as int),
    {
        score_from_tt(self.score, height)
    }
}

/// The table: entries indexed by `hash & index_mask`, plus the current
/// generation.
pub struct TT {
    pub entries: Vec<TTEntry>,
    pub index_mask: usize,
    pub age: u8,
}

impl TT {
    /// Structural soundness of the index mask and generation counter.
    pub open spec fn wf(&self) -> bool {
        &&& self.entries@.len() == self.index_mask + 1
        &&& self.age % 4 == 0
        &&& forall|i: int|
            0 <= i < self.entries@.len() ==> -MATE - MAX_DEPTH <= (#[trigger] self.entries@[i]).score
                <= MATE + MAX_DEPTH
    }

    /// The slot a position maps to: the hash masked to the table size.
    pub open spec fn slot_of(&self, hash: u64) -> int {
        ((hash as usize) & self.index_mask) as int
    }

    pub fn new() -> (r: TT)
        ensures
            r.wf(),
    {
        let mut entries: Vec<TTEntry> = Vec::new();
        entries.push(TTEntry::empty());
        TT { entries, index_mask: 0, age: 0 }
    }

    /// Rounds the requested size down to a power of two of entries and
    /// fills the table with empty slots: the largest power of two at most
    /// `size_in_mb * 2^20 / 16` entries of 16 bytes.
    pub fn allocate(&mut self, size_in_mb: usize)
        requires
            old(self).wf(),
            1 <= size_in_mb <= 32768,
        ensures
            final(self).wf(),
            final(self).age == old(self).age,
            is_pow2(final(self).entries@.len() as int),
            final(self).entries@.len() <= size_in_mb * 65536 < 2 * final(self).entries@.len(),
            forall|i: int|
                0 <= i < final(self).entries@.len() ==> #[trigger] final(self).entries@[i].mv.0
                    == 0,
    {
        let target: usize = size_in_mb * 65536;
        let mut n: usize = 1;
        while n <= target / 2
            invariant
                1 <= n <= target,
                target <= 2147483648,
                is_pow2(n as int),
            decreases target - n,
        {
            n = n * 2;
        }
        proof {
            assert(2 * n > target);
        }
        let mut entries: Vec<TTEntry> = Vec::new();
        let mut i: usize = 0;
        while i < n
            invariant
                i <= n,
                entries@.len() == i,
                forall|j: int| 0 <= j < i ==> #[trigger] entries@[j].mv.0 == 0,
                forall|j: int| 0 <= j < i ==> (#[trigger] entries@[j]).score == 0,
            decreases n - i,
        {
            entries.push(TTEntry::empty());
            i = i + 1;
        }
        self.entries = entries;
        self.index_mask = n - 1;
    }

    /// Number of slots among the first thousand that hold an entry of the
    /// current generation: the protocol's per-mille fill estimate.
    pub fn hashfull(&self) -> (r: u32)
        requires
            self.wf(),
        ensures
            r == count_used(self.entries@, self.age, if self.entries@.len() < 1000 {
                self.entries@.len() as int
            } else {
                1000int
            }),
            r <= 1000,
    {
        let mut res: u32 = 0;
        let mut i: usize = 0;
        let lim: usize = if self.entries.len() < 1000 {
            self.entries.len()
        } else {
            1000
        };
        while i < lim
            invariant
                i <= lim,
                lim <= 1000,
                lim <= self.entries@.len(),
                self.wf(),
                lim == if self.entries@.len() < 1000 {
                    self.entries@.len() as int
                } else {
                    1000int
                },
                res == count_used(self.entries@, self.age, i as int),
                res <= i,
            decreases lim - i,
        {
            let e = self.entries[i];
            proof {
                let b = e.age_bound;
                assert(b & 0xFC == b / 4 * 4) by (bit_vector);
            }
            if e.mv.0 != 0 && (e.age_bound & 0xFC) == self.age {
                res = res + 1;
            }
            i = i + 1;
        }
        res
    }

    /// Starts a new generation for the replacement policy.
    pub fn increment_age(&mut self)
        requires
            old(self).wf(),
        ensures
            final(self).wf(),
            final(self).entries@ == old(self).entries@,
            final(self).index_mask == old(self).index_mask,
            final(self).age == (old(self).age + 4) % 256,
    {
        self.age = self.age.wrapping_add(4);
        proof {
            assert(self.age % 4 == 0);
        }
    }

    /// The age bonus of an entry from an older generation: older entries
    /// are easier to replace.
    pub fn age_diff(current_age: u8, entry_flag: u8) -> (r: u8)
        ensures
            r == spec_age_diff(current_age, entry_flag),
            r % 4 == 0,
    {
        let x: u16 = 259 + current_age as u16 - entry_flag as u16;
        proof {
            assert((x & 0xFC) <= 0xFC && (x & 0xFC) % 4 == 0 && (x & 0xFC) == (x % 256) / 4 * 4)
                by (bit_vector);
        }
        (x & 0xFC) as u8
    }

    /// Probes the table: on a hash match the entry is returned and its
    /// generation refreshed; otherwise the table is unchanged.
    pub fn read(&mut self, pos: &Position) -> (r: Option<TTEntry>)
        requires
            old(self).wf(),
        ensures
            final(self).wf(),
            final(self).index_mask == old(self).index_mask,
            final(self).age == old(self).age,
            0 <= old(self).slot_of(pos@.hash) < old(self).entries@.len(),
            ({
                let idx = old(self).slot_of(pos@.hash);
                let e = old(self).entries@[idx];
                &&& (r is Some <==> e.hash == pos@.hash)
                &&& (r is None ==> final(self).entries@ == old(self).entries@)
                &&& (r is Some ==> r->Some_0 == (TTEntry {
                    age_bound: (final(self).age / 4 * 4 + e.age_bound % 4) as u8,
                    ..e
                }) && r->Some_0.age_bound % 4 == e.age_bound % 4 && final(self).entries@ == old(
                    self,
                ).entries@.update(idx, r->Some_0))
            }),
    {
        let idx = (pos.hash as usize) & self.index_mask;
        proof {
            lemma_mask_mod(pos@.hash, self.index_mask, self.entries@.len() as int);
        }
        let e = self.entries[idx];
        if e.hash == pos.hash {
            proof {
                let a = self.age;
                let b = e.age_bound;
                assert(a % 4 == 0 ==> (a | (b & 3)) == a / 4 * 4 + b % 4 && (a / 4 * 4 + b % 4)
                    % 4 == b % 4) by (bit_vector);
            }
            let refreshed = TTEntry { age_bound: self.age | (e.age_bound & 3), ..e };
            self.entries.set(idx, refreshed);
            Some(refreshed)
        } else {
            None
        }
    }

    /// Stores a result, replacing the slot when the candidate's depth plus
    /// the stored entry's age bonus reaches the stored depth.
    pub fn insert(&mut self, pos: &Position, sc: Score, height: u8, mv: Move, depth: u8, flag: u8)
        requires
            old(self).wf(),
            -MATE <= sc <= MATE,
            height <= MAX_DEPTH,
            flag == FLAG_EXACT || flag == FLAG_UPPER || flag == FLAG_LOWER,
        ensures
            final(self).wf(),
            final(self).index_mask == old(self).index_mask,
            final(self).age == old(self).age,
            ({
                let idx = old(self).slot_of(pos@.hash);
                let e = old(self).entries@[idx];
                if depth + spec_age_diff(old(self).age, e.age_bound) >= e.depth {
                    final(self).entries@ == old(self).entries@.update(idx, TTEntry {
                        hash: pos@.hash,
                        mv: mv,
                        score: spec_score_to_tt(sc as int, height as int) as i16,
                        depth: depth,
                        age_bound: (old(self).age / 4 * 4 + flag) as u8,
                    })
                } else {
                    final(self).entries@ == old(self).entries@
                }
            }),
    {
        let idx = (pos.hash as usize) & self.index_mask;
        proof {
            lemma_mask_mod(pos@.hash, self.index_mask, self.entries@.len() as int);
        }
        let e = self.entries[idx];
        if depth as u16 + TT::age_diff(self.age, e.age_bound) as u16 >= e.depth as u16 {
            proof {
                let a = self.age;
                let f = flag;
                assert(a % 4 == 0 && f <= 3 ==> (a | f) == a / 4 * 4 + f) by (bit_vector);
            }
            let ne = TTEntry {
                hash: pos.hash,
                mv,
                score: score_to_tt(sc, height),
                depth,
                age_bound: self.age | flag,
            };
            self.entries.set(idx, ne);
        }
    }
}

/// A power of two.
pub open spec fn is_pow2(n: int) -> bool
    decreases n,
{
    if n <= 0 {
        false
    } else if n == 1 {
        true
    } else {
        n % 2 == 0 && is_pow2(n / 2)
    }
}

/// Number of slots among the first `n` that hold an entry of generation
/// `age`.
pub open spec fn count_used(entries: Seq<TTEntry>, age: u8, n: int) -> int
    decreases n,
{
    if n <= 0 {
        0
    } else {
        count_used(entries, age, n - 1) + if entries[n - 1].mv.0 != 0 && entries[n - 1].age_bound
            / 4 * 4 == age {
            1int
        } else {
            0int
        }
    }
}

/// The score a probe of entry `e` at `height` hands the search: rebased
/// from the storing node and clamped into the score range.
pub open spec fn probed_score(e: TTEntry, height: int) -> int {
    let s = spec_score_from_tt(e.score as int, height);
    if s > MATE {
        MATE as int
    } else if s < -MATE {
        -MATE as int
    } else {
        s
    }
}

/// Entry `e` short-circuits a node searched with window (alpha, beta) to
/// depth `depth`: a verified hash hit, deep enough, whose bound kind
/// already decides the window.
pub open spec fn tt_cuts(e: TTEntry, hash: u64, depth: u8, height: int, alpha: int, beta: int) -> bool {
    &&& e.hash == hash
    &&& e.depth >= depth
    &&& {
        let s = probed_score(e, height);
        ||| e.age_bound % 4 == FLAG_EXACT
        ||| (e.age_bound % 4 == FLAG_LOWER && s >= beta)
        ||| (e.age_bound % 4 == FLAG_UPPER && s <= alpha)
    }
}

/// The age field of a packed age-bound byte.
pub open spec fn spec_age_diff(current_age: u8, entry_flag: u8) -> int {
    ((259 + current_age - entry_flag) % 256) / 4 * 4
}

/// Masking with a power-of-two-minus-one mask indexes within the table.
proof fn lemma_mask_mod(hash: u64, mask: usize, len: int)
    requires
        len == mask + 1,
    ensures
        ((hash as usize) & mask) < len,
{
    let h = hash as usize;
    assert((h & mask) <= mask) by (bit_vector);
}

} // verus!
