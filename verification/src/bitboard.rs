//! A 64-bit set of board squares, one bit per square index, with the
//! set operations and the wrap-masked directional shift the move
//! generator is built on.
use vstd::prelude::*;
use crate::types::{Direction, Square, file_of_int, sq_ok};

verus! {

/// Bit `i` of `b`, for a square index `0 <= i < 64`.
pub open spec fn nth(b: u64, i: u64) -> bool {
    (b >> i) & 1u64 == 1u64
}

/// Membership of square `i` in the square set `b`.
pub open spec fn bit64(b: u64, i: int) -> bool {
    0 <= i < 64 && nth(b, i as u64)
}

/// One-hot mask of square `i`.
pub open spec fn mask1(i: int) -> u64 {
    1u64 << (i as u64)
}

pub broadcast proof fn lemma_nth_and(x: u64, y: u64, i: u64)
    by (bit_vector)
    ensures
        i < 64 ==> (#[trigger] nth(x & y, i) <==> nth(x, i) && nth(y, i)),
{
}

pub broadcast proof fn lemma_nth_or(x: u64, y: u64, i: u64)
    by (bit_vector)
    ensures
        i < 64 ==> (#[trigger] nth(x | y, i) <==> nth(x, i) || nth(y, i)),
{
}

pub broadcast proof fn lemma_nth_xor(x: u64, y: u64, i: u64)
    by (bit_vector)
    ensures
        i < 64 ==> (#[trigger] nth(x ^ y, i) <==> (nth(x, i) != nth(y, i))),
{
}

pub broadcast proof fn lemma_nth_not(x: u64, i: u64)
    by (bit_vector)
    ensures
        i < 64 ==> (#[trigger] nth(!x, i) <==> !nth(x, i)),
{
}

pub broadcast proof fn lemma_nth_one(s: u64, i: u64)
    by (bit_vector)
    ensures
        s < 64 && i < 64 ==> (#[trigger] nth(1u64 << s, i) <==> i == s),
{
}

pub proof fn lemma_nth_zero(i: u64)
    by (bit_vector)
    ensures
        !nth(0u64, i),
{
}

/// Two 64-bit sets with the same members are equal.
pub proof fn lemma_u64_ext(x: u64, y: u64)
    requires
        forall|i: u64| i < 64 ==> (nth(x, i) <==> nth(y, i)),
    ensures
        x == y,
{
    let z = x ^ y;
    if z != 0 {
        broadcast use vstd::std_specs::bits::axiom_u64_trailing_zeros;

        let tz = vstd::std_specs::bits::u64_trailing_zeros(z);
        assert(tz < 64);
        lemma_nth_xor(x, y, tz as u64);
        assert(nth(z, tz as u64));
        assert(false);
    }
    assert(x ^ y == 0u64 ==> x == y) by (bit_vector);
}

/// Set of board squares as a 64-bit word; bit i set means square i is a member.
#[derive(Clone, Copy, PartialEq, Eq, Structural, Debug)]
pub struct BitBoard(pub u64);

impl BitBoard {
    /// Membership of square `i`.
    pub open spec fn has(self, i: int) -> bool {
        bit64(self.0, i)
    }

    pub fn is_empty(self) -> (r: bool)
        ensures
            r <==> self.0 == 0,
            r <==> forall|i: int| !self.has(i),
    {
        proof {
            if self.0 == 0 {
                assert forall|i: int| !self.has(i) by {
                    if 0 <= i < 64 {
                        lemma_nth_zero(i as u64);
                    }
                }
            } else {
                broadcast use vstd::std_specs::bits::axiom_u64_trailing_zeros;

                let tz = vstd::std_specs::bits::u64_trailing_zeros(self.0);
                assert(nth(self.0, tz as u64));
                assert(self.has(tz as int));
            }
        }
        self.0 == 0u64
    }

    pub fn not_empty(self) -> (r: bool)
        ensures
            r <==> self.0 != 0,
            r <==> exists|i: int| self.has(i),
    {
        !self.is_empty()
    }

    /// Lowest member of a nonempty set; iteration runs in increasing order.
    pub fn lsb(self) -> (r: Square)
        requires
            self.0 != 0,
        ensures
            r < 64,
            self.has(r as int),
            forall|j: int| 0 <= j < r ==> !self.has(j),
    {
        proof {
            broadcast use vstd::std_specs::bits::axiom_u64_trailing_zeros;

        }
        self.0.trailing_zeros()
    }

    /// Highest member of a nonempty set.
    pub fn msb(self) -> (r: Square)
        requires
            self.0 != 0,
        ensures
            r < 64,
            self.has(r as int),
            forall|j: int| r < j < 64 ==> !self.has(j),
    {
        let lz = self.0.leading_zeros();
        proof {
            broadcast use vstd::std_specs::bits::axiom_u64_leading_zeros;

            let x = self.0;
            let m = (63 - lz) as u64;
            assert((x >> m) & 1u64 == 1u64) by (bit_vector)
                requires
                    (x >> m) & 1u64 != 0u64,
            ;
            assert(nth(x, m));
        }
        63 - lz
    }

    /// Removes and returns the lowest member.
    pub fn pop_lsb(&mut self) -> (r: Square)
        requires
            old(self).0 != 0,
        ensures
            r < 64,
            old(self).has(r as int),
            forall|j: int| 0 <= j < r ==> !old(self).has(j),
            final(self).0 == old(self).0 ^ mask1(r as int),
            forall|j: int| final(self).has(j) <==> (old(self).has(j) && j != r),
    {
        let r = self.lsb();
        self.0 = self.0 ^ (1u64 << r);
        proof {
            assert forall|j: int| self.has(j) <==> (old(self).has(j) && j != r) by {
                if 0 <= j < 64 {
                    lemma_nth_xor(old(self).0, mask1(r as int), j as u64);
                    lemma_nth_one(r as u64, j as u64);
                }
            }
        }
        r
    }

    /// Number of members.
    pub fn popcount(self) -> (r: u32)
        ensures
            r == spec_popcount(self.0, 64),
    {
        let mut i: u64 = 0;
        let mut n: u32 = 0;
        while i < 64
            invariant
                i <= 64,
                n == spec_popcount(self.0, i as int),
                n <= i,
            decreases 64 - i,
        {
            if (self.0 >> i) & 1u64 == 1u64 {
                n = n + 1;
            }
            i = i + 1;
        }
        n
    }

    /// Moves every member one step in `dir`, dropping members that would
    /// wrap around the board edge.
    pub fn shift(self, dir: Direction) -> (r: BitBoard)
        requires
            dir == 8 || dir == -8 || dir == 1 || dir == -1 || dir == 9 || dir == -9 || dir == 7
                || dir == -7,
        ensures
            forall|t: int|
                #[trigger] r.has(t) <==> (sq_ok(t) && sq_ok(t - dir) && self.has(t - dir)
                    && file_of_int(t) - file_of_int(t - dir) == dir_file_delta(dir as int)),
    {
        let x = self.0;
        let masked: u64 = if dir == 7 || dir == -1 || dir == -9 {
            x & 0xfefe_fefe_fefe_fefeu64
        } else if dir == 1 || dir == 9 || dir == -7 {
            x & 0x7f7f_7f7f_7f7f_7f7fu64
        } else {
            x
        };
        let r: u64 = if dir > 0 {
            masked << (dir as u32)
        } else {
            masked >> ((-dir) as u32)
        };
        proof {
            let rr = r;
            if dir == 8 {
                assert(forall|t: u64|
                    t < 64 ==> (nth(rr, t) <==> (t >= 8 && nth(x, (t - 8) as u64) && ((t - 8) as u64) % 8
                        == t % 8))) by (bit_vector)
                    requires
                        rr == x << 8u32,
                ;
            } else if dir == -8 {
                assert(forall|t: u64|
                    t < 64 ==> (nth(rr, t) <==> (t + 8 < 64 && nth(x, (t + 8) as u64) && (t + 8)
                        % 8 == t % 8))) by (bit_vector)
                    requires
                        rr == x >> 8u32,
                ;
            } else if dir == 1 {
                assert(forall|t: u64|
                    t < 64 ==> (nth(rr, t) <==> (t >= 1 && nth(x, (t - 1) as u64) && ((t - 1) as u64) % 8 + 1
                        == t % 8))) by (bit_vector)
                    requires
                        rr == (x & 0x7f7f_7f7f_7f7f_7f7fu64) << 1u32,
                ;
            } else if dir == -1 {
                assert(forall|t: u64|
                    t < 64 ==> (nth(rr, t) <==> (t + 1 < 64 && nth(x, (t + 1) as u64) && t % 8 + 1
                        == (t + 1) % 8))) by (bit_vector)
                    requires
                        rr == (x & 0xfefe_fefe_fefe_fefeu64) >> 1u32,
                ;
            } else if dir == 9 {
                assert(forall|t: u64|
                    t < 64 ==> (nth(rr, t) <==> (t >= 9 && nth(x, (t - 9) as u64) && ((t - 9) as u64) % 8 + 1
                        == t % 8))) by (bit_vector)
                    requires
                        rr == (x & 0x7f7f_7f7f_7f7f_7f7fu64) << 9u32,
                ;
            } else if dir == -9 {
                assert(forall|t: u64|
                    t < 64 ==> (nth(rr, t) <==> (t + 9 < 64 && nth(x, (t + 9) as u64) && t % 8 + 1
                        == (t + 9) % 8))) by (bit_vector)
                    requires
                        rr == (x & 0xfefe_fefe_fefe_fefeu64) >> 9u32,
                ;
            } else if dir == 7 {
                assert(forall|t: u64|
                    t < 64 ==> (nth(rr, t) <==> (t >= 7 && nth(x, (t - 7) as u64) && t % 8 + 1 == ((t - 7) as u64) % 8))) by (bit_vector)
                    requires
                        rr == (x & 0xfefe_fefe_fefe_fefeu64) << 7u32,
                ;
            } else {
                assert(forall|t: u64|
                    t < 64 ==> (nth(rr, t) <==> (t + 7 < 64 && nth(x, (t + 7) as u64) && (t + 7)
                        % 8 + 1 == t % 8))) by (bit_vector)
                    requires
                        rr == (x & 0x7f7f_7f7f_7f7f_7f7fu64) >> 7u32,
                ;
            }
        }
        BitBoard(r)
    }

    pub fn shr(self, rhs: u32) -> (r: BitBoard)
        requires
            rhs < 64,
        ensures
            r.0 == self.0 >> rhs,
    {
        BitBoard(self.0 >> rhs)
    }

    pub fn shl(self, rhs: u32) -> (r: BitBoard)
        requires
            rhs < 64,
        ensures
            r.0 == self.0 << rhs,
    {
        BitBoard(self.0 << rhs)
    }

    pub fn and(self, rhs: BitBoard) -> (r: BitBoard)
        ensures
            r.0 == self.0 & rhs.0,
            forall|i: int| #[trigger] r.has(i) <==> self.has(i) && rhs.has(i),
    {
        proof {
            assert forall|i: int| #[trigger] bit64(self.0 & rhs.0, i) <==> self.has(i) && rhs.has(
                i,
            ) by {
                if 0 <= i < 64 {
                    lemma_nth_and(self.0, rhs.0, i as u64);
                }
            }
        }
        BitBoard(self.0 & rhs.0)
    }

    pub fn or(self, rhs: BitBoard) -> (r: BitBoard)
        ensures
            r.0 == self.0 | rhs.0,
            forall|i: int| #[trigger] r.has(i) <==> self.has(i) || rhs.has(i),
    {
        proof {
            assert forall|i: int| #[trigger] bit64(self.0 | rhs.0, i) <==> self.has(i) || rhs.has(
                i,
            ) by {
                if 0 <= i < 64 {
                    lemma_nth_or(self.0, rhs.0, i as u64);
                }
            }
        }
        BitBoard(self.0 | rhs.0)
    }

    pub fn xor(self, rhs: BitBoard) -> (r: BitBoard)
        ensures
            r.0 == self.0 ^ rhs.0,
            forall|i: int| #[trigger] r.has(i) <==> (self.has(i) != rhs.has(i)),
    {
        proof {
            assert forall|i: int| #[trigger] bit64(self.0 ^ rhs.0, i) <==> (self.has(i) != rhs.has(
                i,
            )) by {
                if 0 <= i < 64 {
                    lemma_nth_xor(self.0, rhs.0, i as u64);
                }
            }
        }
        BitBoard(self.0 ^ rhs.0)
    }

    pub fn complement(self) -> (r: BitBoard)
        ensures
            r.0 == !self.0,
            forall|i: int| 0 <= i < 64 ==> (#[trigger] r.has(i) <==> !self.has(i)),
    {
        proof {
            assert forall|i: int| 0 <= i < 64 implies (#[trigger] bit64(!self.0, i) <==> !self.has(
                i,
            )) by {
                lemma_nth_not(self.0, i as u64);
            }
        }
        BitBoard(!self.0)
    }

    /// Membership test of a single square.
    pub fn test(self, sq: Square) -> (r: bool)
        requires
            sq < 64,
        ensures
            r <==> self.has(sq as int),
    {
        (self.0 >> sq) & 1u64 == 1u64
    }

    /// Adds a single square.
    pub fn with(self, sq: Square) -> (r: BitBoard)
        requires
            sq < 64,
        ensures
            r.0 == self.0 | mask1(sq as int),
            forall|i: int| #[trigger] r.has(i) <==> (self.has(i) || i == sq),
    {
        proof {
            assert forall|i: int| #[trigger] bit64(self.0 | mask1(sq as int), i) <==> (self.has(i)
                || i == sq) by {
                if 0 <= i < 64 {
                    lemma_nth_or(self.0, mask1(sq as int), i as u64);
                    lemma_nth_one(sq as u64, i as u64);
                }
            }
        }
        BitBoard(self.0 | (1u64 << sq))
    }

    /// The empty set.
    pub fn empty() -> (r: BitBoard)
        ensures
            r.0 == 0,
            forall|i: int| !r.has(i),
    {
        proof {
            assert forall|i: int| !bit64(0u64, i) by {
                if 0 <= i < 64 {
                    lemma_nth_zero(i as u64);
                }
            }
        }
        BitBoard(0)
    }

    /// The one-square set.
    pub fn single(sq: Square) -> (r: BitBoard)
        requires
            sq < 64,
        ensures
            r.0 == mask1(sq as int),
            forall|i: int| #[trigger] r.has(i) <==> i == sq,
    {
        proof {
            assert forall|i: int| #[trigger] bit64(mask1(sq as int), i) <==> i == sq by {
                if 0 <= i < 64 {
                    lemma_nth_one(sq as u64, i as u64);
                }
            }
        }
        BitBoard(1u64 << sq)
    }
}

pub open spec fn spec_popcount(b: u64, n: int) -> u32
    decreases n,
{
    if n <= 0 {
        0
    } else if nth(b, (n - 1) as u64) {
        (1 + spec_popcount(b, n - 1)) as u32
    } else {
        spec_popcount(b, n - 1)
    }
}

/// File displacement of a one-step move in direction `dir`.
pub open spec fn dir_file_delta(dir: int) -> int {
    if dir == 1 || dir == 9 || dir == -7 {
        1
    } else if dir == -1 || dir == 7 || dir == -9 {
        -1
    } else {
        0
    }
}

} // verus!
