//! Attack relations of the piece types, stated over square coordinates,
//! together with executable attack-set computations proved against them.
use vstd::prelude::*;
use crate::types::{
    Color, PieceType, Square, Direction, sq_ok, rank_of_int, file_of_int, abs_int, WHITE, NORTH,
    NORTH_WEST, NORTH_EAST,
};
use crate::bitboard::{BitBoard, bit64};

verus! {

pub open spec fn sgn(x: int) -> int {
    if x > 0 {
        1
    } else if x < 0 {
        -1
    } else {
        0
    }
}

/// A knight on `s` attacks `t`.
pub open spec fn knight_att(s: int, t: int) -> bool {
    let dr = abs_int(rank_of_int(t) - rank_of_int(s));
    let df = abs_int(file_of_int(t) - file_of_int(s));
    sq_ok(s) && sq_ok(t) && ((dr == 1 && df == 2) || (dr == 2 && df == 1))
}

/// A king on `s` attacks `t`.
pub open spec fn king_att(s: int, t: int) -> bool {
    let dr = abs_int(rank_of_int(t) - rank_of_int(s));
    let df = abs_int(file_of_int(t) - file_of_int(s));
    sq_ok(s) && sq_ok(t) && dr <= 1 && df <= 1 && s != t
}

/// A pawn of color `c` on `s` attacks `t` (captures diagonally forward).
pub open spec fn pawn_att(s: int, t: int, c: u8) -> bool {
    let dr = rank_of_int(t) - rank_of_int(s);
    let df = abs_int(file_of_int(t) - file_of_int(s));
    sq_ok(s) && sq_ok(t) && df == 1 && dr == if c == 0 {
        1int
    } else {
        -1int
    }
}

/// Number of king steps along the line from `s` to `t`.
pub open spec fn line_len(s: int, t: int) -> int {
    crate::types::spec_distance(s, t)
}

/// Index step of one move along the line from `s` to `t`.
pub open spec fn line_step(s: int, t: int) -> int {
    8 * sgn(rank_of_int(t) - rank_of_int(s)) + sgn(file_of_int(t) - file_of_int(s))
}

/// No occupied square strictly between `s` and `t` on their common line.
pub open spec fn path_clear(s: int, t: int, occ: u64) -> bool {
    forall|k: int| 1 <= k < line_len(s, t) ==> !(#[trigger] bit64(occ, s + k * line_step(s, t)))
}

/// `u` lies on the same rank as `a` and `b`, between them inclusively.
pub open spec fn between_same_rank(a: int, b: int, u: int) -> bool {
    &&& sq_ok(u)
    &&& rank_of_int(u) == rank_of_int(a)
    &&& rank_of_int(a) == rank_of_int(b)
    &&& ((file_of_int(a) <= file_of_int(u) <= file_of_int(b)) || (file_of_int(b) <= file_of_int(u)
        <= file_of_int(a)))
}

/// A rook on `s` attacks `t` through blockers `occ`.
pub open spec fn rook_att(s: int, t: int, occ: u64) -> bool {
    sq_ok(s) && sq_ok(t) && s != t && (rank_of_int(s) == rank_of_int(t) || file_of_int(s)
        == file_of_int(t)) && path_clear(s, t, occ)
}

/// A bishop on `s` attacks `t` through blockers `occ`.
pub open spec fn bishop_att(s: int, t: int, occ: u64) -> bool {
    sq_ok(s) && sq_ok(t) && s != t && abs_int(rank_of_int(t) - rank_of_int(s)) == abs_int(
        file_of_int(t) - file_of_int(s),
    ) && path_clear(s, t, occ)
}

/// The attack relation of a non-pawn piece type.
pub open spec fn piece_att(pt: u8, s: int, t: int, occ: u64) -> bool {
    if pt == 2 {
        knight_att(s, t)
    } else if pt == 3 {
        bishop_att(s, t, occ)
    } else if pt == 4 {
        rook_att(s, t, occ)
    } else if pt == 5 {
        rook_att(s, t, occ) || bishop_att(s, t, occ)
    } else if pt == 6 {
        king_att(s, t)
    } else {
        false
    }
}

/// Splitting a square index into rank and file.
pub proof fn lemma_rankfile(r: int, f: int)
    by (nonlinear_arith)
    requires
        0 <= r < 8,
        0 <= f < 8,
    ensures
        rank_of_int(8 * r + f) == r,
        file_of_int(8 * r + f) == f,
        sq_ok(8 * r + f),
{
}

/// A square index is eight times its rank plus its file.
pub proof fn lemma_sq_decomp(s: int)
    by (nonlinear_arith)
    requires
        sq_ok(s),
    ensures
        s == 8 * rank_of_int(s) + file_of_int(s),
        0 <= rank_of_int(s) < 8,
        0 <= file_of_int(s) < 8,
{
}

/// The k-th square along an aligned line stays on the board, with rank and
/// file moving by k steps.
pub proof fn lemma_line_point(s: int, t: int, k: int)
    requires
        sq_ok(s),
        sq_ok(t),
        s != t,
        abs_int(rank_of_int(t) - rank_of_int(s)) == abs_int(file_of_int(t) - file_of_int(s))
            || rank_of_int(s) == rank_of_int(t) || file_of_int(s) == file_of_int(t),
        0 <= k <= line_len(s, t),
    ensures
        ({
            let u = s + k * line_step(s, t);
            &&& sq_ok(u)
            &&& rank_of_int(u) == rank_of_int(s) + k * sgn(rank_of_int(t) - rank_of_int(s))
            &&& file_of_int(u) == file_of_int(s) + k * sgn(file_of_int(t) - file_of_int(s))
            &&& k == line_len(s, t) ==> u == t
        }),
{
    let rs = rank_of_int(s);
    let fs = file_of_int(s);
    let rt = rank_of_int(t);
    let ft = file_of_int(t);
    let a = sgn(rt - rs);
    let b = sgn(ft - fs);
    let n = line_len(s, t);
    assert(s == 8 * rs + fs && t == 8 * rt + ft) by (nonlinear_arith)
        requires
            rs == s / 8 && fs == s % 8 && rt == t / 8 && ft == t % 8 && 0 <= s < 64 && 0 <= t < 64,
    ;
    assert(rt == rs + n * a && ft == fs + b * n) by (nonlinear_arith)
        requires
            a == sgn(rt - rs),
            b == sgn(ft - fs),
            n == line_len(s, t),
            abs_int(rt - rs) == abs_int(ft - fs) || rs == rt || fs == ft,
            !(rs == rt && fs == ft),
            n == if abs_int(rt - rs) >= abs_int(ft - fs) {
                abs_int(rt - rs)
            } else {
                abs_int(ft - fs)
            },
    ;
    let rk = rs + k * a;
    let fk = fs + k * b;
    if a == 1 {
        assert(rk == rs + k && rt == rs + n);
    } else if a == -1 {
        assert(rk == rs - k && rt == rs - n);
    } else {
        assert(rk == rs && rt == rs);
    }
    if b == 1 {
        assert(fk == fs + k && ft == fs + n);
    } else if b == -1 {
        assert(fk == fs - k && ft == fs - n);
    } else {
        assert(fk == fs && ft == fs);
    }
    assert(0 <= rk < 8 && 0 <= fk < 8 && (k == n ==> rk == rt && fk == ft));
    lemma_rankfile(rk, fk);
    assert(s + k * (8 * a + b) == 8 * rk + fk) by (nonlinear_arith)
        requires
            s == 8 * rs + fs,
            rk == rs + k * a,
            fk == fs + k * b,
    ;
}

/// Whether a sliding piece on `s` reaches `t` through blockers `occ`.
pub fn slider_reaches(s: Square, t: Square, occ: BitBoard, diag: bool) -> (r: bool)
    requires
        s < 64,
        t < 64,
    ensures
        r == if diag {
            bishop_att(s as int, t as int, occ.0)
        } else {
            rook_att(s as int, t as int, occ.0)
        },
{
    if s == t {
        return false;
    }
    let rs = crate::types::rank_of(s) as i32;
    let fs = crate::types::file_of(s) as i32;
    let rt = crate::types::rank_of(t) as i32;
    let ft = crate::types::file_of(t) as i32;
    let dr = rt - rs;
    let df = ft - fs;
    let adr = if dr >= 0 {
        dr
    } else {
        -dr
    };
    let adf = if df >= 0 {
        df
    } else {
        -df
    };
    let aligned = if diag {
        adr == adf
    } else {
        dr == 0 || df == 0
    };
    if !aligned {
        return false;
    }
    let a: i32 = if dr > 0 {
        1
    } else if dr < 0 {
        -1
    } else {
        0
    };
    let b: i32 = if df > 0 {
        1
    } else if df < 0 {
        -1
    } else {
        0
    };
    let step: i32 = 8 * a + b;
    let n: i32 = if adr >= adf {
        adr
    } else {
        adf
    };
    proof {
        assert(step == line_step(s as int, t as int));
        assert(n == line_len(s as int, t as int));
    }
    let mut k: i32 = 1;
    while k < n
        invariant
            1 <= k <= n,
            s < 64,
            t < 64,
            n == line_len(s as int, t as int),
            step == line_step(s as int, t as int),
            sq_ok(s as int) && sq_ok(t as int) && s != t,
            (abs_int(rank_of_int(t as int) - rank_of_int(s as int)) == abs_int(
                file_of_int(t as int) - file_of_int(s as int),
            ) || rank_of_int(s as int) == rank_of_int(t as int) || file_of_int(s as int)
                == file_of_int(t as int)),
            n < 8,
            -9 <= step <= 9,
            forall|j: int| 1 <= j < k ==> !(#[trigger] bit64(occ.0, s + j * step)),
        decreases n - k,
    {
        proof {
            lemma_line_point(s as int, t as int, k as int);
        }
        let u: i32 = s as i32 + k * step;
        if occ.test(u as u32) {
            return false;
        }
        k = k + 1;
    }
    true
}

/// Whether a knight on `s` attacks `t`.
pub fn knight_reaches(s: Square, t: Square) -> (r: bool)
    requires
        s < 64,
        t < 64,
    ensures
        r == knight_att(s as int, t as int),
{
    let dr = crate::types::rank_of(s) as i32 - crate::types::rank_of(t) as i32;
    let df = crate::types::file_of(s) as i32 - crate::types::file_of(t) as i32;
    let adr = if dr >= 0 {
        dr
    } else {
        -dr
    };
    let adf = if df >= 0 {
        df
    } else {
        -df
    };
    (adr == 1 && adf == 2) || (adr == 2 && adf == 1)
}

/// Whether a king on `s` attacks `t`.
pub fn king_reaches(s: Square, t: Square) -> (r: bool)
    requires
        s < 64,
        t < 64,
    ensures
        r == king_att(s as int, t as int),
{
    let dr = crate::types::rank_of(s) as i32 - crate::types::rank_of(t) as i32;
    let df = crate::types::file_of(s) as i32 - crate::types::file_of(t) as i32;
    let adr = if dr >= 0 {
        dr
    } else {
        -dr
    };
    let adf = if df >= 0 {
        df
    } else {
        -df
    };
    adr <= 1 && adf <= 1 && s != t
}

/// Whether a pawn of color `c` on `s` attacks `t`.
pub fn pawn_reaches(s: Square, t: Square, c: Color) -> (r: bool)
    requires
        s < 64,
        t < 64,
    ensures
        r == pawn_att(s as int, t as int, c),
{
    let dr = crate::types::rank_of(t) as i32 - crate::types::rank_of(s) as i32;
    let df = crate::types::file_of(t) as i32 - crate::types::file_of(s) as i32;
    let adf = if df >= 0 {
        df
    } else {
        -df
    };
    let want: i32 = if c == WHITE {
        1
    } else {
        -1
    };
    adf == 1 && dr == want
}

/// Whether a non-pawn piece of type `pt` on `s` attacks `t` through `occ`.
pub fn piece_reaches(pt: PieceType, s: Square, t: Square, occ: BitBoard) -> (r: bool)
    requires
        2 <= pt <= 6,
        s < 64,
        t < 64,
    ensures
        r == piece_att(pt, s as int, t as int, occ.0),
{
    if pt == 2 {
        knight_reaches(s, t)
    } else if pt == 3 {
        slider_reaches(s, t, occ, true)
    } else if pt == 4 {
        slider_reaches(s, t, occ, false)
    } else if pt == 5 {
        if slider_reaches(s, t, occ, false) {
            true
        } else {
            slider_reaches(s, t, occ, true)
        }
    } else {
        king_reaches(s, t)
    }
}

/// The attack set of a non-pawn piece of type `pt` on `sq` through `occ`.
pub fn attack_bb(pt: PieceType, sq: Square, occ: BitBoard) -> (r: BitBoard)
    requires
        2 <= pt <= 6,
        sq < 64,
    ensures
        forall|t: int| #[trigger] r.has(t) <==> piece_att(pt, sq as int, t, occ.0),
{
    let mut r = BitBoard::empty();
    let mut t: u32 = 0;
    while t < 64
        invariant
            t <= 64,
            2 <= pt <= 6,
            sq < 64,
            forall|j: int| #[trigger] r.has(j) <==> (j < t && piece_att(pt, sq as int, j, occ.0)),
        decreases 64 - t,
    {
        if piece_reaches(pt, sq, t, occ) {
            r = r.with(t);
        }
        t = t + 1;
    }
    r
}

/// The squares attacked by a pawn of color `c` on `sq`.
pub fn pawn_attack_bb(sq: Square, c: Color) -> (r: BitBoard)
    requires
        sq < 64,
    ensures
        forall|t: int| #[trigger] r.has(t) <==> pawn_att(sq as int, t, c),
{
    let mut r = BitBoard::empty();
    let mut t: u32 = 0;
    while t < 64
        invariant
            t <= 64,
            sq < 64,
            forall|j: int| #[trigger] r.has(j) <==> (j < t && pawn_att(sq as int, j, c)),
        decreases 64 - t,
    {
        if pawn_reaches(sq, t, c) {
            r = r.with(t);
        }
        t = t + 1;
    }
    r
}

/// Capture targets one file to the west, for every pawn of `pawns` at once.
pub fn pawn_bb_west_bb(pawns: BitBoard, c: Color) -> (r: BitBoard)
    ensures
        forall|t: int|
            #[trigger] r.has(t) <==> {
                let d = if c == 0 {
                    7int
                } else {
                    -7int
                };
                sq_ok(t) && sq_ok(t - d) && pawns.has(t - d) && file_of_int(t) - file_of_int(t - d)
                    == crate::bitboard::dir_file_delta(d)
            },
{
    let d = crate::types::relative_dir(NORTH_WEST, c);
    pawns.shift(d)
}

/// Capture targets one file to the east, for every pawn of `pawns` at once.
pub fn pawn_bb_east_bb(pawns: BitBoard, c: Color) -> (r: BitBoard)
    ensures
        forall|t: int|
            #[trigger] r.has(t) <==> {
                let d = if c == 0 {
                    9int
                } else {
                    -9int
                };
                sq_ok(t) && sq_ok(t - d) && pawns.has(t - d) && file_of_int(t) - file_of_int(t - d)
                    == crate::bitboard::dir_file_delta(d)
            },
{
    let d = crate::types::relative_dir(NORTH_EAST, c);
    pawns.shift(d)
}

/// All capture targets of the pawns of `pawns`.
pub fn pawn_bb_attack_bb(pawns: BitBoard, c: Color) -> (r: BitBoard)
    ensures
        forall|t: int|
            #[trigger] r.has(t) <==> exists|s: int| #[trigger] pawns.has(s) && pawn_att(s, t, c),
{
    let w = pawn_bb_west_bb(pawns, c);
    let e = pawn_bb_east_bb(pawns, c);
    let r = w.or(e);
    proof {
        assert forall|t: int| #[trigger] r.has(t) <==> exists|s: int|
            #[trigger] pawns.has(s) && pawn_att(s, t, c) by {
            let dw = if c == 0 {
                7int
            } else {
                -7int
            };
            let de = if c == 0 {
                9int
            } else {
                -9int
            };
            if r.has(t) {
                if w.has(t) {
                    let s = t - dw;
                    lemma_sq_decomp(s);
                    lemma_sq_decomp(t);
                    assert(pawns.has(s) && pawn_att(s, t, c));
                } else {
                    let s = t - de;
                    lemma_sq_decomp(s);
                    lemma_sq_decomp(t);
                    assert(pawns.has(s) && pawn_att(s, t, c));
                }
            }
            if exists|s: int| #[trigger] pawns.has(s) && pawn_att(s, t, c) {
                let s = choose|s: int| #[trigger] pawns.has(s) && pawn_att(s, t, c);
                lemma_sq_decomp(s);
                lemma_sq_decomp(t);
                assert(t == s + dw || t == s + de);
            }
        }
    }
    r
}

/// One-step forward pushes of the pawns of `pawns` onto empty squares.
pub fn pawn_push(pawns: BitBoard, c: Color, occ: BitBoard) -> (r: BitBoard)
    ensures
        forall|t: int|
            #[trigger] r.has(t) <==> {
                let d = if c == 0 {
                    8int
                } else {
                    -8int
                };
                sq_ok(t) && sq_ok(t - d) && pawns.has(t - d) && !bit64(occ.0, t)
            },
{
    let d = crate::types::relative_dir(NORTH, c);
    let pushed = pawns.shift(d);
    pushed.and(occ.complement())
}

} // verus!
