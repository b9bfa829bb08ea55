//! Static evaluation: a material table consumed by the evaluator, an
//! incremental sum maintained by make/unmake, and the side-to-move view
//! of that sum.
use vstd::prelude::*;
use crate::types::{Score, spec_color_of, spec_piecetype_of, is_piece};

verus! {

/// Evaluations are clamped to this magnitude, well below the mate range.
pub const EVAL_LIMIT: Score = 20000;

/// Weight of one piece type, in centipawns.
pub open spec fn mat_value(pt: u8) -> int {
    if pt == 1 {
        100
    } else if pt == 2 {
        300
    } else if pt == 3 {
        310
    } else if pt == 4 {
        500
    } else if pt == 5 {
        900
    } else {
        0
    }
}

/// Signed weight of a placed piece: white counts up, black counts down;
/// an empty square contributes nothing.
pub open spec fn piece_weight(p: u8, s: int) -> int {
    if p == 0 {
        0
    } else if spec_color_of(p) == 0 {
        mat_value(spec_piecetype_of(p))
    } else {
        -mat_value(spec_piecetype_of(p))
    }
}

pub fn piece_weight_exec(p: u8, sq: u32) -> (r: i32)
    requires
        is_piece(p),
        sq < 64,
    ensures
        r == piece_weight(p, sq as int),
{
    let pt = crate::types::piecetype_of(p);
    let v: i32 = if pt == 1 {
        100
    } else if pt == 2 {
        300
    } else if pt == 3 {
        310
    } else if pt == 4 {
        500
    } else if pt == 5 {
        900
    } else {
        0
    };
    if crate::types::color_of(p) == 0 {
        v
    } else {
        -v
    }
}

/// Sum of the signed weights of the first `n` board squares.
pub open spec fn eval_sum(board: Seq<u8>, n: int) -> int
    decreases n,
{
    if n <= 0 {
        0
    } else {
        eval_sum(board, n - 1) + piece_weight(board[n - 1], n - 1)
    }
}

pub proof fn lemma_eval_congruence(b1: Seq<u8>, b2: Seq<u8>, n: int)
    requires
        forall|i: int| 0 <= i < n ==> b1[i] == b2[i],
    ensures
        eval_sum(b1, n) == eval_sum(b2, n),
    decreases n,
{
    if n > 0 {
        lemma_eval_congruence(b1, b2, n - 1);
    }
}

/// Changing one square moves the sum by the weight difference on that square.
pub proof fn lemma_eval_update(b: Seq<u8>, s: int, p: u8, n: int)
    requires
        0 <= s < b.len(),
        n <= b.len(),
    ensures
        eval_sum(b.update(s, p), n) == if s < n {
            eval_sum(b, n) - piece_weight(b[s], s) + piece_weight(p, s)
        } else {
            eval_sum(b, n)
        },
    decreases n,
{
    if n > 0 {
        lemma_eval_update(b, s, p, n - 1);
        if s == n - 1 {
            lemma_eval_congruence(b.update(s, p), b, n - 1);
        }
    }
}

/// Every term is at most 900 in magnitude, so the sum is bounded.
pub proof fn lemma_eval_bound(b: Seq<u8>, n: int)
    requires
        n >= 0,
    ensures
        -900 * n <= eval_sum(b, n) <= 900 * n,
    decreases n,
{
    if n > 0 {
        lemma_eval_bound(b, n - 1);
    }
}


/// The side-to-move view of the clamped incremental evaluation.
pub open spec fn spec_eval(st: crate::position::PosSt) -> int {
    let e = if st.ctm == 0 {
        st.eval
    } else {
        -st.eval
    };
    if e > EVAL_LIMIT {
        EVAL_LIMIT as int
    } else if e < -EVAL_LIMIT {
        -EVAL_LIMIT as int
    } else {
        e
    }
}

/// Static evaluation of a position from the side to move's point of view,
/// clamped well inside the mate range.
pub fn eval(pos: &crate::position::Position) -> (r: Score)
    requires
        pos.wf(),
    ensures
        r == spec_eval(pos@),
        -EVAL_LIMIT <= r <= EVAL_LIMIT,
{
    proof {
        lemma_eval_bound(pos@.board, 64);
    }
    let e: i32 = if pos.ctm == 0 {
        pos.piece_eval
    } else {
        -pos.piece_eval
    };
    if e > EVAL_LIMIT as i32 {
        EVAL_LIMIT
    } else if e < -(EVAL_LIMIT as i32) {
        -EVAL_LIMIT
    } else {
        e as Score
    }
}

} // verus!
