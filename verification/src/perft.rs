//! Exhaustive leaf counting over the legal move tree: the standard
//! correctness oracle for the move generator and make/unmake, with the
//! count itself specified as a fold over every move encoding.
use vstd::prelude::*;
use crate::moves::Move;
use crate::position::{Position, CastleInfo, PosSt, CiSt, is_pseudo_legal, move_legal, apply_move};

verus! {

/// Leaves below the position reached by encoding `m - 1`, when that
/// encoding is a legal move; zero otherwise.
pub open spec fn leaves_of(st: PosSt, ci: CiSt, depth: nat, m: int) -> nat
    decreases depth, 65537int, 0int,
    when depth >= 1
{
    let mv = Move((m - 1) as u16);
    if is_pseudo_legal(st, ci, mv) && move_legal(st, ci, mv) {
        spec_perft(apply_move(st, ci, mv), ci, (depth - 1) as nat)
    } else {
        0
    }
}

/// Sum of the leaf counts of the first `m` move encodings.
pub open spec fn perft_pre(st: PosSt, ci: CiSt, depth: nat, m: int) -> nat
    decreases depth, 65537int, m,
    when depth >= 1
{
    if m <= 0 {
        0
    } else {
        perft_pre(st, ci, depth, m - 1) + leaves_of(st, ci, depth, m)
    }
}

/// The number of leaf positions reached by exhaustively applying every
/// legal move of `st` to the given depth.
pub open spec fn spec_perft(st: PosSt, ci: CiSt, depth: nat) -> nat
    decreases depth, 65538int, 0int,
{
    if depth == 0 {
        1
    } else {
        perft_pre(st, ci, depth, 65536)
    }
}

/// A count clipped to what a 64-bit tally can hold.
pub open spec fn sat64(n: nat) -> u64 {
    if n > u64::MAX {
        u64::MAX
    } else {
        n as u64
    }
}

/// Saturated addition of saturated counts is the saturated sum.
proof fn lemma_sat64_add(a: nat, b: nat)
    ensures
        (if sat64(a) + sat64(b) > u64::MAX {
            u64::MAX
        } else {
            (sat64(a) + sat64(b)) as u64
        }) == sat64(a + b),
{
}

/// Counts the leaf positions reached by applying every legal move to the
/// given depth, leaving the position exactly as it was. The tally
/// saturates at the largest 64-bit value.
#[verifier::spinoff_prover]
#[verifier::rlimit(100)]
pub fn perft(pos: &mut Position, ci: &CastleInfo, depth: u8) -> (n: u64)
    requires
        old(pos).wf(),
        ci@ == old(pos).cig_view(),
        old(pos)@.mr50 + depth <= 255,
        old(pos)@.fullmove + depth <= 65535,
    ensures
        final(pos)@ == old(pos)@,
        final(pos).uhist() == old(pos).uhist(),
        final(pos).cig_view() == old(pos).cig_view(),
        final(pos).wf(),
        n == sat64(spec_perft(old(pos)@, ci@, depth as nat)),
    decreases depth,
{
    if depth == 0 {
        return 1;
    }
    let ghost st0 = pos@;
    let ghost u0 = pos.uhist();
    let mut n: u64 = 0;
    let mut m: u32 = 0;
    while m < 65536
        invariant
            m <= 65536,
            pos.wf(),
            pos@ == st0,
            pos.uhist() == u0,
            st0 == old(pos)@,
            u0 == old(pos).uhist(),
            pos.cig_view() == old(pos).cig_view(),
            ci@ == pos.cig_view(),
            st0.mr50 + depth <= 255,
            st0.fullmove + depth <= 65535,
            1 <= depth,
            n == sat64(perft_pre(st0, ci@, depth as nat, m as int)),
        decreases 65536 - m,
    {
        let mv = Move(m as u16);
        proof {
            assert(perft_pre(st0, ci@, depth as nat, m + 1) == perft_pre(
                st0,
                ci@,
                depth as nat,
                m as int,
            ) + leaves_of(st0, ci@, depth as nat, m + 1));
            assert(Move((m + 1 - 1) as u16) == mv);
        }
        if mv.is_pseudolegal(pos, ci) {
            if pos.make_move(mv, ci) {
                let c = perft(pos, ci, depth - 1);
                pos.unmake_move();
                proof {
                    assert(leaves_of(st0, ci@, depth as nat, m + 1) == spec_perft(
                        apply_move(st0, ci@, mv),
                        ci@,
                        (depth - 1) as nat,
                    ));
                    lemma_sat64_add(
                        perft_pre(st0, ci@, depth as nat, m as int),
                        spec_perft(apply_move(st0, ci@, mv), ci@, (depth - 1) as nat),
                    );
                }
                n = n.saturating_add(c);
            } else {
                proof {
                    assert(leaves_of(st0, ci@, depth as nat, m + 1) == 0);
                }
            }
        } else {
            proof {
                assert(leaves_of(st0, ci@, depth as nat, m + 1) == 0);
            }
        }
        m = m + 1;
    }
    n
}

} // verus!
