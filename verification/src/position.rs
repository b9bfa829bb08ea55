//! The mutable board state: piece and color bitboards, the square-indexed
//! piece array, the scalar game state, the incrementally maintained Zobrist
//! hash and evaluation sum, and the undo stack for make/unmake.
use vstd::prelude::*;
use crate::types::{
    Color, Piece, PieceType, Square, CastleRights, sq_ok, rank_of_int, file_of_int, is_piece,
    spec_piecetype_of, spec_color_of, spec_make_piece, spec_ep_captured_sq, other,
};
use crate::bitboard::{BitBoard, bit64, mask1, nth, lemma_nth_or, lemma_nth_and, lemma_nth_not,
    lemma_nth_one, lemma_nth_xor, lemma_nth_zero, lemma_u64_ext};
use crate::zobrist::{sq_key, zob_pieces, zob_all, ctm_key, castle_key, ep_key, lemma_zob_update,
    lemma_xor_basics, lemma_xor_fold1, lemma_xor_replace};
use crate::eval::{piece_weight, eval_sum, lemma_eval_update, lemma_eval_bound};
use crate::attacks::{pawn_att, piece_att, between_same_rank};
use crate::moves::{Move, MoveList, NORMAL, PROMOTION, ENPASSANT, CASTLING, spec_to, spec_from,
    spec_move_type, spec_promo_type, spec_capture_to};

verus! {

/// The mathematical value of a position: the full board description.
#[verifier::ext_equal]
pub ghost struct PosSt {
    pub board: Seq<u8>,
    pub pbb: Seq<u64>,
    pub cbb: Seq<u64>,
    pub ctm: u8,
    pub ep: u32,
    pub mr50: u8,
    pub cr: u8,
    pub fullmove: u16,
    pub hash: u64,
    pub eval: int,
}

/// The mathematical value of the castling metadata.
#[verifier::ext_equal]
pub ghost struct CiSt {
    pub rights: Seq<u8>,
    pub path: Seq<u64>,
    pub rooks: Seq<u32>,
    pub kings: Seq<u32>,
    pub frc: bool,
}

/// Per-game static castling metadata, derived once when a position is parsed.
pub struct CastleInfo {
    /// Per-square castling-rights retention mask: rights are intersected
    /// with the masks of a move's endpoints.
    pub castle_rights: Vec<u8>,
    /// Squares that must be empty for each right, indexed by right bit.
    pub castle_path: Vec<u64>,
    /// The rook's starting square of each right.
    pub castle_rooks: Vec<Square>,
    /// The king's starting square of each right.
    pub castle_kings: Vec<Square>,
    /// Shuffled-start mode: castling moves print as king-takes-rook.
    pub frc: bool,
}

impl View for CastleInfo {
    type V = CiSt;

    open spec fn view(&self) -> CiSt {
        CiSt {
            rights: self.castle_rights@,
            path: self.castle_path@,
            rooks: self.castle_rooks@,
            kings: self.castle_kings@,
            frc: self.frc,
        }
    }
}

pub open spec fn is_right(r: u8) -> bool {
    r == 1 || r == 2 || r == 4 || r == 8
}

pub open spec fn right_color(r: u8) -> u8 {
    if r == 1 || r == 2 {
        0
    } else {
        1
    }
}

pub open spec fn spec_k_target(r: u8) -> int {
    if r == 1 {
        6
    } else if r == 2 {
        2
    } else if r == 4 {
        62
    } else {
        58
    }
}

pub open spec fn spec_r_target(r: u8) -> int {
    if r == 1 {
        5
    } else if r == 2 {
        3
    } else if r == 4 {
        61
    } else {
        57
    }
}

/// King's landing square of a castling right.
pub fn castle_k_target(r: CastleRights) -> (t: Square)
    requires
        is_right(r),
    ensures
        t == spec_k_target(r),
{
    if r == 1 {
        6
    } else if r == 2 {
        2
    } else if r == 4 {
        62
    } else {
        58
    }
}

/// Rook's landing square of a castling right.
pub fn castle_r_target(r: CastleRights) -> (t: Square)
    requires
        is_right(r),
    ensures
        t == spec_r_target(r),
{
    if r == 1 {
        5
    } else if r == 2 {
        3
    } else if r == 4 {
        61
    } else {
        57
    }
}

/// Lengths of the castling metadata vectors.
pub open spec fn ci_wf(ci: CiSt) -> bool {
    &&& ci.rights.len() == 64
    &&& ci.path.len() == 9
    &&& ci.rooks.len() == 9
    &&& ci.kings.len() == 9
}

/// The mutable board state.
pub struct Position {
    pub piece_bb: Vec<u64>,
    pub color_bb: Vec<u64>,
    pub board: Vec<u8>,
    pub ctm: Color,
    pub ep: Square,
    pub mr50: u8,
    pub cr: CastleRights,
    pub fullmove: u16,
    pub hash: u64,
    pub piece_eval: i32,
    pub undo: Vec<Undo>,
    pub cig: Ghost<CiSt>,
}

/// One irreversible snapshot, pushed by make_move and popped by unmake_move.
pub struct Undo {
    pub mv: Move,
    pub moving: u8,
    pub captured: u8,
    pub ep: Square,
    pub mr50: u8,
    pub cr: CastleRights,
    pub fullmove: u16,
    pub hash: u64,
    pub prev: Ghost<PosSt>,
}

impl View for Position {
    type V = PosSt;

    open spec fn view(&self) -> PosSt {
        PosSt {
            board: self.board@,
            pbb: self.piece_bb@,
            cbb: self.color_bb@,
            ctm: self.ctm,
            ep: self.ep,
            mr50: self.mr50,
            cr: self.cr,
            fullmove: self.fullmove,
            hash: self.hash,
            eval: self.piece_eval as int,
        }
    }
}

pub open spec fn wf_lens(st: PosSt) -> bool {
    &&& st.board.len() == 64
    &&& st.pbb.len() == 7
    &&& st.cbb.len() == 2
}

pub open spec fn wf_pieces(st: PosSt) -> bool {
    forall|s: int| 0 <= s < 64 ==> (#[trigger] st.board[s] == 0 || is_piece(st.board[s]))
}

/// The bitboards are the square-set image of the piece array.
pub open spec fn wf_bbs(st: PosSt) -> bool {
    &&& forall|pt: int, s: int|
        1 <= pt <= 6 && 0 <= s < 64 ==> (#[trigger] bit64(st.pbb[pt], s) <==> (st.board[s] != 0
            && spec_piecetype_of(st.board[s]) == pt))
    &&& forall|s: int|
        0 <= s < 64 ==> (#[trigger] bit64(st.pbb[0], s) <==> st.board[s] != 0)
    &&& forall|c: int, s: int|
        0 <= c <= 1 && 0 <= s < 64 ==> (#[trigger] bit64(st.cbb[c], s) <==> (st.board[s] != 0
            && spec_color_of(st.board[s]) == c))
}

/// Side `c` has a king on the board.
pub open spec fn has_king(st: PosSt, c: u8) -> bool {
    exists|k: int| sq_ok(k) && #[trigger] st.board[k] == spec_make_piece(c, 6)
}

/// Each side has exactly one king on the board.
pub open spec fn wf_kings(st: PosSt) -> bool {
    &&& has_king(st, 0)
    &&& has_king(st, 1)
    &&& forall|s1: int, s2: int|
        sq_ok(s1) && sq_ok(s2) && #[trigger] st.board[s1] == #[trigger] st.board[s2]
            && spec_piecetype_of(st.board[s1]) == 6 && st.board[s1] != 0 ==> s1 == s2
}

/// The incremental hash equals the from-scratch Zobrist hash.
pub open spec fn wf_hash(st: PosSt) -> bool {
    st.hash == zob_all(st.board, st.ctm, st.cr, st.ep as int)
}

/// The incremental evaluation equals the from-scratch material sum.
pub open spec fn wf_eval(st: PosSt) -> bool {
    st.eval == eval_sum(st.board, 64)
}

pub open spec fn wf_scalars(st: PosSt) -> bool {
    &&& st.ctm <= 1
    &&& st.ep < 64
    &&& st.cr <= 15
}

/// When an en-passant square is set, the double-pushed enemy pawn stands
/// behind it and the target square itself is empty.
pub open spec fn wf_ep(st: PosSt) -> bool {
    st.ep != 0 ==> {
        &&& rank_of_int(st.ep as int) == if st.ctm == 1 {
            2int
        } else {
            5int
        }
        &&& st.board[st.ep as int] == 0
        &&& st.board[spec_ep_captured_sq(st.ep as int)] == spec_make_piece(other(st.ctm), 1)
    }
}

/// Every castling right still held has its king and rook on their starting
/// squares, and the per-square masks revoke it exactly there.
pub open spec fn wf_castle(st: PosSt, ci: CiSt) -> bool {
    forall|r: u8|
        is_right(r) && #[trigger] (st.cr & r) != 0 ==> {
            let c = right_color(r);
            let rsq = ci.rooks[r as int] as int;
            let ksq = ci.kings[r as int] as int;
            &&& sq_ok(rsq) && sq_ok(ksq) && rsq != ksq
            &&& st.board[rsq] == spec_make_piece(c, 4)
            &&& st.board[ksq] == spec_make_piece(c, 6)
            &&& rank_of_int(rsq) == if c == 0 {
                0int
            } else {
                7int
            }
            &&& rank_of_int(ksq) == rank_of_int(rsq)
            &&& ((r == 1 || r == 4) ==> file_of_int(rsq) > file_of_int(ksq))
            &&& ((r == 2 || r == 8) ==> file_of_int(rsq) < file_of_int(ksq))
            &&& forall|sq: int|
                0 <= sq < 64 ==> ((#[trigger] ci.rights[sq] & r) == 0 <==> (sq == rsq || sq
                    == ksq))
            &&& forall|u: int|
                (between_same_rank(ksq, spec_k_target(r), u) || between_same_rank(
                    rsq,
                    spec_r_target(r),
                    u,
                )) ==> #[trigger] bit64(ci.path[r as int], u)
        }
}

/// The state parts of well-formedness that the placement primitives preserve.
pub open spec fn wf_base(st: PosSt) -> bool {
    &&& wf_lens(st)
    &&& wf_pieces(st)
    &&& wf_bbs(st)
    &&& wf_hash(st)
    &&& wf_eval(st)
    &&& wf_scalars(st)
}

/// Full well-formedness of a position against its castling metadata.
pub open spec fn wf_st(st: PosSt, ci: CiSt) -> bool {
    &&& wf_base(st)
    &&& wf_kings(st)
    &&& wf_ep(st)
    &&& wf_castle(st, ci)
    &&& ci_wf(ci)
}

/// The state after placing piece `p` on the empty square `s`.
pub open spec fn st_put(st: PosSt, p: u8, s: int) -> PosSt {
    let pt = spec_piecetype_of(p) as int;
    let c = spec_color_of(p) as int;
    PosSt {
        board: st.board.update(s, p),
        pbb: st.pbb.update(pt, st.pbb[pt] | mask1(s)).update(0, st.pbb[0] | mask1(s)),
        cbb: st.cbb.update(c, st.cbb[c] | mask1(s)),
        hash: st.hash ^ sq_key(p, s),
        eval: st.eval + piece_weight(p, s),
        ..st
    }
}

/// The state after emptying the occupied square `s`.
pub open spec fn st_remove(st: PosSt, s: int) -> PosSt {
    let p = st.board[s];
    let pt = spec_piecetype_of(p) as int;
    let c = spec_color_of(p) as int;
    PosSt {
        board: st.board.update(s, 0),
        pbb: st.pbb.update(pt, st.pbb[pt] & !mask1(s)).update(0, st.pbb[0] & !mask1(s)),
        cbb: st.cbb.update(c, st.cbb[c] & !mask1(s)),
        hash: st.hash ^ sq_key(p, s),
        eval: st.eval - piece_weight(p, s),
        ..st
    }
}

/// Placing a piece preserves the base invariants.
pub proof fn lemma_put(st: PosSt, p: u8, s: int)
    requires
        wf_base(st),
        0 <= s < 64,
        st.board[s] == 0,
        is_piece(p),
    ensures
        wf_base(st_put(st, p, s)),
        st_put(st, p, s).board[s] == p,
    decreases 0int,
{
    let st2 = st_put(st, p, s);
    let pt = spec_piecetype_of(p) as int;
    let c = spec_color_of(p) as int;
    assert(1 <= pt <= 6 && 0 <= c <= 1);
    assert forall|pti: int, si: int|
        1 <= pti <= 6 && 0 <= si < 64 implies (#[trigger] bit64(st2.pbb[pti], si) <==> (
    st2.board[si] != 0 && spec_piecetype_of(st2.board[si]) == pti)) by {
        lemma_nth_or(st.pbb[pti], mask1(s), si as u64);
        lemma_nth_one(s as u64, si as u64);
        assert(bit64(st.pbb[pti], si) <==> (st.board[si] != 0 && spec_piecetype_of(st.board[si])
            == pti));
    }
    assert forall|si: int| 0 <= si < 64 implies (#[trigger] bit64(st2.pbb[0], si) <==> st2.board[si]
        != 0) by {
        lemma_nth_or(st.pbb[0], mask1(s), si as u64);
        lemma_nth_one(s as u64, si as u64);
        assert(bit64(st.pbb[0], si) <==> st.board[si] != 0);
    }
    assert forall|ci: int, si: int|
        0 <= ci <= 1 && 0 <= si < 64 implies (#[trigger] bit64(st2.cbb[ci], si) <==> (
    st2.board[si] != 0 && spec_color_of(st2.board[si]) == ci)) by {
        lemma_nth_or(st.cbb[ci], mask1(s), si as u64);
        lemma_nth_one(s as u64, si as u64);
        assert(bit64(st.cbb[ci], si) <==> (st.board[si] != 0 && spec_color_of(st.board[si])
            == ci));
    }
    lemma_zob_update(st.board, s, p, 64);
    lemma_xor_basics(zob_pieces(st.board, 64));
    lemma_xor_fold1(
        st.hash,
        zob_pieces(st.board, 64),
        ctm_key(st.ctm),
        castle_key(st.cr),
        ep_key(st.ep as int),
        sq_key(p, s),
    );
    lemma_eval_update(st.board, s, p, 64);
}

/// Emptying a square preserves the base invariants.
pub proof fn lemma_remove(st: PosSt, s: int)
    requires
        wf_base(st),
        0 <= s < 64,
        st.board[s] != 0,
    ensures
        wf_base(st_remove(st, s)),
        st_remove(st, s).board[s] == 0,
{
    let st2 = st_remove(st, s);
    let p = st.board[s];
    let pt = spec_piecetype_of(p) as int;
    let c = spec_color_of(p) as int;
    assert(is_piece(p));
    assert(1 <= pt <= 6 && 0 <= c <= 1);
    assert forall|pti: int, si: int|
        1 <= pti <= 6 && 0 <= si < 64 implies (#[trigger] bit64(st2.pbb[pti], si) <==> (
    st2.board[si] != 0 && spec_piecetype_of(st2.board[si]) == pti)) by {
        lemma_nth_and(st.pbb[pti], !mask1(s), si as u64);
        lemma_nth_not(mask1(s), si as u64);
        lemma_nth_one(s as u64, si as u64);
        assert(bit64(st.pbb[pti], si) <==> (st.board[si] != 0 && spec_piecetype_of(st.board[si])
            == pti));
    }
    assert forall|si: int| 0 <= si < 64 implies (#[trigger] bit64(st2.pbb[0], si) <==> st2.board[si]
        != 0) by {
        lemma_nth_and(st.pbb[0], !mask1(s), si as u64);
        lemma_nth_not(mask1(s), si as u64);
        lemma_nth_one(s as u64, si as u64);
        assert(bit64(st.pbb[0], si) <==> st.board[si] != 0);
    }
    assert forall|ci: int, si: int|
        0 <= ci <= 1 && 0 <= si < 64 implies (#[trigger] bit64(st2.cbb[ci], si) <==> (
    st2.board[si] != 0 && spec_color_of(st2.board[si]) == ci)) by {
        lemma_nth_and(st.cbb[ci], !mask1(s), si as u64);
        lemma_nth_not(mask1(s), si as u64);
        lemma_nth_one(s as u64, si as u64);
        assert(bit64(st.cbb[ci], si) <==> (st.board[si] != 0 && spec_color_of(st.board[si])
            == ci));
    }
    lemma_zob_update(st.board, s, 0, 64);
    lemma_xor_basics(zob_pieces(st.board, 64) ^ sq_key(st.board[s], s));
    lemma_xor_fold1(
        st.hash,
        zob_pieces(st.board, 64),
        ctm_key(st.ctm),
        castle_key(st.cr),
        ep_key(st.ep as int),
        sq_key(p, s),
    );
    lemma_eval_update(st.board, s, 0, 64);
}

/// Removing the piece just placed restores the state.
pub proof fn lemma_put_remove(st: PosSt, p: u8, s: int)
    requires
        wf_base(st),
        0 <= s < 64,
        st.board[s] == 0,
        is_piece(p),
    ensures
        st_remove(st_put(st, p, s), s) == st,
{
    let st2 = st_put(st, p, s);
    let st3 = st_remove(st2, s);
    let pt = spec_piecetype_of(p) as int;
    let c = spec_color_of(p) as int;
    assert(st3.board =~= st.board);
    assert(!bit64(st.pbb[pt], s) && !bit64(st.pbb[0], s) && !bit64(st.cbb[c], s));
    lemma_undo_set_bit(st.pbb[pt], s);
    lemma_undo_set_bit(st.pbb[0], s);
    lemma_undo_set_bit(st.cbb[c], s);
    assert(st3.pbb =~= st.pbb);
    assert(st3.cbb =~= st.cbb);
    crate::zobrist::lemma_xor_cancel(st.hash, sq_key(p, s));
    assert(st3 =~= st);
}

/// Replacing the piece just removed restores the state.
pub proof fn lemma_remove_put(st: PosSt, s: int)
    requires
        wf_base(st),
        0 <= s < 64,
        st.board[s] != 0,
    ensures
        st_put(st_remove(st, s), st.board[s], s) == st,
{
    let p = st.board[s];
    let st2 = st_remove(st, s);
    let st3 = st_put(st2, p, s);
    let pt = spec_piecetype_of(p) as int;
    let c = spec_color_of(p) as int;
    assert(st3.board =~= st.board);
    assert(bit64(st.pbb[pt], s) && bit64(st.pbb[0], s) && bit64(st.cbb[c], s));
    lemma_undo_clear_bit(st.pbb[pt], s);
    lemma_undo_clear_bit(st.pbb[0], s);
    lemma_undo_clear_bit(st.cbb[c], s);
    assert(st3.pbb =~= st.pbb);
    assert(st3.cbb =~= st.cbb);
    crate::zobrist::lemma_xor_cancel(st.hash, sq_key(p, s));
    assert(st3 =~= st);
}

/// Clearing a freshly set bit gives back the word.
proof fn lemma_undo_set_bit(x: u64, s: int)
    requires
        0 <= s < 64,
        !bit64(x, s),
    ensures
        (x | mask1(s)) & !mask1(s) == x,
{
    assert forall|i: u64| i < 64 implies (nth((x | mask1(s)) & !mask1(s), i) <==> nth(x, i)) by {
        lemma_nth_and(x | mask1(s), !mask1(s), i);
        lemma_nth_or(x, mask1(s), i);
        lemma_nth_not(mask1(s), i);
        lemma_nth_one(s as u64, i);
    }
    lemma_u64_ext((x | mask1(s)) & !mask1(s), x);
}

/// Setting a freshly cleared bit gives back the word.
proof fn lemma_undo_clear_bit(x: u64, s: int)
    requires
        0 <= s < 64,
        bit64(x, s),
    ensures
        (x & !mask1(s)) | mask1(s) == x,
{
    assert forall|i: u64| i < 64 implies (nth((x & !mask1(s)) | mask1(s), i) <==> nth(x, i)) by {
        lemma_nth_or(x & !mask1(s), mask1(s), i);
        lemma_nth_and(x, !mask1(s), i);
        lemma_nth_not(mask1(s), i);
        lemma_nth_one(s as u64, i);
    }
    lemma_u64_ext((x & !mask1(s)) | mask1(s), x);
}

/// Some piece of color `c` standing on `s` attacks `t`.
pub open spec fn att_from(st: PosSt, s: int, t: int, c: u8) -> bool {
    &&& sq_ok(s)
    &&& is_piece(st.board[s])
    &&& spec_color_of(st.board[s]) == c
    &&& {
        let pt = spec_piecetype_of(st.board[s]);
        if pt == 1 {
            pawn_att(s, t, c)
        } else {
            piece_att(pt, s, t, st.pbb[0])
        }
    }
}

/// Square `t` is attacked by some piece of color `c`.
pub open spec fn attacked(st: PosSt, t: int, c: u8) -> bool {
    exists|s: int| #[trigger] att_from(st, s, t, c)
}

/// The square of the unique king of color `c`.
pub open spec fn spec_king_sq(st: PosSt, c: u8) -> int {
    choose|k: int| sq_ok(k) && #[trigger] st.board[k] == spec_make_piece(c, 6)
}

/// The side `c`'s king stands on a square attacked by the other side.
pub open spec fn in_check_spec(st: PosSt, c: u8) -> bool {
    attacked(st, spec_king_sq(st, c), other(c))
}

impl Position {
    /// Full well-formedness, tied to the castling metadata the position
    /// was parsed with.
    pub open spec fn wf(&self) -> bool {
        &&& wf_st(self@, self.cig@)
        &&& hist_ok(self.cig@, self@, self.undo@)
    }

    /// The castling metadata this position belongs to.
    pub open spec fn cig_view(&self) -> CiSt {
        self.cig@
    }

    /// The undo stack.
    pub open spec fn uhist(&self) -> Seq<Undo> {
        self.undo@
    }

    pub fn piece_on(&self, sq: Square) -> (r: Option<Piece>)
        requires
            sq < 64,
            wf_lens(self@),
        ensures
            r is Some <==> self@.board[sq as int] != 0,
            r is Some ==> r->Some_0 == self@.board[sq as int],
    {
        let p = self.board[sq as usize];
        if p == 0 {
            None
        } else {
            Some(p)
        }
    }

    pub fn color_bb(&self, c: Color) -> (r: BitBoard)
        requires
            c <= 1,
            wf_lens(self@),
        ensures
            r.0 == self@.cbb[c as int],
    {
        BitBoard(self.color_bb[c as usize])
    }

    pub fn piecetype_bb(&self, pt: PieceType) -> (r: BitBoard)
        requires
            pt <= 6,
            wf_lens(self@),
        ensures
            r.0 == self@.pbb[pt as int],
    {
        BitBoard(self.piece_bb[pt as usize])
    }

    pub fn piece_bb(&self, pt: PieceType, c: Color) -> (r: BitBoard)
        requires
            pt <= 6,
            c <= 1,
            wf_lens(self@),
        ensures
            r.0 == self@.pbb[pt as int] & self@.cbb[c as int],
            forall|s: int|
                #[trigger] r.has(s) <==> (bit64(self@.pbb[pt as int], s) && bit64(
                    self@.cbb[c as int],
                    s,
                )),
    {
        self.piecetype_bb(pt).and(self.color_bb(c))
    }

    /// Bishops and queens of `c`: the diagonal sliders.
    pub fn bishop_likes_bb(&self, c: Color) -> (r: BitBoard)
        requires
            c <= 1,
            wf_lens(self@),
        ensures
            forall|s: int|
                #[trigger] r.has(s) <==> ((bit64(self@.pbb[3], s) || bit64(self@.pbb[5], s))
                    && bit64(self@.cbb[c as int], s)),
    {
        (self.piecetype_bb(3).or(self.piecetype_bb(5))).and(self.color_bb(c))
    }

    /// Rooks and queens of `c`: the straight sliders.
    pub fn rook_likes_bb(&self, c: Color) -> (r: BitBoard)
        requires
            c <= 1,
            wf_lens(self@),
        ensures
            forall|s: int|
                #[trigger] r.has(s) <==> ((bit64(self@.pbb[4], s) || bit64(self@.pbb[5], s))
                    && bit64(self@.cbb[c as int], s)),
    {
        (self.piecetype_bb(4).or(self.piecetype_bb(5))).and(self.color_bb(c))
    }

    /// The square of `c`'s king.
    pub fn king_sq(&self, c: Color) -> (r: Square)
        requires
            c <= 1,
            wf_lens(self@),
            wf_bbs(self@),
            wf_kings(self@),
        ensures
            r < 64,
            self@.board[r as int] == spec_make_piece(c, 6),
            r == spec_king_sq(self@, c),
    {
        let kbb = self.piece_bb(6, c);
        proof {
            assert(has_king(self@, c));
            let k = choose|k: int|
                sq_ok(k) && #[trigger] self@.board[k] == spec_make_piece(c, 6);
            assert(self@.board[k] == spec_make_piece(c, 6));
            assert(spec_piecetype_of(spec_make_piece(c, 6)) == 6 && spec_color_of(
                spec_make_piece(c, 6),
            ) == c && spec_make_piece(c, 6) != 0);
            assert(bit64(self@.pbb[6], k) && bit64(self@.cbb[c as int], k));
            assert(kbb.has(k));
            if kbb.0 == 0 {
                lemma_nth_zero(k as u64);
            }
        }
        let r = kbb.lsb();
        proof {
            assert(kbb.has(r as int));
            assert(self@.board[r as int] == spec_make_piece(c, 6));
        }
        r
    }

    /// Whether any piece of color `c` attacks square `sq`.
    pub fn square_attacked(&self, sq: Square, c: Color) -> (r: bool)
        requires
            sq < 64,
            c <= 1,
            wf_lens(self@),
            wf_pieces(self@),
        ensures
            r == attacked(self@, sq as int, c),
    {
        let occ = BitBoard(self.piece_bb[0]);
        let mut s: u32 = 0;
        while s < 64
            invariant
                s <= 64,
                sq < 64,
                c <= 1,
                wf_lens(self@),
                wf_pieces(self@),
                occ.0 == self@.pbb[0],
                forall|j: int| 0 <= j < s ==> !att_from(self@, j, sq as int, c),
            decreases 64 - s,
        {
            let p = self.board[s as usize];
            if p != 0 && crate::types::color_of(p) == c {
                let pt = crate::types::piecetype_of(p);
                let hit = if pt == 1 {
                    crate::attacks::pawn_reaches(s, sq, c)
                } else {
                    crate::attacks::piece_reaches(pt, s, sq, occ)
                };
                if hit {
                    proof {
                        assert(att_from(self@, s as int, sq as int, c));
                    }
                    return true;
                }
            }
            s = s + 1;
        }
        false
    }

    /// Whether side `c`'s king is attacked by the other side.
    pub fn in_check(&self, c: Color) -> (r: bool)
        requires
            c <= 1,
            wf_lens(self@),
            wf_pieces(self@),
            wf_bbs(self@),
            wf_kings(self@),
        ensures
            r == in_check_spec(self@, c),
    {
        let k = self.king_sq(c);
        self.square_attacked(k, crate::types::swap_color(c))
    }
}

/// The undo stack correctly reverses, record by record, back to each
/// recorded previous state.
pub open spec fn hist_ok(ci: CiSt, st: PosSt, undo: Seq<Undo>) -> bool
    decreases undo.len(),
{
    undo.len() == 0 || {
        let u = undo.last();
        &&& undoable(st, u)
        &&& wf_st(u.prev@, ci)
        &&& hist_ok(ci, u.prev@, undo.drop_last())
    }
}

/// The restoring steps of `unmake_move` applied to `st` yield `u.prev`,
/// and their preconditions hold in `st`.
pub open spec fn undoable(st: PosSt, u: Undo) -> bool {
    &&& wf_base(st)
    &&& restore_preconds(st, u)
    &&& restore_st(st, u) == u.prev@
}

/// Scalar restoration shared by every move kind.
pub open spec fn st_scalars(st: PosSt, u: Undo) -> PosSt {
    PosSt {
        ctm: other(st.ctm),
        ep: u.ep,
        mr50: u.mr50,
        cr: u.cr,
        fullmove: u.fullmove,
        hash: u.hash,
        ..st
    }
}

/// The placement preconditions of the undo steps of `u` in state `st`.
pub open spec fn restore_preconds(st: PosSt, u: Undo) -> bool {
    let m = u.mv.0;
    let from = spec_from(m);
    let to = spec_to(m);
    let us = other(st.ctm);
    let mt = spec_move_type(m);
    &&& wf_lens(st)
    &&& sq_ok(from) && sq_ok(to) && from != to
    &&& is_piece(u.moving)
    &&& if mt == CASTLING {
        let kt = spec_k_target(cr_of_castle(u.mv, us));
        let rt = spec_r_target(cr_of_castle(u.mv, us));
        &&& u.captured == 0
        &&& st.board[kt] != 0
        &&& st_remove(st, kt).board[rt] != 0
        &&& st_remove(st_remove(st, kt), rt).board[to] == 0
        &&& st_put(st_remove(st_remove(st, kt), rt), spec_make_piece(us, 4), to).board[from] == 0
    } else {
        let cap_sq = spec_capture_to(m);
        &&& st.board[to] != 0
        &&& (u.captured != 0 ==> is_piece(u.captured) && sq_ok(cap_sq) && st_put(
            st_remove(st, to),
            u.moving,
            from,
        ).board[cap_sq] == 0)
        &&& st_remove(st, to).board[from] == 0
    }
}

/// Which castling right a castling move of side `us` uses: the move is
/// encoded king-from to rook-square, queenside when the target is below
/// the source.
pub open spec fn cr_of_castle(mv: Move, us: u8) -> u8 {
    let queenside = spec_to(mv.0) < spec_from(mv.0);
    if us == 0 {
        if queenside {
            2u8
        } else {
            1u8
        }
    } else {
        if queenside {
            8u8
        } else {
            4u8
        }
    }
}

/// The exact state computed by the undo steps of record `u` from `st`.
pub open spec fn restore_st(st: PosSt, u: Undo) -> PosSt {
    st_scalars(restore_place(st, u.mv, u.moving, u.captured, other(st.ctm)), u)
}


/// Pseudo-legality: the move obeys piece movement and geometry rules in
/// `st`, ignoring whether the mover's king is left safe.
pub open spec fn is_pseudo_legal(st: PosSt, ci: CiSt, mv: Move) -> bool {
    let m = mv.0;
    let from = spec_from(m);
    let to = spec_to(m);
    let mt = spec_move_type(m);
    let us = st.ctm;
    let p = st.board[from];
    &&& sq_ok(from) && sq_ok(to) && from != to
    &&& is_piece(p) && spec_color_of(p) == us
    &&& (mt != PROMOTION ==> (m / 0x1000) % 4 == 0)
    &&& if mt == NORMAL {
        if spec_piecetype_of(p) == 1 {
            pawn_step_ok(st, from, to) && rank_of_int(to) != last_rank(us)
        } else {
            piece_att(spec_piecetype_of(p), from, to, st.pbb[0]) && !(st.board[to] != 0
                && spec_color_of(st.board[to]) == us)
        }
    } else if mt == PROMOTION {
        spec_piecetype_of(p) == 1 && pawn_step_ok(st, from, to) && rank_of_int(to) == last_rank(us)
    } else if mt == ENPASSANT {
        spec_piecetype_of(p) == 1 && st.ep != 0 && to == st.ep as int && pawn_att(from, to, us)
    } else {
        let r = cr_of_castle(mv, us);
        &&& st.cr & r != 0
        &&& from == ci.kings[r as int] as int
        &&& to == ci.rooks[r as int] as int
        &&& castle_path_free(st, ci, r)
    }
}

/// The last rank from `us`'s point of view.
pub open spec fn last_rank(us: u8) -> int {
    if us == 0 {
        7
    } else {
        0
    }
}

/// A pawn of the side to move steps from `from` to `to`: a single push onto
/// an empty square, a double push from the pawn's home rank through two empty
/// squares, or a diagonal capture of an enemy piece.
pub open spec fn pawn_step_ok(st: PosSt, from: int, to: int) -> bool {
    let us = st.ctm;
    let up = if us == 0 {
        8int
    } else {
        -8int
    };
    ||| (to == from + up && st.board[to] == 0)
    ||| (to == from + 2 * up && rank_of_int(from) == (if us == 0 {
        1int
    } else {
        6int
    }) && st.board[from + up] == 0 && st.board[to] == 0)
    ||| (pawn_att(from, to, us) && st.board[to] != 0 && spec_color_of(st.board[to]) == other(us))
}

/// Every square of the castling path is empty, apart from the castling king
/// and rook themselves.
pub open spec fn castle_path_free(st: PosSt, ci: CiSt, r: u8) -> bool {
    forall|sq: int|
        0 <= sq < 64 && #[trigger] bit64(ci.path[r as int], sq) && sq != ci.kings[r as int] as int
            && sq != ci.rooks[r as int] as int ==> st.board[sq] == 0
}

/// The placement phase of a move: captures removed, pieces relocated,
/// before any scalar bookkeeping.
pub open spec fn do_place(st: PosSt, mv: Move) -> PosSt {
    let m = mv.0;
    let from = spec_from(m);
    let to = spec_to(m);
    let mt = spec_move_type(m);
    let us = st.ctm;
    let p = st.board[from];
    if mt == CASTLING {
        let r = cr_of_castle(mv, us);
        let s1 = st_remove(st, from);
        let s2 = st_remove(s1, to);
        let s3 = st_put(s2, spec_make_piece(us, 4), spec_r_target(r));
        st_put(s3, spec_make_piece(us, 6), spec_k_target(r))
    } else {
        let cap = spec_capture_to(m);
        let s1 = if st.board[cap] != 0 {
            st_remove(st, cap)
        } else {
            st
        };
        let s2 = st_remove(s1, from);
        let placed = if mt == PROMOTION {
            spec_make_piece(us, spec_promo_type(m))
        } else {
            p
        };
        st_put(s2, placed, to)
    }
}

/// Legality of a pseudo-legal move: castling must not start from, cross or
/// end on an attacked square; every other move must not leave the mover's
/// king attacked; a king is never captured.
pub open spec fn move_legal(st: PosSt, ci: CiSt, mv: Move) -> bool {
    let us = st.ctm;
    let them = other(us);
    if spec_move_type(mv.0) == CASTLING {
        let r = cr_of_castle(mv, us);
        &&& !in_check_spec(st, us)
        &&& forall|u: int|
            between_same_rank(spec_from(mv.0), spec_k_target(r), u) && u != spec_from(mv.0)
                ==> !(#[trigger] attacked(st, u, them))
        &&& !in_check_spec(do_place(st, mv), us)
    } else {
        &&& st.board[spec_capture_to(mv.0)] != spec_make_piece(them, 6)
        &&& !in_check_spec(do_place(st, mv), us)
    }
}

/// The position after a legal move: the placement phase followed by the
/// scalar bookkeeping of clocks, rights, en-passant, side and hash.
pub open spec fn apply_move(st: PosSt, ci: CiSt, mv: Move) -> PosSt {
    let m = mv.0;
    let from = spec_from(m);
    let to = spec_to(m);
    let mt = spec_move_type(m);
    let us = st.ctm;
    let p = st.board[from];
    let pl = do_place(st, mv);
    let was_capture = mt != CASTLING && st.board[spec_capture_to(m)] != 0;
    let new_mr: u8 = if was_capture || spec_piecetype_of(p) == 1 {
        0u8
    } else {
        (st.mr50 + 1) as u8
    };
    let new_ep: u32 = if mt != CASTLING && spec_piecetype_of(p) == 1 && (to == from + 16 || to
        == from - 16) {
        spec_ep_captured_sq(to) as u32
    } else {
        0u32
    };
    let new_cr: u8 = st.cr & ci.rights[from] & ci.rights[to];
    PosSt {
        ctm: other(us),
        ep: new_ep,
        mr50: new_mr,
        cr: new_cr,
        fullmove: if us == 1 {
            (st.fullmove + 1) as u16
        } else {
            st.fullmove
        },
        hash: pl.hash ^ ep_key(st.ep as int) ^ ep_key(new_ep as int) ^ castle_key(st.cr)
            ^ castle_key(new_cr) ^ crate::zobrist::key_at(1040),
        ..pl
    }
}

/// The placement phase of undoing `mv`: relocations reversed, captures
/// replaced, in exact reverse order of `do_place`.
pub open spec fn restore_place(st: PosSt, mv: Move, moving: u8, captured: u8, us: u8) -> PosSt {
    let m = mv.0;
    let from = spec_from(m);
    let to = spec_to(m);
    if spec_move_type(m) == CASTLING {
        let r = cr_of_castle(mv, us);
        let s1 = st_remove(st, spec_k_target(r));
        let s2 = st_remove(s1, spec_r_target(r));
        let s3 = st_put(s2, spec_make_piece(us, 4), to);
        st_put(s3, spec_make_piece(us, 6), from)
    } else {
        let cap = spec_capture_to(m);
        let s1 = st_remove(st, to);
        let s2 = st_put(s1, moving, from);
        if captured != 0 {
            st_put(s2, captured, cap)
        } else {
            s2
        }
    }
}

proof fn lemma_u8_and_le(a: u8, b: u8)
    by (bit_vector)
    ensures
        a & b <= a,
{
}

/// Two well-formed states over the same board have the same bitboards.
pub proof fn lemma_same_board_same_bbs(a: PosSt, b: PosSt)
    requires
        wf_lens(a),
        wf_lens(b),
        wf_bbs(a),
        wf_bbs(b),
        a.board == b.board,
    ensures
        a.pbb == b.pbb,
        a.cbb == b.cbb,
{
    assert forall|i: int| 0 <= i < 7 implies a.pbb[i] == b.pbb[i] by {
        assert forall|j: u64| j < 64 implies (nth(a.pbb[i], j) <==> nth(b.pbb[i], j)) by {
            if i == 0 {
                assert(bit64(a.pbb[0], j as int) <==> a.board[j as int] != 0);
                assert(bit64(b.pbb[0], j as int) <==> b.board[j as int] != 0);
            } else {
                assert(bit64(a.pbb[i], j as int) <==> (a.board[j as int] != 0
                    && spec_piecetype_of(a.board[j as int]) == i));
                assert(bit64(b.pbb[i], j as int) <==> (b.board[j as int] != 0
                    && spec_piecetype_of(b.board[j as int]) == i));
            }
        }
        lemma_u64_ext(a.pbb[i], b.pbb[i]);
    }
    assert forall|i: int| 0 <= i < 2 implies a.cbb[i] == b.cbb[i] by {
        assert forall|j: u64| j < 64 implies (nth(a.cbb[i], j) <==> nth(b.cbb[i], j)) by {
            assert(bit64(a.cbb[i], j as int) <==> (a.board[j as int] != 0 && spec_color_of(
                a.board[j as int],
            ) == i));
            assert(bit64(b.cbb[i], j as int) <==> (b.board[j as int] != 0 && spec_color_of(
                b.board[j as int],
            ) == i));
        }
        lemma_u64_ext(a.cbb[i], b.cbb[i]);
    }
    assert(a.pbb =~= b.pbb);
    assert(a.cbb =~= b.cbb);
}

impl Position {
    /// Places `p` on the empty square `sq`, updating board, bitboards,
    /// hash and evaluation together.
    fn put_piece(&mut self, p: Piece, sq: Square)
        requires
            wf_base(old(self)@),
            sq < 64,
            old(self)@.board[sq as int] == 0,
            is_piece(p),
        ensures
            final(self)@ == st_put(old(self)@, p, sq as int),
            wf_base(final(self)@),
            final(self).undo@ == old(self).undo@,
            final(self).cig@ == old(self).cig@,
    {
        proof {
            lemma_put(old(self)@, p, sq as int);
            lemma_eval_bound(old(self)@.board, 64);
        }
        let pt = crate::types::piecetype_of(p) as usize;
        let c = crate::types::color_of(p) as usize;
        let m: u64 = 1u64 << sq;
        self.board.set(sq as usize, p);
        let v = self.piece_bb[pt] | m;
        self.piece_bb.set(pt, v);
        let v0 = self.piece_bb[0] | m;
        self.piece_bb.set(0, v0);
        let vc = self.color_bb[c] | m;
        self.color_bb.set(c, vc);
        self.hash = self.hash ^ crate::zobrist::piece_key_exec(p, sq);
        self.piece_eval = self.piece_eval + crate::eval::piece_weight_exec(p, sq);
        proof {
            assert(self@ =~= st_put(old(self)@, p, sq as int));
        }
    }

    /// Empties the occupied square `sq`, returning the removed piece.
    fn remove_piece(&mut self, sq: Square) -> (p: Piece)
        requires
            wf_base(old(self)@),
            sq < 64,
            old(self)@.board[sq as int] != 0,
        ensures
            p == old(self)@.board[sq as int],
            final(self)@ == st_remove(old(self)@, sq as int),
            wf_base(final(self)@),
            final(self).undo@ == old(self).undo@,
            final(self).cig@ == old(self).cig@,
    {
        proof {
            lemma_remove(old(self)@, sq as int);
            lemma_eval_bound(old(self)@.board, 64);
        }
        let p = self.board[sq as usize];
        let pt = crate::types::piecetype_of(p) as usize;
        let c = crate::types::color_of(p) as usize;
        let m: u64 = 1u64 << sq;
        self.board.set(sq as usize, 0);
        let v = self.piece_bb[pt] & !m;
        self.piece_bb.set(pt, v);
        let v0 = self.piece_bb[0] & !m;
        self.piece_bb.set(0, v0);
        let vc = self.color_bb[c] & !m;
        self.color_bb.set(c, vc);
        self.hash = self.hash ^ crate::zobrist::piece_key_exec(p, sq);
        self.piece_eval = self.piece_eval - crate::eval::piece_weight_exec(p, sq);
        proof {
            assert(self@ =~= st_remove(old(self)@, sq as int));
        }
        p
    }

    /// Reverses the placement phase of a move, using the same placement
    /// primitives so the hash and evaluation deltas cancel.
    fn undo_placement(&mut self, mv: Move, moving: u8, captured: u8, us: Color)
        requires
            wf_base(old(self)@),
            us <= 1,
            is_piece(moving),
            sq_ok(spec_from(mv.0)),
            sq_ok(spec_to(mv.0)),
            spec_from(mv.0) != spec_to(mv.0),
            spec_move_type(mv.0) == CASTLING ==> {
                let r = cr_of_castle(mv, us);
                let kt = spec_k_target(r);
                let rt = spec_r_target(r);
                &&& captured == 0
                &&& old(self)@.board[kt] != 0
                &&& st_remove(old(self)@, kt).board[rt] != 0
                &&& st_remove(st_remove(old(self)@, kt), rt).board[spec_to(mv.0)] == 0
                &&& st_put(
                    st_remove(st_remove(old(self)@, kt), rt),
                    spec_make_piece(us, 4),
                    spec_to(mv.0),
                ).board[spec_from(mv.0)] == 0
            },
            spec_move_type(mv.0) != CASTLING ==> {
                let cap = spec_capture_to(mv.0);
                &&& old(self)@.board[spec_to(mv.0)] != 0
                &&& st_remove(old(self)@, spec_to(mv.0)).board[spec_from(mv.0)] == 0
                &&& (captured != 0 ==> is_piece(captured) && sq_ok(cap) && st_put(
                    st_remove(old(self)@, spec_to(mv.0)),
                    moving,
                    spec_from(mv.0),
                ).board[cap] == 0)
            },
        ensures
            final(self)@ == restore_place(old(self)@, mv, moving, captured, us),
            wf_base(final(self)@),
            final(self).undo@ == old(self).undo@,
            final(self).cig@ == old(self).cig@,
    {
        let from = mv.from();
        let to = mv.to();
        if mv.move_type() == CASTLING {
            let r = cr_of_castle_exec(mv, us);
            let kt = castle_k_target(r);
            let rt = castle_r_target(r);
            self.remove_piece(kt);
            self.remove_piece(rt);
            self.put_piece(crate::types::make_piece(us, 4), to);
            self.put_piece(crate::types::make_piece(us, 6), from);
        } else {
            self.remove_piece(to);
            self.put_piece(moving, from);
            if captured != 0 {
                let cap = mv.capture_to();
                self.put_piece(captured, cap);
            }
        }
    }
}

/// Which castling right a castling move of `us` uses.
pub fn cr_of_castle_exec(mv: Move, us: Color) -> (r: CastleRights)
    requires
        us <= 1,
    ensures
        r == cr_of_castle(mv, us),
        is_right(r),
        right_color(r) == us,
{
    let queenside = mv.to() < mv.from();
    if us == 0 {
        if queenside {
            2
        } else {
            1
        }
    } else {
        if queenside {
            8
        } else {
            4
        }
    }
}


impl Position {
    /// Applies a pseudo-legal move. Returns false and leaves the position
    /// unchanged when the move is illegal: when castling starts from,
    /// crosses or ends on an attacked square, when any other move leaves
    /// the mover's king attacked, or when the move would capture a king.
    /// On success the snapshot needed by `unmake_move` is pushed.
    #[verifier::rlimit(100)]
    pub fn make_move(&mut self, mv: Move, ci: &CastleInfo) -> (r: bool)
        requires
            old(self).wf(),
            ci@ == old(self).cig_view(),
            is_pseudo_legal(old(self)@, ci@, mv),
            old(self)@.mr50 < 255,
            old(self)@.fullmove < 65535,
        ensures
            final(self).wf(),
            final(self).cig_view() == old(self).cig_view(),
            r == move_legal(old(self)@, ci@, mv),
            r ==> final(self)@ == apply_move(old(self)@, ci@, mv),
            r ==> final(self).undo@.len() == old(self).undo@.len() + 1,
            r ==> final(self).undo@.drop_last() == old(self).undo@,
            r ==> final(self).undo@.last().prev@ == old(self)@,
            !r ==> final(self)@ == old(self)@ && final(self).undo@ == old(self).undo@,
    {
        let ghost st0 = self@;
        let ghost cis = ci@;
        let from = mv.from();
        let to = mv.to();
        let mt = mv.move_type();
        let us = self.ctm;
        let them = crate::types::swap_color(us);
        let moving = self.board[from as usize];
        let prev_ep = self.ep;
        let prev_mr = self.mr50;
        let prev_cr = self.cr;
        let prev_fm = self.fullmove;
        let prev_hash = self.hash;
        let mut captured: u8 = 0;
        if mt == CASTLING {
            if self.in_check(us) {
                proof {
                    assert(!move_legal(st0, cis, mv));
                }
                return false;
            }
            let cr_bit = cr_of_castle_exec(mv, us);
            let kt = castle_k_target(cr_bit);
            let rt = castle_r_target(cr_bit);
            proof {
                assert(st0.cr & cr_bit != 0);
                assert(st0.board[from as int] == spec_make_piece(us, 6));
                assert(st0.board[to as int] == spec_make_piece(us, 4));
                assert(rank_of_int(from as int) == if us == 0 {
                    0int
                } else {
                    7int
                });
                assert(rank_of_int(kt as int) == rank_of_int(from as int));
            }
            let rank0: usize = if us == 0 {
                0
            } else {
                7
            };
            let ff = crate::types::file_of(from);
            let fk = crate::types::file_of(kt);
            let lo: usize = if ff <= fk {
                ff
            } else {
                fk
            };
            let hi: usize = if ff <= fk {
                fk
            } else {
                ff
            };
            let mut f: usize = lo;
            while f <= hi
                invariant
                    lo <= f <= hi + 1,
                    hi <= 7,
                    rank0 == if us == 0 {
                        0int
                    } else {
                        7int
                    },
                    us <= 1,
                    us == st0.ctm,
                    them == crate::types::other(us),
                    self@ == st0,
                    st0 == old(self)@,
                    cis == old(self).cig@,
                    self.cig@ == old(self).cig@,
                    self.undo@ == old(self).undo@,
                    old(self).wf(),
                    spec_move_type(mv.0) == CASTLING,
                    from == spec_from(mv.0),
                    kt == spec_k_target(cr_of_castle(mv, us)),
                    from < 64,
                    kt < 64,
                    rank_of_int(from as int) == rank0,
                    rank_of_int(kt as int) == rank0,
                    lo == if file_of_int(from as int) <= file_of_int(kt as int) {
                        file_of_int(from as int)
                    } else {
                        file_of_int(kt as int)
                    },
                    hi == if file_of_int(from as int) <= file_of_int(kt as int) {
                        file_of_int(kt as int)
                    } else {
                        file_of_int(from as int)
                    },
                    forall|u: int|
                        between_same_rank(from as int, kt as int, u) && u != from && file_of_int(u)
                            < f ==> !(#[trigger] attacked(st0, u, them)),
                decreases hi + 1 - f,
            {
                let u = crate::types::to_square(rank0, f);
                if u != from {
                    if self.square_attacked(u, them) {
                        proof {
                            assert(sq_ok(u as int));
                            assert(rank_of_int(u as int) == rank_of_int(from as int));
                            assert(rank_of_int(from as int) == rank_of_int(kt as int));
                            assert(file_of_int(u as int) == f as int);
                            assert(lo <= f <= hi);
                            assert((file_of_int(from as int) <= f as int <= file_of_int(
                                kt as int,
                            )) || (file_of_int(kt as int) <= f as int <= file_of_int(
                                from as int,
                            )));
                            assert(between_same_rank(from as int, kt as int, u as int));
                            assert(attacked(st0, u as int, them));
                            assert(!move_legal(st0, cis, mv));
                        }
                        return false;
                    }
                }
                f = f + 1;
            }
            proof {
                assert forall|u: int|
                    between_same_rank(from as int, kt as int, u) && u != from implies !(
                #[trigger] attacked(st0, u, them)) by {
                    crate::attacks::lemma_sq_decomp(u);
                }
            }
            // Relocate the rook and the king; every touched square is
            // known empty or vacated by the earlier removals.
            proof {
                let s1 = st_remove(st0, from as int);
                lemma_remove(st0, from as int);
                assert(s1.board[to as int] == st0.board[to as int]);
                let s2 = st_remove(s1, to as int);
                lemma_remove(s1, to as int);
                if rt != from && rt != to {
                    assert(between_same_rank(to as int, spec_r_target(cr_bit), rt as int));
                    assert(bit64(cis.path[cr_bit as int], rt as int));
                    assert(st0.board[rt as int] == 0);
                }
                assert(s2.board[rt as int] == 0);
                let s3 = st_put(s2, spec_make_piece(us, 4), rt as int);
                lemma_put(s2, spec_make_piece(us, 4), rt as int);
                if kt != from && kt != to {
                    assert(between_same_rank(from as int, spec_k_target(cr_bit), kt as int));
                    assert(bit64(cis.path[cr_bit as int], kt as int));
                    assert(st0.board[kt as int] == 0);
                }
                assert(kt != rt);
                assert(s3.board[kt as int] == 0);
            }
            self.remove_piece(from);
            self.remove_piece(to);
            self.put_piece(crate::types::make_piece(us, 4), rt);
            self.put_piece(crate::types::make_piece(us, 6), kt);
            proof {
                assert(self@ == do_place(st0, mv));
                lemma_place_board_castle(st0, mv, us);
                lemma_kings_after_castle(st0, mv, us);
            }
            if self.in_check(us) {
                proof {
                    assert(!move_legal(st0, cis, mv));
                }
                self.undo_placement(mv, moving, 0, us);
                proof {
                    let back = restore_place(do_place(st0, mv), mv, moving, 0, us);
                    assert(back.board =~= st0.board);
                    lemma_same_board_same_bbs(back, st0);
                    assert(self@ =~= st0);
                }
                return false;
            }
        } else {
            let cap_sq = mv.capture_to();
            let cap_piece = self.board[cap_sq as usize];
            proof {
                if mt == ENPASSANT {
                    assert(st0.board[cap_sq as int] == spec_make_piece(other(us), 1));
                }
            }
            if cap_piece != 0 {
                if crate::types::piecetype_of(cap_piece) == 6 {
                    proof {
                        assert(spec_color_of(st0.board[cap_sq as int]) == other(us));
                        assert(st0.board[cap_sq as int] == spec_make_piece(other(us), 6)) by {
                            let q = st0.board[cap_sq as int];
                            assert(q % 8 == 6 && q / 8 == other(us));
                        }
                        assert(!move_legal(st0, cis, mv));
                    }
                    return false;
                }
                captured = cap_piece;
                self.remove_piece(cap_sq);
            }
            proof {
                assert(self@.board[from as int] == moving);
            }
            self.remove_piece(from);
            let placed = if mt == PROMOTION {
                crate::types::make_piece(us, mv.promo_type())
            } else {
                moving
            };
            proof {
                assert(self@.board[to as int] == 0);
            }
            self.put_piece(placed, to);
            proof {
                assert(self@ == do_place(st0, mv));
                lemma_place_board_normal(st0, mv, captured);
                lemma_kings_after_normal(st0, mv, captured);
            }
            if self.in_check(us) {
                proof {
                    assert(!move_legal(st0, cis, mv));
                }
                self.undo_placement(mv, moving, captured, us);
                proof {
                    let back = restore_place(do_place(st0, mv), mv, moving, captured, us);
                    assert(back.board =~= st0.board);
                    lemma_same_board_same_bbs(back, st0);
                    assert(self@ =~= st0);
                }
                return false;
            }
        }
        proof {
            if mt != CASTLING {
                assert(st0.board[spec_capture_to(mv.0)] != spec_make_piece(other(us), 6)) by {
                    lemma_king_piece_facts(other(us), us);
                    if captured != 0 {
                        assert(spec_piecetype_of(captured) != 6);
                    }
                }
            }
            assert(move_legal(st0, cis, mv));
        }
        // Scalar phase: clocks, en-passant, castling rights, side to move,
        // with each hashed feature toggled out and in.
        let ghost pl = self@;
        if captured != 0 || crate::types::piecetype_of(moving) == 1 {
            self.mr50 = 0;
        } else {
            self.mr50 = self.mr50 + 1;
        }
        let new_ep: Square = if crate::types::piecetype_of(moving) == 1 && (to == from + 16 || from
            == to + 16) {
            crate::types::ep_captured_sq(to)
        } else {
            0
        };
        self.hash = self.hash ^ crate::zobrist::ep_key_exec(self.ep);
        self.hash = self.hash ^ crate::zobrist::ep_key_exec(new_ep);
        self.ep = new_ep;
        let new_cr = self.cr & ci.castle_rights[from as usize] & ci.castle_rights[to as usize];
        proof {
            lemma_u8_and_le(prev_cr & ci@.rights[from as int], ci@.rights[to as int]);
            lemma_u8_and_le(prev_cr, ci@.rights[from as int]);
        }
        self.hash = self.hash ^ crate::zobrist::castle_key_exec(self.cr);
        self.hash = self.hash ^ crate::zobrist::castle_key_exec(new_cr);
        self.cr = new_cr;
        if us == 1 {
            self.fullmove = self.fullmove + 1;
        }
        self.ctm = them;
        let flip = crate::zobrist::ctm_flip_key();
        self.hash = self.hash ^ flip;
        let ghost stn = self@;
        proof {
            assert(stn =~= apply_move(st0, cis, mv));
            lemma_wf_hash_scalars(pl, stn, st0, cis, mv, flip);
        }
        let u = Undo {
            mv,
            moving,
            captured,
            ep: prev_ep,
            mr50: prev_mr,
            cr: prev_cr,
            fullmove: prev_fm,
            hash: prev_hash,
            prev: Ghost(st0),
        };
        proof {
            lemma_make_wf(st0, cis, mv, stn, captured);
            lemma_make_undoable(st0, cis, mv, stn, u);
        }
        self.undo.push(u);
        proof {
            assert(self.undo@.drop_last() =~= old(self).undo@);
        }
        true
    }

    /// Pops the most recent snapshot and reverses the move it records,
    /// restoring the piece placement by the same toggle primitives (so the
    /// hash and evaluation deltas cancel) and every scalar verbatim.
    pub fn unmake_move(&mut self)
        requires
            old(self).wf(),
            old(self).undo@.len() > 0,
        ensures
            final(self).wf(),
            final(self)@ == old(self).undo@.last().prev@,
            final(self).undo@ == old(self).undo@.drop_last(),
            final(self).cig_view() == old(self).cig_view(),
    {
        let ghost st0 = self@;
        let u = self.undo.pop().unwrap();
        let us = crate::types::swap_color(self.ctm);
        proof {
            assert(undoable(st0, u));
        }
        self.undo_placement(u.mv, u.moving, u.captured, us);
        self.ctm = us;
        self.ep = u.ep;
        self.mr50 = u.mr50;
        self.cr = u.cr;
        self.fullmove = u.fullmove;
        self.hash = u.hash;
        proof {
            assert(self@ =~= restore_st(st0, u));
        }
    }
}

/// The board of the placement phase of a non-castling move, square by square.
pub proof fn lemma_place_board_normal(st: PosSt, mv: Move, captured: u8)
    requires
        wf_lens(st),
        sq_ok(spec_from(mv.0)),
        sq_ok(spec_to(mv.0)),
        spec_from(mv.0) != spec_to(mv.0),
        spec_move_type(mv.0) != CASTLING,
        sq_ok(spec_capture_to(mv.0)),
        captured == st.board[spec_capture_to(mv.0)],
    ensures
        forall|s: int|
            0 <= s < 64 ==> #[trigger] do_place(st, mv).board[s] == (if s == spec_to(mv.0) {
                if spec_move_type(mv.0) == PROMOTION {
                    spec_make_piece(st.ctm, spec_promo_type(mv.0))
                } else {
                    st.board[spec_from(mv.0)]
                }
            } else if s == spec_from(mv.0) {
                0u8
            } else if captured != 0 && s == spec_capture_to(mv.0) {
                0u8
            } else {
                st.board[s]
            }),
{
}

/// The board of the placement phase of a castling move, square by square.
pub proof fn lemma_place_board_castle(st: PosSt, mv: Move, us: u8)
    requires
        wf_lens(st),
        sq_ok(spec_from(mv.0)),
        sq_ok(spec_to(mv.0)),
        spec_from(mv.0) != spec_to(mv.0),
        spec_move_type(mv.0) == CASTLING,
        us == st.ctm,
    ensures
        forall|s: int|
            0 <= s < 64 ==> #[trigger] do_place(st, mv).board[s] == (if s == spec_k_target(
                cr_of_castle(mv, us),
            ) {
                spec_make_piece(us, 6)
            } else if s == spec_r_target(cr_of_castle(mv, us)) {
                spec_make_piece(us, 4)
            } else if s == spec_from(mv.0) || s == spec_to(mv.0) {
                0u8
            } else {
                st.board[s]
            }),
{
}

/// Where color `c`'s king stands after the placement phase of a
/// non-castling move.
pub open spec fn nk_normal(st: PosSt, mv: Move, c: u8) -> int {
    let p = st.board[spec_from(mv.0)];
    if spec_piecetype_of(p) == 6 && spec_color_of(p) == c {
        spec_to(mv.0)
    } else {
        spec_king_sq(st, c)
    }
}

/// Where color `c`'s king stands after the placement phase of castling.
pub open spec fn nk_castle(st: PosSt, mv: Move, c: u8) -> int {
    if c == st.ctm {
        spec_k_target(cr_of_castle(mv, st.ctm))
    } else {
        spec_king_sq(st, c)
    }
}

/// After a non-castling move that captures no king, color `c`'s king
/// stands exactly on `nk_normal`.
proof fn lemma_king_char_normal(st: PosSt, mv: Move, captured: u8, c: u8)
    requires
        wf_lens(st),
        wf_pieces(st),
        wf_kings(st),
        wf_scalars(st),
        c <= 1,
        sq_ok(spec_from(mv.0)),
        sq_ok(spec_to(mv.0)),
        spec_from(mv.0) != spec_to(mv.0),
        spec_move_type(mv.0) != CASTLING,
        sq_ok(spec_capture_to(mv.0)),
        captured == st.board[spec_capture_to(mv.0)],
        is_piece(st.board[spec_from(mv.0)]),
        spec_color_of(st.board[spec_from(mv.0)]) == st.ctm,
        captured == 0 || spec_color_of(captured) == other(st.ctm),
        captured == 0 || spec_piecetype_of(captured) != 6,
        spec_move_type(mv.0) == PROMOTION ==> 2 <= spec_promo_type(mv.0) <= 5
            && spec_piecetype_of(st.board[spec_from(mv.0)]) == 1,
        st.board[spec_to(mv.0)] == 0 || spec_to(mv.0) == spec_capture_to(mv.0),
    ensures
        0 <= nk_normal(st, mv, c) < 64,
        forall|s: int|
            0 <= s < 64 ==> ((#[trigger] do_place(st, mv).board[s] == spec_make_piece(c, 6)) <==> s
                == nk_normal(st, mv, c)),
{
    let pl = do_place(st, mv);
    let from = spec_from(mv.0);
    let to = spec_to(mv.0);
    let cap = spec_capture_to(mv.0);
    let us = st.ctm;
    let p = st.board[from];
    lemma_place_board_normal(st, mv, captured);
    lemma_king_piece_facts(c, us);
    assert(has_king(st, c));
    let k = spec_king_sq(st, c);
    assert(sq_ok(k) && st.board[k] == spec_make_piece(c, 6));
    let kp = spec_make_piece(c, 6);
    assert(captured != kp);
    let nk = nk_normal(st, mv, c);
    assert forall|s: int| 0 <= s < 64 implies ((#[trigger] pl.board[s] == kp) <==> s == nk) by {
        if spec_piecetype_of(p) == 6 && spec_color_of(p) == c {
            assert(p == kp) by {
                assert(p % 8 == 6 && p / 8 == c);
            }
            assert(k == from);
            assert(pl.board[to] == kp);
            if s != to && pl.board[s] == kp {
                assert(s != from && st.board[s] == kp);
                assert(false);
            }
        } else {
            assert(p != kp);
            assert(pl.board[k] == kp) by {
                assert(k != from);
                if k == to {
                    assert(st.board[to] == kp && st.board[to] != 0);
                    assert(to == cap && captured == kp);
                    assert(false);
                }
                if captured != 0 && k == cap {
                    assert(false);
                }
            }
            if pl.board[s] == kp && s != k {
                if s == to {
                    assert(spec_piecetype_of(pl.board[to]) != 6) by {
                        if spec_move_type(mv.0) == PROMOTION {
                            assert(spec_piecetype_of(
                                spec_make_piece(us, spec_promo_type(mv.0)),
                            ) == spec_promo_type(mv.0));
                        }
                    }
                    assert(false);
                } else {
                    assert(s != from && (captured == 0 || s != cap) && st.board[s] == kp);
                    assert(false);
                }
            }
        }
    }
}

/// After castling, color `c`'s king stands exactly on `nk_castle`.
proof fn lemma_king_char_castle(st: PosSt, mv: Move, c: u8)
    requires
        wf_lens(st),
        wf_pieces(st),
        wf_kings(st),
        wf_scalars(st),
        c <= 1,
        sq_ok(spec_from(mv.0)),
        sq_ok(spec_to(mv.0)),
        spec_from(mv.0) != spec_to(mv.0),
        spec_move_type(mv.0) == CASTLING,
        st.board[spec_from(mv.0)] == spec_make_piece(st.ctm, 6),
        st.board[spec_to(mv.0)] == spec_make_piece(st.ctm, 4),
        st.board[spec_k_target(cr_of_castle(mv, st.ctm))] == 0 || spec_k_target(
            cr_of_castle(mv, st.ctm),
        ) == spec_from(mv.0) || spec_k_target(cr_of_castle(mv, st.ctm)) == spec_to(mv.0),
        st.board[spec_r_target(cr_of_castle(mv, st.ctm))] == 0 || spec_r_target(
            cr_of_castle(mv, st.ctm),
        ) == spec_from(mv.0) || spec_r_target(cr_of_castle(mv, st.ctm)) == spec_to(mv.0),
    ensures
        0 <= nk_castle(st, mv, c) < 64,
        forall|s: int|
            0 <= s < 64 ==> ((#[trigger] do_place(st, mv).board[s] == spec_make_piece(c, 6)) <==> s
                == nk_castle(st, mv, c)),
{
    let pl = do_place(st, mv);
    let from = spec_from(mv.0);
    let to = spec_to(mv.0);
    let us = st.ctm;
    let r = cr_of_castle(mv, us);
    let kt = spec_k_target(r);
    let rt = spec_r_target(r);
    lemma_place_board_castle(st, mv, us);
    lemma_king_piece_facts(c, us);
    assert(has_king(st, c));
    let k = spec_king_sq(st, c);
    assert(sq_ok(k) && st.board[k] == spec_make_piece(c, 6));
    let kp = spec_make_piece(c, 6);
    let nk = nk_castle(st, mv, c);
    assert forall|s: int| 0 <= s < 64 implies ((#[trigger] pl.board[s] == kp) <==> s == nk) by {
        if c == us {
            assert(pl.board[kt] == kp);
            if pl.board[s] == kp && s != kt {
                assert(s != rt && s != from && s != to);
                assert(st.board[s] == kp);
                assert(st.board[from] == kp);
                assert(false);
            }
        } else {
            assert(kp != spec_make_piece(us, 6) && kp != spec_make_piece(us, 4)) by {
                lemma_king_piece_facts(us, us);
            }
            assert(st.board[k] == kp && k != from && k != to);
            assert(pl.board[k] == kp) by {
                if k == kt || k == rt {
                    assert(st.board[k] == 0);
                    assert(false);
                }
            }
            if pl.board[s] == kp && s != k {
                assert(s != kt && s != rt && s != from && s != to);
                assert(st.board[s] == kp);
                assert(false);
            }
        }
    }
}

/// A non-castling move that captures no king keeps exactly one king a side.
pub proof fn lemma_kings_after_normal(st: PosSt, mv: Move, captured: u8)
    requires
        wf_lens(st),
        wf_pieces(st),
        wf_kings(st),
        wf_scalars(st),
        sq_ok(spec_from(mv.0)),
        sq_ok(spec_to(mv.0)),
        spec_from(mv.0) != spec_to(mv.0),
        spec_move_type(mv.0) != CASTLING,
        sq_ok(spec_capture_to(mv.0)),
        captured == st.board[spec_capture_to(mv.0)],
        is_piece(st.board[spec_from(mv.0)]),
        spec_color_of(st.board[spec_from(mv.0)]) == st.ctm,
        captured == 0 || spec_color_of(captured) == other(st.ctm),
        captured == 0 || spec_piecetype_of(captured) != 6,
        spec_move_type(mv.0) == PROMOTION ==> 2 <= spec_promo_type(mv.0) <= 5
            && spec_piecetype_of(st.board[spec_from(mv.0)]) == 1,
        st.board[spec_to(mv.0)] == 0 || spec_to(mv.0) == spec_capture_to(mv.0),
        wf_pieces(do_place(st, mv)),
    ensures
        wf_kings(do_place(st, mv)),
{
    lemma_king_char_normal(st, mv, captured, 0);
    lemma_king_char_normal(st, mv, captured, 1);
    lemma_kings_from_char(do_place(st, mv), nk_normal(st, mv, 0), nk_normal(st, mv, 1));
}

/// A castling move keeps exactly one king a side.
pub proof fn lemma_kings_after_castle(st: PosSt, mv: Move, us: u8)
    requires
        wf_lens(st),
        wf_pieces(st),
        wf_kings(st),
        wf_scalars(st),
        sq_ok(spec_from(mv.0)),
        sq_ok(spec_to(mv.0)),
        spec_from(mv.0) != spec_to(mv.0),
        spec_move_type(mv.0) == CASTLING,
        us == st.ctm,
        st.board[spec_from(mv.0)] == spec_make_piece(us, 6),
        st.board[spec_to(mv.0)] == spec_make_piece(us, 4),
        st.board[spec_k_target(cr_of_castle(mv, st.ctm))] == 0 || spec_k_target(
            cr_of_castle(mv, st.ctm),
        ) == spec_from(mv.0) || spec_k_target(cr_of_castle(mv, st.ctm)) == spec_to(mv.0),
        st.board[spec_r_target(cr_of_castle(mv, st.ctm))] == 0 || spec_r_target(
            cr_of_castle(mv, st.ctm),
        ) == spec_from(mv.0) || spec_r_target(cr_of_castle(mv, st.ctm)) == spec_to(mv.0),
        wf_pieces(do_place(st, mv)),
    ensures
        wf_kings(do_place(st, mv)),
{
    lemma_king_char_castle(st, mv, 0);
    lemma_king_char_castle(st, mv, 1);
    lemma_kings_from_char(do_place(st, mv), nk_castle(st, mv, 0), nk_castle(st, mv, 1));
}

/// The king facts these lemmas share: the packed king values of the two
/// colors are distinct valid pieces.
proof fn lemma_king_piece_facts(c: u8, us: u8)
    requires
        c <= 1,
        us <= 1,
    ensures
        is_piece(spec_make_piece(c, 6)),
        spec_piecetype_of(spec_make_piece(c, 6)) == 6,
        spec_color_of(spec_make_piece(c, 6)) == c,
        c != us ==> spec_make_piece(c, 6) != spec_make_piece(us, 6),
        spec_make_piece(c, 6) != spec_make_piece(us, 4),
        spec_make_piece(c, 6) != 0,
{
}

/// From a per-color characterization of where the kings stand, conclude
/// existence and uniqueness.
proof fn lemma_kings_from_char(pl: PosSt, nk0: int, nk1: int)
    requires
        pl.board.len() == 64,
        wf_pieces(pl),
        0 <= nk0 < 64,
        0 <= nk1 < 64,
        forall|s: int|
            0 <= s < 64 ==> ((#[trigger] pl.board[s] == spec_make_piece(0, 6)) <==> s == nk0),
        forall|s: int|
            0 <= s < 64 ==> ((#[trigger] pl.board[s] == spec_make_piece(1, 6)) <==> s == nk1),
    ensures
        wf_kings(pl),
{
    assert(pl.board[nk0] == spec_make_piece(0, 6));
    assert(pl.board[nk1] == spec_make_piece(1, 6));
    assert(has_king(pl, 0) && has_king(pl, 1));
    assert forall|s1: int, s2: int|
        sq_ok(s1) && sq_ok(s2) && #[trigger] pl.board[s1] == #[trigger] pl.board[s2]
            && spec_piecetype_of(pl.board[s1]) == 6 && pl.board[s1] != 0 implies s1 == s2 by {
        let q = pl.board[s1];
        assert(is_piece(q));
        assert(q == spec_make_piece(0, 6) || q == spec_make_piece(1, 6)) by {
            assert(q % 8 == 6);
        }
        if q == spec_make_piece(0, 6) {
            assert(s1 == nk0 && s2 == nk0);
        } else {
            assert(s1 == nk1 && s2 == nk1);
        }
    }
}

/// The scalar phase preserves the hash invariant.
pub proof fn lemma_wf_hash_scalars(pl: PosSt, stn: PosSt, st0: PosSt, ci: CiSt, mv: Move, flip: u64)
    requires
        wf_hash(pl),
        pl.board == stn.board,
        pl.ctm == st0.ctm,
        pl.cr == st0.cr,
        pl.ep == st0.ep,
        st0.ctm <= 1,
        stn.ctm == other(st0.ctm),
        flip == crate::zobrist::key_at(1040),
        stn.hash == pl.hash ^ ep_key(st0.ep as int) ^ ep_key(stn.ep as int) ^ castle_key(st0.cr)
            ^ castle_key(stn.cr) ^ flip,
    ensures
        wf_hash(stn),
{
    let z = zob_pieces(pl.board, 64);
    let ct = ctm_key(st0.ctm);
    let cs = castle_key(st0.cr);
    let ep = ep_key(st0.ep as int);
    let h1 = pl.hash ^ ep_key(st0.ep as int) ^ ep_key(stn.ep as int);
    crate::zobrist::lemma_xor_replace(pl.hash, z, ct, cs, ep, ep_key(stn.ep as int));
    assert(h1 == z ^ ct ^ cs ^ ep_key(stn.ep as int));
    let h2 = h1 ^ castle_key(st0.cr) ^ castle_key(stn.cr);
    crate::zobrist::lemma_xor_replace(h1, z, ct, cs, ep_key(stn.ep as int), castle_key(stn.cr));
    assert(h2 == z ^ ct ^ castle_key(stn.cr) ^ ep_key(stn.ep as int));
    crate::zobrist::lemma_xor_fold1(h2, z, ct, castle_key(stn.cr), ep_key(stn.ep as int), flip);
    assert(h2 ^ flip == z ^ (ct ^ flip) ^ castle_key(stn.cr) ^ ep_key(stn.ep as int));
    crate::zobrist::lemma_xor_basics(flip);
    crate::zobrist::lemma_xor_basics(ctm_key(st0.ctm));
    assert(ctm_key(stn.ctm) == ct ^ flip);
}

/// The full invariant holds after a legal move's scalar phase.
pub proof fn lemma_make_wf(st0: PosSt, ci: CiSt, mv: Move, stn: PosSt, captured: u8)
    requires
        wf_st(st0, ci),
        is_pseudo_legal(st0, ci, mv),
        st0.mr50 < 255,
        st0.fullmove < 65535,
        stn == apply_move(st0, ci, mv),
        wf_base(stn),
        wf_kings(do_place(st0, mv)),
        captured == if spec_move_type(mv.0) != CASTLING {
            st0.board[spec_capture_to(mv.0)]
        } else {
            0u8
        },
        spec_move_type(mv.0) != CASTLING ==> captured != spec_make_piece(other(st0.ctm), 6),
    ensures
        wf_st(stn, ci),
{
    let from = spec_from(mv.0);
    let to = spec_to(mv.0);
    let mt = spec_move_type(mv.0);
    let us = st0.ctm;
    let p = st0.board[from];
    let pl = do_place(st0, mv);
    assert(stn.board == pl.board);
    assert(wf_kings(stn));
    // en-passant invariant in the new state
    assert(wf_ep(stn)) by {
        if stn.ep != 0 {
            assert(mt != CASTLING);
            lemma_place_board_normal(st0, mv, captured);
            assert(spec_piecetype_of(p) == 1 && (to == from + 16 || to == from - 16));
            crate::attacks::lemma_sq_decomp(from);
            crate::attacks::lemma_sq_decomp(to);
            assert(pawn_step_ok(st0, from, to));
            let up = if us == 0 {
                8int
            } else {
                -8int
            };
            assert(to == from + 2 * up);
            assert(st0.board[from + up] == 0);
            assert(stn.ep as int == spec_ep_captured_sq(to));
            crate::attacks::lemma_sq_decomp(from + up);
            assert(stn.ep as int == from + up);
            assert(stn.board[stn.ep as int] == 0);
            assert(spec_ep_captured_sq(stn.ep as int) == to) by {
                crate::attacks::lemma_sq_decomp(to);
            }
            assert(stn.board[to] == spec_make_piece(us, 1));
            assert(stn.ctm == other(us) && other(stn.ctm) == us);
        }
    }
    // castling invariant in the new state
    assert(wf_castle(stn, ci)) by {
        assert forall|r: u8| is_right(r) && #[trigger] (stn.cr & r) != 0 implies {
            let c = right_color(r);
            let rsq = ci.rooks[r as int] as int;
            let ksq = ci.kings[r as int] as int;
            &&& sq_ok(rsq) && sq_ok(ksq) && rsq != ksq
            &&& stn.board[rsq] == spec_make_piece(c, 4)
            &&& stn.board[ksq] == spec_make_piece(c, 6)
            &&& rank_of_int(rsq) == if c == 0 {
                0int
            } else {
                7int
            }
            &&& rank_of_int(ksq) == rank_of_int(rsq)
            &&& ((r == 1 || r == 4) ==> file_of_int(rsq) > file_of_int(ksq))
            &&& ((r == 2 || r == 8) ==> file_of_int(rsq) < file_of_int(ksq))
            &&& forall|sq: int|
                0 <= sq < 64 ==> ((#[trigger] ci.rights[sq] & r) == 0 <==> (sq == rsq || sq
                    == ksq))
            &&& forall|u: int|
                (between_same_rank(ksq, spec_k_target(r), u) || between_same_rank(
                    rsq,
                    spec_r_target(r),
                    u,
                )) ==> #[trigger] bit64(ci.path[r as int], u)
        } by {
            lemma_still_right(st0, ci, mv, stn, captured, r);
        }
    }
}

/// A right that survives the mask intersection keeps its rook and king
/// untouched on their starting squares.
proof fn lemma_still_right(st0: PosSt, ci: CiSt, mv: Move, stn: PosSt, captured: u8, r: u8)
    requires
        wf_st(st0, ci),
        is_pseudo_legal(st0, ci, mv),
        stn == apply_move(st0, ci, mv),
        captured == if spec_move_type(mv.0) != CASTLING {
            st0.board[spec_capture_to(mv.0)]
        } else {
            0u8
        },
        is_right(r),
        stn.cr & r != 0,
    ensures
        ({
            let c = right_color(r);
            let rsq = ci.rooks[r as int] as int;
            let ksq = ci.kings[r as int] as int;
            &&& sq_ok(rsq) && sq_ok(ksq) && rsq != ksq
            &&& stn.board[rsq] == spec_make_piece(c, 4)
            &&& stn.board[ksq] == spec_make_piece(c, 6)
            &&& rank_of_int(rsq) == if c == 0 {
                0int
            } else {
                7int
            }
            &&& rank_of_int(ksq) == rank_of_int(rsq)
            &&& ((r == 1 || r == 4) ==> file_of_int(rsq) > file_of_int(ksq))
            &&& ((r == 2 || r == 8) ==> file_of_int(rsq) < file_of_int(ksq))
            &&& forall|sq: int|
                0 <= sq < 64 ==> ((#[trigger] ci.rights[sq] & r) == 0 <==> (sq == rsq || sq
                    == ksq))
            &&& forall|u: int|
                (between_same_rank(ksq, spec_k_target(r), u) || between_same_rank(
                    rsq,
                    spec_r_target(r),
                    u,
                )) ==> #[trigger] bit64(ci.path[r as int], u)
        }),
{
    let from = spec_from(mv.0);
    let to = spec_to(mv.0);
    let us = st0.ctm;
    let c = right_color(r);
    let rsq = ci.rooks[r as int] as int;
    let ksq = ci.kings[r as int] as int;
    lemma_u8_and_le(st0.cr & ci.rights[from], ci.rights[to]);
    lemma_and_bit(st0.cr, ci.rights[from], ci.rights[to], r);
    assert(st0.cr & r != 0);
    assert(ci.rights[from] & r != 0 && ci.rights[to] & r != 0);
    assert(from != rsq && from != ksq && to != rsq && to != ksq);
    if spec_move_type(mv.0) == CASTLING {
        lemma_place_board_castle(st0, mv, us);
        let rc = cr_of_castle(mv, us);
        let kt = spec_k_target(rc);
        let rt = spec_r_target(rc);
        // The moving side's own king square masks away both of its rights,
        // so a surviving right belongs to the other side, whose back rank
        // the castling never touches.
        assert(st0.board[from] == spec_make_piece(us, 6));
        assert(c != us) by {
            if c == us {
                assert(ci.kings[r as int] as int == spec_king_sq(st0, us) || st0.board[ksq]
                    == spec_make_piece(us, 6));
                assert(st0.board[from] == st0.board[ksq]);
                assert(from == ksq);
            }
        }
        assert(rank_of_int(kt) == if us == 0 {
            0int
        } else {
            7int
        });
        assert(rank_of_int(rt) == if us == 0 {
            0int
        } else {
            7int
        });
        assert(rank_of_int(rsq) != rank_of_int(kt) && rank_of_int(ksq) != rank_of_int(kt));
        assert(stn.board[rsq] == st0.board[rsq]);
        assert(stn.board[ksq] == st0.board[ksq]);
    } else {
        lemma_place_board_normal(st0, mv, captured);
        let cap = spec_capture_to(mv.0);
        if captured != 0 {
            assert(st0.board[cap] == captured);
            assert(cap != rsq || st0.board[rsq] != spec_make_piece(c, 4) || captured
                == spec_make_piece(c, 4));
            // A captured piece on a starting square would have to be that
            // side's own rook or king, but the capture square holds an
            // enemy piece of the mover, and the masks of the endpoints
            // keep the right, so the capture square is elsewhere.
            if cap == rsq {
                assert(captured == spec_make_piece(c, 4));
                if spec_move_type(mv.0) == ENPASSANT {
                    assert(st0.board[cap] == spec_make_piece(other(us), 1));
                    assert(spec_piecetype_of(captured) == 4 && spec_piecetype_of(
                        spec_make_piece(other(us), 1),
                    ) == 1);
                } else {
                    assert(cap == to);
                }
                assert(false);
            }
            if cap == ksq {
                assert(captured == spec_make_piece(c, 6));
                if spec_move_type(mv.0) == ENPASSANT {
                    assert(st0.board[cap] == spec_make_piece(other(us), 1));
                    assert(spec_piecetype_of(captured) == 6 && spec_piecetype_of(
                        spec_make_piece(other(us), 1),
                    ) == 1);
                } else {
                    assert(cap == to);
                }
                assert(false);
            }
        }
        assert(stn.board[rsq] == st0.board[rsq]);
        assert(stn.board[ksq] == st0.board[ksq]);
    }
}

/// Bit survival through the castling-rights mask intersection.
proof fn lemma_and_bit(cr: u8, m1: u8, m2: u8, r: u8)
    by (bit_vector)
    ensures
        (cr & m1 & m2) & r != 0 ==> (cr & r != 0 && m1 & r != 0 && m2 & r != 0),
{
}

/// The snapshot pushed by a successful move reverses it exactly.
pub proof fn lemma_make_undoable(st0: PosSt, ci: CiSt, mv: Move, stn: PosSt, u: Undo)
    requires
        wf_st(st0, ci),
        is_pseudo_legal(st0, ci, mv),
        stn == apply_move(st0, ci, mv),
        wf_base(stn),
        u.mv == mv,
        u.moving == st0.board[spec_from(mv.0)],
        u.captured == (if spec_move_type(mv.0) != CASTLING {
            st0.board[spec_capture_to(mv.0)]
        } else {
            0u8
        }),
        spec_move_type(mv.0) != CASTLING ==> u.captured != spec_make_piece(other(st0.ctm), 6),
        u.ep == st0.ep,
        u.mr50 == st0.mr50,
        u.cr == st0.cr,
        u.fullmove == st0.fullmove,
        u.hash == st0.hash,
        u.prev@ == st0,
    ensures
        undoable(stn, u),
{
    if spec_move_type(mv.0) == CASTLING {
        lemma_make_undoable_castle(st0, ci, mv, stn, u);
    } else {
        lemma_make_undoable_normal(st0, ci, mv, stn, u);
    }
}

/// The castling case of `lemma_make_undoable`.
#[verifier::spinoff_prover]
proof fn lemma_make_undoable_castle(st0: PosSt, ci: CiSt, mv: Move, stn: PosSt, u: Undo)
    requires
        wf_st(st0, ci),
        is_pseudo_legal(st0, ci, mv),
        stn == apply_move(st0, ci, mv),
        wf_base(stn),
        u.mv == mv,
        u.moving == st0.board[spec_from(mv.0)],
        u.captured == (if spec_move_type(mv.0) != CASTLING {
            st0.board[spec_capture_to(mv.0)]
        } else {
            0u8
        }),
        u.ep == st0.ep,
        u.mr50 == st0.mr50,
        u.cr == st0.cr,
        u.fullmove == st0.fullmove,
        u.hash == st0.hash,
        u.prev@ == st0,
        spec_move_type(mv.0) == CASTLING,
    ensures
        undoable(stn, u),
{
    let from = spec_from(mv.0);
    let to = spec_to(mv.0);
    let us = st0.ctm;
    assert(other(stn.ctm) == us);
    assert(stn.board == do_place(st0, mv).board);
    lemma_place_board_castle(st0, mv, us);
    let rc = cr_of_castle(mv, us);
    let kt = spec_k_target(rc);
    let rt = spec_r_target(rc);
    assert(st0.cr & rc != 0 && right_color(rc) == us);
    assert(rank_of_int(kt) == if us == 0 {
        0int
    } else {
        7int
    });
    assert(rank_of_int(rt) == if us == 0 {
        0int
    } else {
        7int
    });
    if kt != from && kt != to {
        assert(between_same_rank(from, kt, kt));
        assert(bit64(ci.path[rc as int], kt));
        assert(st0.board[kt] == 0);
    }
    if rt != from && rt != to {
        assert(between_same_rank(to, rt, rt));
        assert(bit64(ci.path[rc as int], rt));
        assert(st0.board[rt] == 0);
    }
    lemma_undo_chain_castle(st0, stn, mv, u, us);
}

/// The placement chain of undoing a castling move, in a minimal context.
#[verifier::spinoff_prover]
#[verifier::rlimit(100)]
proof fn lemma_undo_chain_castle(st0: PosSt, stn: PosSt, mv: Move, u: Undo, us: u8)
    requires
        wf_base(stn),
        wf_lens(st0),
        wf_bbs(st0),
        wf_eval(st0),
        us <= 1,
        us == other(stn.ctm),
        us == st0.ctm,
        u.mv == mv,
        is_piece(u.moving),
        u.captured == 0,
        u.ep == st0.ep,
        u.mr50 == st0.mr50,
        u.cr == st0.cr,
        u.fullmove == st0.fullmove,
        u.hash == st0.hash,
        u.prev@ == st0,
        sq_ok(spec_from(mv.0)),
        sq_ok(spec_to(mv.0)),
        spec_from(mv.0) != spec_to(mv.0),
        spec_move_type(mv.0) == CASTLING,
        st0.board[spec_from(mv.0)] == spec_make_piece(us, 6),
        st0.board[spec_to(mv.0)] == spec_make_piece(us, 4),
        (spec_k_target(cr_of_castle(mv, us)) != spec_from(mv.0) && spec_k_target(
            cr_of_castle(mv, us),
        ) != spec_to(mv.0)) ==> st0.board[spec_k_target(cr_of_castle(mv, us))] == 0,
        (spec_r_target(cr_of_castle(mv, us)) != spec_from(mv.0) && spec_r_target(
            cr_of_castle(mv, us),
        ) != spec_to(mv.0)) ==> st0.board[spec_r_target(cr_of_castle(mv, us))] == 0,
        forall|s: int|
            0 <= s < 64 ==> #[trigger] stn.board[s] == (if s == spec_k_target(
                cr_of_castle(mv, us),
            ) {
                spec_make_piece(us, 6)
            } else if s == spec_r_target(cr_of_castle(mv, us)) {
                spec_make_piece(us, 4)
            } else if s == spec_from(mv.0) || s == spec_to(mv.0) {
                0u8
            } else {
                st0.board[s]
            }),
    ensures
        undoable(stn, u),
{
    let from = spec_from(mv.0);
    let to = spec_to(mv.0);
    let rc = cr_of_castle(mv, us);
    let kt = spec_k_target(rc);
    let rt = spec_r_target(rc);
    assert(kt != rt && sq_ok(kt) && sq_ok(rt));
    assert(stn.board[kt] == spec_make_piece(us, 6));
    let s1 = st_remove(stn, kt);
    lemma_remove(stn, kt);
    assert(s1.board[rt] == spec_make_piece(us, 4));
    let s2 = st_remove(s1, rt);
    lemma_remove(s1, rt);
    assert(s2.board[to] == 0) by {
        if to != kt && to != rt {
            assert(stn.board[to] == 0);
        }
    }
    let s3 = st_put(s2, spec_make_piece(us, 4), to);
    lemma_put(s2, spec_make_piece(us, 4), to);
    assert(s3.board[from] == 0) by {
        if from != kt && from != rt {
            assert(stn.board[from] == 0);
        }
    }
    let s4 = st_put(s3, spec_make_piece(us, 6), from);
    lemma_put(s3, spec_make_piece(us, 6), from);
    assert(restore_preconds(stn, u));
    assert(s4.board =~= st0.board);
    let fin = st_scalars(s4, u);
    lemma_same_board_same_bbs(s4, st0);
    assert(fin =~= st0);
    assert(restore_st(stn, u) == u.prev@);
}

/// The non-castling case of `lemma_make_undoable`.
#[verifier::spinoff_prover]
#[verifier::rlimit(100)]
proof fn lemma_make_undoable_normal(st0: PosSt, ci: CiSt, mv: Move, stn: PosSt, u: Undo)
    requires
        wf_st(st0, ci),
        is_pseudo_legal(st0, ci, mv),
        stn == apply_move(st0, ci, mv),
        wf_base(stn),
        u.mv == mv,
        u.moving == st0.board[spec_from(mv.0)],
        u.captured == (if spec_move_type(mv.0) != CASTLING {
            st0.board[spec_capture_to(mv.0)]
        } else {
            0u8
        }),
        spec_move_type(mv.0) != CASTLING ==> u.captured != spec_make_piece(other(st0.ctm), 6),
        u.ep == st0.ep,
        u.mr50 == st0.mr50,
        u.cr == st0.cr,
        u.fullmove == st0.fullmove,
        u.hash == st0.hash,
        u.prev@ == st0,
        spec_move_type(mv.0) != CASTLING,
    ensures
        undoable(stn, u),
{
    let from = spec_from(mv.0);
    let to = spec_to(mv.0);
    let us = st0.ctm;
    assert(other(stn.ctm) == us);
    assert(stn.board == do_place(st0, mv).board);
    let cap = spec_capture_to(mv.0);
    lemma_place_board_normal(st0, mv, u.captured);
    assert(stn.board[to] != 0);
    let s1 = st_remove(stn, to);
    lemma_remove(stn, to);
    assert(s1.board[from] == 0);
    assert(is_piece(u.moving));
    let s2 = st_put(s1, u.moving, from);
    lemma_put(s1, u.moving, from);
    if u.captured != 0 {
        assert(cap != from) by {
            assert(spec_color_of(st0.board[cap]) == other(us));
            assert(spec_color_of(st0.board[from]) == us);
        }
        assert(s2.board[cap] == 0);
        let s3 = st_put(s2, u.captured, cap);
        lemma_put(s2, u.captured, cap);
        assert(restore_preconds(stn, u));
        assert(s3.board =~= st0.board);
        lemma_same_board_same_bbs(s3, st0);
        assert(st_scalars(s3, u) =~= st0);
    } else {
        assert(restore_preconds(stn, u));
        assert(s2.board =~= st0.board);
        lemma_same_board_same_bbs(s2, st0);
        assert(st_scalars(s2, u) =~= st0);
    }
    assert(restore_st(stn, u) == u.prev@);
}


/// No move appears twice.
pub open spec fn distinct_moves(s: Seq<Move>) -> bool {
    forall|i: int, j: int| 0 <= i < j < s.len() ==> s[i] != s[j]
}

/// A list extending a prefix keeps the prefix's members.
proof fn lemma_prefix_contains(a: Seq<Move>, b: Seq<Move>)
    requires
        b.len() >= a.len(),
        forall|i: int| 0 <= i < a.len() ==> b[i] == a[i],
    ensures
        forall|mv: Move| a.contains(mv) ==> #[trigger] b.contains(mv),
{
    assert forall|mv: Move| a.contains(mv) implies #[trigger] b.contains(mv) by {
        let j = choose|j: int| 0 <= j < a.len() && a[j] == mv;
        assert(b[j] == mv);
    }
}

/// Two moves with the same decoded fields are the same packed word.
proof fn lemma_move_encode_unique(a: u16, b: u16)
    by (bit_vector)
    ensures
        (a % 64 == b % 64 && (a / 64) % 64 == (b / 64) % 64 && a / 0x4000 * 0x4000 == b / 0x4000
            * 0x4000 && (a / 0x1000) % 4 == (b / 0x1000) % 4) ==> a == b,
{
}

impl Position {
    /// Whether the side to move's pawn on `from` can step to `to`.
    fn pawn_step_exec(&self, from: Square, to: Square) -> (r: bool)
        requires
            from < 64,
            to < 64,
            wf_lens(self@),
            self@.ctm <= 1,
        ensures
            r == pawn_step_ok(self@, from as int, to as int),
    {
        let us = self.ctm;
        let up: i32 = if us == 0 {
            8
        } else {
            -8
        };
        let fi = from as i32;
        let ti = to as i32;
        if ti == fi + up && self.board[to as usize] == 0 {
            return true;
        }
        let home: i32 = if us == 0 {
            1
        } else {
            6
        };
        if ti == fi + 2 * up && (crate::types::rank_of(from) as i32) == home {
            let mid = (fi + up) as usize;
            if self.board[mid] == 0 && self.board[to as usize] == 0 {
                return true;
            }
        }
        if crate::attacks::pawn_reaches(from, to, us) {
            let q = self.board[to as usize];
            if q != 0 && crate::types::color_of(q) == crate::types::swap_color(us) {
                return true;
            }
        }
        false
    }

    /// Handles one (from, to) pair of the side to move's pawn on `from`,
    /// pushing its pushes, captures, promotions and en-passant capture.
    fn gen_pawn_pair(&self, ci: &CastleInfo, list: &mut MoveList, from: Square, to: Square)
        requires
            self.wf(),
            ci@ == self.cig_view(),
            from < 64,
            to < 64,
            self@.board[from as int] != 0,
            spec_color_of(self@.board[from as int]) == self@.ctm,
            spec_piecetype_of(self@.board[from as int]) == 1,
        ensures
            final(list)@.len() >= old(list)@.len(),
            forall|i: int| 0 <= i < old(list)@.len() ==> final(list)@[i] == old(list)@[i],
            forall|i: int|
                old(list)@.len() <= i < final(list)@.len() ==> is_pseudo_legal(
                    self@,
                    ci@,
                    #[trigger] final(list)@[i],
                ),
            forall|mv: Move|
                #[trigger] is_pseudo_legal(self@, ci@, mv) && spec_move_type(mv.0) != CASTLING
                    && spec_from(mv.0) == from && spec_to(mv.0) == to ==> final(list)@.contains(mv),
            forall|k: int|
                old(list)@.len() <= k < final(list)@.len() ==> (spec_from(
                    (#[trigger] final(list)@[k]).0,
                ) == from && spec_to(final(list)@[k].0) == to && spec_move_type(final(list)@[k].0)
                    != CASTLING),
            forall|k1: int, k2: int|
                old(list)@.len() <= k1 < k2 < final(list)@.len() ==> final(list)@[k1]
                    != final(list)@[k2],
    {
        let ghost st = self@;
        let ghost cis = ci@;
        let us = self.ctm;
        let last: usize = if us == 0 {
            7
        } else {
            0
        };
        proof {
            assert(last == last_rank(us));
        }
        if to == from {
            return ;
        }
        if self.pawn_step_exec(from, to) {
            if crate::types::rank_of(to) != last {
                let ghost lnn = list@;
                list.push(Move::new(from, to, NORMAL, None));
                proof {
                    lemma_prefix_contains(lnn, list@);
                    assert(is_pseudo_legal(st, cis, list@.last()));
                    assert forall|mv: Move|
                        #[trigger] is_pseudo_legal(st, cis, mv) && spec_move_type(mv.0) == NORMAL
                            && spec_from(mv.0) == from && spec_to(mv.0) == to implies
                        list@.contains(mv) by {
                        lemma_move_encode_unique(mv.0, list@.last().0);
                        assert(list@.last() == mv);
                    }
                }
            } else {
                let mut pp: u8 = 2;
                while pp <= 5
                    invariant
                        2 <= pp <= 6,
                        to < 64,
                        from < 64,
                        to != from,
                        us == st.ctm,
                        st == self@,
                        cis == self.cig_view(),
                        self.wf(),
                        last == last_rank(us),
                        st.board[from as int] != 0,
                        spec_color_of(st.board[from as int]) == us,
                        spec_piecetype_of(st.board[from as int]) == 1,
                        pawn_step_ok(st, from as int, to as int),
                        rank_of_int(to as int) == last_rank(us),
                        list@.len() >= old(list)@.len(),
                        list@.len() == old(list)@.len() + pp - 2,
                        forall|i: int| 0 <= i < old(list)@.len() ==> list@[i] == old(list)@[i],
                        forall|i: int|
                            old(list)@.len() <= i < list@.len() ==> is_pseudo_legal(
                                st,
                                cis,
                                #[trigger] list@[i],
                            ),
                        forall|k: int|
                            old(list)@.len() <= k < list@.len() ==> (spec_from(
                                (#[trigger] list@[k]).0,
                            ) == from && spec_to(list@[k].0) == to && spec_move_type(list@[k].0)
                                == PROMOTION && spec_promo_type(list@[k].0) == 2 + k - old(
                                list,
                            )@.len()),
                        forall|mv: Move|
                            #[trigger] is_pseudo_legal(st, cis, mv) && spec_move_type(mv.0)
                                == PROMOTION && spec_from(mv.0) == from && spec_to(mv.0) == to
                                && spec_promo_type(mv.0) < pp ==> list@.contains(mv),
                    decreases 6 - pp,
                {
                    let ghost lpp = list@;
                    list.push(Move::new(from, to, PROMOTION, Some(pp)));
                    proof {
                        lemma_prefix_contains(lpp, list@);
                        assert(is_pseudo_legal(st, cis, list@.last()));
                        assert forall|mv: Move|
                            #[trigger] is_pseudo_legal(st, cis, mv) && spec_move_type(mv.0)
                                == PROMOTION && spec_from(mv.0) == from && spec_to(mv.0) == to
                                && spec_promo_type(mv.0) == pp implies list@.contains(mv) by {
                            lemma_move_encode_unique(mv.0, list@.last().0);
                            assert(list@.last() == mv);
                        }
                    }
                    pp = pp + 1;
                }
            }
        }
        if self.ep != 0 && to == self.ep && crate::attacks::pawn_reaches(from, to, us) {
            let ghost lep = list@;
            list.push(Move::new(from, to, ENPASSANT, None));
            proof {
                lemma_prefix_contains(lep, list@);
                assert(is_pseudo_legal(st, cis, list@.last()));
                assert forall|mv: Move|
                    #[trigger] is_pseudo_legal(st, cis, mv) && spec_move_type(mv.0) == ENPASSANT
                        && spec_from(mv.0) == from && spec_to(mv.0) == to implies list@.contains(
                    mv,
                ) by {
                    lemma_move_encode_unique(mv.0, list@.last().0);
                    assert(list@.last() == mv);
                }
            }
        }
        proof {
            assert forall|mv: Move|
                #[trigger] is_pseudo_legal(st, cis, mv) && spec_move_type(mv.0) != CASTLING
                    && spec_from(mv.0) == from && spec_to(mv.0) == to implies list@.contains(
                mv,
            ) by {
                if spec_move_type(mv.0) == NORMAL {
                    assert(pawn_step_ok(st, from as int, to as int));
                } else if spec_move_type(mv.0) == PROMOTION {
                    assert(2 <= spec_promo_type(mv.0) <= 5);
                } else {
                    assert(spec_move_type(mv.0) == ENPASSANT);
                }
            }
            assert forall|k1: int, k2: int|
                old(list)@.len() <= k1 < k2 < list@.len() implies list@[k1] != list@[k2] by {
                if list@[k1] == list@[k2] {
                    assert(spec_move_type(list@[k1].0) == spec_move_type(list@[k2].0));
                    assert(spec_promo_type(list@[k1].0) == spec_promo_type(list@[k2].0));
                }
            }
        }
    }

    /// Pushes the castling move of right `rbit` when it is pseudo-legal.
    fn gen_castle_right(&self, ci: &CastleInfo, list: &mut MoveList, rbit: CastleRights)
        requires
            self.wf(),
            ci@ == self.cig_view(),
            is_right(rbit),
            right_color(rbit) == self@.ctm,
        ensures
            final(list)@.len() >= old(list)@.len(),
            forall|i: int| 0 <= i < old(list)@.len() ==> final(list)@[i] == old(list)@[i],
            forall|i: int|
                old(list)@.len() <= i < final(list)@.len() ==> is_pseudo_legal(
                    self@,
                    ci@,
                    #[trigger] final(list)@[i],
                ),
            forall|mv: Move|
                #[trigger] is_pseudo_legal(self@, ci@, mv) && spec_move_type(mv.0) == CASTLING
                    && cr_of_castle(mv, self@.ctm) == rbit ==> final(list)@.contains(mv),
            final(list)@.len() <= old(list)@.len() + 1,
            forall|k: int|
                old(list)@.len() <= k < final(list)@.len() ==> (spec_move_type(
                    (#[trigger] final(list)@[k]).0,
                ) == CASTLING && cr_of_castle(final(list)@[k], self@.ctm) == rbit),
    {
        let ghost st = self@;
        let ghost cis = ci@;
        let us = self.ctm;
        if self.cr & rbit == 0 {
            proof {
                assert forall|mv: Move|
                    #[trigger] is_pseudo_legal(st, cis, mv) && spec_move_type(mv.0) == CASTLING
                        && cr_of_castle(mv, us) == rbit implies list@.contains(mv) by {
                    assert(st.cr & cr_of_castle(mv, us) != 0);
                }
            }
            return ;
        }
        proof {
            assert(st.cr & rbit != 0);
        }
        let ksq = ci.castle_kings[rbit as usize];
        let rsq = ci.castle_rooks[rbit as usize];
        proof {
            assert(sq_ok(ksq as int) && sq_ok(rsq as int) && ksq != rsq);
        }
        let pathw = ci.castle_path[rbit as usize];
        let mut free = true;
        let mut sq: u32 = 0;
        while sq < 64
            invariant
                sq <= 64,
                st == self@,
                cis == self.cig_view(),
                self.wf(),
                is_right(rbit),
                ksq == cis.kings[rbit as int],
                rsq == cis.rooks[rbit as int],
                pathw == cis.path[rbit as int],
                ksq < 64,
                rsq < 64,
                free <==> (forall|j: int|
                    0 <= j < sq && #[trigger] bit64(cis.path[rbit as int], j) && j != ksq && j
                        != rsq ==> st.board[j] == 0),
            decreases 64 - sq,
        {
            if sq != ksq && sq != rsq {
                if BitBoard(pathw).test(sq) {
                    if self.board[sq as usize] != 0 {
                        free = false;
                    }
                }
            }
            sq = sq + 1;
        }
        if free {
            proof {
                assert(castle_path_free(st, cis, rbit));
            }
            let ghost lcp = list@;
            list.push(Move::new(ksq, rsq, CASTLING, None));
            proof {
                lemma_prefix_contains(lcp, list@);
                assert(is_pseudo_legal(st, cis, list@.last())) by {
                    assert(cr_of_castle(list@.last(), us) == rbit);
                }
                assert forall|mv: Move|
                    #[trigger] is_pseudo_legal(st, cis, mv) && spec_move_type(mv.0) == CASTLING
                        && cr_of_castle(mv, us) == rbit implies list@.contains(mv) by {
                    lemma_move_encode_unique(mv.0, list@.last().0);
                    assert(list@.last() == mv);
                }
            }
        } else {
            proof {
                assert forall|mv: Move|
                    #[trigger] is_pseudo_legal(st, cis, mv) && spec_move_type(mv.0) == CASTLING
                        && cr_of_castle(mv, us) == rbit implies list@.contains(mv) by {
                    assert(castle_path_free(st, cis, rbit));
                }
            }
        }
    }

    /// Produces exactly the pseudo-legal moves of the side to move.
    pub fn gen_pseudo_legals(&self, ci: &CastleInfo) -> (r: MoveList)
        requires
            self.wf(),
            ci@ == self.cig_view(),
        ensures
            forall|i: int| 0 <= i < r@.len() ==> is_pseudo_legal(self@, ci@, #[trigger] r@[i]),
            forall|mv: Move| #[trigger] is_pseudo_legal(self@, ci@, mv) ==> r@.contains(mv),
            distinct_moves(r@),
    {
        let ghost st = self@;
        let ghost cis = ci@;
        let us = self.ctm;
        let occ = BitBoard(self.piece_bb[0]);
        let mut list = MoveList::new();
        let mut from: u32 = 0;
        while from < 64
            invariant
                from <= 64,
                us == st.ctm,
                st == self@,
                cis == self.cig_view(),
                cis == ci@,
                self.wf(),
                occ.0 == st.pbb[0],
                forall|i: int| 0 <= i < list@.len() ==> is_pseudo_legal(st, cis, #[trigger] list@[i]),
                forall|mv: Move|
                    #[trigger] is_pseudo_legal(st, cis, mv) && spec_move_type(mv.0) != CASTLING
                        && spec_from(mv.0) < from ==> list@.contains(mv),
                distinct_moves(list@),
                forall|k: int|
                    0 <= k < list@.len() ==> (spec_move_type((#[trigger] list@[k]).0) != CASTLING
                        && spec_from(list@[k].0) < from),
            decreases 64 - from,
        {
            let p = self.board[from as usize];
            if p != 0 && crate::types::color_of(p) == us {
                let pt = crate::types::piecetype_of(p);
                if pt == 1 {
                    let mut to: u32 = 0;
                    while to < 64
                        invariant
                            to <= 64,
                            from < 64,
                            us == st.ctm,
                            st == self@,
                            cis == self.cig_view(),
                            cis == ci@,
                            self.wf(),
                            st.board[from as int] != 0,
                            spec_color_of(st.board[from as int]) == us,
                            spec_piecetype_of(st.board[from as int]) == 1,
                            forall|i: int|
                                0 <= i < list@.len() ==> is_pseudo_legal(
                                    st,
                                    cis,
                                    #[trigger] list@[i],
                                ),
                            forall|mv: Move|
                                #[trigger] is_pseudo_legal(st, cis, mv) && spec_move_type(mv.0)
                                    != CASTLING && (spec_from(mv.0) < from || (spec_from(mv.0)
                                    == from && spec_to(mv.0) < to)) ==> list@.contains(mv),
                            distinct_moves(list@),
                            forall|k: int|
                                0 <= k < list@.len() ==> (spec_move_type(
                                    (#[trigger] list@[k]).0,
                                ) != CASTLING && (spec_from(list@[k].0) < from || (spec_from(
                                    list@[k].0,
                                ) == from && spec_to(list@[k].0) < to))),
                        decreases 64 - to,
                    {
                        let ghost lp = list@;
                        self.gen_pawn_pair(ci, &mut list, from, to);
                        proof {
                            lemma_prefix_contains(lp, list@);
                            assert forall|k1: int, k2: int|
                                0 <= k1 < k2 < list@.len() implies list@[k1] != list@[k2] by {
                                if k2 < lp.len() {
                                } else if k1 < lp.len() {
                                    assert(spec_from(list@[k1].0) < from || (spec_from(list@[k1].0)
                                        == from && spec_to(list@[k1].0) < to));
                                    assert(spec_from(list@[k2].0) == from && spec_to(list@[k2].0)
                                        == to);
                                }
                            }
                        }
                        to = to + 1;
                    }
                } else {
                    let attacks = crate::attacks::attack_bb(pt, from, occ);
                    let mut to: u32 = 0;
                    while to < 64
                        invariant
                            to <= 64,
                            from < 64,
                            us == st.ctm,
                            st == self@,
                            cis == self.cig_view(),
                            self.wf(),
                            occ.0 == st.pbb[0],
                            st.board[from as int] != 0,
                            spec_color_of(st.board[from as int]) == us,
                            2 <= spec_piecetype_of(st.board[from as int]) <= 6,
                            pt == spec_piecetype_of(st.board[from as int]),
                            forall|t: int|
                                #[trigger] attacks.has(t) <==> crate::attacks::piece_att(
                                    pt,
                                    from as int,
                                    t,
                                    occ.0,
                                ),
                            forall|i: int|
                                0 <= i < list@.len() ==> is_pseudo_legal(
                                    st,
                                    cis,
                                    #[trigger] list@[i],
                                ),
                            forall|mv: Move|
                                #[trigger] is_pseudo_legal(st, cis, mv) && spec_move_type(mv.0)
                                    != CASTLING && (spec_from(mv.0) < from || (spec_from(mv.0)
                                    == from && spec_to(mv.0) < to)) ==> list@.contains(mv),
                            distinct_moves(list@),
                            forall|k: int|
                                0 <= k < list@.len() ==> (spec_move_type(
                                    (#[trigger] list@[k]).0,
                                ) != CASTLING && (spec_from(list@[k].0) < from || (spec_from(
                                    list@[k].0,
                                ) == from && spec_to(list@[k].0) < to))),
                        decreases 64 - to,
                    {
                        if attacks.test(to) {
                            let q = self.board[to as usize];
                            if q == 0 || crate::types::color_of(q) != us {
                                let ghost lnp = list@;
                                list.push(Move::new(from, to, NORMAL, None));
                                proof {
                                    lemma_prefix_contains(lnp, list@);
                                    assert(is_pseudo_legal(st, cis, list@.last()));
                                    assert forall|mv: Move|
                                        #[trigger] is_pseudo_legal(st, cis, mv) && spec_move_type(
                                            mv.0,
                                        ) == NORMAL && spec_from(mv.0) == from && spec_to(mv.0)
                                            == to implies list@.contains(mv) by {
                                        lemma_move_encode_unique(mv.0, list@.last().0);
                                        assert(list@.last() == mv);
                                    }
                                }
                            }
                        }
                        proof {
                            assert forall|mv: Move|
                                #[trigger] is_pseudo_legal(st, cis, mv) && spec_move_type(mv.0)
                                    != CASTLING && spec_from(mv.0) == from && spec_to(mv.0) == to
                                    implies list@.contains(mv) by {
                                assert(spec_piecetype_of(st.board[from as int]) != 1);
                                assert(spec_move_type(mv.0) == NORMAL);
                                assert(crate::attacks::piece_att(pt, from as int, to as int, occ.0));
                                assert(attacks.has(to as int));
                                assert(!(st.board[to as int] != 0 && spec_color_of(
                                    st.board[to as int],
                                ) == us));
                            }
                        }
                        to = to + 1;
                    }
                }
            } else {
                proof {
                    assert forall|mv: Move|
                        #[trigger] is_pseudo_legal(st, cis, mv) && spec_move_type(mv.0) != CASTLING
                            && spec_from(mv.0) == from as int implies list@.contains(mv) by {
                        assert(is_piece(st.board[spec_from(mv.0)]));
                    }
                }
            }
            from = from + 1;
        }
        let r0: u8 = if us == 0 {
            1
        } else {
            4
        };
        let r1: u8 = if us == 0 {
            2
        } else {
            8
        };
        let ghost l0 = list@;
        self.gen_castle_right(ci, &mut list, r0);
        proof {
            lemma_prefix_contains(l0, list@);
        }
        let ghost l1 = list@;
        self.gen_castle_right(ci, &mut list, r1);
        proof {
            lemma_prefix_contains(l1, list@);
            assert forall|mv: Move| #[trigger] is_pseudo_legal(st, cis, mv) implies list@.contains(
                mv,
            ) by {
                if spec_move_type(mv.0) == CASTLING {
                    let rr = cr_of_castle(mv, us);
                    assert(rr == r0 || rr == r1);
                }
            }
        }
        list
    }
}


/// Copies a vector of plain values.
fn copy_vec<T: Copy>(v: &Vec<T>) -> (r: Vec<T>)
    ensures
        r@ == v@,
{
    let mut r: Vec<T> = Vec::new();
    let mut i: usize = 0;
    while i < v.len()
        invariant
            i <= v@.len(),
            r@ == v@.take(i as int),
        decreases v@.len() - i,
    {
        r.push(v[i]);
        proof {
            assert(r@ =~= v@.take(i + 1));
        }
        i = i + 1;
    }
    proof {
        assert(r@ =~= v@);
    }
    r
}

impl Position {
    /// A private copy of this position with a fresh undo stack, for a
    /// search thread to own.
    pub fn duplicate(&self) -> (r: Position)
        requires
            self.wf(),
        ensures
            r@ == self@,
            r.uhist().len() == 0,
            r.cig_view() == self.cig_view(),
            r.wf(),
    {
        let r = Position {
            piece_bb: copy_vec(&self.piece_bb),
            color_bb: copy_vec(&self.color_bb),
            board: copy_vec(&self.board),
            ctm: self.ctm,
            ep: self.ep,
            mr50: self.mr50,
            cr: self.cr,
            fullmove: self.fullmove,
            hash: self.hash,
            piece_eval: self.piece_eval,
            undo: Vec::new(),
            cig: Ghost(self.cig@),
        };
        proof {
            assert(r@ =~= self@);
        }
        r
    }
}

impl CastleInfo {
    /// A copy of this castling metadata.
    pub fn duplicate(&self) -> (r: CastleInfo)
        ensures
            r@ == self@,
    {
        let r = CastleInfo {
            castle_rights: copy_vec(&self.castle_rights),
            castle_path: copy_vec(&self.castle_path),
            castle_rooks: copy_vec(&self.castle_rooks),
            castle_kings: copy_vec(&self.castle_kings),
            frc: self.frc,
        };
        proof {
            assert(r@ =~= self@);
        }
        r
    }
}

/// The make/unmake round trip: the snapshot a successful `make_move`
/// pushes takes the resulting position back to the starting one, field by
/// field, so applying and then undoing any pseudo-legal move restores the
/// bitboards, piece array, hash, evaluation and every scalar exactly.
pub proof fn lemma_make_unmake_round_trip(st: PosSt, ci: CiSt, mv: Move, u: Undo)
    requires
        wf_st(st, ci),
        is_pseudo_legal(st, ci, mv),
        u.mv == mv,
        u.moving == st.board[spec_from(mv.0)],
        u.captured == (if spec_move_type(mv.0) != CASTLING {
            st.board[spec_capture_to(mv.0)]
        } else {
            0u8
        }),
        spec_move_type(mv.0) != CASTLING ==> u.captured != spec_make_piece(other(st.ctm), 6),
        u.ep == st.ep,
        u.mr50 == st.mr50,
        u.cr == st.cr,
        u.fullmove == st.fullmove,
        u.hash == st.hash,
        u.prev@ == st,
        wf_base(apply_move(st, ci, mv)),
    ensures
        restore_st(apply_move(st, ci, mv), u) == st,
{
    lemma_make_undoable(st, ci, mv, apply_move(st, ci, mv), u);
}

/// The incrementally maintained hash and evaluation of any well-formed
/// position equal the values recomputed from scratch from its board.
pub proof fn lemma_incremental_matches_scratch(st: PosSt, ci: CiSt)
    requires
        wf_st(st, ci),
    ensures
        st.hash == zob_all(st.board, st.ctm, st.cr, st.ep as int),
        st.eval == eval_sum(st.board, 64),
{
}


/// The empty-board piece-key fold is zero.
proof fn lemma_zob_empty(b: Seq<u8>, n: int)
    requires
        forall|i: int| 0 <= i < n ==> b[i] == 0,
    ensures
        zob_pieces(b, n) == 0,
    decreases n,
{
    if n > 0 {
        lemma_zob_empty(b, n - 1);
        lemma_xor_basics(0);
    }
}

/// The empty-board material sum is zero.
proof fn lemma_eval_empty(b: Seq<u8>, n: int)
    requires
        forall|i: int| 0 <= i < n ==> b[i] == 0,
    ensures
        eval_sum(b, n) == 0,
    decreases n,
{
    if n > 0 {
        lemma_eval_empty(b, n - 1);
    }
}

/// Whether `u` lies on the same rank between `a` and `b` inclusively.
fn between_exec(a: Square, b: Square, u: Square) -> (r: bool)
    requires
        a < 64,
        b < 64,
        u < 64,
    ensures
        r == between_same_rank(a as int, b as int, u as int),
{
    let ra = crate::types::rank_of(a);
    let rb = crate::types::rank_of(b);
    let ru = crate::types::rank_of(u);
    let fa = crate::types::file_of(a);
    let fb = crate::types::file_of(b);
    let fu = crate::types::file_of(u);
    ru == ra && ra == rb && ((fa <= fu && fu <= fb) || (fb <= fu && fu <= fa))
}

impl Position {
    /// An empty board with everything zeroed; satisfies the base
    /// invariants but has no kings yet.
    fn blank() -> (r: Position)
        ensures
            wf_base(r@),
            r@.ctm == 0 && r@.ep == 0 && r@.mr50 == 0 && r@.cr == 0 && r@.fullmove == 1,
            r@.hash == 0,
            forall|s: int| 0 <= s < 64 ==> #[trigger] r@.board[s] == 0,
            r.uhist().len() == 0,
    {
        let mut board: Vec<u8> = Vec::new();
        let mut i: usize = 0;
        while i < 64
            invariant
                i <= 64,
                board@.len() == i,
                forall|s: int| 0 <= s < i ==> #[trigger] board@[s] == 0,
            decreases 64 - i,
        {
            board.push(0);
            i = i + 1;
        }
        let mut pbb: Vec<u64> = Vec::new();
        let mut j: usize = 0;
        while j < 7
            invariant
                j <= 7,
                pbb@.len() == j,
                forall|s: int| 0 <= s < j ==> #[trigger] pbb@[s] == 0,
            decreases 7 - j,
        {
            pbb.push(0);
            j = j + 1;
        }
        let mut cbb: Vec<u64> = Vec::new();
        cbb.push(0);
        cbb.push(0);
        let r = Position {
            piece_bb: pbb,
            color_bb: cbb,
            board,
            ctm: 0,
            ep: 0,
            mr50: 0,
            cr: 0,
            fullmove: 1,
            hash: 0,
            piece_eval: 0,
            undo: Vec::new(),
            cig: Ghost(
                CiSt {
                    rights: Seq::empty(),
                    path: Seq::empty(),
                    rooks: Seq::empty(),
                    kings: Seq::empty(),
                    frc: false,
                },
            ),
        };
        proof {
            lemma_zob_empty(r@.board, 64);
            lemma_eval_empty(r@.board, 64);
            lemma_xor_basics(0);
            assert forall|pti: int, si: int|
                1 <= pti <= 6 && 0 <= si < 64 implies (#[trigger] bit64(r@.pbb[pti], si) <==> (
            r@.board[si] != 0 && spec_piecetype_of(r@.board[si]) == pti)) by {
                crate::bitboard::lemma_nth_zero(si as u64);
            }
            assert forall|si: int| 0 <= si < 64 implies (#[trigger] bit64(r@.pbb[0], si) <==> r@
                .board[si] != 0) by {
                crate::bitboard::lemma_nth_zero(si as u64);
            }
            assert forall|ci: int, si: int|
                0 <= ci <= 1 && 0 <= si < 64 implies (#[trigger] bit64(r@.cbb[ci], si) <==> (
            r@.board[si] != 0 && spec_color_of(r@.board[si]) == ci)) by {
                crate::bitboard::lemma_nth_zero(si as u64);
            }
        }
        r
    }

    /// Parses a board description: piece placement, side to move, castling
    /// availability (standard letters), en-passant target, and optional
    /// halfmove and fullmove counters. Returns `None` for any string that
    /// does not describe a playable position with one king a side.
    #[verifier::spinoff_prover]
    #[verifier::rlimit(100)]
    pub fn parse_fen(fen: &str) -> (r: Option<(Position, CastleInfo)>)
        ensures
            r is Some <==> parse_fen_spec(fen@) is Some,
            r is Some ==> ({
                let f = parse_fen_spec(fen@)->Some_0;
                let (p, ci) = r->Some_0;
                &&& p@.board == f.board
                &&& p@.ctm == f.ctm
                &&& p@.cr == f.cr
                &&& p@.ep == f.ep
                &&& p@.mr50 == f.mr50
                &&& p@.fullmove == f.fullmove
                &&& p.wf()
                &&& ci@ == p.cig_view()
                &&& p.uhist().len() == 0
                &&& p@.fullmove >= 1 && p@.fullmove <= 10000
            }),
    {
        let ghost cs = fen@;
        let n = fen.unicode_len();
        let mut pos = Position::blank();
        proof {
            assert(pos@.board =~= empty_board());
        }
        let mut i: usize = 0;
        // Piece placement, eight ranks from the top, each of eight files.
        let mut rank: usize = 7;
        let mut file: usize = 0;
        let mut wk: u32 = 64;
        let mut bk: u32 = 64;
        let mut done = false;
        while !done
            invariant
                wf_base(pos@),
                pos@.ctm == 0 && pos@.ep == 0 && pos@.mr50 == 0 && pos@.cr == 0,
                pos@.fullmove == 1,
                pos.uhist().len() == 0,
                i <= n,
                n == fen@.len(),
                rank <= 7,
                file <= 8,
                wk <= 64,
                bk <= 64,
                forall|s: int|
                    0 <= s < 64 && (rank_of_int(s) < rank || (rank_of_int(s) == rank
                        && file_of_int(s) >= file)) ==> #[trigger] pos@.board[s] == 0,
                wk < 64 ==> pos@.board[wk as int] == spec_make_piece(0, 6),
                wk == 64 ==> (forall|s: int|
                    0 <= s < 64 ==> #[trigger] pos@.board[s] != spec_make_piece(0, 6)),
                wk < 64 ==> (forall|s: int|
                    0 <= s < 64 && s != wk ==> #[trigger] pos@.board[s] != spec_make_piece(0, 6)),
                bk < 64 ==> pos@.board[bk as int] == spec_make_piece(1, 6),
                bk == 64 ==> (forall|s: int|
                    0 <= s < 64 ==> #[trigger] pos@.board[s] != spec_make_piece(1, 6)),
                bk < 64 ==> (forall|s: int|
                    0 <= s < 64 && s != bk ==> #[trigger] pos@.board[s] != spec_make_piece(1, 6)),
                cs == fen@,
                !done ==> scan_placement(cs, 0, 7, 0, empty_board(), 64, 64) == scan_placement(
                    cs,
                    i as int,
                    rank as int,
                    file as int,
                    pos@.board,
                    wk as int,
                    bk as int,
                ),
                done ==> scan_placement(cs, 0, 7, 0, empty_board(), 64, 64) == Some(
                    (i as int, pos@.board, wk as int, bk as int),
                ),
            decreases n - i + 1 + (if done { 0int } else { 1int }),
        {
            if i >= n {
                proof {
                    assert(parse_fen_spec(cs) is None);
                }
                return None;
            }
            let c = fen.get_char(i);
            if c == ' ' {
                if !(rank == 0 && file == 8) {
                    proof {
                        assert(parse_fen_spec(cs) is None);
                    }
                    return None;
                }
                i = i + 1;
                done = true;
            } else if c == '/' {
                if !(file == 8 && rank > 0) {
                    proof {
                        assert(parse_fen_spec(cs) is None);
                    }
                    return None;
                }
                rank = rank - 1;
                file = 0;
                i = i + 1;
            } else if '1' <= c && c <= '8' {
                let k = (c as u8 - 48) as usize;
                if file + k > 8 {
                    proof {
                        assert(parse_fen_spec(cs) is None);
                    }
                    return None;
                }
                file = file + k;
                i = i + 1;
            } else {
                match crate::types::char_to_piece(c) {
                    Some(pc) => {
                        if file >= 8 {
                            proof {
                                assert(parse_fen_spec(cs) is None);
                            }
                            return None;
                        }
                        let sq = crate::types::to_square(rank, file);
                        if crate::types::piecetype_of(pc) == 6 {
                            if crate::types::color_of(pc) == 0 {
                                if wk < 64 {
                                    proof {
                                        assert(parse_fen_spec(cs) is None);
                                    }
                                    return None;
                                }
                                wk = sq;
                            } else {
                                if bk < 64 {
                                    proof {
                                        assert(parse_fen_spec(cs) is None);
                                    }
                                    return None;
                                }
                                bk = sq;
                            }
                        }
                        proof {
                            assert(pos@.board[sq as int] == 0);
                            assert(is_piece(pc));
                            lemma_king_piece_facts(0, 1);
                            lemma_king_piece_facts(1, 0);
                            if spec_piecetype_of(pc) == 6 {
                                assert(pc == 6 || pc == 14);
                            } else {
                                assert(pc != spec_make_piece(0, 6) && pc != spec_make_piece(
                                    1,
                                    6,
                                ));
                            }
                        }
                        pos.put_piece(pc, sq);
                        file = file + 1;
                        i = i + 1;
                    },
                    None => {
                        proof {
                            assert(parse_fen_spec(cs) is None);
                        }
                        return None;
                    },
                }
            }
        }
        let ghost b0 = pos@.board;
        let ghost ph = scan_placement(cs, 0, 7, 0, empty_board(), 64, 64);
        proof {
            assert(ph == Some((i as int, b0, wk as int, bk as int)));
        }
        if wk == 64 || bk == 64 {
            proof {
                assert(parse_fen_spec(cs) is None);
            }
            return None;
        }
        proof {
            assert(pos@.board[wk as int] == spec_make_piece(0, 6));
            assert(pos@.board[bk as int] == spec_make_piece(1, 6));
            assert(has_king(pos@, 0) && has_king(pos@, 1));
            assert(wf_kings(pos@)) by {
                assert forall|s1: int, s2: int|
                    sq_ok(s1) && sq_ok(s2) && #[trigger] pos@.board[s1] == #[trigger] pos@
                        .board[s2] && spec_piecetype_of(pos@.board[s1]) == 6 && pos@.board[s1]
                        != 0 implies s1 == s2 by {
                    let q = pos@.board[s1];
                    assert(is_piece(q));
                    assert(q == spec_make_piece(0, 6) || q == spec_make_piece(1, 6)) by {
                        assert(q % 8 == 6);
                    }
                    if q == spec_make_piece(0, 6) {
                        assert(s1 == wk && s2 == wk);
                    } else {
                        assert(s1 == bk && s2 == bk);
                    }
                }
            }
        }
        // Side to move.
        let ghost i0s = i as int;
        if i >= n {
            proof {
                assert(parse_side(cs, i0s) is None);
                assert(parse_fen_spec(cs) is None);
            }
            return None;
        }
        let cch = fen.get_char(i);
        let ctm: u8 = if cch == 'w' {
            0
        } else if cch == 'b' {
            1
        } else {
            proof {
                assert(parse_side(cs, i0s) is None);
                assert(parse_fen_spec(cs) is None);
            }
            return None;
        };
        i = i + 1;
        if i >= n {
            proof {
                assert(parse_side(cs, i0s) is None);
                assert(parse_fen_spec(cs) is None);
            }
            return None;
        }
        if fen.get_char(i) != ' ' {
            proof {
                assert(parse_side(cs, i0s) is None);
                assert(parse_fen_spec(cs) is None);
            }
            return None;
        }
        i = i + 1;
        proof {
            assert(parse_side(cs, i0s) == Some((ctm, i as int)));
        }
        // Castling availability: standard letters or '-'.
        let mut ci = CastleInfo {
            castle_rights: Vec::new(),
            castle_path: Vec::new(),
            castle_rooks: Vec::new(),
            castle_kings: Vec::new(),
            frc: false,
        };
        let mut t: usize = 0;
        while t < 64
            invariant
                t <= 64,
                ci.castle_rights@.len() == t,
                ci.castle_path@.len() == 0,
                ci.castle_rooks@.len() == 0,
                ci.castle_kings@.len() == 0,
                forall|s: int| 0 <= s < t ==> #[trigger] ci.castle_rights@[s] == 15,
            decreases 64 - t,
        {
            ci.castle_rights.push(15);
            t = t + 1;
        }
        let mut t2: usize = 0;
        while t2 < 9
            invariant
                t2 <= 9,
                ci.castle_rights@.len() == 64,
                forall|s: int| 0 <= s < 64 ==> #[trigger] ci.castle_rights@[s] == 15,
                ci.castle_path@.len() == t2,
                ci.castle_rooks@.len() == t2,
                ci.castle_kings@.len() == t2,
            decreases 9 - t2,
        {
            ci.castle_path.push(0);
            ci.castle_rooks.push(0);
            ci.castle_kings.push(0);
            t2 = t2 + 1;
        }
        let mut cr: u8 = 0;
        proof {
            assert forall|r: u8, sq: int|
                is_right(r) && (0u8 & r) == 0 && 0 <= sq < 64 implies #[trigger] (ci@.rights[sq]
                & r) != 0 by {
                assert(ci@.rights[sq] == 15);
                assert(15u8 & 1 != 0 && 15u8 & 2 != 0 && 15u8 & 4 != 0 && 15u8 & 8 != 0)
                    by (bit_vector);
            }
            assert(0u8 & 1 == 0 && 0u8 & 2 == 0 && 0u8 & 4 == 0 && 0u8 & 8 == 0) by (bit_vector);
            assert(castle_inv(pos@, ci@, 0));
        }
        let ghost i1s = i as int;
        if i >= n {
            proof {
                assert(castles_seg(cs, i1s, b0) is None);
                assert(parse_fen_spec(cs) is None);
            }
            return None;
        }
        if fen.get_char(i) == '-' {
            i = i + 1;
        } else {
            let mut guard: usize = 0;
            while i < n && fen.get_char(i) != ' ' && guard < 4
                invariant
                    n == fen@.len(),
                    cs == fen@,
                    i <= n,
                    guard <= 4,
                    i1s <= i as int,
                    b0 == pos@.board,
                    cs[i1s] != '-',
                    0 <= i1s < cs.len(),
                    wk < 64,
                    bk < 64,
                    scan_placement(cs, 0, 7, 0, empty_board(), 64, 64) == Some(
                        (i0s, b0, wk as int, bk as int),
                    ),
                    parse_side(cs, i0s) == Some((ctm, i1s)),
                    scan_castles(cs, i1s, b0, 0, 0) == scan_castles(
                        cs,
                        i as int,
                        b0,
                        cr,
                        guard as int,
                    ),
                    wf_base(pos@),
                    wf_kings(pos@),
                    pos@.ctm == 0 && pos@.ep == 0 && pos@.mr50 == 0 && pos@.cr == 0,
                    pos@.fullmove == 1,
                    pos.uhist().len() == 0,
                    ctm <= 1,
                    cr <= 15,
                    ci@.rights.len() == 64,
                    ci@.path.len() == 9,
                    ci@.rooks.len() == 9,
                    ci@.kings.len() == 9,
                    castle_inv(pos@, ci@, cr),
                decreases n - i + 4 - guard,
            {
                let c = fen.get_char(i);
                let ok: bool;
                if c == 'K' || c == 'Q' || c == 'k' || c == 'q' {
                    let color: u8 = if c == 'K' || c == 'Q' {
                        0
                    } else {
                        1
                    };
                    let kingside = c == 'K' || c == 'k';
                    ok = init_castle(&pos, &mut ci, &mut cr, color, kingside);
                    proof {
                        if !ok {
                            assert(!castle_letter_ok(b0, color, kingside, cr));
                            assert(scan_castles(cs, i as int, b0, cr, guard as int) is None);
                        }
                    }
                } else if ('A' <= c && c <= 'H') || ('a' <= c && c <= 'h') {
                    let color: u8 = if c <= 'H' {
                        0
                    } else {
                        1
                    };
                    let file: usize = if color == 0 {
                        (c as u8 - 65) as usize
                    } else {
                        (c as u8 - 97) as usize
                    };
                    ok = init_castle_at(&pos, &mut ci, &mut cr, color, file);
                    if ok {
                        ci.frc = true;
                    }
                    proof {
                        if !ok {
                            assert(!shredder_letter_ok(b0, color, file as int, cr));
                            assert(scan_castles(cs, i as int, b0, cr, guard as int) is None);
                        }
                    }
                } else {
                    proof {
                        assert(scan_castles(cs, i as int, b0, cr, guard as int) is None);
                        assert(scan_castles(cs, i1s, b0, 0, 0) is None);
                        assert(castles_seg(cs, i1s, b0) is None);
                        assert(parse_fen_spec(cs) is None);
                    }
                    return None;
                }
                if !ok {
                    proof {
                        assert(scan_castles(cs, i1s, b0, 0, 0) is None);
                        assert(castles_seg(cs, i1s, b0) is None);
                        assert(parse_fen_spec(cs) is None);
                    }
                    return None;
                }
                i = i + 1;
                guard = guard + 1;
            }
            proof {
                assert(scan_castles(cs, i1s, b0, 0, 0) == Some((cr, i as int)));
            }
            if cr == 0 {
                proof {
                    assert(castles_seg(cs, i1s, b0) is None);
                    assert(parse_fen_spec(cs) is None);
                }
                return None;
            }
        }
        if i >= n {
            proof {
                assert(castles_seg(cs, i1s, b0) is None);
                assert(parse_fen_spec(cs) is None);
            }
            return None;
        }
        if fen.get_char(i) != ' ' {
            proof {
                assert(castles_seg(cs, i1s, b0) is None);
                assert(parse_fen_spec(cs) is None);
            }
            return None;
        }
        i = i + 1;
        proof {
            assert(castles_seg(cs, i1s, b0) == Some((cr, i as int)));
        }
        // En-passant target square or '-'.
        let ghost i2s = i as int;
        let mut ep: u32 = 0;
        if i >= n {
            proof {
                assert(parse_ep(cs, i2s, b0, ctm) is None);
                assert(parse_fen_spec(cs) is None);
            }
            return None;
        }
        if fen.get_char(i) == '-' {
            i = i + 1;
        } else {
            if i + 1 >= n {
                proof {
                    assert(parse_ep(cs, i2s, b0, ctm) is None);
                    assert(parse_fen_spec(cs) is None);
                }
                return None;
            }
            let fc = fen.get_char(i);
            let rc = fen.get_char(i + 1);
            let f = match crate::types::char_to_file(fc) {
                Some(f) => f,
                None => {
                    proof {
                        assert(parse_ep(cs, i2s, b0, ctm) is None);
                        assert(parse_fen_spec(cs) is None);
                    }
                    return None;
                },
            };
            let k = match crate::types::char_to_rank(rc) {
                Some(k) => k,
                None => {
                    proof {
                        assert(parse_ep(cs, i2s, b0, ctm) is None);
                        assert(parse_fen_spec(cs) is None);
                    }
                    return None;
                },
            };
            let sq = crate::types::to_square(k, f);
            // The target square must be consistent with a double push that
            // the side to move could answer.
            if ctm == 1 && k != 2 {
                proof {
                    assert(parse_ep(cs, i2s, b0, ctm) is None);
                    assert(parse_fen_spec(cs) is None);
                }
                return None;
            }
            if ctm == 0 && k != 5 {
                proof {
                    assert(parse_ep(cs, i2s, b0, ctm) is None);
                    assert(parse_fen_spec(cs) is None);
                }
                return None;
            }
            if pos.board[sq as usize] != 0 {
                proof {
                    assert(parse_ep(cs, i2s, b0, ctm) is None);
                    assert(parse_fen_spec(cs) is None);
                }
                return None;
            }
            let capt = crate::types::ep_captured_sq(sq);
            if pos.board[capt as usize] != crate::types::make_piece(
                crate::types::swap_color(ctm),
                1,
            ) {
                proof {
                    assert(parse_ep(cs, i2s, b0, ctm) is None);
                    assert(parse_fen_spec(cs) is None);
                }
                return None;
            }
            if sq == 0 {
                proof {
                    assert(parse_ep(cs, i2s, b0, ctm) is None);
                    assert(parse_fen_spec(cs) is None);
                }
                return None;
            }
            ep = sq;
            i = i + 2;
        }
        proof {
            assert(parse_ep(cs, i2s, b0, ctm) == Some((ep, i as int)));
        }
        // Optional halfmove clock and fullmove number.
        let ghost i3s = i as int;
        let mut mr50: u8 = 0;
        let mut fullmove: u16 = 1;
        if i < n && fen.get_char(i) == ' ' {
            i = i + 1;
        }
        if i < n {
            let (v, ni) = parse_number(fen, i, n);
            if v > 255 {
                proof {
                    assert(parse_counters(cs, i3s) is None);
                    assert(parse_fen_spec(cs) is None);
                }
                return None;
            }
            mr50 = v as u8;
            i = ni;
            if i < n && fen.get_char(i) == ' ' {
                i = i + 1;
                if i < n {
                    let (v2, ni2) = parse_number(fen, i, n);
                    if v2 < 1 || v2 > 10000 {
                        proof {
                            assert(parse_counters(cs, i3s) is None);
                            assert(parse_fen_spec(cs) is None);
                        }
                        return None;
                    }
                    fullmove = v2 as u16;
                    i = ni2;
                }
            }
        }
        proof {
            assert(parse_counters(cs, i3s) == Some((mr50, fullmove)));
        }
        // Scalar fields, each folded into the hash.
        let ghost stp = pos@;
        if ctm == 1 {
            pos.ctm = 1;
            pos.hash = pos.hash ^ crate::zobrist::stream_key(1040);
        }
        pos.cr = cr;
        pos.hash = pos.hash ^ crate::zobrist::castle_key_exec(cr);
        pos.ep = ep;
        pos.hash = pos.hash ^ crate::zobrist::ep_key_exec(ep);
        pos.mr50 = mr50;
        pos.fullmove = fullmove;
        pos.cig = Ghost(ci@);
        proof {
            lemma_xor_basics(zob_pieces(pos@.board, 64));
            lemma_xor_basics(zob_pieces(pos@.board, 64) ^ ctm_key(pos@.ctm));
            lemma_xor_basics(
                zob_pieces(pos@.board, 64) ^ ctm_key(pos@.ctm) ^ castle_key(pos@.cr),
            );
            assert(wf_hash(pos@));
            assert(pos@.board == stp.board);
            assert(castle_inv(stp, ci@, cr));
            assert forall|r: u8| is_right(r) && #[trigger] (pos@.cr & r) != 0 implies {
                let c = right_color(r);
                let rsq = ci@.rooks[r as int] as int;
                let ksq = ci@.kings[r as int] as int;
                &&& sq_ok(rsq) && sq_ok(ksq) && rsq != ksq
                &&& pos@.board[rsq] == spec_make_piece(c, 4)
                &&& pos@.board[ksq] == spec_make_piece(c, 6)
                &&& rank_of_int(rsq) == if c == 0 {
                    0int
                } else {
                    7int
                }
                &&& rank_of_int(ksq) == rank_of_int(rsq)
                &&& ((r == 1 || r == 4) ==> file_of_int(rsq) > file_of_int(ksq))
                &&& ((r == 2 || r == 8) ==> file_of_int(rsq) < file_of_int(ksq))
                &&& forall|sq: int|
                    0 <= sq < 64 ==> ((#[trigger] ci@.rights[sq] & r) == 0 <==> (sq == rsq || sq
                        == ksq))
                &&& forall|u: int|
                    (between_same_rank(ksq, spec_k_target(r), u) || between_same_rank(
                        rsq,
                        spec_r_target(r),
                        u,
                    )) ==> #[trigger] bit64(ci@.path[r as int], u)
            } by {
                assert(cr & r != 0);
            }
            assert(wf_castle(pos@, ci@));
            assert(wf_ep(pos@));
            assert(parse_fen_spec(cs) == Some(
                FenSt { board: b0, ctm, cr, ep, mr50, fullmove },
            ));
            assert(pos@.board == b0);
        }
        Some((pos, ci))
    }
}

/// The fields a board-description string denotes.
#[verifier::ext_equal]
pub ghost struct FenSt {
    pub board: Seq<u8>,
    pub ctm: u8,
    pub cr: u8,
    pub ep: u32,
    pub mr50: u8,
    pub fullmove: u16,
}

pub open spec fn empty_board() -> Seq<u8> {
    Seq::new(64, |i: int| 0u8)
}

/// The placement scan: ranks from the top, each of exactly eight files,
/// ended by a space; pieces go on the board, kings are tracked and must
/// not repeat.
pub open spec fn scan_placement(
    cs: Seq<char>,
    i: int,
    rank: int,
    file: int,
    b: Seq<u8>,
    wk: int,
    bk: int,
) -> Option<(int, Seq<u8>, int, int)>
    decreases cs.len() - i,
{
    if i < 0 || i >= cs.len() {
        None
    } else {
        let c = cs[i];
        if c == ' ' {
            if rank == 0 && file == 8 {
                Some((i + 1, b, wk, bk))
            } else {
                None
            }
        } else if c == '/' {
            if file == 8 && rank > 0 {
                scan_placement(cs, i + 1, rank - 1, 0, b, wk, bk)
            } else {
                None
            }
        } else if '1' <= c && c <= '8' {
            let k = c as int - 48;
            if file + k > 8 {
                None
            } else {
                scan_placement(cs, i + 1, rank, file + k, b, wk, bk)
            }
        } else {
            match crate::types::spec_char_to_piece(c) {
                Some(pc) => {
                    if file >= 8 {
                        None
                    } else {
                        let sq = 8 * rank + file;
                        if spec_piecetype_of(pc) == 6 {
                            if spec_color_of(pc) == 0 {
                                if wk < 64 {
                                    None
                                } else {
                                    scan_placement(cs, i + 1, rank, file + 1, b.update(sq, pc), sq, bk)
                                }
                            } else {
                                if bk < 64 {
                                    None
                                } else {
                                    scan_placement(cs, i + 1, rank, file + 1, b.update(sq, pc), wk, sq)
                                }
                            }
                        } else {
                            scan_placement(cs, i + 1, rank, file + 1, b.update(sq, pc), wk, bk)
                        }
                    }
                },
                None => None,
            }
        }
    }
}

/// The side-to-move token followed by a space.
pub open spec fn parse_side(cs: Seq<char>, i: int) -> Option<(u8, int)> {
    if i < 0 || i >= cs.len() {
        None
    } else {
        let c = cs[i];
        if c != 'w' && c != 'b' {
            None
        } else if i + 1 >= cs.len() {
            None
        } else if cs[i + 1] != ' ' {
            None
        } else {
            Some((if c == 'w' { 0u8 } else { 1u8 }, i + 2))
        }
    }
}

/// The square of color `c`'s king on a board with one such king.
pub open spec fn king_sq_of(b: Seq<u8>, c: u8) -> int {
    choose|k: int| 0 <= k < 64 && #[trigger] b[k] == spec_make_piece(c, 6)
}

/// The right a castling letter grants.
pub open spec fn castle_bit(color: u8, kingside: bool) -> u8 {
    if color == 0 {
        if kingside {
            1
        } else {
            2
        }
    } else {
        if kingside {
            4
        } else {
            8
        }
    }
}

/// A rook of `color` stands on its back rank on file `f`.
pub open spec fn rook_at(b: Seq<u8>, color: u8, f: int) -> bool {
    b[8 * (if color == 0 {
        0int
    } else {
        7int
    }) + f] == spec_make_piece(color, 4)
}

/// A rook of `color` stands on the back rank on the given side of its king.
pub open spec fn rook_on_side(b: Seq<u8>, color: u8, kingside: bool) -> bool {
    exists|f: int|
        0 <= f < 8 && #[trigger] rook_at(b, color, f) && (if kingside {
            f > file_of_int(king_sq_of(b, color))
        } else {
            f < file_of_int(king_sq_of(b, color))
        })
}

/// A castling letter is valid: the right is fresh, the king is home, and
/// a rook stands on its side of the king.
pub open spec fn castle_letter_ok(b: Seq<u8>, color: u8, kingside: bool, cr: u8) -> bool {
    &&& cr & castle_bit(color, kingside) == 0
    &&& rank_of_int(king_sq_of(b, color)) == (if color == 0 {
        0int
    } else {
        7int
    })
    &&& rook_on_side(b, color, kingside)
}

/// A shuffled-start castling letter names the rook's file directly; it is
/// valid when the king is home, the named square holds the rook, and the
/// right on that side of the king is fresh.
pub open spec fn shredder_letter_ok(b: Seq<u8>, color: u8, f: int, cr: u8) -> bool {
    let ksq = king_sq_of(b, color);
    &&& rank_of_int(ksq) == (if color == 0 {
        0int
    } else {
        7int
    })
    &&& f != file_of_int(ksq)
    &&& rook_at(b, color, f)
    &&& cr & castle_bit(color, f > file_of_int(ksq)) == 0
}

/// The castling letters, at most four, each granting one fresh right:
/// K/Q/k/q name the outermost rook, file letters name it directly.
pub open spec fn scan_castles(cs: Seq<char>, i: int, b: Seq<u8>, cr: u8, guard: int) -> Option<
    (u8, int),
>
    decreases cs.len() - i,
{
    if i < 0 || i >= cs.len() || cs[i] == ' ' || guard >= 4 {
        Some((cr, i))
    } else {
        let c = cs[i];
        if c == 'K' || c == 'Q' || c == 'k' || c == 'q' {
            let color: u8 = if c == 'K' || c == 'Q' {
                0
            } else {
                1
            };
            let kingside = c == 'K' || c == 'k';
            if castle_letter_ok(b, color, kingside, cr) {
                scan_castles(cs, i + 1, b, (cr | castle_bit(color, kingside)) as u8, guard + 1)
            } else {
                None
            }
        } else if ('A' <= c && c <= 'H') || ('a' <= c && c <= 'h') {
            let color: u8 = if c <= 'H' {
                0
            } else {
                1
            };
            let f = if color == 0 {
                c as int - 65
            } else {
                c as int - 97
            };
            if shredder_letter_ok(b, color, f, cr) {
                scan_castles(
                    cs,
                    i + 1,
                    b,
                    (cr | castle_bit(color, f > file_of_int(king_sq_of(b, color)))) as u8,
                    guard + 1,
                )
            } else {
                None
            }
        } else {
            None
        }
    }
}

/// A mandatory space after a field.
pub open spec fn space_after(cs: Seq<char>, cr: u8, i: int) -> Option<(u8, int)> {
    if i >= cs.len() {
        None
    } else if cs[i] != ' ' {
        None
    } else {
        Some((cr, i + 1))
    }
}

/// The castling-availability field: '-' or one to four letters, followed
/// by a space.
pub open spec fn castles_seg(cs: Seq<char>, i: int, b: Seq<u8>) -> Option<(u8, int)> {
    if i < 0 || i >= cs.len() {
        None
    } else if cs[i] == '-' {
        space_after(cs, 0u8, i + 1)
    } else {
        match scan_castles(cs, i, b, 0, 0) {
            None => None,
            Some((cr, j)) => if cr == 0 {
                None
            } else {
                space_after(cs, cr, j)
            },
        }
    }
}

/// The en-passant field: '-' or a square behind an enemy double push.
pub open spec fn parse_ep(cs: Seq<char>, i: int, b: Seq<u8>, ctm: u8) -> Option<(u32, int)> {
    if i < 0 || i >= cs.len() {
        None
    } else if cs[i] == '-' {
        Some((0u32, i + 1))
    } else if i + 1 >= cs.len() {
        None
    } else {
        let fc = cs[i];
        let rc = cs[i + 1];
        if !('a' <= fc && fc <= 'h') || !('1' <= rc && rc <= '8') {
            None
        } else {
            let f = fc as int - 97;
            let k = rc as int - 49;
            let sq = 8 * k + f;
            if ctm == 1 && k != 2 {
                None
            } else if ctm == 0 && k != 5 {
                None
            } else if b[sq] != 0 {
                None
            } else if b[spec_ep_captured_sq(sq)] != spec_make_piece(other(ctm), 1) {
                None
            } else if sq == 0 {
                None
            } else {
                Some((sq as u32, i + 2))
            }
        }
    }
}

/// A decimal number read until the first non-digit, capped at 65535.
pub open spec fn spec_number(cs: Seq<char>, i: int, v: int) -> (int, int)
    decreases cs.len() - i,
{
    if i < 0 || i >= cs.len() || !('0' <= cs[i] && cs[i] <= '9') {
        (v, i)
    } else {
        let d = cs[i] as int - 48;
        let v2 = if v >= 6000 {
            65535int
        } else {
            v * 10 + d
        };
        spec_number(cs, i + 1, v2)
    }
}

/// The optional halfmove clock and fullmove number.
pub open spec fn parse_counters(cs: Seq<char>, i: int) -> Option<(u8, u16)> {
    let i1 = if 0 <= i < cs.len() && cs[i] == ' ' {
        i + 1
    } else {
        i
    };
    if i1 >= cs.len() {
        Some((0u8, 1u16))
    } else {
        let (v, j) = spec_number(cs, i1, 0);
        if v > 255 {
            None
        } else {
            if j < cs.len() && cs[j] == ' ' && j + 1 < cs.len() {
                let (v2, j2) = spec_number(cs, j + 1, 0);
                if v2 < 1 || v2 > 10000 {
                    None
                } else {
                    Some((v as u8, v2 as u16))
                }
            } else {
                Some((v as u8, 1u16))
            }
        }
    }
}

/// What a board-description string denotes: the piece placement with one
/// king a side, the side to move, the castling rights against that board,
/// the en-passant target and the two counters, in that order.
pub open spec fn parse_fen_spec(cs: Seq<char>) -> Option<FenSt> {
    match scan_placement(cs, 0, 7, 0, empty_board(), 64, 64) {
        None => None,
        Some((i, b, wk, bk)) => {
            if wk >= 64 || bk >= 64 {
                None
            } else {
                match parse_side(cs, i) {
                    None => None,
                    Some((ctm, i2)) => match castles_seg(cs, i2, b) {
                        None => None,
                        Some((cr, i3)) => match parse_ep(cs, i3, b, ctm) {
                            None => None,
                            Some((ep, i4)) => match parse_counters(cs, i4) {
                                None => None,
                                Some((mr50, fullmove)) => Some(
                                    FenSt { board: b, ctm, cr, ep, mr50, fullmove },
                                ),
                            },
                        },
                    },
                }
            }
        },
    }
}

/// The castling facts established for the rights gathered so far while
/// parsing, before the rights are written into the position.
pub open spec fn castle_inv(st: PosSt, ci: CiSt, cr: u8) -> bool {
    &&& (forall|r: u8, sq: int|
        is_right(r) && (cr & r) == 0 && 0 <= sq < 64 ==> #[trigger] (ci.rights[sq] & r) != 0)
    &&& forall|r: u8|
        is_right(r) && #[trigger] (cr & r) != 0 ==> {
            let c = right_color(r);
            let rsq = ci.rooks[r as int] as int;
            let ksq = ci.kings[r as int] as int;
            &&& sq_ok(rsq) && sq_ok(ksq) && rsq != ksq
            &&& st.board[rsq] == spec_make_piece(c, 4)
            &&& st.board[ksq] == spec_make_piece(c, 6)
            &&& rank_of_int(rsq) == if c == 0 {
                0int
            } else {
                7int
            }
            &&& rank_of_int(ksq) == rank_of_int(rsq)
            &&& ((r == 1 || r == 4) ==> file_of_int(rsq) > file_of_int(ksq))
            &&& ((r == 2 || r == 8) ==> file_of_int(rsq) < file_of_int(ksq))
            &&& forall|sq: int|
                0 <= sq < 64 ==> ((#[trigger] ci.rights[sq] & r) == 0 <==> (sq == rsq || sq
                    == ksq))
            &&& forall|u: int|
                (between_same_rank(ksq, spec_k_target(r), u) || between_same_rank(
                    rsq,
                    spec_r_target(r),
                    u,
                )) ==> #[trigger] bit64(ci.path[r as int], u)
        }
}

/// Reads a decimal number starting at `i`, stopping at the first
/// non-digit; returns its value capped at 65535 and the next index.
fn parse_number(fen: &str, i: usize, n: usize) -> (r: (u32, usize))
    requires
        i <= n,
        n == fen@.len(),
    ensures
        i <= r.1 <= n,
        r.0 <= 65535,
        r.0 as int == spec_number(fen@, i as int, 0).0,
        r.1 as int == spec_number(fen@, i as int, 0).1,
{
    let mut v: u32 = 0;
    let mut j = i;
    while j < n
        invariant
            i <= j <= n,
            n == fen@.len(),
            v <= 65535,
            spec_number(fen@, i as int, 0) == spec_number(fen@, j as int, v as int),
        decreases n - j,
    {
        let c = fen.get_char(j);
        if '0' <= c && c <= '9' {
            let d = (c as u8 - 48) as u32;
            if v >= 6000 {
                v = 65535;
            } else {
                v = v * 10 + d;
            }
            j = j + 1;
        } else {
            return (v, j);
        }
    }
    (v, j)
}

/// Registers one standard castling right while parsing: finds the
/// outermost rook on the back rank on the given side of the king, fills
/// the metadata of the right, and revokes it on the two home squares.
fn init_castle(pos: &Position, ci: &mut CastleInfo, cr: &mut u8, color: u8, kingside: bool) -> (ok:
    bool)
    requires
        wf_base(pos@),
        wf_kings(pos@),
        color <= 1,
        old(ci)@.rights.len() == 64,
        old(ci)@.path.len() == 9,
        old(ci)@.rooks.len() == 9,
        old(ci)@.kings.len() == 9,
        *old(cr) <= 15,
        castle_inv(pos@, old(ci)@, *old(cr)),
    ensures
        final(ci)@.rights.len() == 64,
        final(ci)@.path.len() == 9,
        final(ci)@.rooks.len() == 9,
        final(ci)@.kings.len() == 9,
        *final(cr) <= 15,
        ok ==> castle_inv(pos@, final(ci)@, *final(cr)),
        !ok ==> final(ci)@ == old(ci)@ && *final(cr) == *old(cr),
        ok <==> castle_letter_ok(pos@.board, color, kingside, *old(cr)),
        ok ==> *final(cr) == (*old(cr) | castle_bit(color, kingside)) as u8,
    {
    let r: u8 = if color == 0 {
        if kingside {
            1
        } else {
            2
        }
    } else {
        if kingside {
            4
        } else {
            8
        }
    };
    proof {
        assert(r == castle_bit(color, kingside));
    }
    if *cr & r != 0 {
        return false;
    }
    let ksq = pos.king_sq(color);
    proof {
        assert(ksq as int == king_sq_of(pos@.board, color)) by {
            let k2 = king_sq_of(pos@.board, color);
            assert(has_king(pos@, color));
            let w = choose|k: int| sq_ok(k) && #[trigger] pos@.board[k] == spec_make_piece(
                color,
                6,
            );
            assert(pos@.board[w] == spec_make_piece(color, 6));
            assert(pos@.board[k2] == spec_make_piece(color, 6));
            assert(pos@.board[ksq as int] == spec_make_piece(color, 6));
        }
    }
    let krank = crate::types::rank_of(ksq);
    let want_rank: usize = if color == 0 {
        0
    } else {
        7
    };
    if krank != want_rank {
        return false;
    }
    let kfile = crate::types::file_of(ksq);
    // The outermost rook on the required side of the king.
    let mut rsq: u32 = 64;
    let mut f: usize = 0;
    while f < 8
        invariant
            f <= 8,
            want_rank <= 7,
            color <= 1,
            wf_base(pos@),
            kfile <= 7,
            kfile == file_of_int(king_sq_of(pos@.board, color)),
            want_rank == if color == 0 {
                0int
            } else {
                7int
            },
            (rsq != 64) <==> (exists|f2: int|
                0 <= f2 < f && #[trigger] pos@.board[8 * (want_rank as int) + f2]
                    == spec_make_piece(color, 4) && (if kingside {
                    f2 > kfile
                } else {
                    f2 < kfile
                })),
            rsq == 64 || (rsq < 64 && pos@.board[rsq as int] == spec_make_piece(color, 4)
                && rank_of_int(rsq as int) == want_rank && (if kingside {
                file_of_int(rsq as int) > kfile
            } else {
                file_of_int(rsq as int) < kfile
            })),
        decreases 8 - f,
    {
        let sq = crate::types::to_square(want_rank, f);
        if pos.board[sq as usize] == crate::types::make_piece(color, 4) {
            if kingside {
                if f > kfile {
                    rsq = sq;
                }
            } else {
                if f < kfile && rsq == 64 {
                    rsq = sq;
                }
            }
        }
        f = f + 1;
    }
    proof {
        let b = pos@.board;
        let rankk = if color == 0 {
            0int
        } else {
            7int
        };
        let kf = file_of_int(king_sq_of(b, color));
        assert((rsq != 64) <==> rook_on_side(pos@.board, color, kingside)) by {
            if rsq != 64 {
                let f2 = choose|f2: int|
                    0 <= f2 < 8 && #[trigger] pos@.board[8 * (want_rank as int) + f2]
                        == spec_make_piece(color, 4) && (if kingside {
                        f2 > kfile
                    } else {
                        f2 < kfile
                    });
                assert(0 <= f2 < 8);
                assert(b[8 * rankk + f2] == spec_make_piece(color, 4));
                assert(if kingside {
                    f2 > kf
                } else {
                    f2 < kf
                });
                assert(rook_at(b, color, f2));
                assert(rook_on_side(b, color, kingside));
            }
            if rook_on_side(b, color, kingside) {
                let f2 = choose|f2: int|
                    0 <= f2 < 8 && #[trigger] rook_at(b, color, f2) && (if kingside {
                        f2 > file_of_int(king_sq_of(b, color))
                    } else {
                        f2 < file_of_int(king_sq_of(b, color))
                    });
                assert(b[8 * (want_rank as int) + f2] == spec_make_piece(color, 4));
                assert(rsq != 64);
            }
        }
    }
    if rsq == 64 {
        return false;
    }
    let rfile = crate::types::file_of(rsq);
    if rfile == kfile {
        return false;
    }
    if kingside && rfile < kfile {
        return false;
    }
    if !kingside && rfile > kfile {
        return false;
    }
    let ghost ci0 = ci@;
    let ghost cr0 = *cr;
    // Path: the king's and the rook's journeys, inclusive.
    let kt = castle_k_target(r);
    let rt = castle_r_target(r);
    let mut path: u64 = 0;
    proof {
        assert forall|j: int| !bit64(0u64, j) by {
            if 0 <= j < 64 {
                crate::bitboard::lemma_nth_zero(j as u64);
            }
        }
    }
    let mut u: u32 = 0;
    while u < 64
        invariant
            u <= 64,
            ksq < 64,
            rsq < 64,
            kt < 64,
            rt < 64,
            forall|j: int|
                #[trigger] bit64(path, j) <==> (0 <= j < u && (between_same_rank(
                    ksq as int,
                    kt as int,
                    j,
                ) || between_same_rank(rsq as int, rt as int, j))),
        decreases 64 - u,
    {
        if between_exec(ksq, kt, u) || between_exec(rsq, rt, u) {
            let nb = BitBoard(path).with(u);
            proof {
                assert forall|j: int| #[trigger] bit64(nb.0, j) <==> (bit64(path, j) || j
                    == u as int) by {
                    assert(nb.has(j) <==> (BitBoard(path).has(j) || j == u as int));
                }
            }
            path = nb.0;
        }
        u = u + 1;
    }
    let mask: u8 = !r;
    let mr = ci.castle_rights[rsq as usize] & mask;
    ci.castle_rights.set(rsq as usize, mr);
    let mk = ci.castle_rights[ksq as usize] & mask;
    ci.castle_rights.set(ksq as usize, mk);
    ci.castle_rooks.set(r as usize, rsq);
    ci.castle_kings.set(r as usize, ksq);
    ci.castle_path.set(r as usize, path);
    *cr = *cr | r;
    proof {
        lemma_castle_inv_extend(pos@, ci0, ci@, cr0, r, rsq as int, ksq as int);
    }
    true
}

/// Adding one right whose data was just written extends the parsing
/// invariant.
proof fn lemma_castle_inv_extend(
    st: PosSt,
    ci0: CiSt,
    ci1: CiSt,
    cr0: u8,
    r: u8,
    rsq: int,
    ksq: int,
)
    requires
        castle_inv(st, ci0, cr0),
        is_right(r),
        cr0 & r == 0,
        cr0 <= 15,
        ci0.rights.len() == 64,
        ci0.path.len() == 9,
        ci0.rooks.len() == 9,
        ci0.kings.len() == 9,
        sq_ok(rsq),
        sq_ok(ksq),
        rsq != ksq,
        st.board[rsq] == spec_make_piece(right_color(r), 4),
        st.board[ksq] == spec_make_piece(right_color(r), 6),
        rank_of_int(rsq) == if right_color(r) == 0 {
            0int
        } else {
            7int
        },
        rank_of_int(ksq) == rank_of_int(rsq),
        (r == 1 || r == 4) ==> file_of_int(rsq) > file_of_int(ksq),
        (r == 2 || r == 8) ==> file_of_int(rsq) < file_of_int(ksq),
        forall|u: int|
            (between_same_rank(ksq, spec_k_target(r), u) || between_same_rank(
                rsq,
                spec_r_target(r),
                u,
            )) ==> #[trigger] bit64(ci1.path[r as int], u),
        ci1.rights == ci0.rights.update(rsq, (ci0.rights[rsq] & !r) as u8).update(
            ksq,
            (ci0.rights.update(rsq, (ci0.rights[rsq] & !r) as u8)[ksq] & !r) as u8,
        ),
        ci1.rooks == ci0.rooks.update(r as int, rsq as u32),
        ci1.kings == ci0.kings.update(r as int, ksq as u32),
        forall|j: int| 0 <= j < 9 && j != r ==> #[trigger] ci1.path[j] == ci0.path[j],
        ci1.path.len() == 9,
        ci1.rights.len() == 64,
        ci1.rooks.len() == 9,
        ci1.kings.len() == 9,
    ensures
        castle_inv(st, ci1, (cr0 | r) as u8),
        (cr0 | r) <= 15,
{
    let cr1 = (cr0 | r) as u8;
    assert(cr0 | r <= 15) by (bit_vector)
        requires
            cr0 <= 15 && (r == 1 || r == 2 || r == 4 || r == 8),
    ;
    lemma_castle_inv_untouched(ci0, ci1, cr0, r, rsq, ksq);
    assert forall|r2: u8| is_right(r2) && #[trigger] (cr1 & r2) != 0 implies {
        let c = right_color(r2);
        let rsq2 = ci1.rooks[r2 as int] as int;
        let ksq2 = ci1.kings[r2 as int] as int;
        &&& sq_ok(rsq2) && sq_ok(ksq2) && rsq2 != ksq2
        &&& st.board[rsq2] == spec_make_piece(c, 4)
        &&& st.board[ksq2] == spec_make_piece(c, 6)
        &&& rank_of_int(rsq2) == if c == 0 {
            0int
        } else {
            7int
        }
        &&& rank_of_int(ksq2) == rank_of_int(rsq2)
        &&& ((r2 == 1 || r2 == 4) ==> file_of_int(rsq2) > file_of_int(ksq2))
        &&& ((r2 == 2 || r2 == 8) ==> file_of_int(rsq2) < file_of_int(ksq2))
        &&& forall|sq: int|
            0 <= sq < 64 ==> ((#[trigger] ci1.rights[sq] & r2) == 0 <==> (sq == rsq2 || sq
                == ksq2))
        &&& forall|u: int|
            (between_same_rank(ksq2, spec_k_target(r2), u) || between_same_rank(
                rsq2,
                spec_r_target(r2),
                u,
            )) ==> #[trigger] bit64(ci1.path[r2 as int], u)
    } by {
        lemma_right_bits(cr0, r, r2);
        if r2 == r {
            assert forall|sq: int|
                0 <= sq < 64 implies ((#[trigger] ci1.rights[sq] & r) == 0 <==> (sq == rsq || sq
                    == ksq)) by {
                lemma_mask_clear_bit(ci0.rights[sq], r);
                lemma_mask_clear_bit((ci0.rights[rsq] & !r) as u8, r);
                if sq == rsq || sq == ksq {
                } else {
                    assert(ci1.rights[sq] == ci0.rights[sq]);
                    assert(ci0.rights[sq] & r != 0);
                }
            }
        } else {
            assert(cr0 & r2 != 0);
            let c = right_color(r2);
            let rsq2 = ci0.rooks[r2 as int] as int;
            let ksq2 = ci0.kings[r2 as int] as int;
            assert(ci1.rooks[r2 as int] == ci0.rooks[r2 as int]);
            assert(ci1.kings[r2 as int] == ci0.kings[r2 as int]);
            assert(ci1.path[r2 as int] == ci0.path[r2 as int]);
            assert forall|sq: int|
                0 <= sq < 64 implies ((#[trigger] ci1.rights[sq] & r2) == 0 <==> (sq == rsq2 || sq
                    == ksq2)) by {
                lemma_mask_keeps_other(ci0.rights[sq], r, r2);
                assert(ci0.rights[sq] & r2 == 0 <==> (sq == rsq2 || sq == ksq2));
                if sq == rsq || sq == ksq {
                    assert(ci1.rights[sq] == (ci0.rights[sq] & !r) || ci1.rights[sq] == ((
                    ci0.rights[sq] & !r) & !r));
                    lemma_mask_keeps_other((ci0.rights[sq] & !r) as u8, r, r2);
                } else {
                    assert(ci1.rights[sq] == ci0.rights[sq]);
                }
            }
        }
    }
}

/// The untouched-rights conjunct survives adding one right.
proof fn lemma_castle_inv_untouched(ci0: CiSt, ci1: CiSt, cr0: u8, r: u8, rsq: int, ksq: int)
    requires
        ci0.rights.len() == 64,
        ci1.rights.len() == 64,
        is_right(r),
        0 <= rsq < 64,
        0 <= ksq < 64,
        forall|r3: u8, sq: int|
            is_right(r3) && (cr0 & r3) == 0 && 0 <= sq < 64 ==> #[trigger] (ci0.rights[sq] & r3)
                != 0,
        forall|sq: int|
            0 <= sq < 64 && sq != rsq && sq != ksq ==> #[trigger] ci1.rights[sq]
                == ci0.rights[sq],
        ci1.rights[rsq] == (ci0.rights[rsq] & !r) || ci1.rights[rsq] == ((ci0.rights[rsq] & !r)
            & !r),
        ci1.rights[ksq] == (ci0.rights[ksq] & !r) || ci1.rights[ksq] == ((ci0.rights[ksq] & !r)
            & !r),
    ensures
        forall|r3: u8, sq: int|
            is_right(r3) && (((cr0 | r) as u8) & r3) == 0 && 0 <= sq < 64 ==> #[trigger] (
            ci1.rights[sq] & r3) != 0,
{
    assert forall|r3: u8, sq: int|
        is_right(r3) && (((cr0 | r) as u8) & r3) == 0 && 0 <= sq < 64 implies #[trigger] (
    ci1.rights[sq] & r3) != 0 by {
        assert((cr0 | r) & r3 == 0 ==> (cr0 & r3 == 0 && r3 != r)) by (bit_vector)
            requires
                (r == 1 || r == 2 || r == 4 || r == 8) && (r3 == 1 || r3 == 2 || r3 == 4 || r3
                    == 8),
        ;
        assert(ci0.rights[sq] & r3 != 0);
        if sq == rsq || sq == ksq {
            lemma_mask_keeps_other(ci0.rights[sq], r, r3);
            lemma_mask_keeps_other((ci0.rights[sq] & !r) as u8, r, r3);
        }
    }
}

/// Masking away one right leaves the other rights of a mask unchanged.
proof fn lemma_mask_keeps_other(m: u8, r: u8, r2: u8)
    by (bit_vector)
    requires
        (r == 1 || r == 2 || r == 4 || r == 8),
        (r2 == 1 || r2 == 2 || r2 == 4 || r2 == 8),
        r2 != r,
    ensures
        ((m & !r) & r2) == (m & r2),
{
}

/// Masking away a right clears exactly that right.
proof fn lemma_mask_clear_bit(m: u8, r: u8)
    by (bit_vector)
    requires
        (r == 1 || r == 2 || r == 4 || r == 8),
    ensures
        ((m & !r) & r) == 0,
{
}

/// Bit arithmetic of adding one right to the gathered set.
proof fn lemma_right_bits(cr0: u8, r: u8, r2: u8)
    by (bit_vector)
    requires
        (r == 1 || r == 2 || r == 4 || r == 8),
        (r2 == 1 || r2 == 2 || r2 == 4 || r2 == 8),
        cr0 & r == 0,
    ensures
        ((cr0 | r) & r2) != 0 ==> (r2 == r || (cr0 & r2) != 0),
        ((cr0 | r) & r) != 0,
{
}


impl Position {
    /// The standard starting position.
    pub fn startpos() -> (r: Option<(Position, CastleInfo)>)
        ensures
            r is Some <==> parse_fen_spec(
                "rnbqkbnr/pppppppp/8/8/8/8/PPPPPPPP/RNBQKBNR w KQkq - 0 1"@,
            ) is Some,
            r is Some ==> ({
                let f = parse_fen_spec(
                    "rnbqkbnr/pppppppp/8/8/8/8/PPPPPPPP/RNBQKBNR w KQkq - 0 1"@,
                )->Some_0;
                let (p, ci) = r->Some_0;
                &&& p@.board == f.board
                &&& p@.ctm == f.ctm
                &&& p@.cr == f.cr
                &&& p@.ep == f.ep
                &&& p@.mr50 == f.mr50
                &&& p@.fullmove == f.fullmove
                &&& p.wf()
                &&& ci@ == p.cig_view()
                &&& p.uhist().len() == 0
                &&& p@.fullmove >= 1 && p@.fullmove <= 10000
            }),
    {
        Position::parse_fen("rnbqkbnr/pppppppp/8/8/8/8/PPPPPPPP/RNBQKBNR w KQkq - 0 1")
    }
}

/// The square a move's target prints as: in classic (non-shuffled) games
/// a castling move prints the king's two-square step instead of the rook
/// square the move encodes.
pub open spec fn spec_display_to(mv: Move, frc: bool) -> int {
    if spec_move_type(mv.0) == CASTLING && !frc {
        8 * rank_of_int(spec_from(mv.0)) + (if spec_to(mv.0) < spec_from(mv.0) {
            2int
        } else {
            6int
        })
    } else {
        spec_to(mv.0)
    }
}

/// The exact coordinate notation of a move: source square, displayed
/// target square, and the lowercase promotion letter of promotions.
pub open spec fn move_renders(mv: Move, frc: bool, cs: Seq<char>) -> bool {
    let from = spec_from(mv.0);
    let disp = spec_display_to(mv, frc);
    &&& cs.len() == (if spec_move_type(mv.0) == PROMOTION {
        5int
    } else {
        4int
    })
    &&& cs[0] == crate::types::file_char(file_of_int(from))
    &&& cs[1] == crate::types::rank_char(rank_of_int(from))
    &&& cs[2] == crate::types::file_char(file_of_int(disp))
    &&& cs[3] == crate::types::rank_char(rank_of_int(disp))
    &&& (spec_move_type(mv.0) == PROMOTION ==> cs[4] == crate::types::spec_piecetype_to_char(
        spec_promo_type(mv.0),
    ))
}

impl Move {
    /// The coordinate notation of this move; in classic (non-shuffled)
    /// games a castling move prints as the king's two-square step.
    pub fn to_str(self, ci: &CastleInfo) -> (r: String)
        ensures
            move_renders(self, ci@.frc, r@),
            r@.len() == 4 || r@.len() == 5,
    {
        let from = self.from();
        let to = self.to();
        let disp_to: Square = if self.move_type() == CASTLING && !ci.frc {
            let rank = crate::types::rank_of(from);
            if to < from {
                crate::types::to_square(rank, 2)
            } else {
                crate::types::to_square(rank, 6)
            }
        } else {
            to
        };
        proof {
            assert(disp_to == spec_display_to(self, ci@.frc));
        }
        let mut r = crate::types::square_to_str(from);
        let ts = crate::types::square_to_str(disp_to);
        r.append(ts.as_str());
        proof {
            assert(r@.len() == 4);
        }
        if self.move_type() == PROMOTION {
            let pc = crate::types::piecetype_to_char(self.promo_type());
            let ps: &str = if pc == 'n' {
                "n"
            } else if pc == 'b' {
                "b"
            } else if pc == 'r' {
                "r"
            } else {
                "q"
            };
            proof {
                reveal_strlit("n");
                reveal_strlit("b");
                reveal_strlit("r");
                reveal_strlit("q");
            }
            r.append(ps);
            proof {
                assert(r@.len() == 5);
                assert(r@[4] == crate::types::spec_piecetype_to_char(spec_promo_type(self.0)));
            }
        }
        r
    }

    /// Resolves a move string against the currently pseudo-legal moves:
    /// some pseudo-legal move prints as `s` if and only if one is returned,
    /// and the returned move prints as `s`.
    pub fn from_str(pos: &Position, ci: &CastleInfo, s: &str) -> (r: Option<Move>)
        requires
            pos.wf(),
            ci@ == pos.cig_view(),
        ensures
            r is Some <==> exists|mv: Move|
                #[trigger] is_pseudo_legal(pos@, ci@, mv) && move_renders(mv, ci@.frc, s@),
            r is Some ==> is_pseudo_legal(pos@, ci@, r->Some_0) && move_renders(
                r->Some_0,
                ci@.frc,
                s@,
            ),
    {
        let list = pos.gen_pseudo_legals(ci);
        let target = String::from_str(s);
        let mut i: usize = 0;
        while i < list.len()
            invariant
                i <= list@.len(),
                pos.wf(),
                ci@ == pos.cig_view(),
                target@ == s@,
                forall|j: int|
                    0 <= j < list@.len() ==> is_pseudo_legal(pos@, ci@, #[trigger] list@[j]),
                forall|mv: Move|
                    #[trigger] is_pseudo_legal(pos@, ci@, mv) ==> list@.contains(mv),
                forall|j: int| 0 <= j < i ==> !move_renders(#[trigger] list@[j], ci@.frc, s@),
            decreases list@.len() - i,
        {
            let m = list.get(i);
            let ms = m.to_str(ci);
            if ms == target {
                return Some(m);
            }
            proof {
                assert(!move_renders(m, ci@.frc, s@)) by {
                    if move_renders(m, ci@.frc, s@) {
                        lemma_renders_unique(m, ci@.frc, ms@, s@);
                    }
                }
            }
            i = i + 1;
        }
        proof {
            assert forall|mv: Move|
                !(#[trigger] is_pseudo_legal(pos@, ci@, mv) && move_renders(
                    mv,
                    ci@.frc,
                    s@,
                )) by {
                if is_pseudo_legal(pos@, ci@, mv) {
                    assert(list@.contains(mv));
                    let j = choose|j: int| 0 <= j < list@.len() && list@[j] == mv;
                    assert(!move_renders(list@[j], ci@.frc, s@));
                }
            }
        }
        None
    }
}


impl Move {
    /// Decides pseudo-legality of an arbitrary packed move against the
    /// current position: the filter that keeps a stale or torn cache entry
    /// from ever being trusted.
    pub fn is_pseudolegal(&self, pos: &Position, ci: &CastleInfo) -> (r: bool)
        requires
            pos.wf(),
            ci@ == pos.cig_view(),
        ensures
            r == is_pseudo_legal(pos@, ci@, *self),
    {
        let from = self.from();
        let to = self.to();
        let mt = self.move_type();
        let us = pos.ctm;
        if from == to {
            return false;
        }
        let p = pos.board[from as usize];
        if p == 0 || crate::types::color_of(p) != us {
            return false;
        }
        proof {
            crate::moves::lemma_promo_bits(self.0);
        }
        if mt != PROMOTION && (self.0 >> 12) & 3 != 0 {
            return false;
        }
        let pt = crate::types::piecetype_of(p);
        if mt == NORMAL {
            if pt == 1 {
                let last: usize = if us == 0 {
                    7
                } else {
                    0
                };
                self_pawn_ok(pos, from, to) && crate::types::rank_of(to) != last
            } else {
                let occ = BitBoard(pos.piece_bb[0]);
                let q = pos.board[to as usize];
                crate::attacks::piece_reaches(pt, from, to, occ) && !(q != 0
                    && crate::types::color_of(q) == us)
            }
        } else if mt == PROMOTION {
            let last: usize = if us == 0 {
                7
            } else {
                0
            };
            pt == 1 && self_pawn_ok(pos, from, to) && crate::types::rank_of(to) == last
        } else if mt == ENPASSANT {
            pt == 1 && pos.ep != 0 && to == pos.ep && crate::attacks::pawn_reaches(from, to, us)
        } else {
            let rbit = cr_of_castle_exec(*self, us);
            if pos.cr & rbit == 0 {
                return false;
            }
            proof {
                assert(pos@.cr & rbit != 0);
            }
            if from != ci.castle_kings[rbit as usize] || to != ci.castle_rooks[rbit as usize] {
                return false;
            }
            let pathw = ci.castle_path[rbit as usize];
            let mut sq: u32 = 0;
            while sq < 64
                invariant
                    sq <= 64,
                    pos.wf(),
                    ci@ == pos.cig_view(),
                    is_right(rbit),
                    spec_move_type(self.0) == CASTLING,
                    us == pos@.ctm,
                    rbit == cr_of_castle(*self, us),
                    from == spec_from(self.0),
                    to == spec_to(self.0),
                    from == ci@.kings[rbit as int],
                    to == ci@.rooks[rbit as int],
                    from < 64,
                    to < 64,
                    pathw == ci@.path[rbit as int],
                    forall|j: int|
                        0 <= j < sq && #[trigger] bit64(ci@.path[rbit as int], j) && j != from && j
                            != to ==> pos@.board[j] == 0,
                decreases 64 - sq,
            {
                if sq != from && sq != to {
                    if BitBoard(pathw).test(sq) {
                        if pos.board[sq as usize] != 0 {
                            proof {
                                assert(!castle_path_free(pos@, ci@, rbit));
                            }
                            return false;
                        }
                    }
                }
                sq = sq + 1;
            }
            proof {
                assert(castle_path_free(pos@, ci@, rbit));
            }
            true
        }
    }
}

/// Whether the side to move's pawn on `from` can step to `to`; the public
/// face of the generator's own test.
fn self_pawn_ok(pos: &Position, from: Square, to: Square) -> (r: bool)
    requires
        from < 64,
        to < 64,
        wf_lens(pos@),
        pos@.ctm <= 1,
    ensures
        r == pawn_step_ok(pos@, from as int, to as int),
{
    pos.pawn_step_exec(from, to)
}


/// One move has one rendering: the relation pins every character.
proof fn lemma_renders_unique(mv: Move, frc: bool, a: Seq<char>, b: Seq<char>)
    requires
        move_renders(mv, frc, a),
        move_renders(mv, frc, b),
    ensures
        a == b,
{
    assert(a =~= b);
}


/// Registers a castling right named by its rook's file (the shuffled-start
/// form): validates the rook's presence on that file of the back rank and
/// fills the metadata of the right, exactly as `init_castle` does.
fn init_castle_at(pos: &Position, ci: &mut CastleInfo, cr: &mut u8, color: u8, file: usize) -> (ok:
    bool)
    requires
        wf_base(pos@),
        wf_kings(pos@),
        color <= 1,
        file <= 7,
        old(ci)@.rights.len() == 64,
        old(ci)@.path.len() == 9,
        old(ci)@.rooks.len() == 9,
        old(ci)@.kings.len() == 9,
        *old(cr) <= 15,
        castle_inv(pos@, old(ci)@, *old(cr)),
    ensures
        final(ci)@.rights.len() == 64,
        final(ci)@.path.len() == 9,
        final(ci)@.rooks.len() == 9,
        final(ci)@.kings.len() == 9,
        *final(cr) <= 15,
        ok ==> castle_inv(pos@, final(ci)@, *final(cr)),
        !ok ==> final(ci)@ == old(ci)@ && *final(cr) == *old(cr),
        ok <==> shredder_letter_ok(pos@.board, color, file as int, *old(cr)),
        ok ==> *final(cr) == (*old(cr) | castle_bit(
            color,
            file as int > file_of_int(king_sq_of(pos@.board, color)),
        )) as u8,
    {
    let ksq = pos.king_sq(color);
    proof {
        assert(ksq as int == king_sq_of(pos@.board, color)) by {
            let k2 = king_sq_of(pos@.board, color);
            assert(has_king(pos@, color));
            let w = choose|k: int| sq_ok(k) && #[trigger] pos@.board[k] == spec_make_piece(
                color,
                6,
            );
            assert(pos@.board[w] == spec_make_piece(color, 6));
            assert(pos@.board[k2] == spec_make_piece(color, 6));
            assert(pos@.board[ksq as int] == spec_make_piece(color, 6));
        }
    }
    let krank = crate::types::rank_of(ksq);
    let want_rank: usize = if color == 0 {
        0
    } else {
        7
    };
    if krank != want_rank {
        return false;
    }
    let kfile = crate::types::file_of(ksq);
    if file == kfile {
        return false;
    }
    let kingside = file > kfile;
    let r: u8 = if color == 0 {
        if kingside {
            1
        } else {
            2
        }
    } else {
        if kingside {
            4
        } else {
            8
        }
    };
    proof {
        assert(r == castle_bit(color, file as int > file_of_int(king_sq_of(pos@.board, color))));
    }
    if *cr & r != 0 {
        return false;
    }
    let rsq = crate::types::to_square(want_rank, file);
    if pos.board[rsq as usize] != crate::types::make_piece(color, 4) {
        proof {
            assert(!rook_at(pos@.board, color, file as int));
        }
        return false;
    }
    proof {
        assert(rook_at(pos@.board, color, file as int));
        assert(shredder_letter_ok(pos@.board, color, file as int, *old(cr)));
    }
    let ghost ci0 = ci@;
    let ghost cr0 = *cr;
    // Path: the king's and the rook's journeys, inclusive.
    let kt = castle_k_target(r);
    let rt = castle_r_target(r);
    let mut path: u64 = 0;
    proof {
        assert forall|j: int| !bit64(0u64, j) by {
            if 0 <= j < 64 {
                crate::bitboard::lemma_nth_zero(j as u64);
            }
        }
    }
    let mut u: u32 = 0;
    while u < 64
        invariant
            u <= 64,
            ksq < 64,
            rsq < 64,
            kt < 64,
            rt < 64,
            forall|j: int|
                #[trigger] bit64(path, j) <==> (0 <= j < u && (between_same_rank(
                    ksq as int,
                    kt as int,
                    j,
                ) || between_same_rank(rsq as int, rt as int, j))),
        decreases 64 - u,
    {
        if between_exec(ksq, kt, u) || between_exec(rsq, rt, u) {
            let nb = BitBoard(path).with(u);
            proof {
                assert forall|j: int| #[trigger] bit64(nb.0, j) <==> (bit64(path, j) || j
                    == u as int) by {
                    assert(nb.has(j) <==> (BitBoard(path).has(j) || j == u as int));
                }
            }
            path = nb.0;
        }
        u = u + 1;
    }
    let mask: u8 = !r;
    let mr = ci.castle_rights[rsq as usize] & mask;
    ci.castle_rights.set(rsq as usize, mr);
    let mk = ci.castle_rights[ksq as usize] & mask;
    ci.castle_rights.set(ksq as usize, mk);
    ci.castle_rooks.set(r as usize, rsq);
    ci.castle_kings.set(r as usize, ksq);
    ci.castle_path.set(r as usize, path);
    *cr = *cr | r;
    proof {
        lemma_castle_inv_extend(pos@, ci0, ci@, cr0, r, rsq as int, ksq as int);
    }
    true
}

} // verus!
