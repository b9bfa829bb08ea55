//! Iterative-deepening negamax with alpha-beta pruning, a transposition
//! table, cooperative abortion through a shared flag, and repetition
//! detection.
use vstd::prelude::*;
use std::sync::atomic::AtomicBool;
use crate::types::Score;
use crate::moves::Move;
use crate::position::{Position, CastleInfo, is_pseudo_legal, move_legal, in_check_spec, apply_move};
use crate::history::HashHist;
use crate::transposition::{
    TT, TTEntry, MATE, INFINITE, MAX_DEPTH, FLAG_EXACT, FLAG_UPPER, FLAG_LOWER, tt_cuts,
    probed_score,
};
use crate::history::two_fold;

verus! {

/// Node interval between checks of the time budget.
pub const CHECKUP_NODES: u64 = 32768;

#[verifier::external_type_specification]
#[verifier::external_body]
pub struct ExInstant(std::time::Instant);

/// Relies on std::time::Instant::now: an opaque timestamp of this moment.
#[verifier::external_body]
pub fn instant_now() -> std::time::Instant {
    std::time::Instant::now()
}

/// Relies on std::time::Instant being a plain copyable timestamp.
#[verifier::external_body]
pub fn instant_copy(t: &std::time::Instant) -> std::time::Instant {
    *t
}

/// Relies on std::time::Instant::elapsed: wall-clock milliseconds since
/// `start`; the value depends on the clock, so nothing is promised of it.
#[verifier::external_body]
pub fn elapsed_millis(start: &std::time::Instant) -> u128 {
    start.elapsed().as_millis()
}

/// Relies on std::sync::atomic::AtomicBool::load (relaxed). Other threads
/// may change the flag at any time, so nothing is promised of the value.
#[verifier::external_body]
pub fn abort_is_set(flag: &AtomicBool) -> bool {
    flag.load(std::sync::atomic::Ordering::Relaxed)
}

/// Relies on std::sync::atomic::AtomicBool::store (relaxed): raises the
/// shared abort flag.
#[verifier::external_body]
pub fn signal_abort(flag: &AtomicBool) {
    flag.store(true, std::sync::atomic::Ordering::Relaxed)
}

/// The search limits of one `go` request.
pub struct Limits {
    pub start: std::time::Instant,
    pub spend: u128,
    pub time: u128,
    pub inc: u128,
    pub movetime: u128,
    pub moves_to_go: u128,
    pub depth: u8,
    pub mate: i32,
    pub is_time_limit: bool,
    pub is_infinite: bool,
}

impl Limits {
    /// Fresh limits: no time bound, full depth.
    pub fn new() -> (r: Limits)
        ensures
            r.spend == 0 && r.time == 0 && r.inc == 0 && r.movetime == 0,
            r.moves_to_go == 30,
            r.depth == MAX_DEPTH,
            r.mate == 0,
            !r.is_time_limit && !r.is_infinite,
    {
        Limits {
            start: instant_now(),
            spend: 0,
            time: 0,
            inc: 0,
            movetime: 0,
            moves_to_go: 30,
            depth: MAX_DEPTH,
            mate: 0,
            is_time_limit: false,
            is_infinite: false,
        }
    }

    /// Milliseconds since the search started.
    pub fn elapsed(&self) -> u128 {
        elapsed_millis(&self.start)
    }

    /// Whether the time budget is exhausted.
    pub fn should_stop(&self) -> (r: bool)
        ensures
            !self.is_time_limit ==> !r,
    {
        self.is_time_limit && self.elapsed() >= self.spend
    }

    /// A private copy for a search thread to own.
    pub fn duplicate(&self) -> (r: Limits)
        ensures
            r.spend == self.spend && r.time == self.time && r.inc == self.inc && r.movetime
                == self.movetime && r.moves_to_go == self.moves_to_go && r.depth == self.depth
                && r.mate == self.mate && r.is_time_limit == self.is_time_limit && r.is_infinite
                == self.is_infinite,
    {
        Limits {
            start: instant_copy(&self.start),
            spend: self.spend,
            time: self.time,
            inc: self.inc,
            movetime: self.movetime,
            moves_to_go: self.moves_to_go,
            depth: self.depth,
            mate: self.mate,
            is_time_limit: self.is_time_limit,
            is_infinite: self.is_infinite,
        }
    }
}

/// The label and value of a score for protocol output: forced mates are
/// reported as moves until mate, anything else in centipawns.
pub fn printable_score(score: Score) -> (r: (bool, Score))
    requires
        -MATE <= score <= MATE,
    ensures
        r.0 <==> (score >= MATE_IN_MAX_S || score <= -MATE_IN_MAX_S),
        r.0 && score > 0 ==> r.1 == (MATE - score) / 2 + 1,
        r.0 && score <= 0 ==> r.1 == -((MATE + score) / 2),
        !r.0 ==> r.1 == score,
{
    if score >= MATE_IN_MAX_S {
        (true, (MATE - score) / 2 + 1)
    } else if score <= -MATE_IN_MAX_S {
        (true, -((MATE + score) / 2))
    } else {
        (false, score)
    }
}

pub const MATE_IN_MAX_S: Score = 29800;

/// The score of the side to move when it is checkmated `height` plies
/// from the root: nearer mates weigh more.
pub fn mate_score(height: u8) -> (r: Score)
    requires
        height <= MAX_DEPTH,
    ensures
        r == -MATE + height,
        -MATE <= r <= -MATE_IN_MAX_S,
{
    -MATE + height as Score
}

/// What a depth-1 node scores one of its legal moves: the draw score when
/// the child is a two-fold repetition of the history, else the child's
/// static evaluation, negated to the parent's point of view.
pub open spec fn child_value(st: crate::position::PosSt, ci: crate::position::CiSt, hist: Seq<u64>, mv: Move) -> int {
    let c = apply_move(st, ci, mv);
    if two_fold(hist.push(c.hash), c.hash, c.mr50) {
        0
    } else {
        crate::eval::spec_eval(c)
    }
}

/// The best depth-1 score over the legal moves among the first `m` move
/// encodings; the empty maximum is below every real score.
pub open spec fn shallow_best(
    st: crate::position::PosSt,
    ci: crate::position::CiSt,
    hist: Seq<u64>,
    m: int,
) -> int
    decreases m,
{
    if m <= 0 {
        -(INFINITE as int)
    } else {
        let mv = Move((m - 1) as u16);
        let rest = shallow_best(st, ci, hist, m - 1);
        if is_pseudo_legal(st, ci, mv) && move_legal(st, ci, mv) && -child_value(st, ci, hist, mv)
            > rest {
            -child_value(st, ci, hist, mv)
        } else {
            rest
        }
    }
}

/// The same maximum over a prefix of a move list.
pub open spec fn shallow_best_list(
    st: crate::position::PosSt,
    ci: crate::position::CiSt,
    hist: Seq<u64>,
    l: Seq<Move>,
    n: int,
) -> int
    decreases n,
{
    if n <= 0 {
        -(INFINITE as int)
    } else {
        let mv = l[n - 1];
        let rest = shallow_best_list(st, ci, hist, l, n - 1);
        if is_pseudo_legal(st, ci, mv) && move_legal(st, ci, mv) && -child_value(st, ci, hist, mv)
            > rest {
            -child_value(st, ci, hist, mv)
        } else {
            rest
        }
    }
}

/// The encoding maximum grows with the range.
proof fn lemma_shallow_mono(st: crate::position::PosSt, ci: crate::position::CiSt, hist: Seq<u64>, m1: int, m2: int)
    requires
        m1 <= m2,
    ensures
        shallow_best(st, ci, hist, m1) <= shallow_best(st, ci, hist, m2),
    decreases m2 - m1,
{
    if m1 < m2 {
        lemma_shallow_mono(st, ci, hist, m1, m2 - 1);
    }
}

/// Every legal move's value is below the encoding maximum.
proof fn lemma_shallow_covers(st: crate::position::PosSt, ci: crate::position::CiSt, hist: Seq<u64>, mv: Move)
    requires
        is_pseudo_legal(st, ci, mv),
        move_legal(st, ci, mv),
    ensures
        -child_value(st, ci, hist, mv) <= shallow_best(st, ci, hist, 65536),
{
    assert(Move((mv.0 + 1 - 1) as u16) == mv);
    assert(-child_value(st, ci, hist, mv) <= shallow_best(st, ci, hist, mv.0 + 1));
    lemma_shallow_mono(st, ci, hist, mv.0 + 1, 65536);
}

/// A positive encoding maximum is attained by some legal move.
proof fn lemma_shallow_attained(st: crate::position::PosSt, ci: crate::position::CiSt, hist: Seq<u64>, m: int)
    ensures
        shallow_best(st, ci, hist, m) == -(INFINITE as int) || exists|mv: Move|
            #[trigger] is_pseudo_legal(st, ci, mv) && move_legal(st, ci, mv) && -child_value(
                st,
                ci,
                hist,
                mv,
            ) == shallow_best(st, ci, hist, m),
    decreases m,
{
    if m > 0 {
        lemma_shallow_attained(st, ci, hist, m - 1);
    }
}

/// Every legal list element's value is below the list maximum.
proof fn lemma_list_covers(
    st: crate::position::PosSt,
    ci: crate::position::CiSt,
    hist: Seq<u64>,
    l: Seq<Move>,
    n: int,
    j: int,
)
    requires
        0 <= j < n <= l.len(),
        is_pseudo_legal(st, ci, l[j]),
        move_legal(st, ci, l[j]),
    ensures
        -child_value(st, ci, hist, l[j]) <= shallow_best_list(st, ci, hist, l, n),
    decreases n,
{
    if j < n - 1 {
        lemma_list_covers(st, ci, hist, l, n - 1, j);
    }
}

/// A positive list maximum is attained by some legal list element.
proof fn lemma_list_attained(
    st: crate::position::PosSt,
    ci: crate::position::CiSt,
    hist: Seq<u64>,
    l: Seq<Move>,
    n: int,
)
    requires
        n <= l.len(),
    ensures
        shallow_best_list(st, ci, hist, l, n) == -(INFINITE as int) || exists|j: int|
            0 <= j < n && is_pseudo_legal(st, ci, #[trigger] l[j]) && move_legal(st, ci, l[j])
                && -child_value(st, ci, hist, l[j]) == shallow_best_list(st, ci, hist, l, n),
    decreases n,
{
    if n > 0 {
        lemma_list_attained(st, ci, hist, l, n - 1);
    }
}

/// A list holding exactly the pseudo-legal moves has the encoding maximum.
proof fn lemma_list_eq_encoding(
    st: crate::position::PosSt,
    ci: crate::position::CiSt,
    hist: Seq<u64>,
    l: Seq<Move>,
)
    requires
        forall|j: int| 0 <= j < l.len() ==> is_pseudo_legal(st, ci, #[trigger] l[j]),
        forall|mv: Move| #[trigger] is_pseudo_legal(st, ci, mv) ==> l.contains(mv),
    ensures
        shallow_best_list(st, ci, hist, l, l.len() as int) == shallow_best(st, ci, hist, 65536),
{
    let lv = shallow_best_list(st, ci, hist, l, l.len() as int);
    let ev = shallow_best(st, ci, hist, 65536);
    lemma_list_attained(st, ci, hist, l, l.len() as int);
    if lv != -(INFINITE as int) {
        let j = choose|j: int|
            0 <= j < l.len() && is_pseudo_legal(st, ci, #[trigger] l[j]) && move_legal(
                st,
                ci,
                l[j],
            ) && -child_value(st, ci, hist, l[j]) == lv;
        lemma_shallow_covers(st, ci, hist, l[j]);
        assert(lv <= ev);
    }
    lemma_shallow_attained(st, ci, hist, 65536);
    if ev != -(INFINITE as int) {
        let mv = choose|mv: Move|
            #[trigger] is_pseudo_legal(st, ci, mv) && move_legal(st, ci, mv) && -child_value(
                st,
                ci,
                hist,
                mv,
            ) == ev;
        assert(l.contains(mv));
        let j = choose|j: int| 0 <= j < l.len() && l[j] == mv;
        lemma_list_covers(st, ci, hist, l, l.len() as int, j);
        assert(ev <= lv);
    }
    if lv == -(INFINITE as int) && ev != -(INFINITE as int) {
        assert(false);
    }
    if ev == -(INFINITE as int) && lv != -(INFINITE as int) {
        assert(lv <= ev);
        assert(false);
    }
}

/// One search worker's private state. `stopped` records whether this
/// worker has observed the shared abort flag: once it is set, scores are
/// partial and no further result clause is owed.
pub struct SearchThread {
    pub id: usize,
    pub nodes: u64,
    pub limits: Limits,
    pub root: Position,
    pub ci: CastleInfo,
    pub hist: HashHist,
    pub best_move: Move,
    pub stopped: bool,
}

/// One alpha-beta node: negamax over the pseudo-legal moves with
/// transposition-table cutoffs, repetition detection and cooperative
/// abortion. Returns the fail-soft score of `pos`.
/// Tries one pseudo-legal move of `pos`: applies it on a private copy,
/// searches the child, and returns the negamax score, or nothing when the
/// move is illegal.
#[verifier::spinoff_prover]
#[verifier::rlimit(100)]
fn search_child(
    th: &mut SearchThread,
    tt: &mut TT,
    abort: &AtomicBool,
    pos: &Position,
    mv: Move,
    depth: u8,
    height: u8,
    alpha: Score,
    beta: Score,
) -> (r: Option<Score>)
    requires
        pos.wf(),
        old(th).ci@ == pos.cig_view(),
        old(tt).wf(),
        -INFINITE <= alpha < beta <= INFINITE,
        pos@.mr50 + depth <= 255,
        pos@.fullmove + depth <= 65535,
        height + depth <= MAX_DEPTH,
        1 <= depth,
        is_pseudo_legal(pos@, old(th).ci@, mv),
    ensures
        final(tt).wf(),
        final(th).hist@ == old(th).hist@,
        final(th).ci == old(th).ci,
        final(th).root == old(th).root,
        final(th).limits == old(th).limits,
        final(th).id == old(th).id,
        final(th).best_move == old(th).best_move,
        old(th).stopped ==> final(th).stopped,
        r is Some <==> move_legal(pos@, old(th).ci@, mv),
        r is Some ==> -MATE <= r->Some_0 <= MATE,
        (r is Some && !final(th).stopped && depth == 1) ==> r->Some_0 as int == -child_value(
            pos@,
            old(th).ci@,
            old(th).hist@,
            mv,
        ),
    decreases depth, 0int,
{
    let mut new_pos = pos.duplicate();
    if new_pos.make_move(mv, &th.ci) {
        th.hist.push(&new_pos);
        let child = search(th, tt, abort, &new_pos, depth - 1, height + 1, -beta, -alpha);
        th.hist.pop();
        proof {
            assert(th.hist@ =~= old(th).hist@);
            if !th.stopped && depth == 1 {
                assert(new_pos@ == apply_move(pos@, old(th).ci@, mv));
                assert(child == crate::eval::spec_eval(new_pos@) || child == 0);
            }
        }
        Some(-child)
    } else {
        None
    }
}

#[verifier::spinoff_prover]
#[verifier::rlimit(100)]
pub fn search(
    th: &mut SearchThread,
    tt: &mut TT,
    abort: &AtomicBool,
    pos: &Position,
    depth: u8,
    height: u8,
    alpha: Score,
    beta: Score,
) -> (sc: Score)
    requires
        pos.wf(),
        old(th).ci@ == pos.cig_view(),
        old(tt).wf(),
        -INFINITE <= alpha < beta <= INFINITE,
        pos@.mr50 + depth <= 255,
        pos@.fullmove + depth <= 65535,
        height + depth <= MAX_DEPTH,
    ensures
        -MATE <= sc <= MATE,
        final(tt).wf(),
        final(th).hist@ == old(th).hist@,
        final(th).ci == old(th).ci,
        final(th).root == old(th).root,
        final(th).limits == old(th).limits,
        final(th).id == old(th).id,
        height != 0 ==> final(th).best_move == old(th).best_move,
        height == 0 ==> (final(th).best_move == old(th).best_move || (is_pseudo_legal(
            pos@,
            old(th).ci@,
            final(th).best_move,
        ) && move_legal(pos@, old(th).ci@, final(th).best_move))),
        old(th).stopped ==> final(th).stopped,
        height >= 1 && two_fold(old(th).hist@, pos@.hash, pos@.mr50) ==> sc == 0 && *final(tt)
            == *old(tt),
        !final(th).stopped && depth == 0 && !(height >= 1 && two_fold(
            old(th).hist@,
            pos@.hash,
            pos@.mr50,
        )) ==> sc == crate::eval::spec_eval(pos@) && *final(tt) == *old(tt),
        ({
            let e = old(tt).entries@[old(tt).slot_of(pos@.hash)];
            (!final(th).stopped && height >= 1 && depth >= 1 && !two_fold(
                old(th).hist@,
                pos@.hash,
                pos@.mr50,
            ) && tt_cuts(e, pos@.hash, depth, height as int, alpha as int, beta as int)) ==> sc
                == probed_score(e, height as int)
        }),
        ({
            let e = old(tt).entries@[old(tt).slot_of(pos@.hash)];
            (!final(th).stopped && height >= 1 && depth >= 1 && !two_fold(
                old(th).hist@,
                pos@.hash,
                pos@.mr50,
            ) && !tt_cuts(e, pos@.hash, depth, height as int, alpha as int, beta as int) && (
            forall|mv: Move|
                #[trigger] is_pseudo_legal(pos@, old(th).ci@, mv) ==> !move_legal(
                    pos@,
                    old(th).ci@,
                    mv,
                ))) ==> sc == (if in_check_spec(pos@, pos@.ctm) {
                -MATE + height as int
            } else {
                0int
            })
        }),
        (!final(th).stopped && height == 0 && depth >= 1 && beta == INFINITE && (exists|mv: Move|
            #[trigger] is_pseudo_legal(pos@, old(th).ci@, mv) && move_legal(
                pos@,
                old(th).ci@,
                mv,
            ))) ==> (is_pseudo_legal(pos@, old(th).ci@, final(th).best_move) && move_legal(
            pos@,
            old(th).ci@,
            final(th).best_move,
        )),
        (!final(th).stopped && height == 0 && depth == 1 && beta == INFINITE && (exists|mv: Move|
            #[trigger] is_pseudo_legal(pos@, old(th).ci@, mv) && move_legal(
                pos@,
                old(th).ci@,
                mv,
            ))) ==> sc as int == shallow_best(pos@, old(th).ci@, old(th).hist@, 65536),
    decreases depth, 1int,
{
    let ghost e0 = old(tt).entries@[old(tt).slot_of(pos@.hash)];
    th.nodes = th.nodes.wrapping_add(1);
    let root = height == 0;
    let original_alpha = alpha;
    if th.nodes % CHECKUP_NODES == 0 && th.limits.should_stop() {
        signal_abort(abort);
    }
    if abort_is_set(abort) {
        th.stopped = true;
        return 0;
    }
    if !root && th.hist.is_2fold(pos) {
        return 0;
    }
    if depth == 0 {
        return crate::eval::eval(pos);
    }
    let mut tt_depth_ok = false;
    let mut tt_sc: Score = 0;
    let mut tt_lower = false;
    let mut tt_upper = false;
    let mut tt_exact = false;
    match tt.read(pos) {
        Some(e) => {
            if e.depth >= depth {
                tt_depth_ok = true;
                let raw = e.score(height);
                tt_sc = if raw > MATE {
                    MATE
                } else if raw < -MATE {
                    -MATE
                } else {
                    raw
                };
                tt_lower = e.is_lower();
                tt_upper = e.is_upper();
                tt_exact = e.is_exact();
            }
        },
        None => {},
    }
    if !root && tt_depth_ok {
        if (tt_lower && tt_sc >= beta) || (tt_upper && tt_sc <= alpha) || tt_exact {
            proof {
                assert(tt_sc == probed_score(e0, height as int));
            }
            return tt_sc;
        }
    }
    proof {
        assert(!root ==> !tt_cuts(e0, pos@.hash, depth, height as int, alpha as int, beta as int));
    }
    let list = pos.gen_pseudo_legals(&th.ci);
    let mut best_score: Score = -INFINITE;
    let mut best_move = Move::none();
    let mut move_count: usize = 0;
    let mut cur_alpha = alpha;
    let mut i: usize = 0;
    while i < list.len()
        invariant
            i <= list@.len(),
            pos.wf(),
            th.ci@ == pos.cig_view(),
            th.ci == old(th).ci,
            th.root == old(th).root,
            th.limits == old(th).limits,
            th.id == old(th).id,
            th.best_move == old(th).best_move,
            th.hist@ == old(th).hist@,
            old(th).stopped ==> th.stopped,
            tt.wf(),
            original_alpha < beta,
            -INFINITE <= original_alpha,
            original_alpha <= cur_alpha < beta <= INFINITE,
            pos@.mr50 + depth <= 255,
            pos@.fullmove + depth <= 65535,
            height + depth <= MAX_DEPTH,
            1 <= depth,
            root == (height == 0),
            move_count <= i,
            move_count > 0 ==> -MATE <= best_score <= MATE,
            move_count == 0 ==> best_score == -INFINITE,
            move_count > 0 ==> is_pseudo_legal(pos@, th.ci@, best_move) && move_legal(
                pos@,
                th.ci@,
                best_move,
            ),
            best_score < beta,
            e0 == old(tt).entries@[old(tt).slot_of(pos@.hash)],
            height >= 1 ==> !two_fold(old(th).hist@, pos@.hash, pos@.mr50),
            height >= 1 ==> !tt_cuts(
                e0,
                pos@.hash,
                depth,
                height as int,
                original_alpha as int,
                beta as int,
            ),
            original_alpha == alpha,
            forall|j: int|
                0 <= j < list@.len() ==> is_pseudo_legal(pos@, th.ci@, #[trigger] list@[j]),
            forall|mv: Move| #[trigger] is_pseudo_legal(pos@, th.ci@, mv) ==> list@.contains(mv),
            move_count == 0 ==> (forall|j: int|
                0 <= j < i ==> !move_legal(pos@, th.ci@, #[trigger] list@[j])),
            (!th.stopped && depth == 1 && move_count > 0) ==> best_score as int
                == shallow_best_list(pos@, th.ci@, old(th).hist@, list@, i as int),
            (!th.stopped && depth == 1 && move_count == 0) ==> shallow_best_list(
                pos@,
                th.ci@,
                old(th).hist@,
                list@,
                i as int,
            ) == -(INFINITE as int),
        decreases list@.len() - i,
    {
        let mv = list.get(i);
        match search_child(th, tt, abort, pos, mv, depth, height, cur_alpha, beta) {
            Some(sc) => {
                move_count = move_count + 1;
                if sc > best_score {
                    best_score = sc;
                    best_move = mv;
                    if sc > cur_alpha {
                        cur_alpha = sc;
                    }
                    if sc >= beta {
                        return sc;
                    }
                }
            },
            None => {},
        }
        i = i + 1;
    }
    if move_count == 0 {
        if pos.in_check(pos.ctm) {
            return mate_score(height);
        } else {
            return 0;
        }
    }
    if !abort_is_set(abort) {
        if root {
            th.best_move = best_move;
        }
        let flag: u8 = if best_score >= beta {
            FLAG_LOWER
        } else if best_score <= original_alpha {
            FLAG_UPPER
        } else {
            FLAG_EXACT
        };
        tt.insert(pos, best_score, height, best_move, depth, flag);
    } else {
        th.stopped = true;
    }
    proof {
        if !th.stopped && root && depth == 1 {
            lemma_list_eq_encoding(pos@, th.ci@, old(th).hist@, list@);
        }
    }
    best_score
}

} // verus!
