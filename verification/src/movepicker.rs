//! A staged move iterator: the cached table move first (after the
//! pseudo-legality filter), then the generated list, skipping the table
//! move so nothing is searched twice.
use vstd::prelude::*;
use crate::moves::{Move, MoveList};
use crate::position::{Position, CastleInfo, PosSt, CiSt, is_pseudo_legal, distinct_moves};

verus! {

pub struct MovePicker {
    pub tt_move: Move,
    pub list: MoveList,
    pub idx: usize,
    pub stage: u8,
}

impl MovePicker {
    /// Between calls: the cursor stays inside the list, and once the list
    /// is generated everything in it is pseudo-legal in the position the
    /// picker was made for.
    pub open spec fn inv(&self, st: PosSt, ci: CiSt) -> bool {
        &&& self.stage <= 2
        &&& self.idx <= self.list@.len()
        &&& (self.stage >= 2 ==> forall|j: int|
            0 <= j < self.list@.len() ==> is_pseudo_legal(st, ci, #[trigger] self.list@[j]))
    }

    pub fn new(tt_move: Move) -> (r: MovePicker)
        ensures
            r.tt_move == tt_move,
            r.stage == 0,
            r.idx == 0,
            forall|st: PosSt, ci: CiSt| r.inv(st, ci),
    {
        MovePicker { tt_move, list: MoveList::new(), idx: 0, stage: 0 }
    }

    /// The next move to try. The pseudo-legal table move comes first; then
    /// the list is generated and each of its moves except the table move is
    /// yielded exactly once, in list order; `None` when exhausted.
    pub fn next(&mut self, pos: &Position, ci: &CastleInfo) -> (r: Option<Move>)
        requires
            pos.wf(),
            ci@ == pos.cig_view(),
            old(self).inv(pos@, ci@),
        ensures
            final(self).inv(pos@, ci@),
            final(self).tt_move == old(self).tt_move,
            r is Some ==> is_pseudo_legal(pos@, ci@, r->Some_0),
            // The filtered table move is yielded first, before generation.
            (old(self).stage == 0 && old(self).tt_move.0 != 0 && is_pseudo_legal(
                pos@,
                ci@,
                old(self).tt_move,
            )) ==> (r == Some(old(self).tt_move) && final(self).stage == 1 && final(self).list@
                == old(self).list@ && final(self).idx == old(self).idx),
            // Generating fixes the list to exactly the pseudo-legal moves.
            (old(self).stage <= 1 && final(self).stage == 2) ==> ((forall|mv: Move|
                #[trigger] is_pseudo_legal(pos@, ci@, mv) <==> final(self).list@.contains(mv))
                && distinct_moves(final(self).list@)),
            // Once generated, the list never changes and the cursor only advances.
            old(self).stage == 2 ==> (final(self).stage == 2 && final(self).list@
                == old(self).list@ && old(self).idx <= final(self).idx),
            r is None ==> final(self).stage == 2,
            // A list answer is the first non-table element at or after the
            // cursor; a None answer means nothing but the table move remains.
            final(self).stage == 2 ==> ({
                let start = if old(self).stage == 2 {
                    old(self).idx as int
                } else {
                    0int
                };
                &&& (r is None ==> final(self).idx == final(self).list@.len() && (forall|j: int|
                    start <= j < final(self).list@.len() ==> #[trigger] final(self).list@[j]
                        == old(self).tt_move))
                &&& (r is Some ==> 1 <= final(self).idx <= final(self).list@.len()
                    && final(self).list@[final(self).idx - 1] == r->Some_0 && r->Some_0 != old(
                    self,
                ).tt_move && (forall|j: int|
                    start <= j < final(self).idx - 1 ==> #[trigger] final(self).list@[j] == old(
                        self,
                    ).tt_move))
            }),
    {
        if self.stage == 0 {
            self.stage = 1;
            if self.tt_move.0 != 0 && self.tt_move.is_pseudolegal(pos, ci) {
                return Some(self.tt_move);
            }
        }
        if self.stage == 1 {
            self.list = pos.gen_pseudo_legals(ci);
            self.idx = 0;
            self.stage = 2;
        }
        let ghost start = self.idx as int;
        while self.idx < self.list.len()
            invariant
                pos.wf(),
                ci@ == pos.cig_view(),
                self.stage == 2,
                self.tt_move == old(self).tt_move,
                !(old(self).stage == 0 && old(self).tt_move.0 != 0 && is_pseudo_legal(
                    pos@,
                    ci@,
                    old(self).tt_move,
                )),
                start <= self.idx as int,
                self.idx <= self.list@.len(),
                self.list@ == (if old(self).stage == 2 {
                    old(self).list@
                } else {
                    self.list@
                }),
                self.inv(pos@, ci@),
                start == (if old(self).stage == 2 {
                    old(self).idx as int
                } else {
                    0int
                }),
                (old(self).stage <= 1 ==> ((forall|mv: Move|
                    #[trigger] is_pseudo_legal(pos@, ci@, mv) <==> self.list@.contains(mv))
                    && distinct_moves(self.list@))),
                forall|j: int|
                    start <= j < self.idx as int ==> #[trigger] self.list@[j] == old(
                        self,
                    ).tt_move,
            decreases self.list@.len() - self.idx,
        {
            let m = self.list.get(self.idx);
            self.idx = self.idx + 1;
            if m != self.tt_move {
                return Some(m);
            }
        }
        None
    }
}

} // verus!
