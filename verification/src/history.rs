//! The repetition history: the hashes of the positions on the current
//! game path, scanned for a two-fold repetition within the fifty-move
//! window.
use vstd::prelude::*;
use crate::position::Position;

verus! {

/// Hashes of the positions played so far, most recent last.
pub struct HashHist {
    pub hist: Vec<u64>,
}

impl View for HashHist {
    type V = Seq<u64>;

    open spec fn view(&self) -> Seq<u64> {
        self.hist@
    }
}

/// A two-fold repetition: the current hash recurs at the same
/// side-to-move parity, within the fifty-move window, at least four plies
/// back.
pub open spec fn two_fold(hist: Seq<u64>, hash: u64, mr50: u8) -> bool {
    exists|i: int|
        {
            &&& 5 <= i <= hist.len()
            &&& i <= 1 + mr50
            &&& i % 2 == 1
            &&& #[trigger] hist[hist.len() - i] == hash
        }
}

impl HashHist {
    pub fn new() -> (r: HashHist)
        ensures
            r@ == Seq::<u64>::empty(),
    {
        let v: Vec<u64> = Vec::new();
        proof {
            assert(v@ =~= Seq::<u64>::empty());
        }
        HashHist { hist: v }
    }

    pub fn clear(&mut self)
        ensures
            final(self)@ == Seq::<u64>::empty(),
    {
        self.hist.truncate(0);
        proof {
            assert(self.hist@ =~= Seq::<u64>::empty());
        }
    }

    pub fn push(&mut self, pos: &Position)
        ensures
            final(self)@ == old(self)@.push(pos@.hash),
    {
        self.hist.push(pos.hash);
    }

    pub fn pop(&mut self)
        requires
            old(self)@.len() > 0,
        ensures
            final(self)@ == old(self)@.drop_last(),
    {
        let _ = self.hist.pop();
        proof {
            assert(self.hist@ =~= old(self)@.drop_last());
        }
    }

    /// A private copy for a search thread to own.
    pub fn duplicate(&self) -> (r: HashHist)
        ensures
            r@ == self@,
    {
        let mut v: Vec<u64> = Vec::new();
        let mut i: usize = 0;
        while i < self.hist.len()
            invariant
                i <= self.hist@.len(),
                v@ == self.hist@.take(i as int),
            decreases self.hist@.len() - i,
        {
            v.push(self.hist[i]);
            proof {
                assert(v@ =~= self.hist@.take(i + 1));
            }
            i = i + 1;
        }
        proof {
            assert(v@ =~= self.hist@);
        }
        HashHist { hist: v }
    }

    /// Whether the current position is a two-fold repetition: its hash
    /// recurs an even number of plies back (so with the same side to
    /// move), within the fifty-move window.
    pub fn is_2fold(&self, pos: &Position) -> (r: bool)
        ensures
            r == two_fold(self@, pos@.hash, pos@.mr50),
    {
        let n = self.hist.len();
        let limit: usize = if n <= 1 + pos.mr50 as usize {
            n
        } else {
            1 + pos.mr50 as usize
        };
        let mut i: usize = 5;
        while i <= limit
            invariant
                5 <= i,
                i % 2 == 1,
                n == self@.len(),
                limit == if n <= 1 + pos@.mr50 {
                    n as int
                } else {
                    1 + pos@.mr50
                },
                forall|j: int|
                    5 <= j < i && j <= limit && j % 2 == 1 ==> #[trigger] self@[self@.len() - j]
                        != pos@.hash,
            decreases limit + 2 - i,
        {
            if self.hist[n - i] == pos.hash {
                return true;
            }
            i = i + 2;
        }
        proof {
            assert forall|j: int|
                5 <= j <= self@.len() && j <= 1 + pos@.mr50 && j % 2 == 1 implies
                #[trigger] self@[self@.len() - j] != pos@.hash by {
                assert(j <= limit && j < i);
            }
        }
        false
    }
}

} // verus!
