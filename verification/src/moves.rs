//! A move packed into 16 bits (target, source, promotion piece, kind) and
//! the list container the generator fills.
use vstd::prelude::*;
use crate::types::{Square, PieceType, spec_ep_captured_sq};

verus! {

pub type MoveType = u16;

pub const NORMAL: MoveType = 0;

pub const PROMOTION: MoveType = 0x4000;

pub const ENPASSANT: MoveType = 0x8000;

pub const CASTLING: MoveType = 0xC000;

/// The promotion-piece bits of a packed move.
pub proof fn lemma_promo_bits(m: u16)
    by (bit_vector)
    ensures
        ((m >> 12) & 3) == (m / 0x1000) % 4,
        ((m >> 12) & 3) < 4,
{
}

/// A move: target square in bits 0-5, source square in bits 6-11,
/// promotion piece in bits 12-13, move kind in bits 14-15.
#[derive(Clone, Copy, PartialEq, Eq, Structural, Debug)]
pub struct Move(pub u16);

pub open spec fn spec_to(m: u16) -> int {
    (m % 64) as int
}

pub open spec fn spec_from(m: u16) -> int {
    ((m / 64) % 64) as int
}

pub open spec fn spec_move_type(m: u16) -> u16 {
    (m / 0x4000 * 0x4000) as u16
}

pub open spec fn spec_promo_type(m: u16) -> u8 {
    ((m / 0x1000) % 4 + 2) as u8
}

pub open spec fn spec_capture_to(m: u16) -> int {
    if spec_move_type(m) == ENPASSANT {
        spec_ep_captured_sq(spec_to(m))
    } else {
        spec_to(m)
    }
}

impl Move {
    /// The move that denotes "no move".
    pub fn none() -> (r: Move)
        ensures
            r.0 == 0,
    {
        Move(0)
    }

    pub fn new(from: Square, to: Square, mt: MoveType, promo: Option<PieceType>) -> (r: Move)
        requires
            from < 64,
            to < 64,
            mt == NORMAL || mt == PROMOTION || mt == ENPASSANT || mt == CASTLING,
            (mt == PROMOTION) <==> promo is Some,
            promo is Some ==> 2 <= promo->Some_0 <= 5,
        ensures
            spec_to(r.0) == to,
            spec_from(r.0) == from,
            spec_move_type(r.0) == mt,
            promo is Some ==> spec_promo_type(r.0) == promo->Some_0,
            promo is None ==> (r.0 / 0x1000) % 4 == 0,
    {
        let p: u16 = match promo {
            Some(pc) => (pc - 2) as u16,
            None => 0,
        };
        let x: u16 = mt | (p << 12) | ((from as u16) << 6) | (to as u16);
        proof {
            let f = from as u16;
            let t = to as u16;
            assert((f < 64 && t < 64 && p < 4 && (mt == 0 || mt == 0x4000 || mt == 0x8000 || mt
                == 0xC000)) ==> {
                let y = mt | (p << 12) | (f << 6) | t;
                &&& y % 64 == t
                &&& (y / 64) % 64 == f
                &&& y / 0x4000 * 0x4000 == mt
                &&& (y / 0x1000) % 4 == p
            }) by (bit_vector);
        }
        Move(x)
    }

    pub fn to(self) -> (r: Square)
        ensures
            r == spec_to(self.0),
            r < 64,
    {
        proof {
            let m = self.0;
            assert((m & 0x3F) == m % 64 && m % 64 < 64) by (bit_vector);
        }
        (self.0 & 0x3F) as Square
    }

    pub fn from(self) -> (r: Square)
        ensures
            r == spec_from(self.0),
            r < 64,
    {
        proof {
            let m = self.0;
            assert(((m >> 6) & 0x3F) == (m / 64) % 64 && (m / 64) % 64 < 64) by (bit_vector);
        }
        ((self.0 >> 6) & 0x3F) as Square
    }

    pub fn move_type(self) -> (r: MoveType)
        ensures
            r == spec_move_type(self.0),
            r == NORMAL || r == PROMOTION || r == ENPASSANT || r == CASTLING,
    {
        proof {
            let m = self.0;
            assert((m & 0xC000) == m / 0x4000 * 0x4000 && ((m & 0xC000) == 0 || (m & 0xC000)
                == 0x4000 || (m & 0xC000) == 0x8000 || (m & 0xC000) == 0xC000)) by (bit_vector);
        }
        self.0 & 0xC000
    }

    /// Square emptied by this move's capture: the target square, except for
    /// en-passant, where the captured pawn stands behind the target.
    pub fn capture_to(self) -> (r: Square)
        ensures
            r == spec_capture_to(self.0),
            r < 64,
    {
        let to = self.to();
        if self.move_type() == ENPASSANT {
            crate::types::ep_captured_sq(to)
        } else {
            to
        }
    }

    /// The promotion piece of a promotion move.
    pub fn promo_type(self) -> (r: PieceType)
        requires
            spec_move_type(self.0) == PROMOTION,
        ensures
            r == spec_promo_type(self.0),
            2 <= r <= 5,
    {
        proof {
            lemma_promo_bits(self.0);
        }
        (((self.0 >> 12) & 3) + 2) as PieceType
    }
}

/// A stack of generated moves.
pub struct MoveList {
    pub moves: Vec<Move>,
}

impl View for MoveList {
    type V = Seq<Move>;

    open spec fn view(&self) -> Seq<Move> {
        self.moves@
    }
}

impl MoveList {
    pub fn new() -> (r: MoveList)
        ensures
            r@ == Seq::<Move>::empty(),
    {
        let v: Vec<Move> = Vec::new();
        proof {
            assert(Seq::<Move>::empty() =~= v@);
        }
        MoveList { moves: v }
    }

    pub fn len(&self) -> (r: usize)
        ensures
            r == self@.len(),
    {
        self.moves.len()
    }

    pub fn is_empty(&self) -> (r: bool)
        ensures
            r <==> self@.len() == 0,
    {
        self.moves.len() == 0
    }

    pub fn clear(&mut self)
        ensures
            final(self)@ == Seq::<Move>::empty(),
    {
        proof {
            assert(Seq::<Move>::empty() =~= Seq::<Move>::empty().take(0));
        }
        self.moves.truncate(0);
        proof {
            assert(self.moves@ =~= Seq::<Move>::empty());
        }
    }

    pub fn get(&self, i: usize) -> (r: Move)
        requires
            i < self@.len(),
        ensures
            r == self@[i as int],
    {
        self.moves[i]
    }

    pub fn pop(&mut self) -> (r: Option<Move>)
        ensures
            old(self)@.len() == 0 ==> (r is None && final(self)@ == old(self)@),
            old(self)@.len() > 0 ==> (r == Some(old(self)@.last()) && final(self)@ == old(
                self,
            )@.drop_last()),
    {
        if self.moves.len() == 0 {
            None
        } else {
            let m = self.moves.pop().unwrap();
            Some(m)
        }
    }

    pub fn push(&mut self, mv: Move)
        ensures
            final(self)@ == old(self)@.push(mv),
    {
        self.moves.push(mv);
    }
}

} // verus!
