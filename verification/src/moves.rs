//! 16-bit packed move encoding and a move list.

use crate::text::push_char;
use crate::types::{kind_char, square_name, PieceType, Square};
use vstd::prelude::*;

verus! {

/// Move flags occupy the high 4 bits. Encoding follows the common scheme where
/// bit 2 (value 4) marks captures and values >= 8 mark promotions.
#[derive(Clone, Copy, PartialEq, Eq, Debug, Structural)]
pub enum MoveFlag {
    Quiet,
    DoublePush,
    KingCastle,
    QueenCastle,
    Capture,
    EnPassant,
    PromoKnight,
    PromoBishop,
    PromoRook,
    PromoQueen,
    PromoKnightCapture,
    PromoBishopCapture,
    PromoRookCapture,
    PromoQueenCapture,
}

/// The 4-bit code of a flag.
pub open spec fn flag_code(f: MoveFlag) -> u16 {
    match f {
        MoveFlag::Quiet => 0,
        MoveFlag::DoublePush => 1,
        MoveFlag::KingCastle => 2,
        MoveFlag::QueenCastle => 3,
        MoveFlag::Capture => 4,
        MoveFlag::EnPassant => 5,
        MoveFlag::PromoKnight => 8,
        MoveFlag::PromoBishop => 9,
        MoveFlag::PromoRook => 10,
        MoveFlag::PromoQueen => 11,
        MoveFlag::PromoKnightCapture => 12,
        MoveFlag::PromoBishopCapture => 13,
        MoveFlag::PromoRookCapture => 14,
        MoveFlag::PromoQueenCapture => 15,
    }
}

/// Codes that name a flag (6 and 7 are unused).
pub open spec fn code_ok(v: u16) -> bool {
    v < 16 && v != 6 && v != 7
}

/// The flag with code `v`.
pub open spec fn flag_of_code(v: u16) -> MoveFlag {
    if v == 0 {
        MoveFlag::Quiet
    } else if v == 1 {
        MoveFlag::DoublePush
    } else if v == 2 {
        MoveFlag::KingCastle
    } else if v == 3 {
        MoveFlag::QueenCastle
    } else if v == 4 {
        MoveFlag::Capture
    } else if v == 5 {
        MoveFlag::EnPassant
    } else if v == 8 {
        MoveFlag::PromoKnight
    } else if v == 9 {
        MoveFlag::PromoBishop
    } else if v == 10 {
        MoveFlag::PromoRook
    } else if v == 11 {
        MoveFlag::PromoQueen
    } else if v == 12 {
        MoveFlag::PromoKnightCapture
    } else if v == 13 {
        MoveFlag::PromoBishopCapture
    } else if v == 14 {
        MoveFlag::PromoRookCapture
    } else {
        MoveFlag::PromoQueenCapture
    }
}

impl MoveFlag {
    pub fn code(self) -> (r: u16)
        ensures
            r == flag_code(self),
    {
        match self {
            MoveFlag::Quiet => 0,
            MoveFlag::DoublePush => 1,
            MoveFlag::KingCastle => 2,
            MoveFlag::QueenCastle => 3,
            MoveFlag::Capture => 4,
            MoveFlag::EnPassant => 5,
            MoveFlag::PromoKnight => 8,
            MoveFlag::PromoBishop => 9,
            MoveFlag::PromoRook => 10,
            MoveFlag::PromoQueen => 11,
            MoveFlag::PromoKnightCapture => 12,
            MoveFlag::PromoBishopCapture => 13,
            MoveFlag::PromoRookCapture => 14,
            MoveFlag::PromoQueenCapture => 15,
        }
    }

    fn from_u16(v: u16) -> (r: MoveFlag)
        requires
            code_ok(v),
        ensures
            r == flag_of_code(v),
    {
        if v == 0 {
            MoveFlag::Quiet
        } else if v == 1 {
            MoveFlag::DoublePush
        } else if v == 2 {
            MoveFlag::KingCastle
        } else if v == 3 {
            MoveFlag::QueenCastle
        } else if v == 4 {
            MoveFlag::Capture
        } else if v == 5 {
            MoveFlag::EnPassant
        } else if v == 8 {
            MoveFlag::PromoKnight
        } else if v == 9 {
            MoveFlag::PromoBishop
        } else if v == 10 {
            MoveFlag::PromoRook
        } else if v == 11 {
            MoveFlag::PromoQueen
        } else if v == 12 {
            MoveFlag::PromoKnightCapture
        } else if v == 13 {
            MoveFlag::PromoBishopCapture
        } else if v == 14 {
            MoveFlag::PromoRookCapture
        } else {
            MoveFlag::PromoQueenCapture
        }
    }
}

#[derive(Clone, Copy, PartialEq, Eq, Debug, Structural)]
pub struct Move(pub u16);

/// The move from `from` to `to` with flag code `code`.
pub open spec fn mk_move(from: int, to: int, code: u16) -> Move {
    Move((from + to * 64 + code * 4096) as u16)
}

/// Origin square (bits 0..6).
pub open spec fn mv_from(m: Move) -> int {
    (m.0 % 64) as int
}

/// Destination square (bits 6..12).
pub open spec fn mv_to(m: Move) -> int {
    ((m.0 / 64) % 64) as int
}

/// Flag code (bits 12..16).
pub open spec fn mv_code(m: Move) -> u16 {
    m.0 / 4096
}

pub open spec fn mv_flag(m: Move) -> MoveFlag {
    flag_of_code(mv_code(m))
}

/// The move's flag code names a flag.
pub open spec fn mv_ok(m: Move) -> bool {
    code_ok(mv_code(m))
}

pub open spec fn code_is_capture(v: u16) -> bool {
    v == 4 || v == 5 || v >= 12
}

/// Bit 2 of a flag code: set on every capture code (and on the unused codes
/// 6 and 7).
pub open spec fn code_cap_bit(v: u16) -> bool {
    v == 4 || v == 5 || v == 6 || v == 7 || v >= 12
}

pub open spec fn code_is_promotion(v: u16) -> bool {
    v >= 8
}

/// The promotion piece named by a promotion code.
pub open spec fn code_promotion(v: u16) -> Option<PieceType> {
    if v < 8 {
        None
    } else if v % 4 == 0 {
        Some(PieceType::Knight)
    } else if v % 4 == 1 {
        Some(PieceType::Bishop)
    } else if v % 4 == 2 {
        Some(PieceType::Rook)
    } else {
        Some(PieceType::Queen)
    }
}

/// UCI text of a move: origin, destination, and the promotion letter if any.
pub open spec fn uci_text(m: Move) -> Seq<char> {
    let base = square_name(mv_from(m)) + square_name(mv_to(m));
    match code_promotion(mv_code(m)) {
        Some(p) => base.push(kind_char(p)),
        None => base,
    }
}

/// The fields of a move built by `mk_move`.
pub proof fn lemma_mk_move(f: int, t: int, c: u16)
    requires
        0 <= f < 64,
        0 <= t < 64,
        c < 16,
    ensures
        mv_from(mk_move(f, t, c)) == f,
        mv_to(mk_move(f, t, c)) == t,
        mv_code(mk_move(f, t, c)) == c,
{
    let x = f + t * 64 + c * 4096;
    assert(0 <= x < 65536);
    assert(x % 64 == f && (x / 64) % 64 == t && x / 4096 == c) by (nonlinear_arith)
        requires
            0 <= f < 64,
            0 <= t < 64,
            0 <= c < 16,
            x == f + t * 64 + c * 4096,
    ;
}

proof fn lemma_move_fields(x: u16)
    ensures
        x & 0x3F == x % 64,
        (x >> 6u16) & 0x3F == (x / 64) % 64,
        x >> 12u16 == x / 4096,
        (x >> 12u16) & 4 != 0 <==> ((x / 4096) == 4 || (x / 4096) == 5 || (x / 4096) == 6 || (x
            / 4096) == 7 || (x / 4096) >= 12),
        (x >> 12u16) & 3 == (x / 4096) % 4,
{
    assert(x & 0x3F == x % 64) by (bit_vector);
    assert((x >> 6u16) & 0x3F == (x / 64) % 64) by (bit_vector);
    assert(x >> 12u16 == x / 4096) by (bit_vector);
    assert((x >> 12u16) & 4 != 0 <==> ((x / 4096) == 4 || (x / 4096) == 5 || (x / 4096) == 6 || (x
        / 4096) == 7 || (x / 4096) >= 12)) by (bit_vector);
    assert((x >> 12u16) & 3 == (x / 4096) % 4) by (bit_vector);
}

impl Move {
    #[inline]
    pub fn new(from: Square, to: Square, flag: MoveFlag) -> (r: Move)
        requires
            from.valid(),
            to.valid(),
        ensures
            mv_from(r) == from.0,
            mv_to(r) == to.0,
            mv_code(r) == flag_code(flag),
            mv_flag(r) == flag,
            mv_ok(r),
            r == mk_move(from.0 as int, to.0 as int, flag_code(flag)),
    {
        let c = flag.code();
        let f = from.0 as u16;
        let t = to.0 as u16;
        let x = f | (t << 6) | (c << 12);
        assert(x % 64 == f && (x / 64) % 64 == t && x / 4096 == c && x == f + t * 64 + c * 4096)
            by (bit_vector)
            requires
                f < 64,
                t < 64,
                c < 16,
                x == f | (t << 6u16) | (c << 12u16),
        ;
        Move(x)
    }

    #[inline]
    pub fn from(self) -> (r: Square)
        ensures
            r.0 == mv_from(self),
            r.valid(),
    {
        proof {
            lemma_move_fields(self.0);
        }
        Square((self.0 & 0x3F) as u8)
    }

    #[inline]
    pub fn to(self) -> (r: Square)
        ensures
            r.0 == mv_to(self),
            r.valid(),
    {
        proof {
            lemma_move_fields(self.0);
        }
        Square(((self.0 >> 6) & 0x3F) as u8)
    }

    #[inline]
    pub fn flag(self) -> (r: MoveFlag)
        requires
            mv_ok(self),
        ensures
            r == mv_flag(self),
    {
        proof {
            lemma_move_fields(self.0);
        }
        MoveFlag::from_u16(self.0 >> 12)
    }

    #[inline]
    pub fn is_capture(self) -> (r: bool)
        ensures
            mv_ok(self) ==> r == code_is_capture(mv_code(self)),
            r == code_cap_bit(mv_code(self)),
    {
        proof {
            lemma_move_fields(self.0);
        }
        (self.0 >> 12) & 0b0100 != 0
    }

    #[inline]
    pub fn is_promotion(self) -> (r: bool)
        ensures
            r == code_is_promotion(mv_code(self)),
    {
        proof {
            lemma_move_fields(self.0);
        }
        (self.0 >> 12) >= 8
    }

    #[inline]
    pub fn is_en_passant(self) -> (r: bool)
        requires
            mv_ok(self),
        ensures
            r == (mv_code(self) == 5),
    {
        self.flag() == MoveFlag::EnPassant
    }

    /// The piece a pawn promotes to, if this is a promotion.
    pub fn promotion(self) -> (r: Option<PieceType>)
        ensures
            r == code_promotion(mv_code(self)),
    {
        if !self.is_promotion() {
            return None;
        }
        proof {
            lemma_move_fields(self.0);
        }
        let low = (self.0 >> 12) & 0b11;
        Some(
            if low == 0 {
                PieceType::Knight
            } else if low == 1 {
                PieceType::Bishop
            } else if low == 2 {
                PieceType::Rook
            } else {
                PieceType::Queen
            },
        )
    }

    /// UCI string, e.g. "e2e4" or "e7e8q".
    pub fn to_uci(self) -> (r: String)
        ensures
            r@ == uci_text(self),
    {
        let mut s = self.from().to_string();
        let t = self.to().to_string();
        s.append(t.as_str());
        if let Some(p) = self.promotion() {
            push_char(&mut s, p.to_char());
        }
        s
    }
}

/// A list of moves, in the order they were added.
pub struct MoveList {
    moves: Vec<Move>,
}

impl View for MoveList {
    type V = Seq<Move>;

    closed spec fn view(&self) -> Seq<Move> {
        self.moves@
    }
}

impl MoveList {
    pub fn new() -> (r: MoveList)
        ensures
            r@ == Seq::<Move>::empty(),
    {
        MoveList { moves: Vec::new() }
    }

    #[inline]
    pub fn push(&mut self, m: Move)
        ensures
            final(self)@ == old(self)@.push(m),
    {
        self.moves.push(m);
    }

    #[inline]
    pub fn len(&self) -> (r: usize)
        ensures
            r == self@.len(),
    {
        self.moves.len()
    }

    #[inline]
    pub fn is_empty(&self) -> (r: bool)
        ensures
            r == (self@.len() == 0),
    {
        self.moves.len() == 0
    }

    #[inline]
    pub fn as_slice(&self) -> (r: &[Move])
        ensures
            r@ == self@,
    {
        self.moves.as_slice()
    }

    /// The moves, for reordering in place: what is written through the slice
    /// becomes the list.
    #[inline]
    pub fn as_mut_slice(&mut self) -> (r: &mut [Move])
        ensures
            r@ == old(self)@,
            final(self)@ == final(r)@,
    {
        self.moves.as_mut_slice()
    }

    /// The move at index `i`.
    #[inline]
    pub fn get(&self, i: usize) -> (r: Move)
        requires
            i < self@.len(),
        ensures
            r == self@[i as int],
    {
        self.moves[i]
    }

    /// The moves as a vector.
    pub fn to_vec(&self) -> (r: Vec<Move>)
        ensures
            r@ == self@,
    {
        self.moves.clone()
    }
}

impl Default for MoveList {
    fn default() -> (r: MoveList)
        ensures
            r@ == Seq::<Move>::empty(),
    {
        MoveList::new()
    }
}

} // verus!
