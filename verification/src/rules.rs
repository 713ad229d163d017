//! Game-ending conditions: checkmate, stalemate, and the draw rules.

use crate::bitboard::popcount;
use crate::position::{piece_mask, Position};
use crate::types::{file_of, rank_of, Color, Piece, PieceType};
use vstd::prelude::*;
use vstd::std_specs::bits::u64_trailing_zeros;

verus! {

#[derive(Clone, Copy, PartialEq, Eq, Debug, Structural)]
pub enum DrawReason {
    FiftyMove,
    Repetition,
    InsufficientMaterial,
}

#[derive(Clone, Copy, PartialEq, Eq, Debug, Structural)]
pub enum Status {
    Ongoing,
    /// The given color has been checkmated (it is the side to move and lost).
    Checkmate(Color),
    Stalemate,
    Draw(DrawReason),
}

impl Status {
    pub fn is_over(self) -> (r: bool)
        ensures
            r == !(self is Ongoing),
    {
        !matches!(self, Status::Ongoing)
    }
}

/// The color complex of a square: 0 for dark, 1 for light.
pub open spec fn square_shade(s: int) -> int {
    (file_of(s) + rank_of(s)) % 2
}

/// Neither side can force checkmate: no pawn, rook or queen on the board, and
/// at most one minor piece, or one bishop each on squares of one color.
pub open spec fn insufficient(b: Seq<Option<Piece>>) -> bool {
    let heavy = |c: Color|
        piece_mask(b, c, PieceType::Pawn) != 0 || piece_mask(b, c, PieceType::Rook) != 0
            || piece_mask(b, c, PieceType::Queen) != 0;
    let wn = popcount(piece_mask(b, Color::White, PieceType::Knight));
    let bn = popcount(piece_mask(b, Color::Black, PieceType::Knight));
    let wb = popcount(piece_mask(b, Color::White, PieceType::Bishop));
    let bb = popcount(piece_mask(b, Color::Black, PieceType::Bishop));
    if heavy(Color::White) || heavy(Color::Black) {
        false
    } else if wn + bn + wb + bb <= 1 {
        true
    } else {
        wn + bn == 0 && wb == 1 && bb == 1 && square_shade(
            u64_trailing_zeros(piece_mask(b, Color::White, PieceType::Bishop)) as int,
        ) == square_shade(u64_trailing_zeros(piece_mask(b, Color::Black, PieceType::Bishop)) as int)
    }
}

/// True when neither side has sufficient material to force checkmate.
pub fn insufficient_material(pos: &Position) -> (r: bool)
    requires
        pos.wf(),
    ensures
        r == insufficient(pos.board()),
{
    proof {
        pos.lemma_wf_bounds();
    }
    // Any pawn, rook, or queen means mate is possible.
    if pos.pieces(Color::White, PieceType::Pawn).any() || pos.pieces(Color::White, PieceType::Rook).any()
        || pos.pieces(Color::White, PieceType::Queen).any() {
        return false;
    }
    if pos.pieces(Color::Black, PieceType::Pawn).any() || pos.pieces(Color::Black, PieceType::Rook).any()
        || pos.pieces(Color::Black, PieceType::Queen).any() {
        return false;
    }
    let w_knights = pos.pieces(Color::White, PieceType::Knight);
    let b_knights = pos.pieces(Color::Black, PieceType::Knight);
    let w_bishops = pos.pieces(Color::White, PieceType::Bishop);
    let b_bishops = pos.pieces(Color::Black, PieceType::Bishop);
    let knights = w_knights.count() as u64 + b_knights.count() as u64;
    let bishops = w_bishops.count() as u64 + b_bishops.count() as u64;
    let minors = knights + bishops;

    // K vs K, and K+single-minor vs K.
    if minors <= 1 {
        return true;
    }

    // K+B vs K+B with both bishops on the same color complex.
    if knights == 0 && w_bishops.count() == 1 && b_bishops.count() == 1 {
        proof {
            if w_bishops.0 == 0 {
                assert(popcount(w_bishops.0) == 0);
            }
            if b_bishops.0 == 0 {
                assert(popcount(b_bishops.0) == 0);
            }
        }
        let wb = w_bishops.lsb();
        let bb = b_bishops.lsb();
        if (wb.file() + wb.rank()) % 2 == (bb.file() + bb.rank()) % 2 {
            return true;
        }
    }
    false
}

} // verus!
