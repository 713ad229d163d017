//! Non-sliding attack sets (pawn, knight, king), computed from the square.

use crate::bitboard::{bit, Bitboard, FILE_A, FILE_H};
use crate::types::{color_idx, file_of, rank_of, Color, Square};
use vstd::prelude::*;

verus! {

/// `t` is a king step away from `s`.
pub open spec fn king_target(s: int, t: int) -> bool {
    &&& 0 <= t < 64
    &&& s != t
    &&& -1 <= file_of(t) - file_of(s) <= 1
    &&& -1 <= rank_of(t) - rank_of(s) <= 1
}

/// `t` is a knight jump away from `s`.
pub open spec fn knight_target(s: int, t: int) -> bool {
    let df = file_of(t) - file_of(s);
    let dr = rank_of(t) - rank_of(s);
    &&& 0 <= t < 64
    &&& (((df == 1 || df == -1) && (dr == 2 || dr == -2)) || ((df == 2 || df == -2) && (dr == 1
        || dr == -1)))
}

/// `t` is diagonally in front of `s` for a pawn of color `c`.
pub open spec fn pawn_target(c: Color, s: int, t: int) -> bool {
    let df = file_of(t) - file_of(s);
    let dr = rank_of(t) - rank_of(s);
    &&& 0 <= t < 64
    &&& (df == 1 || df == -1)
    &&& dr == (if c == Color::White { 1int } else { -1int })
}

spec fn near(x: u64, y: u64) -> bool {
    x == y + 1 || y == x + 1 || x == y
}

spec fn off1(x: u64, y: u64) -> bool {
    x == y + 1 || y == x + 1
}

spec fn off2(x: u64, y: u64) -> bool {
    x == y + 2 || y == x + 2
}

spec fn knight_shifts(b: u64) -> u64 {
    let nh: u64 = !0x8080_8080_8080_8080u64;
    let na: u64 = !0x0101_0101_0101_0101u64;
    let n = b << 8u64;
    let s = b >> 8u64;
    (((n & nh) << 9u64)) | ((((n & nh) << 1u64) & nh) << 1u64) | ((((s & nh) << 1u64) & nh)
        << 1u64) | ((s & nh) >> 7u64) | ((s & na) >> 9u64) | ((((s & na) >> 1u64) & na) >> 1u64)
        | ((((n & na) >> 1u64) & na) >> 1u64) | ((n & na) << 7u64)
}

spec fn king_shifts(b: u64) -> u64 {
    let nh: u64 = !0x8080_8080_8080_8080u64;
    let na: u64 = !0x0101_0101_0101_0101u64;
    (b << 8u64) | (b >> 8u64) | ((b & nh) << 1u64) | ((b & na) >> 1u64) | ((b & nh) << 9u64) | ((
    b & na) << 7u64) | ((b & nh) >> 7u64) | ((b & na) >> 9u64)
}

proof fn lemma_file_rank_bits(s: u64)
    requires
        s < 64,
    ensures
        (s & 7) as int == file_of(s as int),
        (s >> 3u64) as int == rank_of(s as int),
{
    assert(s & 7 == s % 8) by (bit_vector);
    assert(s >> 3u64 == s / 8) by (bit_vector);
}

proof fn lemma_knight_bits(s: u64, t: u64)
    requires
        s < 64,
        t < 64,
    ensures
        bit(knight_shifts(1u64 << s), t) == knight_target(s as int, t as int),
{
    assert(bit(knight_shifts(1u64 << s), t) == ((off1(s & 7, t & 7) && off2(s >> 3u64, t >> 3u64))
        || (off2(s & 7, t & 7) && off1(s >> 3u64, t >> 3u64)))) by (bit_vector)
        requires
            s < 64,
            t < 64,
    ;
    lemma_file_rank_bits(s);
    lemma_file_rank_bits(t);
}

proof fn lemma_king_bits(s: u64, t: u64)
    requires
        s < 64,
        t < 64,
    ensures
        bit(king_shifts(1u64 << s), t) == king_target(s as int, t as int),
{
    assert(bit(king_shifts(1u64 << s), t) == (near(s & 7, t & 7) && near(s >> 3u64, t >> 3u64)
        && s != t)) by (bit_vector)
        requires
            s < 64,
            t < 64,
    ;
    lemma_file_rank_bits(s);
    lemma_file_rank_bits(t);
}

proof fn lemma_pawn_bits(s: u64, t: u64)
    requires
        s < 64,
        t < 64,
    ensures
        bit(
            (((1u64 << s) & !0x8080_8080_8080_8080u64) << 9u64) | (((1u64 << s)
                & !0x0101_0101_0101_0101u64) << 7u64),
            t,
        ) == pawn_target(Color::White, s as int, t as int),
        bit(
            (((1u64 << s) & !0x8080_8080_8080_8080u64) >> 7u64) | (((1u64 << s)
                & !0x0101_0101_0101_0101u64) >> 9u64),
            t,
        ) == pawn_target(Color::Black, s as int, t as int),
{
    assert(bit(
        (((1u64 << s) & !0x8080_8080_8080_8080u64) << 9u64) | (((1u64 << s)
            & !0x0101_0101_0101_0101u64) << 7u64),
        t,
    ) == (off1(s & 7, t & 7) && t >> 3u64 == (s >> 3u64) + 1)) by (bit_vector)
        requires
            s < 64,
            t < 64,
    ;
    assert(bit(
        (((1u64 << s) & !0x8080_8080_8080_8080u64) >> 7u64) | (((1u64 << s)
            & !0x0101_0101_0101_0101u64) >> 9u64),
        t,
    ) == (off1(s & 7, t & 7) && (t >> 3u64) + 1 == s >> 3u64)) by (bit_vector)
        requires
            s < 64,
            t < 64,
    ;
    lemma_file_rank_bits(s);
    lemma_file_rank_bits(t);
}

fn knight_from(b: Bitboard) -> (r: Bitboard)
    ensures
        r.0 == knight_shifts(b.0),
{
    let nne = b.north().north_east();
    let nee = b.north().east().east();
    let see = b.south().east().east();
    let sse = b.south().south_east();
    let ssw = b.south().south_west();
    let sww = b.south().west().west();
    let nww = b.north().west().west();
    let nnw = b.north().north_west();
    Bitboard(nne.0 | nee.0 | see.0 | sse.0 | ssw.0 | sww.0 | nww.0 | nnw.0)
}

fn king_from(b: Bitboard) -> (r: Bitboard)
    ensures
        r.0 == king_shifts(b.0),
{
    Bitboard(
        b.north().0 | b.south().0 | b.east().0 | b.west().0 | b.north_east().0 | b.north_west().0
            | b.south_east().0 | b.south_west().0,
    )
}

#[inline]
pub fn knight_attacks(sq: Square) -> (r: Bitboard)
    requires
        sq.valid(),
    ensures
        forall|t: u64| t < 64 ==> #[trigger] bit(r.0, t) == knight_target(sq.0 as int, t as int),
{
    let r = knight_from(Bitboard::from_square(sq));
    proof {
        assert forall|t: u64| t < 64 implies #[trigger] bit(r.0, t) == knight_target(
            sq.0 as int,
            t as int,
        ) by {
            lemma_knight_bits(sq.0 as u64, t);
        }
    }
    r
}

#[inline]
pub fn king_attacks(sq: Square) -> (r: Bitboard)
    requires
        sq.valid(),
    ensures
        forall|t: u64| t < 64 ==> #[trigger] bit(r.0, t) == king_target(sq.0 as int, t as int),
{
    let r = king_from(Bitboard::from_square(sq));
    proof {
        assert forall|t: u64| t < 64 implies #[trigger] bit(r.0, t) == king_target(
            sq.0 as int,
            t as int,
        ) by {
            lemma_king_bits(sq.0 as u64, t);
        }
    }
    r
}

#[inline]
pub fn pawn_attacks(color: Color, sq: Square) -> (r: Bitboard)
    requires
        sq.valid(),
    ensures
        forall|t: u64| t < 64 ==> #[trigger] bit(r.0, t) == pawn_target(color, sq.0 as int, t as int),
{
    let bb = Bitboard::from_square(sq);
    let r = match color {
        Color::White => Bitboard(bb.north_east().0 | bb.north_west().0),
        Color::Black => Bitboard(bb.south_east().0 | bb.south_west().0),
    };
    proof {
        assert forall|t: u64| t < 64 implies #[trigger] bit(r.0, t) == pawn_target(
            color,
            sq.0 as int,
            t as int,
        ) by {
            lemma_pawn_bits(sq.0 as u64, t);
        }
    }
    r
}

} // verus!
