//! Board state: piece bitboards + mailbox, plus make/unmake and attack queries.

use crate::attacks::{self, king_target, knight_target, pawn_target};
use crate::bitboard::{bit, lemma_bit_ops, lemma_bit_single, lemma_zero_iff_no_bits, Bitboard};
use crate::magic::{self, bishop_dirs, rook_dirs, slider_target};
use crate::moves::{
    code_is_capture, code_promotion, mv_code, mv_flag, mv_from, mv_ok, mv_to, Move, MoveFlag,
};
use crate::types::{
    color_idx, color_of, file_of, kind_idx, kind_of, other, rank_of, CastleRights, Color, Piece,
    PieceType, Square,
};
use crate::zobrist::{self, castling_key, ep_key, piece_key, side_key};
use vstd::prelude::*;
use vstd::std_specs::bits::u64_trailing_zeros;
use vstd::wrapping::u16_specs::wrapping_add;

verus! {

// ---------------------------------------------------------------------------
// The board model
// ---------------------------------------------------------------------------
/// Bitboard of the squares below `n` whose contents satisfy `f`.
pub open spec fn mask_upto(b: Seq<Option<Piece>>, f: spec_fn(Option<Piece>) -> bool, n: nat) -> u64
    decreases n,
{
    if n == 0 {
        0
    } else {
        mask_upto(b, f, (n - 1) as nat) | (if f(b[n - 1]) {
            1u64 << ((n - 1) as u64)
        } else {
            0u64
        })
    }
}

/// The square holds the given piece.
pub open spec fn is_piece(c: Color, k: PieceType) -> spec_fn(Option<Piece>) -> bool {
    |o: Option<Piece>| o == Some(Piece { color: c, kind: k })
}

/// The square holds a piece of color `c`.
pub open spec fn is_color(c: Color) -> spec_fn(Option<Piece>) -> bool {
    |o: Option<Piece>|
        match o {
            Some(p) => p.color == c,
            None => false,
        }
}

/// The square holds a piece.
pub open spec fn is_occupied() -> spec_fn(Option<Piece>) -> bool {
    |o: Option<Piece>| o is Some
}

/// Bitboard of the squares holding piece (`c`, `k`).
pub open spec fn piece_mask(b: Seq<Option<Piece>>, c: Color, k: PieceType) -> u64 {
    mask_upto(b, is_piece(c, k), 64)
}

/// Bitboard of the squares holding a piece of color `c`.
pub open spec fn color_mask(b: Seq<Option<Piece>>, c: Color) -> u64 {
    mask_upto(b, is_color(c), 64)
}

/// Bitboard of the occupied squares.
pub open spec fn occ_mask(b: Seq<Option<Piece>>) -> u64 {
    mask_upto(b, is_occupied(), 64)
}

/// Zobrist key of a square's contents.
pub open spec fn sq_key(o: Option<Piece>, s: int) -> u64 {
    match o {
        Some(p) => piece_key(p.color, p.kind, s),
        None => 0,
    }
}

/// XOR of the keys of the squares below `n`.
pub open spec fn board_hash(b: Seq<Option<Piece>>, n: nat) -> u64
    decreases n,
{
    if n == 0 {
        0
    } else {
        board_hash(b, (n - 1) as nat) ^ sq_key(b[n - 1], n - 1)
    }
}

pub open spec fn ep_part(ep: Option<Square>) -> u64 {
    match ep {
        Some(e) => ep_key(file_of(e.0 as int)),
        None => 0,
    }
}

pub open spec fn side_part(side: Color) -> u64 {
    if side == Color::Black {
        side_key()
    } else {
        0
    }
}

/// The Zobrist hash of a position: pieces, castling rights, en-passant file
/// and side to move.
pub open spec fn zobrist_of(b: Seq<Option<Piece>>, side: Color, rights: u8, ep: Option<Square>) -> u64 {
    board_hash(b, 64) ^ castling_key(rights as int) ^ ep_part(ep) ^ side_part(side)
}

/// The lowest square holding a king of color `c` (64 when there is none).
pub open spec fn king_of(b: Seq<Option<Piece>>, c: Color) -> int {
    u64_trailing_zeros(piece_mask(b, c, PieceType::King)) as int
}

/// Some square holds a king of color `c`.
pub open spec fn has_king(b: Seq<Option<Piece>>, c: Color) -> bool {
    exists|s: int| 0 <= s < 64 && b[s] == Some(Piece { color: c, kind: PieceType::King })
}

/// A pawn of color `by` on `a` attacks `s`.
pub open spec fn pawn_attacker(b: Seq<Option<Piece>>, s: int, by: Color, a: int) -> bool {
    b[a] == Some(Piece { color: by, kind: PieceType::Pawn }) && pawn_target(by, a, s)
}

/// A knight of color `by` on `a` attacks `s`.
pub open spec fn knight_attacker(b: Seq<Option<Piece>>, s: int, by: Color, a: int) -> bool {
    b[a] == Some(Piece { color: by, kind: PieceType::Knight }) && knight_target(a, s)
}

/// A king of color `by` on `a` attacks `s`.
pub open spec fn king_attacker(b: Seq<Option<Piece>>, s: int, by: Color, a: int) -> bool {
    b[a] == Some(Piece { color: by, kind: PieceType::King }) && king_target(a, s)
}

/// A bishop or queen of color `by` on `a` is in diagonal line of sight of `s`.
pub open spec fn diagonal_attacker(b: Seq<Option<Piece>>, s: int, by: Color, a: int) -> bool {
    (b[a] == Some(Piece { color: by, kind: PieceType::Bishop }) || b[a] == Some(
        Piece { color: by, kind: PieceType::Queen },
    )) && slider_target(s, a, occ_mask(b), bishop_dirs())
}

/// A rook or queen of color `by` on `a` is in straight line of sight of `s`.
pub open spec fn straight_attacker(b: Seq<Option<Piece>>, s: int, by: Color, a: int) -> bool {
    (b[a] == Some(Piece { color: by, kind: PieceType::Rook }) || b[a] == Some(
        Piece { color: by, kind: PieceType::Queen },
    )) && slider_target(s, a, occ_mask(b), rook_dirs())
}

/// A piece of color `by` on `a` attacks `s`.
pub open spec fn attacker_at(b: Seq<Option<Piece>>, s: int, by: Color, a: int) -> bool {
    ||| pawn_attacker(b, s, by, a)
    ||| knight_attacker(b, s, by, a)
    ||| king_attacker(b, s, by, a)
    ||| diagonal_attacker(b, s, by, a)
    ||| straight_attacker(b, s, by, a)
}

/// Square `s` is attacked by some piece of color `by`.
pub open spec fn attacked(b: Seq<Option<Piece>>, s: int, by: Color) -> bool {
    exists|a: int| 0 <= a < 64 && #[trigger] attacker_at(b, s, by, a)
}

/// The board after the piece on `from` moves to `to`.
pub open spec fn relocate(b: Seq<Option<Piece>>, from: int, to: int) -> Seq<Option<Piece>> {
    b.update(from, None).update(to, b[from])
}

// ---------------------------------------------------------------------------
// Bit-level lemmas about masks and hashes
// ---------------------------------------------------------------------------
/// The rules of `^` that hash updates rely on.
pub(crate) proof fn lemma_xor(a: u64, b: u64, c: u64)
    by (bit_vector)
    ensures
        a ^ 0u64 == a,
        0u64 ^ a == a,
        a ^ a == 0u64,
        0u64 | 0u64 == 0u64,
        (a ^ b) ^ b == a,
        (a ^ b) ^ c == (a ^ c) ^ b,
        (a ^ b) ^ (c ^ b) == a ^ c,
        a ^ b == 0u64 ==> a == b,
{
}

proof fn lemma_mask_no_high(b: Seq<Option<Piece>>, f: spec_fn(Option<Piece>) -> bool, n: nat, t: u64)
    requires
        n <= t < 64,
    ensures
        !bit(mask_upto(b, f, n), t),
    decreases n,
{
    if n > 0 {
        lemma_mask_no_high(b, f, (n - 1) as nat, t);
        let m = mask_upto(b, f, (n - 1) as nat);
        let u = (n - 1) as u64;
        assert(!bit(m | (1u64 << u), t) && !bit(m | 0u64, t)) by (bit_vector)
            requires
                !bit(m, t),
                u < t,
                t < 64,
        ;
    } else {
        assert(!bit(0u64, t)) by (bit_vector);
    }
}

/// Bit `t` of a mask tells whether square `t` satisfies the predicate.
pub proof fn lemma_mask_bit(b: Seq<Option<Piece>>, f: spec_fn(Option<Piece>) -> bool, n: nat, t: u64)
    requires
        n <= 64,
        t < n,
    ensures
        bit(mask_upto(b, f, n), t) == f(b[t as int]),
    decreases n,
{
    let m = mask_upto(b, f, (n - 1) as nat);
    let u = (n - 1) as u64;
    if t == u {
        lemma_mask_no_high(b, f, (n - 1) as nat, t);
        assert(bit(m | (1u64 << u), t) && !bit(m | 0u64, t)) by (bit_vector)
            requires
                !bit(m, t),
                u == t,
                t < 64,
        ;
    } else {
        lemma_mask_bit(b, f, (n - 1) as nat, t);
        assert(bit(m | (1u64 << u), t) == bit(m, t) && bit(m | 0u64, t) == bit(m, t))
            by (bit_vector)
            requires
                u != t,
                u < 64,
                t < 64,
        ;
    }
}

/// Changing one square changes one bit of a mask.
proof fn lemma_mask_update(
    b: Seq<Option<Piece>>,
    f: spec_fn(Option<Piece>) -> bool,
    s: int,
    x: Option<Piece>,
    n: nat,
)
    requires
        b.len() == 64,
        0 <= s < 64,
        n <= 64,
    ensures
        mask_upto(b.update(s, x), f, n) == (if n <= s {
            mask_upto(b, f, n)
        } else if f(x) {
            mask_upto(b, f, n) | (1u64 << (s as u64))
        } else {
            mask_upto(b, f, n) & !(1u64 << (s as u64))
        }),
    decreases n,
{
    let b2 = b.update(s, x);
    if n == 0 {
    } else if n <= s {
        lemma_mask_update(b, f, s, x, (n - 1) as nat);
    } else {
        lemma_mask_update(b, f, s, x, (n - 1) as nat);
        let m = mask_upto(b, f, (n - 1) as nat);
        let u = (n - 1) as u64;
        let bs = s as u64;
        let t_old = if f(b[n - 1]) {
            1u64 << u
        } else {
            0u64
        };
        let t_new = if f(b2[n - 1]) {
            1u64 << u
        } else {
            0u64
        };
        if u == bs {
            lemma_mask_no_high(b, f, (n - 1) as nat, bs);
            assert(m == mask_upto(b2, f, (n - 1) as nat));
            assert((m | (1u64 << bs)) == ((m | t_old) | (1u64 << bs)) && (m | 0u64) == ((m | t_old)
                & !(1u64 << bs))) by (bit_vector)
                requires
                    !bit(m, bs),
                    bs < 64,
                    t_old == 0u64 || t_old == 1u64 << bs,
            ;
        } else {
            assert(t_old == t_new);
            assert(((m | (1u64 << bs)) | t_old) == ((m | t_old) | (1u64 << bs)) && ((m & !(1u64
                << bs)) | t_old) == ((m | t_old) & !(1u64 << bs))) by (bit_vector)
                requires
                    bs < 64,
                    u < 64,
                    u != bs,
                    t_old == 0u64 || t_old == 1u64 << u,
            ;
        }
    }
}

/// Changing one square toggles the old and the new key into the board hash.
proof fn lemma_hash_update(b: Seq<Option<Piece>>, s: int, x: Option<Piece>, n: nat)
    requires
        b.len() == 64,
        0 <= s < 64,
        n <= 64,
    ensures
        board_hash(b.update(s, x), n) == (if n <= s {
            board_hash(b, n)
        } else {
            board_hash(b, n) ^ sq_key(b[s], s) ^ sq_key(x, s)
        }),
    decreases n,
{
    if n == 0 {
    } else {
        lemma_hash_update(b, s, x, (n - 1) as nat);
        let b2 = b.update(s, x);
        let h = board_hash(b, (n - 1) as nat);
        let a = sq_key(b[s], s);
        let c = sq_key(x, s);
        let k = sq_key(b[n - 1], n - 1);
        if n - 1 == s {
            assert(h ^ c == ((h ^ a) ^ a) ^ c) by {
                lemma_xor(h, a, c);
            }
        } else if n - 1 > s {
            assert(b2[n - 1] == b[n - 1]);
            assert(((h ^ a) ^ c) ^ k == ((h ^ k) ^ a) ^ c) by {
                lemma_xor(h ^ a, c, k);
                lemma_xor(h, a, k);
            }
        }
    }
}

/// The bits of a piece mask are the squares holding that piece.
pub proof fn lemma_piece_mask_bit(b: Seq<Option<Piece>>, c: Color, k: PieceType, t: u64)
    requires
        t < 64,
    ensures
        bit(piece_mask(b, c, k), t) == (b[t as int] == Some(Piece { color: c, kind: k })),
{
    lemma_mask_bit(b, is_piece(c, k), 64, t);
}

/// The bits of a color mask are the squares holding a piece of that color.
pub proof fn lemma_color_mask_bit(b: Seq<Option<Piece>>, c: Color, t: u64)
    requires
        t < 64,
    ensures
        bit(color_mask(b, c), t) == (b[t as int] matches Some(p) && p.color == c),
{
    lemma_mask_bit(b, is_color(c), 64, t);
}

/// The bits of the occupancy mask are the occupied squares.
pub proof fn lemma_occ_mask_bit(b: Seq<Option<Piece>>, t: u64)
    requires
        t < 64,
    ensures
        bit(occ_mask(b), t) == (b[t as int] is Some),
{
    lemma_mask_bit(b, is_occupied(), 64, t);
}

/// The occupancy mask is the union of the two color masks.
proof fn lemma_occ_is_union(b: Seq<Option<Piece>>)
    ensures
        occ_mask(b) == color_mask(b, Color::White) | color_mask(b, Color::Black),
{
    let w = color_mask(b, Color::White);
    let k = color_mask(b, Color::Black);
    let o = occ_mask(b);
    assert forall|t: u64| t < 64 implies #[trigger] bit(o, t) == bit(w | k, t) by {
        lemma_occ_mask_bit(b, t);
        lemma_color_mask_bit(b, Color::White, t);
        lemma_color_mask_bit(b, Color::Black, t);
        lemma_bit_ops(w, k, t);
    }
    lemma_eq_by_bits(o, w | k);
}

/// Two words with the same 64 bits are equal.
pub proof fn lemma_eq_by_bits(x: u64, y: u64)
    requires
        forall|t: u64| t < 64 ==> #[trigger] bit(x, t) == bit(y, t),
    ensures
        x == y,
{
    let d = x ^ y;
    assert forall|t: u64| t < 64 implies !#[trigger] bit(d, t) by {
        lemma_bit_ops(x, y, t);
        assert(bit(x, t) == bit(y, t));
    }
    lemma_zero_iff_no_bits(d);
    lemma_xor(x, y, 0);
}

/// The piece on file `f` of each side's back rank at the start.
pub open spec fn back_rank_kind(f: int) -> PieceType {
    if f == 0 || f == 7 {
        PieceType::Rook
    } else if f == 1 || f == 6 {
        PieceType::Knight
    } else if f == 2 || f == 5 {
        PieceType::Bishop
    } else if f == 3 {
        PieceType::Queen
    } else {
        PieceType::King
    }
}

/// The piece on square `i` in the initial position.
pub open spec fn start_piece(i: int) -> Option<Piece> {
    if i < 8 {
        Some(Piece { color: Color::White, kind: back_rank_kind(i) })
    } else if i < 16 {
        Some(Piece { color: Color::White, kind: PieceType::Pawn })
    } else if i < 48 {
        None
    } else if i < 56 {
        Some(Piece { color: Color::Black, kind: PieceType::Pawn })
    } else {
        Some(Piece { color: Color::Black, kind: back_rank_kind(i - 56) })
    }
}

/// The squares of the initial position.
pub open spec fn start_board() -> Seq<Option<Piece>> {
    Seq::new(64, |i: int| start_piece(i))
}

fn start_piece_at(i: u8) -> (r: Option<Piece>)
    requires
        i < 64,
    ensures
        r == start_piece(i as int),
{
    let (color, f) = if i < 16 {
        (Color::White, i % 8)
    } else if i >= 48 {
        (Color::Black, i % 8)
    } else {
        return None;
    };
    if (8 <= i && i < 16) || (48 <= i && i < 56) {
        return Some(Piece { color, kind: PieceType::Pawn });
    }
    let kind = if f == 0 || f == 7 {
        PieceType::Rook
    } else if f == 1 || f == 6 {
        PieceType::Knight
    } else if f == 2 || f == 5 {
        PieceType::Bishop
    } else if f == 3 {
        PieceType::Queen
    } else {
        PieceType::King
    };
    Some(Piece { color, kind })
}

// ---------------------------------------------------------------------------
// Position
// ---------------------------------------------------------------------------
#[derive(Clone, Copy)]
pub struct Position {
    pieces: [Bitboard; 12],  // [color * 6 + piece]
    color_bb: [Bitboard; 2],
    mailbox: [Option<Piece>; 64],
    side: Color,
    castling: CastleRights,
    ep: Option<Square>,
    halfmove: u16,
    fullmove: u16,
    hash: u64,
}

impl Position {
    /// The contents of the 64 squares.
    pub closed spec fn board(self) -> Seq<Option<Piece>> {
        self.mailbox@
    }

    pub closed spec fn stm(self) -> Color {
        self.side
    }

    pub closed spec fn rights(self) -> u8 {
        self.castling.0
    }

    pub closed spec fn ep_sq(self) -> Option<Square> {
        self.ep
    }

    pub closed spec fn half(self) -> u16 {
        self.halfmove
    }

    pub closed spec fn full(self) -> u16 {
        self.fullmove
    }

    pub closed spec fn hash_val(self) -> u64 {
        self.hash
    }

    /// The bitboards agree with the mailbox.
    pub closed spec fn bb_ok(self) -> bool {
        &&& forall|i: int|
            0 <= i < 12 ==> (#[trigger] self.pieces[i]).0 == piece_mask(
                self.mailbox@,
                color_of(i / 6),
                kind_of(i % 6),
            )
        &&& self.color_bb[0].0 == color_mask(self.mailbox@, Color::White)
        &&& self.color_bb[1].0 == color_mask(self.mailbox@, Color::Black)
    }

    /// Bitboards consistent with the mailbox, castling rights in 4 bits, a
    /// valid en-passant square, and the hash is the Zobrist hash of the
    /// position.
    pub closed spec fn wf(self) -> bool {
        &&& self.bb_ok()
        &&& self.castling.0 < 16
        &&& (self.ep matches Some(e) ==> e.0 < 64)
        &&& self.hash == zobrist_of(self.mailbox@, self.side, self.castling.0, self.ep)
    }

    /// As `wf`, except that the hash covers the pieces only (a position being
    /// set up, before its scalar state is hashed in).
    pub closed spec fn placement_ok(self) -> bool {
        &&& self.bb_ok()
        &&& self.castling.0 < 16
        &&& (self.ep matches Some(e) ==> e.0 < 64)
        &&& self.hash == board_hash(self.mailbox@, 64)
    }

    /// A position being set up has consistent bitboards.
    pub proof fn lemma_placement_bb(self)
        requires
            self.placement_ok(),
        ensures
            self.bb_ok(),
    {
    }

    /// The board has 64 squares.
    pub proof fn lemma_board_len(self)
        ensures
            self.board().len() == 64,
    {
    }

    /// A well-formed position's castling rights fit in 4 bits and its
    /// en-passant square is on the board.
    pub proof fn lemma_wf_bounds(self)
        requires
            self.wf(),
        ensures
            self.bb_ok(),
            self.rights() < 16,
            self.ep_sq() matches Some(e) ==> e.valid(),
            self.hash_val() == zobrist_of(self.board(), self.stm(), self.rights(), self.ep_sq()),
    {
    }

    /// Well-formed positions with the same squares and scalar state are
    /// identical.
    pub proof fn lemma_wf_ext(self, other: Position)
        requires
            self.wf(),
            other.wf(),
            self.board() == other.board(),
            self.stm() == other.stm(),
            self.rights() == other.rights(),
            self.ep_sq() == other.ep_sq(),
            self.half() == other.half(),
            self.full() == other.full(),
        ensures
            self == other,
    {
        assert(self.pieces =~= other.pieces) by {
            assert forall|i: int| 0 <= i < 12 implies self.pieces[i] == other.pieces[i] by {
                assert((self.pieces[i]).0 == (other.pieces[i]).0);
            }
        }
        assert(self.color_bb =~= other.color_bb) by {
            assert(self.color_bb[0].0 == other.color_bb[0].0);
            assert(self.color_bb[1].0 == other.color_bb[1].0);
        }
        assert(self.mailbox =~= other.mailbox);
        assert(self.castling == other.castling);
    }

    #[verifier::spinoff_prover]
    pub fn empty() -> (r: Position)
        ensures
            r.placement_ok(),
            r.board() == Seq::new(64, |i: int| None::<Piece>),
            r.stm() == Color::White,
            r.rights() == 0,
            r.ep_sq() is None,
            r.half() == 0,
            r.full() == 1,
            r.hash_val() == 0,
    {
        let r = Position {
            pieces: [Bitboard(0); 12],
            color_bb: [Bitboard(0); 2],
            mailbox: vstd::array::array_fill_for_copy_types(None),
            side: Color::White,
            castling: CastleRights::none(),
            ep: None,
            halfmove: 0,
            fullmove: 1,
            hash: 0,
        };
        proof {
            broadcast use vstd::array::group_array_axioms;

            let b = r.mailbox@;
            assert forall|i: int| 0 <= i < 64 implies b[i] == None::<Piece> by {}
            assert(b =~= Seq::new(64, |i: int| None::<Piece>));
            assert forall|f: spec_fn(Option<Piece>) -> bool, n: nat|
                n <= 64 && !f(None) implies #[trigger] mask_upto(b, f, n) == 0 by {
                lemma_empty_mask(b, f, n);
            }
            assert forall|i: int| 0 <= i < 12 implies (#[trigger] r.pieces[i]).0 == piece_mask(
                b,
                color_of(i / 6),
                kind_of(i % 6),
            ) by {
                assert(mask_upto(b, is_piece(color_of(i / 6), kind_of(i % 6)), 64) == 0);
            }
            assert(mask_upto(b, is_color(Color::White), 64) == 0);
            assert(mask_upto(b, is_color(Color::Black), 64) == 0);
            lemma_empty_hash(b, 64);
        }
        r
    }

    /// The initial position: White to move, all castling rights, no
    /// en-passant square, clocks 0 and 1.
    pub fn start() -> (r: Position)
        ensures
            r.wf(),
            r.board() == start_board(),
            r.stm() == Color::White,
            r.rights() == 15,
            r.ep_sq() is None,
            r.half() == 0,
            r.full() == 1,
    {
        let mut pos = Position::empty();
        let mut i: u8 = 0;
        while i < 64
            invariant
                i <= 64,
                pos.placement_ok(),
                pos.stm() == Color::White,
                pos.rights() == 0,
                pos.ep_sq() is None,
                pos.board().len() == 64,
                forall|s: int| 0 <= s < 64 ==> pos.board()[s] == if s < i {
                    start_piece(s)
                } else {
                    None
                },
            decreases 64 - i,
        {
            match start_piece_at(i) {
                Some(p) => {
                    proof {
                        pos.lemma_placement_bb();
                    }
                    pos.add_piece(p.color, p.kind, Square(i));
                },
                None => {},
            }
            i = i + 1;
        }
        pos.set_state(Color::White, CastleRights(15), None, 0, 1);
        assert(pos.board() =~= start_board());
        pos
    }

    // --- accessors -------------------------------------------------------
    #[inline]
    pub fn side_to_move(&self) -> (r: Color)
        ensures
            r == self.stm(),
    {
        self.side
    }

    #[inline]
    pub fn castling(&self) -> (r: CastleRights)
        ensures
            r.0 == self.rights(),
    {
        self.castling
    }

    #[inline]
    pub fn ep_square(&self) -> (r: Option<Square>)
        ensures
            r == self.ep_sq(),
    {
        self.ep
    }

    #[inline]
    pub fn halfmove_clock(&self) -> (r: u16)
        ensures
            r == self.half(),
    {
        self.halfmove
    }

    #[inline]
    pub fn fullmove_number(&self) -> (r: u16)
        ensures
            r == self.full(),
    {
        self.fullmove
    }

    #[inline]
    pub fn hash(&self) -> (r: u64)
        ensures
            r == self.hash_val(),
    {
        self.hash
    }

    #[inline]
    pub fn piece_on(&self, sq: Square) -> (r: Option<Piece>)
        requires
            sq.valid(),
        ensures
            r == self.board()[sq.0 as int],
    {
        self.mailbox[sq.index()]
    }

    #[inline]
    pub fn pieces(&self, color: Color, kind: PieceType) -> (r: Bitboard)
        requires
            self.bb_ok(),
        ensures
            r.0 == piece_mask(self.board(), color, kind),
    {
        let i = color.index() * 6 + kind.index();
        assert(color_of(i as int / 6) == color && kind_of(i as int % 6) == kind);
        self.pieces[i]
    }

    #[inline]
    pub fn color_occupancy(&self, color: Color) -> (r: Bitboard)
        requires
            self.bb_ok(),
        ensures
            r.0 == color_mask(self.board(), color),
    {
        self.color_bb[color.index()]
    }

    #[inline]
    pub fn occupancy(&self) -> (r: Bitboard)
        requires
            self.bb_ok(),
        ensures
            r.0 == occ_mask(self.board()),
    {
        proof {
            lemma_occ_is_union(self.mailbox@);
        }
        Bitboard(self.color_bb[0].0 | self.color_bb[1].0)
    }

    #[inline]
    pub fn king_square(&self, color: Color) -> (r: Square)
        requires
            self.bb_ok(),
            has_king(self.board(), color),
        ensures
            r.valid(),
            r.0 == king_of(self.board(), color),
            self.board()[r.0 as int] == Some(Piece { color, kind: PieceType::King }),
    {
        let kings = self.pieces(color, PieceType::King);
        proof {
            let s = choose|s: int|
                0 <= s < 64 && self.board()[s] == Some(Piece { color, kind: PieceType::King });
            lemma_piece_mask_bit(self.board(), color, PieceType::King, s as u64);
            lemma_zero_iff_no_bits(kings.0);
        }
        let r = kings.lsb();
        proof {
            lemma_piece_mask_bit(self.board(), color, PieceType::King, r.0 as u64);
        }
        r
    }
}

/// When a color has a king, `king_of` names a square holding one.
pub proof fn lemma_king_of(b: Seq<Option<Piece>>, c: Color)
    requires
        b.len() == 64,
        has_king(b, c),
    ensures
        0 <= king_of(b, c) < 64,
        b[king_of(b, c)] == Some(Piece { color: c, kind: PieceType::King }),
{
    let m = piece_mask(b, c, PieceType::King);
    let s = choose|s: int| 0 <= s < 64 && b[s] == Some(Piece { color: c, kind: PieceType::King });
    lemma_piece_mask_bit(b, c, PieceType::King, s as u64);
    lemma_zero_iff_no_bits(m);
    vstd::std_specs::bits::axiom_u64_trailing_zeros(m);
    let t = u64_trailing_zeros(m) as u64;
    assert(bit(m, t));
    lemma_piece_mask_bit(b, c, PieceType::King, t);
}

/// Pawn, knight and king steps read the same from either end.
proof fn lemma_step_symmetry(by: Color, a: int, s: int)
    requires
        0 <= a < 64,
        0 <= s < 64,
    ensures
        pawn_target(other(by), s, a) == pawn_target(by, a, s),
        knight_target(s, a) == knight_target(a, s),
        king_target(s, a) == king_target(a, s),
{
}

proof fn lemma_and_nonzero(x: u64, y: u64)
    ensures
        (x & y != 0) == exists|a: u64| a < 64 && #[trigger] bit(x, a) && bit(y, a),
{
    lemma_zero_iff_no_bits(x & y);
    if x & y != 0 {
        let a = choose|a: u64| a < 64 && #[trigger] bit(x & y, a);
        lemma_bit_ops(x, y, a);
    } else {
        assert forall|a: u64| a < 64 implies !(#[trigger] bit(x, a) && bit(y, a)) by {
            lemma_bit_ops(x, y, a);
        }
    }
}

/// Clearing a bit that is already clear changes nothing.
proof fn lemma_clear_clear(m: u64, s: u64)
    requires
        s < 64,
        !bit(m, s),
    ensures
        m & !(1u64 << s) == m,
{
    assert(m & !(1u64 << s) == m) by (bit_vector)
        requires
            s < 64,
            !bit(m, s),
    ;
}

/// Toggling a set bit clears it.
proof fn lemma_xor_set(m: u64, s: u64)
    requires
        s < 64,
        bit(m, s),
    ensures
        m ^ (1u64 << s) == m & !(1u64 << s),
{
    assert(m ^ (1u64 << s) == m & !(1u64 << s)) by (bit_vector)
        requires
            s < 64,
            bit(m, s),
    ;
}

impl Position {
    // --- low-level piece mutation (keeps bitboards, mailbox, hash in sync) --
    pub(crate) fn add_piece(&mut self, color: Color, kind: PieceType, sq: Square)
        requires
            old(self).bb_ok(),
            sq.valid(),
            old(self).board()[sq.0 as int] is None,
        ensures
            final(self).bb_ok(),
            final(self).board() == old(self).board().update(
                sq.0 as int,
                Some(Piece { color, kind }),
            ),
            final(self).hash_val() == old(self).hash_val() ^ piece_key(color, kind, sq.0 as int),
            final(self).hash_val() ^ board_hash(final(self).board(), 64) == old(self).hash_val()
                ^ board_hash(old(self).board(), 64),
            old(self).placement_ok() ==> final(self).placement_ok(),
            final(self).stm() == old(self).stm(),
            final(self).rights() == old(self).rights(),
            final(self).ep_sq() == old(self).ep_sq(),
            final(self).half() == old(self).half(),
            final(self).full() == old(self).full(),
    {
        let ghost b = self.mailbox@;
        let ghost s = sq.0 as int;
        let ghost x = Some(Piece { color, kind });
        let ghost old_pieces = self.pieces;
        let bb = Bitboard::from_square(sq);
        let i = color.index() * 6 + kind.index();
        self.pieces[i] = Bitboard(self.pieces[i].0 | bb.0);
        let ci = color.index();
        self.color_bb[ci] = Bitboard(self.color_bb[ci].0 | bb.0);
        self.mailbox[sq.index()] = Some(Piece::new(color, kind));
        self.hash = self.hash ^ zobrist::piece(color, kind, sq);
        proof {
            let b2 = self.mailbox@;
            assert(b2 =~= b.update(s, x));
            assert forall|j: int| 0 <= j < 12 implies (#[trigger] self.pieces[j]).0 == piece_mask(
                b2,
                color_of(j / 6),
                kind_of(j % 6),
            ) by {
                let f = is_piece(color_of(j / 6), kind_of(j % 6));
                lemma_mask_update(b, f, s, x, 64);
                if j != i {
                    lemma_mask_bit(b, f, 64, s as u64);
                    lemma_clear_clear(mask_upto(b, f, 64), s as u64);
                }
            }
            lemma_mask_update(b, is_color(Color::White), s, x, 64);
            lemma_mask_update(b, is_color(Color::Black), s, x, 64);
            lemma_mask_bit(b, is_color(Color::White), 64, s as u64);
            lemma_mask_bit(b, is_color(Color::Black), 64, s as u64);
            if color == Color::White {
                lemma_clear_clear(color_mask(b, Color::Black), s as u64);
            } else {
                lemma_clear_clear(color_mask(b, Color::White), s as u64);
            }
            lemma_hash_update(b, s, x, 64);
            let h0 = old(self).hash;
            let bh = board_hash(b, 64);
            let k = piece_key(color, kind, s);
            assert((h0 ^ k) ^ ((bh ^ 0u64) ^ k) == h0 ^ bh) by {
                lemma_xor(bh, 0, 0);
                lemma_xor(h0, k, bh);
            }
            lemma_xor(h0, bh, 0);
            lemma_xor(self.hash, board_hash(b2, 64), 0);
        }
    }

    /// Completes a position being set up: records the side to move, castling
    /// rights, en-passant square and clocks, and hashes them in.
    pub(crate) fn set_state(
        &mut self,
        side: Color,
        castling: CastleRights,
        ep: Option<Square>,
        half: u16,
        full: u16,
    )
        requires
            old(self).placement_ok(),
            castling.0 < 16,
            ep matches Some(e) ==> e.valid(),
        ensures
            final(self).wf(),
            final(self).board() == old(self).board(),
            final(self).stm() == side,
            final(self).rights() == castling.0,
            final(self).ep_sq() == ep,
            final(self).half() == half,
            final(self).full() == full,
    {
        let ghost bh = board_hash(self.mailbox@, 64);
        let ck = zobrist::castling(castling.0);
        let mut h = self.hash ^ ck;
        let ek: u64 = match ep {
            Some(e) => zobrist::ep_file(e.file()),
            None => 0,
        };
        h = h ^ ek;
        let sk: u64 = if side == Color::Black {
            zobrist::side_to_move()
        } else {
            0
        };
        h = h ^ sk;
        self.side = side;
        self.castling = castling;
        self.ep = ep;
        self.halfmove = half;
        self.fullmove = full;
        self.hash = h;
    }

    pub(crate) fn remove_piece(&mut self, sq: Square)
        requires
            old(self).bb_ok(),
            sq.valid(),
            old(self).board()[sq.0 as int] is Some,
        ensures
            final(self).bb_ok(),
            final(self).board() == old(self).board().update(sq.0 as int, None),
            final(self).hash_val() == old(self).hash_val() ^ sq_key(
                old(self).board()[sq.0 as int],
                sq.0 as int,
            ),
            final(self).hash_val() ^ board_hash(final(self).board(), 64) == old(self).hash_val()
                ^ board_hash(old(self).board(), 64),
            final(self).stm() == old(self).stm(),
            final(self).rights() == old(self).rights(),
            final(self).ep_sq() == old(self).ep_sq(),
            final(self).half() == old(self).half(),
            final(self).full() == old(self).full(),
    {
        let ghost b = self.mailbox@;
        let ghost s = sq.0 as int;
        let p = self.mailbox[sq.index()].unwrap();
        let bb = Bitboard::from_square(sq);
        let i = p.color.index() * 6 + p.kind.index();
        proof {
            lemma_piece_mask_bit(b, p.color, p.kind, s as u64);
            lemma_color_mask_bit(b, p.color, s as u64);
            assert(color_of(i as int / 6) == p.color && kind_of(i as int % 6) == p.kind);
        }
        self.pieces[i] = Bitboard(self.pieces[i].0 ^ bb.0);
        let ci = p.color.index();
        self.color_bb[ci] = Bitboard(self.color_bb[ci].0 ^ bb.0);
        self.mailbox[sq.index()] = None;
        self.hash = self.hash ^ zobrist::piece(p.color, p.kind, sq);
        proof {
            let b2 = self.mailbox@;
            assert(b2 =~= b.update(s, None));
            assert forall|j: int| 0 <= j < 12 implies (#[trigger] self.pieces[j]).0 == piece_mask(
                b2,
                color_of(j / 6),
                kind_of(j % 6),
            ) by {
                let f = is_piece(color_of(j / 6), kind_of(j % 6));
                lemma_mask_update(b, f, s, None, 64);
                lemma_mask_bit(b, f, 64, s as u64);
                if j != i {
                    lemma_clear_clear(mask_upto(b, f, 64), s as u64);
                } else {
                    lemma_xor_set(mask_upto(b, f, 64), s as u64);
                }
            }
            lemma_mask_update(b, is_color(Color::White), s, None, 64);
            lemma_mask_update(b, is_color(Color::Black), s, None, 64);
            lemma_mask_bit(b, is_color(Color::White), 64, s as u64);
            lemma_mask_bit(b, is_color(Color::Black), 64, s as u64);
            if p.color == Color::White {
                lemma_clear_clear(color_mask(b, Color::Black), s as u64);
                lemma_xor_set(color_mask(b, Color::White), s as u64);
            } else {
                lemma_clear_clear(color_mask(b, Color::White), s as u64);
                lemma_xor_set(color_mask(b, Color::Black), s as u64);
            }
            lemma_hash_update(b, s, None, 64);
            let h0 = old(self).hash;
            let bh = board_hash(b, 64);
            let k = piece_key(p.color, p.kind, s);
            assert((h0 ^ k) ^ ((bh ^ k) ^ 0u64) == h0 ^ bh) by {
                lemma_xor(bh ^ k, 0, 0);
                lemma_xor(h0, k, bh);
            }
        }
    }

    fn move_piece(&mut self, from: Square, to: Square)
        requires
            old(self).bb_ok(),
            from.valid(),
            to.valid(),
            old(self).board()[from.0 as int] is Some,
            from == to || old(self).board()[to.0 as int] is None,
        ensures
            final(self).bb_ok(),
            final(self).board() == relocate(old(self).board(), from.0 as int, to.0 as int),
            final(self).hash_val() ^ board_hash(final(self).board(), 64) == old(self).hash_val()
                ^ board_hash(old(self).board(), 64),
            final(self).stm() == old(self).stm(),
            final(self).rights() == old(self).rights(),
            final(self).ep_sq() == old(self).ep_sq(),
            final(self).half() == old(self).half(),
            final(self).full() == old(self).full(),
    {
        let ghost b = self.mailbox@;
        let p = self.mailbox[from.index()].unwrap();
        self.remove_piece(from);
        self.add_piece(p.color, p.kind, to);
        proof {
            assert(self.mailbox@ =~= relocate(b, from.0 as int, to.0 as int));
        }
    }

    // --- attack queries --------------------------------------------------
    /// Is `sq` attacked by any piece of color `by`?
    #[verifier::spinoff_prover]
    pub fn is_attacked(&self, sq: Square, by: Color) -> (r: bool)
        requires
            self.bb_ok(),
            sq.valid(),
        ensures
            r == attacked(self.board(), sq.0 as int, by),
    {
        let ghost b = self.board();
        let ghost s = sq.0 as int;
        let pa = attacks::pawn_attacks(by.opp(), sq);
        let pp = self.pieces(by, PieceType::Pawn);
        let na = attacks::knight_attacks(sq);
        let np = self.pieces(by, PieceType::Knight);
        let ka = attacks::king_attacks(sq);
        let kp = self.pieces(by, PieceType::King);
        let occ = self.occupancy();
        let bishops = Bitboard(
            self.pieces(by, PieceType::Bishop).0 | self.pieces(by, PieceType::Queen).0,
        );
        let rooks = Bitboard(
            self.pieces(by, PieceType::Rook).0 | self.pieces(by, PieceType::Queen).0,
        );
        let ba = magic::bishop_attacks(sq, occ);
        let ra = magic::rook_attacks(sq, occ);
        let r1 = (pa.0 & pp.0) != 0;
        let r2 = (na.0 & np.0) != 0;
        let r3 = (ka.0 & kp.0) != 0;
        let r4 = (ba.0 & bishops.0) != 0;
        let r5 = (ra.0 & rooks.0) != 0;
        proof {
            lemma_and_nonzero(pa.0, pp.0);
            lemma_and_nonzero(na.0, np.0);
            lemma_and_nonzero(ka.0, kp.0);
            lemma_and_nonzero(ba.0, bishops.0);
            lemma_and_nonzero(ra.0, rooks.0);
            assert forall|a: u64|
                #![trigger bit(pa.0, a)]
                #![trigger bit(na.0, a)]
                #![trigger bit(ka.0, a)]
                #![trigger bit(ba.0, a)]
                #![trigger bit(ra.0, a)]
                a < 64 implies {
                &&& (bit(pa.0, a) && bit(pp.0, a)) == pawn_attacker(b, s, by, a as int)
                &&& (bit(na.0, a) && bit(np.0, a)) == knight_attacker(b, s, by, a as int)
                &&& (bit(ka.0, a) && bit(kp.0, a)) == king_attacker(b, s, by, a as int)
                &&& (bit(ba.0, a) && bit(bishops.0, a)) == diagonal_attacker(b, s, by, a as int)
                &&& (bit(ra.0, a) && bit(rooks.0, a)) == straight_attacker(b, s, by, a as int)
            } by {
                lemma_step_symmetry(by, a as int, s);
                assert(bit(pa.0, a) == pawn_target(other(by), s, a as int));
                assert(bit(na.0, a) == knight_target(s, a as int));
                assert(bit(ka.0, a) == king_target(s, a as int));
                lemma_piece_mask_bit(b, by, PieceType::Pawn, a);
                lemma_piece_mask_bit(b, by, PieceType::Knight, a);
                lemma_piece_mask_bit(b, by, PieceType::King, a);
                lemma_piece_mask_bit(b, by, PieceType::Bishop, a);
                lemma_piece_mask_bit(b, by, PieceType::Rook, a);
                lemma_piece_mask_bit(b, by, PieceType::Queen, a);
                lemma_bit_ops(
                    piece_mask(b, by, PieceType::Bishop),
                    piece_mask(b, by, PieceType::Queen),
                    a,
                );
                lemma_bit_ops(
                    piece_mask(b, by, PieceType::Rook),
                    piece_mask(b, by, PieceType::Queen),
                    a,
                );
            }
            if attacked(b, s, by) {
                let a = choose|a: int| 0 <= a < 64 && #[trigger] attacker_at(b, s, by, a);
                let au = a as u64;
                assert(au as int == a);
                assert(bit(pa.0, au) || !bit(pa.0, au));
                lemma_step_symmetry(by, a, s);
                lemma_piece_mask_bit(b, by, PieceType::Pawn, au);
                lemma_piece_mask_bit(b, by, PieceType::Knight, au);
                assert((bit(pa.0, au) && bit(pp.0, au)) == pawn_attacker(b, s, by, a));
                assert((bit(na.0, au) && bit(np.0, au)) == knight_attacker(b, s, by, a));
                assert((bit(ka.0, au) && bit(kp.0, au)) == king_attacker(b, s, by, a));
                assert((bit(ba.0, au) && bit(bishops.0, au)) == diagonal_attacker(b, s, by, a));
                assert((bit(ra.0, au) && bit(rooks.0, au)) == straight_attacker(b, s, by, a));
                if pawn_attacker(b, s, by, a) {
                    assert(bit(pa.0, au) == pawn_target(other(by), s, a));
                    assert(bit(pa.0, au) && bit(pp.0, au));
                    assert(r1);
                } else if knight_attacker(b, s, by, a) {
                    assert(bit(na.0, au) == knight_target(s, a));
                    assert(bit(na.0, au) && bit(np.0, au));
                    assert(r2);
                } else if king_attacker(b, s, by, a) {
                    assert(bit(ka.0, au) && bit(kp.0, au));
                    assert(r3);
                } else if diagonal_attacker(b, s, by, a) {
                    assert(bit(ba.0, au) && bit(bishops.0, au));
                    assert(r4);
                } else {
                    assert(straight_attacker(b, s, by, a));
                    assert(bit(ra.0, au) == slider_target(s, a, occ.0, rook_dirs()));
                    assert(bit(ra.0, au) && bit(rooks.0, au));
                    assert(r5);
                }
            }
            if r1 {
                let a = choose|a: u64| a < 64 && #[trigger] bit(pa.0, a) && bit(pp.0, a);
                assert(attacker_at(b, s, by, a as int));
            }
            if r2 {
                let a = choose|a: u64| a < 64 && #[trigger] bit(na.0, a) && bit(np.0, a);
                assert(attacker_at(b, s, by, a as int));
            }
            if r3 {
                let a = choose|a: u64| a < 64 && #[trigger] bit(ka.0, a) && bit(kp.0, a);
                assert(attacker_at(b, s, by, a as int));
            }
            if r4 {
                let a = choose|a: u64| a < 64 && #[trigger] bit(ba.0, a) && bit(bishops.0, a);
                assert(attacker_at(b, s, by, a as int));
            }
            if r5 {
                let a = choose|a: u64| a < 64 && #[trigger] bit(ra.0, a) && bit(rooks.0, a);
                assert(attacker_at(b, s, by, a as int));
            }
        }
        r1 || r2 || r3 || r4 || r5
    }

    #[inline]
    pub fn in_check(&self, color: Color) -> (r: bool)
        requires
            self.bb_ok(),
            has_king(self.board(), color),
        ensures
            r == attacked(self.board(), king_of(self.board(), color), other(color)),
    {
        self.is_attacked(self.king_square(color), color.opp())
    }
}

proof fn lemma_empty_mask(b: Seq<Option<Piece>>, f: spec_fn(Option<Piece>) -> bool, n: nat)
    requires
        n <= 64,
        b.len() == 64,
        forall|i: int| 0 <= i < 64 ==> b[i] is None,
        !f(None),
    ensures
        mask_upto(b, f, n) == 0,
    decreases n,
{
    if n > 0 {
        lemma_empty_mask(b, f, (n - 1) as nat);
        lemma_xor(0, 0, 0);
    }
}

proof fn lemma_empty_hash(b: Seq<Option<Piece>>, n: nat)
    requires
        n <= 64,
        b.len() == 64,
        forall|i: int| 0 <= i < 64 ==> b[i] is None,
    ensures
        board_hash(b, n) == 0,
    decreases n,
{
    if n > 0 {
        lemma_empty_hash(b, (n - 1) as nat);
        lemma_xor(0, 0, 0);
    }
}

} // verus!

verus! {

// ---------------------------------------------------------------------------
// Moves on the board model
// ---------------------------------------------------------------------------
/// Castling rights kept when a piece leaves or arrives at square `s`: king
/// and rook origin squares clear the rights that depend on them.
pub open spec fn castle_mask_spec(s: int) -> u8 {
    if s == 0 {
        0b1101
    } else if s == 7 {
        0b1110
    } else if s == 4 {
        0b1100
    } else if s == 56 {
        0b0111
    } else if s == 63 {
        0b1011
    } else if s == 60 {
        0b0011
    } else {
        0b1111
    }
}

/// The square of the pawn taken en passant by a pawn moving `from` -> `to`.
pub open spec fn ep_capture_square(from: int, to: int) -> int {
    file_of(to) + rank_of(from) * 8
}

/// A piece stands on `from` and `to` is free (or is `from` itself).
pub open spec fn can_relocate(b: Seq<Option<Piece>>, from: int, to: int) -> bool {
    b[from] is Some && (from == to || b[to] is None)
}

/// The move can be carried out on this board: its flag is valid, every
/// square it moves a piece from is occupied, every square it puts a piece on
/// is free (or being vacated), and castling squares are on the board.
pub open spec fn applicable(b: Seq<Option<Piece>>, m: Move) -> bool {
    let from = mv_from(m);
    let to = mv_to(m);
    &&& mv_ok(m)
    &&& b[from] is Some
    &&& match mv_flag(m) {
        MoveFlag::Quiet | MoveFlag::DoublePush => can_relocate(b, from, to),
        MoveFlag::Capture => from != to && b[to] is Some,
        MoveFlag::EnPassant => {
            let cap = ep_capture_square(from, to);
            b[cap] is Some && can_relocate(b.update(cap, None), from, to)
        },
        MoveFlag::KingCastle => can_relocate(b, from, to) && 1 <= to <= 62 && can_relocate(
            relocate(b, from, to),
            to + 1,
            to - 1,
        ),
        MoveFlag::QueenCastle => can_relocate(b, from, to) && 2 <= to <= 62 && can_relocate(
            relocate(b, from, to),
            to - 2,
            to + 1,
        ),
        MoveFlag::PromoKnight | MoveFlag::PromoBishop | MoveFlag::PromoRook
        | MoveFlag::PromoQueen => b.update(from, None)[to] is None,
        _ => from != to && b[to] is Some,
    }
}

/// Unmaking the move puts back exactly what was there: a promotion starts
/// from the mover's pawn, an en-passant capture takes the opponent's pawn,
/// and the castling rook does not start or land on the king's origin.
pub open spec fn reversible(b: Seq<Option<Piece>>, m: Move, us: Color) -> bool {
    let from = mv_from(m);
    let to = mv_to(m);
    match mv_flag(m) {
        MoveFlag::EnPassant => b[ep_capture_square(from, to)] == Some(
            Piece { color: other(us), kind: PieceType::Pawn },
        ),
        MoveFlag::KingCastle => from != to - 1 && from != to + 1,
        MoveFlag::QueenCastle => from != to - 2 && from != to + 1,
        MoveFlag::Quiet | MoveFlag::DoublePush | MoveFlag::Capture => true,
        _ => b[from] == Some(Piece { color: us, kind: PieceType::Pawn }),
    }
}

/// The squares after move `m` by side `us`.
pub open spec fn board_after(b: Seq<Option<Piece>>, m: Move, us: Color) -> Seq<Option<Piece>> {
    let from = mv_from(m);
    let to = mv_to(m);
    match mv_flag(m) {
        MoveFlag::Quiet | MoveFlag::DoublePush | MoveFlag::Capture => relocate(b, from, to),
        MoveFlag::EnPassant => relocate(b.update(ep_capture_square(from, to), None), from, to),
        MoveFlag::KingCastle => relocate(relocate(b, from, to), to + 1, to - 1),
        MoveFlag::QueenCastle => relocate(relocate(b, from, to), to - 2, to + 1),
        _ => b.update(from, None).update(
            to,
            Some(Piece { color: us, kind: code_promotion(mv_code(m)).unwrap() }),
        ),
    }
}

/// The piece a move takes off the board, if any.
pub open spec fn captured_by(b: Seq<Option<Piece>>, m: Move) -> Option<Piece> {
    let from = mv_from(m);
    let to = mv_to(m);
    match mv_flag(m) {
        MoveFlag::Capture | MoveFlag::PromoKnightCapture | MoveFlag::PromoBishopCapture
        | MoveFlag::PromoRookCapture | MoveFlag::PromoQueenCapture => b[to],
        MoveFlag::EnPassant => b[ep_capture_square(from, to)],
        _ => None,
    }
}

pub open spec fn rights_after(r: u8, m: Move) -> u8 {
    r & castle_mask_spec(mv_from(m)) & castle_mask_spec(mv_to(m))
}

proof fn lemma_keep_bits(r: u8, x: u8, y: u8)
    by (bit_vector)
    ensures
        (r & x & y) & 1u8 != 0 ==> r & 1u8 != 0 && x & 1u8 != 0 && y & 1u8 != 0,
        (r & x & y) & 2u8 != 0 ==> r & 2u8 != 0 && x & 2u8 != 0 && y & 2u8 != 0,
        (r & x & y) & 4u8 != 0 ==> r & 4u8 != 0 && x & 4u8 != 0 && y & 4u8 != 0,
        (r & x & y) & 8u8 != 0 ==> r & 8u8 != 0 && x & 8u8 != 0 && y & 8u8 != 0,
        0b1101u8 & 2u8 == 0,
        0b1110u8 & 1u8 == 0,
        0b1100u8 & 1u8 == 0 && 0b1100u8 & 2u8 == 0,
        0b0111u8 & 8u8 == 0,
        0b1011u8 & 4u8 == 0,
        0b0011u8 & 4u8 == 0 && 0b0011u8 & 8u8 == 0,
{
}

/// A castling right survives a move only if it had the right before and the
/// move neither leaves nor lands on that right's king or rook square.
pub proof fn lemma_rights_after_bits(r: u8, m: Move)
    ensures
        rights_after(r, m) & 1u8 != 0 ==> r & 1u8 != 0 && mv_from(m) != 4 && mv_from(m) != 7
            && mv_to(m) != 4 && mv_to(m) != 7,
        rights_after(r, m) & 2u8 != 0 ==> r & 2u8 != 0 && mv_from(m) != 4 && mv_from(m) != 0
            && mv_to(m) != 4 && mv_to(m) != 0,
        rights_after(r, m) & 4u8 != 0 ==> r & 4u8 != 0 && mv_from(m) != 60 && mv_from(m) != 63
            && mv_to(m) != 60 && mv_to(m) != 63,
        rights_after(r, m) & 8u8 != 0 ==> r & 8u8 != 0 && mv_from(m) != 60 && mv_from(m) != 56
            && mv_to(m) != 60 && mv_to(m) != 56,
{
    lemma_keep_bits(r, castle_mask_spec(mv_from(m)), castle_mask_spec(mv_to(m)));
}

/// A double pawn push leaves the square it passed over as en-passant target.
pub open spec fn ep_after(m: Move) -> Option<Square> {
    if mv_code(m) == 1 {
        Some(Square(((mv_from(m) + mv_to(m)) / 2) as u8))
    } else {
        None
    }
}

/// The halfmove clock restarts on pawn moves and captures.
pub open spec fn half_after(b: Seq<Option<Piece>>, m: Move, h: u16) -> u16 {
    if (b[mv_from(m)] matches Some(p) && p.kind == PieceType::Pawn) || code_is_capture(mv_code(m)) {
        0
    } else {
        wrapping_add(h, 1)
    }
}

/// The fullmove number advances after Black's move.
pub open spec fn full_after(us: Color, f: u16) -> u16 {
    if us == Color::Black {
        wrapping_add(f, 1)
    } else {
        f
    }
}

/// Castling-rights mask for a square: bits to *keep* when a piece leaves or
/// arrives there. King and rook origin squares clear the relevant rights.
fn castle_mask(sq: Square) -> (r: u8)
    requires
        sq.valid(),
    ensures
        r == castle_mask_spec(sq.0 as int),
{
    if sq.0 == 0 {
        0b1101  // a1: clears white queen-side
    } else if sq.0 == 7 {
        0b1110  // h1: clears white king-side
    } else if sq.0 == 4 {
        0b1100  // e1: clears both white rights
    } else if sq.0 == 56 {
        0b0111  // a8: clears black queen-side
    } else if sq.0 == 63 {
        0b1011  // h8: clears black king-side
    } else if sq.0 == 60 {
        0b0011  // e8: clears both black rights
    } else {
        0b1111
    }
}

/// State needed to reverse a move.
#[derive(Clone, Copy)]
pub struct Undo {
    mv: Move,
    captured: Option<Piece>,
    castling: CastleRights,
    ep: Option<Square>,
    halfmove: u16,
    fullmove: u16,
    hash: u64,
    before: Ghost<Position>,
}

impl Undo {
    /// The position the move was made from.
    pub closed spec fn before_pos(self) -> Position {
        self.before@
    }

    /// The move this record reverses.
    pub closed spec fn mv_spec(self) -> Move {
        self.mv
    }

    /// `q` is the position reached by a reversible move from `before_pos`,
    /// and this record saved that position's state.
    pub closed spec fn restores(self, q: Position) -> bool {
        let p = self.before@;
        &&& p.wf()
        &&& applicable(p.board(), self.mv)
        &&& reversible(p.board(), self.mv, p.stm())
        &&& q.wf()
        &&& q.board() == board_after(p.board(), self.mv, p.stm())
        &&& q.stm() == other(p.stm())
        &&& self.captured == captured_by(p.board(), self.mv)
        &&& self.castling == p.castling
        &&& self.ep == p.ep
        &&& self.halfmove == p.halfmove
        &&& self.fullmove == p.fullmove
        &&& self.hash == p.hash
    }
}

proof fn lemma_rights_bound(r: u8, a: u8, b: u8)
    requires
        r < 16,
    ensures
        r & a & b < 16,
{
    assert(r & a & b < 16) by (bit_vector)
        requires
            r < 16,
    ;
}

impl Position {
    // --- make / unmake ---------------------------------------------------
    pub fn make_move(&mut self, mv: Move) -> (undo: Undo)
        requires
            old(self).wf(),
            applicable(old(self).board(), mv),
        ensures
            final(self).wf(),
            final(self).board() == board_after(old(self).board(), mv, old(self).stm()),
            final(self).stm() == other(old(self).stm()),
            final(self).rights() == rights_after(old(self).rights(), mv),
            final(self).ep_sq() == ep_after(mv),
            final(self).half() == half_after(old(self).board(), mv, old(self).half()),
            final(self).full() == full_after(old(self).stm(), old(self).full()),
            undo.before_pos() == *old(self),
            undo.mv_spec() == mv,
            reversible(old(self).board(), mv, old(self).stm()) ==> undo.restores(*final(self)),
    {
        let ghost b0 = self.mailbox@;
        let ghost p0 = *self;
        let us = self.side;
        let them = us.opp();
        let from = mv.from();
        let to = mv.to();
        let flag = mv.flag();
        let moving = self.mailbox[from.index()].unwrap();
        let undo = Undo {
            mv,
            captured: None,
            castling: self.castling,
            ep: self.ep,
            halfmove: self.halfmove,
            fullmove: self.fullmove,
            hash: self.hash,
            before: Ghost(*self),
        };

        // Clear any existing en-passant square from the hash.
        if let Some(ep) = self.ep {
            self.hash = self.hash ^ zobrist::ep_file(ep.file());
        }
        self.ep = None;

        // Hash out current castling rights (re-hashed in after updating).
        self.hash = self.hash ^ zobrist::castling(self.castling.bits());

        proof {
            let bh = board_hash(b0, 64);
            let ck = castling_key(p0.castling.0 as int);
            let ek = ep_part(p0.ep);
            let sk = side_part(p0.side);
            let h1 = self.hash;
            if p0.ep is Some {
                assert(h1 ^ bh == sk) by (bit_vector)
                    requires
                        h1 == (((bh ^ ck ^ ek ^ sk) ^ ek) ^ ck),
                ;
            } else {
                assert(ek == 0);
                assert(h1 ^ bh == sk) by (bit_vector)
                    requires
                        h1 == ((bh ^ ck ^ 0u64 ^ sk) ^ ck),
                ;
            }
        }
        let ghost d = side_part(p0.side);

        let is_pawn = moving.kind == PieceType::Pawn;
        let is_capture = mv.is_capture();
        let captured = self.apply_board(mv);

        // Castling-rights update via per-square masks.
        let new_rights = self.castling.bits() & castle_mask(from) & castle_mask(to);
        proof {
            lemma_rights_bound(p0.castling.0, castle_mask_spec(from.0 as int), castle_mask_spec(to.0 as int));
        }
        self.castling = CastleRights(new_rights);
        let ck = zobrist::castling(new_rights);
        proof {
            let h = self.hash;
            let bh = board_hash(self.mailbox@, 64);
            assert((h ^ ck) ^ bh == (h ^ bh) ^ ck) by {
                lemma_xor(h, ck, bh);
            }
        }
        self.hash = self.hash ^ ck;

        // Halfmove clock and fullmove number.
        self.halfmove = if is_pawn || is_capture {
            0
        } else {
            self.halfmove.wrapping_add(1)
        };
        if us == Color::Black {
            self.fullmove = self.fullmove.wrapping_add(1);
        }

        // Flip side to move.
        self.side = them;
        let sk = zobrist::side_to_move();
        proof {
            let h = self.hash;
            let bh = board_hash(self.mailbox@, 64);
            let ek = ep_part(self.ep);
            let s0 = side_part(p0.side);
            let s1 = side_part(them);
            assert(s1 == s0 ^ sk) by {
                if p0.side == Color::White {
                    lemma_xor(sk, 0, 0);
                } else {
                    lemma_xor(sk, 0, 0);
                }
            }
            assert((h ^ sk) == bh ^ ck ^ ek ^ s1) by (bit_vector)
                requires
                    h ^ bh == (s0 ^ ek) ^ ck,
                    s1 == s0 ^ sk,
            ;
        }
        self.hash = self.hash ^ sk;

        let mut undo = undo;
        undo.captured = captured;
        proof {
            assert(captured == captured_by(b0, mv));
        }
        undo
    }
}


impl Position {
    /// Moves the pieces for `mv` (side `us` to move); returns the captured
    /// piece. The non-board part of the hash is unchanged except that a
    /// double push hashes in its en-passant file.
    fn apply_board(&mut self, mv: Move) -> (captured: Option<Piece>)
        requires
            old(self).bb_ok(),
            old(self).ep is None,
            applicable(old(self).board(), mv),
        ensures
            final(self).bb_ok(),
            final(self).board() == board_after(old(self).board(), mv, old(self).stm()),
            captured == captured_by(old(self).board(), mv),
            final(self).ep == ep_after(mv),
            final(self).hash ^ board_hash(final(self).board(), 64) == old(self).hash ^ board_hash(
                old(self).board(),
                64,
            ) ^ ep_part(ep_after(mv)),
            final(self).side == old(self).side,
            final(self).castling == old(self).castling,
            final(self).halfmove == old(self).halfmove,
            final(self).fullmove == old(self).fullmove,
    {
        let ghost b0 = self.mailbox@;
        let ghost d0 = self.hash ^ board_hash(b0, 64);
        let us = self.side;
        let from = mv.from();
        let to = mv.to();
        let flag = mv.flag();
        let mut captured = None;
        match flag {
            MoveFlag::Quiet => self.move_piece(from, to),
            MoveFlag::DoublePush => {
                self.move_piece(from, to);
                let ep_sq = Square((from.0 + to.0) / 2);
                self.ep = Some(ep_sq);
                let k = zobrist::ep_file(ep_sq.file());
                proof {
                    let h = self.hash;
                    let bh = board_hash(self.mailbox@, 64);
                    assert((h ^ k) ^ bh == (h ^ bh) ^ k) by {
                        lemma_xor(h, k, bh);
                    }
                }
                self.hash = self.hash ^ k;
            },
            MoveFlag::Capture => {
                captured = self.mailbox[to.index()];
                self.remove_piece(to);
                self.move_piece(from, to);
            },
            MoveFlag::EnPassant => {
                let cap_sq = Square::from_file_rank(to.file(), from.rank());
                captured = self.mailbox[cap_sq.index()];
                self.remove_piece(cap_sq);
                self.move_piece(from, to);
            },
            MoveFlag::KingCastle => {
                self.move_piece(from, to);
                self.move_piece(Square(to.0 + 1), Square(to.0 - 1));
            },
            MoveFlag::QueenCastle => {
                self.move_piece(from, to);
                self.move_piece(Square(to.0 - 2), Square(to.0 + 1));
            },
            MoveFlag::PromoKnight | MoveFlag::PromoBishop | MoveFlag::PromoRook
            | MoveFlag::PromoQueen => {
                let promo = mv.promotion().unwrap();
                self.remove_piece(from);
                self.add_piece(us, promo, to);
            },
            MoveFlag::PromoKnightCapture | MoveFlag::PromoBishopCapture
            | MoveFlag::PromoRookCapture | MoveFlag::PromoQueenCapture => {
                let promo = mv.promotion().unwrap();
                captured = self.mailbox[to.index()];
                self.remove_piece(to);
                self.remove_piece(from);
                self.add_piece(us, promo, to);
            },
        }
        proof {
            assert(self.mailbox@ =~= board_after(b0, mv, us));
            if mv_code(mv) != 1 {
                let x = self.hash ^ board_hash(self.mailbox@, 64);
                lemma_xor(x, 0, 0);
            }
        }
        captured
    }
}


impl Position {
    /// Takes back the piece movements of `mv`, made by side `us` from the
    /// squares `b0` (which captured `captured`).
    #[verifier::spinoff_prover]
    #[verifier::rlimit(30)]
    fn unapply_board(
        &mut self,
        mv: Move,
        captured: Option<Piece>,
        us: Color,
        Ghost(b0): Ghost<Seq<Option<Piece>>>,
    )
        requires
            old(self).bb_ok(),
            b0.len() == 64,
            applicable(b0, mv),
            reversible(b0, mv, us),
            old(self).board() == board_after(b0, mv, us),
            captured == captured_by(b0, mv),
        ensures
            final(self).bb_ok(),
            final(self).board() == b0,
            final(self).side == old(self).side,
    {
        let ghost b1 = self.mailbox@;
        let them = us.opp();
        let from = mv.from();
        let to = mv.to();
        let flag = mv.flag();
        match flag {
            MoveFlag::Quiet | MoveFlag::DoublePush => {
                self.move_piece(to, from);
                assert(self.mailbox@ =~= b0);
            },
            MoveFlag::Capture => {
                self.move_piece(to, from);
                let cap = captured.unwrap();
                self.add_piece(cap.color, cap.kind, to);
                assert(self.mailbox@ =~= b0);
            },
            MoveFlag::EnPassant => {
                self.move_piece(to, from);
                let cap_sq = Square::from_file_rank(to.file(), from.rank());
                self.add_piece(them, PieceType::Pawn, cap_sq);
                assert(self.mailbox@ =~= b0);
            },
            MoveFlag::KingCastle => {
                self.move_piece(to, from);
                self.move_piece(Square(to.0 - 1), Square(to.0 + 1));
                assert(self.mailbox@ =~= b0);
            },
            MoveFlag::QueenCastle => {
                self.move_piece(to, from);
                self.move_piece(Square(to.0 + 1), Square(to.0 - 2));
                assert(self.mailbox@ =~= b0);
            },
            MoveFlag::PromoKnight | MoveFlag::PromoBishop | MoveFlag::PromoRook
            | MoveFlag::PromoQueen => {
                self.remove_piece(to);
                self.add_piece(us, PieceType::Pawn, from);
                assert(self.mailbox@ =~= b0);
            },
            MoveFlag::PromoKnightCapture | MoveFlag::PromoBishopCapture
            | MoveFlag::PromoRookCapture | MoveFlag::PromoQueenCapture => {
                self.remove_piece(to);
                self.add_piece(us, PieceType::Pawn, from);
                let cap = captured.unwrap();
                self.add_piece(cap.color, cap.kind, to);
                assert(self.mailbox@ =~= b0);
            },
        }
    }

    /// Take back the move recorded in `undo`, restoring the exact position it
    /// was made from.
    pub fn unmake_move(&mut self, undo: Undo)
        requires
            undo.restores(*old(self)),
        ensures
            *final(self) == undo.before_pos(),
    {
        let ghost p0 = undo.before@;
        // Flip side back to the mover.
        self.side = self.side.opp();
        let us = self.side;
        self.unapply_board(undo.mv, undo.captured, us, Ghost(p0.mailbox@));

        // Restore scalar state directly (hash overwrite makes the incremental
        // XORs done above irrelevant).
        self.castling = undo.castling;
        self.ep = undo.ep;
        self.halfmove = undo.halfmove;
        self.fullmove = undo.fullmove;
        self.hash = undo.hash;
        proof {
            self.lemma_wf_ext(p0);
        }
    }
}

} // verus!
