//! Pseudo-legal move generation and the legality filter.

use crate::attacks::{self, king_target, knight_target, pawn_target};
use crate::bitboard::{bit, lemma_bit_ops, Bitboard};
use crate::magic::{self, bishop_dirs, ray, rook_dirs, slider_target};
use crate::moves::{code_is_capture, lemma_mk_move, mk_move, mv_code, mv_flag, mv_from, mv_to, Move, MoveFlag, MoveList};
use crate::position::{
    applicable, attacked, attacker_at, board_after, captured_by, color_mask, ep_after,
    ep_capture_square, has_king, king_of, lemma_color_mask_bit, lemma_king_of, lemma_occ_mask_bit,
    lemma_piece_mask_bit, lemma_rights_after_bits, occ_mask, piece_mask, relocate, reversible,
    rights_after, half_after, full_after, Position,
};
use crate::types::{other, rank_of, CastleRights, Color, Piece, PieceType, Square};
use vstd::prelude::*;

verus! {

// ---------------------------------------------------------------------------
// The generated move sequence
// ---------------------------------------------------------------------------
/// The moves `f(s)` of every square `s` below `n` that satisfies `p`, in
/// ascending square order.
pub open spec fn collect(p: spec_fn(int) -> bool, f: spec_fn(int) -> Seq<Move>, n: nat) -> Seq<
    Move,
>
    decreases n,
{
    if n == 0 {
        Seq::empty()
    } else {
        collect(p, f, (n - 1) as nat) + if p(n - 1) {
            f(n - 1)
        } else {
            Seq::empty()
        }
    }
}

/// Square `t` holds a piece of color `c`.
pub open spec fn holds_color(b: Seq<Option<Piece>>, c: Color, t: int) -> bool {
    b[t] matches Some(p) && p.color == c
}

/// The moves of a piece on `from` to every square it reaches that does not
/// hold a piece of its own color, ascending; a move onto an opponent's piece
/// is a capture.
pub open spec fn step_moves(b: Seq<Option<Piece>>, us: Color, from: int, reach: spec_fn(int) -> bool) -> Seq<Move> {
    collect(
        |t: int| reach(t) && !holds_color(b, us, t),
        |t: int|
            seq![mk_move(from, t, if holds_color(b, other(us), t) { 4u16 } else { 0u16 })],
        64,
    )
}

pub open spec fn knight_reach(from: int) -> spec_fn(int) -> bool {
    |t: int| knight_target(from, t)
}

pub open spec fn king_reach(from: int) -> spec_fn(int) -> bool {
    |t: int| king_target(from, t)
}

pub open spec fn bishop_reach(b: Seq<Option<Piece>>, from: int) -> spec_fn(int) -> bool {
    |t: int| slider_target(from, t, occ_mask(b), bishop_dirs())
}

pub open spec fn rook_reach(b: Seq<Option<Piece>>, from: int) -> spec_fn(int) -> bool {
    |t: int| slider_target(from, t, occ_mask(b), rook_dirs())
}

pub open spec fn queen_reach(b: Seq<Option<Piece>>, from: int) -> spec_fn(int) -> bool {
    |t: int|
        slider_target(from, t, occ_mask(b), rook_dirs()) || slider_target(
            from,
            t,
            occ_mask(b),
            bishop_dirs(),
        )
}

/// The square holds a piece of kind `k` and color `c`.
pub open spec fn holds(b: Seq<Option<Piece>>, c: Color, k: PieceType) -> spec_fn(int) -> bool {
    |s: int| b[s] == Some(Piece { color: c, kind: k })
}

/// Knight moves, by ascending origin square.
pub open spec fn knight_moves(b: Seq<Option<Piece>>, us: Color) -> Seq<Move> {
    collect(holds(b, us, PieceType::Knight), |s: int| step_moves(b, us, s, knight_reach(s)), 64)
}

// ---------------------------------------------------------------------------
// Lemmas about `collect`
// ---------------------------------------------------------------------------
/// Squares that do not satisfy the predicate add nothing.
pub proof fn lemma_collect_skip(p: spec_fn(int) -> bool, f: spec_fn(int) -> Seq<Move>, k: nat, n: nat)
    requires
        k <= n,
        forall|j: int| k <= j < n ==> !#[trigger] p(j),
    ensures
        collect(p, f, n) == collect(p, f, k),
    decreases n,
{
    if n > k {
        lemma_collect_skip(p, f, k, (n - 1) as nat);
        assert(collect(p, f, n) =~= collect(p, f, (n - 1) as nat));
    }
}

/// Collections over predicates and move functions that agree are equal.
pub proof fn lemma_collect_ext(
    p1: spec_fn(int) -> bool,
    f1: spec_fn(int) -> Seq<Move>,
    p2: spec_fn(int) -> bool,
    f2: spec_fn(int) -> Seq<Move>,
    n: nat,
)
    requires
        forall|j: int| 0 <= j < n ==> #[trigger] p1(j) == p2(j),
        forall|j: int| 0 <= j < n && p1(j) ==> #[trigger] f1(j) == f2(j),
    ensures
        collect(p1, f1, n) == collect(p2, f2, n),
    decreases n,
{
    if n > 0 {
        lemma_collect_ext(p1, f1, p2, f2, (n - 1) as nat);
        assert(p1(n - 1) == p2(n - 1));
    }
}

/// Every move collected is a move of some satisfying square.
pub proof fn lemma_collect_member(p: spec_fn(int) -> bool, f: spec_fn(int) -> Seq<Move>, n: nat, i: int)
    requires
        0 <= i < collect(p, f, n).len(),
    ensures
        exists|s: int, j: int|
            0 <= s < n && p(s) && 0 <= j < f(s).len() && #[trigger] f(s)[j] == collect(p, f, n)[i],
    decreases n,
{
    if n > 0 {
        let prev = collect(p, f, (n - 1) as nat);
        if i < prev.len() {
            lemma_collect_member(p, f, (n - 1) as nat, i);
            let (s, j) = choose|s: int, j: int|
                0 <= s < n - 1 && p(s) && 0 <= j < f(s).len() && #[trigger] f(s)[j] == prev[i];
            assert(f(s)[j] == collect(p, f, n)[i]);
        } else {
            let s = n - 1;
            let j = i - prev.len();
            assert(f(s)[j] == collect(p, f, n)[i]);
        }
    }
}

/// The squares set in `x`.
pub open spec fn bits_of(x: u64) -> spec_fn(int) -> bool {
    |t: int| bit(x, t as u64)
}

/// The move from `from` to `t`, a capture where `enemy` has `t`.
pub open spec fn moves_to(from: int, enemy: u64) -> spec_fn(int) -> Seq<Move> {
    |t: int| seq![mk_move(from, t, if bit(enemy, t as u64) { 4u16 } else { 0u16 })]
}

// ---------------------------------------------------------------------------
// Generators
// ---------------------------------------------------------------------------
/// Appends a move from `from` to each square of `targets`, ascending; the
/// move is a capture where `enemy` has the square.
fn add_moves(list: &mut MoveList, from: Square, targets: Bitboard, enemy: Bitboard)
    requires
        from.valid(),
    ensures
        final(list)@ == old(list)@ + collect(bits_of(targets.0), moves_to(from.0 as int, enemy.0), 64),
{
    let ghost p = bits_of(targets.0);
    let ghost f = moves_to(from.0 as int, enemy.0);
    let ghost base = list@;
    let mut rest = targets;
    let ghost mut k: nat = 0;
    while rest.0 != 0
        invariant
            from.valid(),
            p == bits_of(targets.0),
            f == moves_to(from.0 as int, enemy.0),
            k <= 64,
            forall|t: u64| t < 64 ==> #[trigger] bit(rest.0, t) == (p(t as int) && t >= k),
            list@ == base + collect(p, f, k),
        decreases 64 - k,
    {
        let ghost r0 = rest.0;
        let to = rest.pop_lsb();
        proof {
            lemma_pop_step(r0, rest.0, to.0 as int, k, p, f);
        }
        let flag = if enemy.contains(to) {
            MoveFlag::Capture
        } else {
            MoveFlag::Quiet
        };
        let m = Move::new(from, to, flag);
        list.push(m);
        proof {
            let t = to.0 as int;
            assert(f(t) =~= seq![m]);
            assert(list@ =~= base + collect(p, f, (t + 1) as nat));
            k = (t + 1) as nat;
        }
    }
    proof {
        lemma_pop_done(rest.0, k, p, f);
    }
}

/// One step of a lowest-first walk over the squares satisfying `p`: the
/// popped square `t` is the next one from `k` on, and the rest holds the
/// ones after it.
proof fn lemma_pop_step(r0: u64, r1: u64, t: int, k: nat, p: spec_fn(int) -> bool, f: spec_fn(int) -> Seq<Move>)
    requires
        k <= 64,
        forall|u: u64| u < 64 ==> #[trigger] bit(r0, u) == (p(u as int) && u >= k),
        0 <= t < 64,
        bit(r0, t as u64),
        forall|u: u64| u < t ==> !#[trigger] bit(r0, u),
        r1 == r0 ^ (1u64 << (t as u64)),
    ensures
        t >= k,
        p(t),
        collect(p, f, (t + 1) as nat) == collect(p, f, k) + f(t),
        forall|u: u64| u < 64 ==> #[trigger] bit(r1, u) == (p(u as int) && u >= t + 1),
{
    assert forall|j: int| k <= j < t implies !#[trigger] p(j) by {
        assert(!bit(r0, j as u64));
    }
    lemma_collect_skip(p, f, k, t as nat);
    assert forall|u: u64| u < 64 implies #[trigger] bit(r1, u) == (p(u as int) && u >= t + 1) by {
        crate::bitboard::lemma_bit_xor(r0, t as u64, u);
    }
}

/// A finished lowest-first walk has collected every satisfying square.
proof fn lemma_pop_done(r: u64, k: nat, p: spec_fn(int) -> bool, f: spec_fn(int) -> Seq<Move>)
    requires
        k <= 64,
        r == 0,
        forall|u: u64| u < 64 ==> #[trigger] bit(r, u) == (p(u as int) && u >= k),
    ensures
        collect(p, f, 64) == collect(p, f, k),
{
    assert forall|j: int| k <= j < 64 implies !#[trigger] p(j) by {
        let ju = j as u64;
        crate::bitboard::lemma_zero_iff_no_bits(r);
        assert(!bit(r, ju));
    }
    lemma_collect_skip(p, f, k, 64);
}

/// Targets of `x` not held by `us`, with captures where the opponent stands,
/// are the step moves of a piece with reach `reach`.
proof fn lemma_targets(
    b: Seq<Option<Piece>>,
    us: Color,
    from: int,
    x: u64,
    own: u64,
    enemy: u64,
    reach: spec_fn(int) -> bool,
)
    requires
        b.len() == 64,
        own == color_mask(b, us),
        enemy == color_mask(b, other(us)),
        forall|t: u64| t < 64 ==> #[trigger] bit(x, t) == reach(t as int),
    ensures
        collect(bits_of(x & !own), moves_to(from, enemy), 64) == step_moves(b, us, from, reach),
{
    let p1 = bits_of(x & !own);
    let p2 = |t: int| reach(t) && !holds_color(b, us, t);
    let f1 = moves_to(from, enemy);
    let f2 = |t: int|
        seq![mk_move(from, t, if holds_color(b, other(us), t) { 4u16 } else { 0u16 })];
    assert forall|j: int| 0 <= j < 64 implies #[trigger] p1(j) == p2(j) by {
        let u = j as u64;
        lemma_bit_ops(x, !own, u);
        lemma_bit_ops(own, own, u);
        lemma_color_mask_bit(b, us, u);
        assert(bit(x, u) == reach(j));
    }
    assert forall|j: int| 0 <= j < 64 && p1(j) implies #[trigger] f1(j) == f2(j) by {
        lemma_color_mask_bit(b, other(us), j as u64);
    }
    lemma_collect_ext(p1, f1, p2, f2, 64);
}

pub open spec fn knight_fn(b: Seq<Option<Piece>>, us: Color) -> spec_fn(int) -> Seq<Move> {
    |s: int| step_moves(b, us, s, knight_reach(s))
}

pub open spec fn bishop_fn(b: Seq<Option<Piece>>, us: Color) -> spec_fn(int) -> Seq<Move> {
    |s: int| step_moves(b, us, s, bishop_reach(b, s))
}

pub open spec fn rook_fn(b: Seq<Option<Piece>>, us: Color) -> spec_fn(int) -> Seq<Move> {
    |s: int| step_moves(b, us, s, rook_reach(b, s))
}

pub open spec fn queen_fn(b: Seq<Option<Piece>>, us: Color) -> spec_fn(int) -> Seq<Move> {
    |s: int| step_moves(b, us, s, queen_reach(b, s))
}

/// Bishop, rook and queen moves: all bishops' first, then rooks', then
/// queens', each by ascending origin square.
pub open spec fn slider_moves(b: Seq<Option<Piece>>, us: Color) -> Seq<Move> {
    collect(holds(b, us, PieceType::Bishop), bishop_fn(b, us), 64) + collect(
        holds(b, us, PieceType::Rook),
        rook_fn(b, us),
        64,
    ) + collect(holds(b, us, PieceType::Queen), queen_fn(b, us), 64)
}

/// King moves, from the (lowest) king square.
pub open spec fn king_moves(b: Seq<Option<Piece>>, us: Color) -> Seq<Move> {
    step_moves(b, us, king_of(b, us), king_reach(king_of(b, us)))
}

fn gen_knights(pos: &Position, us: Color, list: &mut MoveList)
    requires
        pos.bb_ok(),
    ensures
        final(list)@ == old(list)@ + knight_moves(pos.board(), us),
{
    let ghost b = pos.board();
    let ghost p = holds(b, us, PieceType::Knight);
    let ghost f = knight_fn(b, us);
    let ghost base = list@;
    let own = pos.color_occupancy(us);
    let enemy = pos.color_occupancy(us.opp());
    let mut rest = pos.pieces(us, PieceType::Knight);
    let ghost mut k: nat = 0;
    proof {
        pos.lemma_board_len();
        assert forall|t: u64| t < 64 implies #[trigger] bit(rest.0, t) == (p(t as int) && t >= k) by {
            lemma_piece_mask_bit(b, us, PieceType::Knight, t);
        }
    }
    while rest.0 != 0
        invariant
            b.len() == 64,
            p == holds(b, us, PieceType::Knight),
            f == knight_fn(b, us),
            own.0 == color_mask(b, us),
            enemy.0 == color_mask(b, other(us)),
            k <= 64,
            forall|t: u64| t < 64 ==> #[trigger] bit(rest.0, t) == (p(t as int) && t >= k),
            list@ == base + collect(p, f, k),
        decreases 64 - k,
    {
        let ghost r0 = rest.0;
        let from = rest.pop_lsb();
        proof {
            lemma_pop_step(r0, rest.0, from.0 as int, k, p, f);
        }
        let att = attacks::knight_attacks(from);
        let targets = Bitboard(att.0 & !own.0);
        proof {
            lemma_targets(b, us, from.0 as int, att.0, own.0, enemy.0, knight_reach(from.0 as int));
        }
        add_moves(list, from, targets, enemy);
        proof {
            let t = from.0 as int;
            assert(list@ =~= base + collect(p, f, (t + 1) as nat));
            k = (t + 1) as nat;
        }
    }
    proof {
        lemma_pop_done(rest.0, k, p, f);
    }
}


fn gen_king(pos: &Position, us: Color, list: &mut MoveList)
    requires
        pos.bb_ok(),
        has_king(pos.board(), us),
    ensures
        final(list)@ == old(list)@ + king_moves(pos.board(), us),
{
    let own = pos.color_occupancy(us);
    let enemy = pos.color_occupancy(us.opp());
    let from = pos.king_square(us);
    let att = attacks::king_attacks(from);
    let targets = Bitboard(att.0 & !own.0);
    proof {
        pos.lemma_board_len();
        lemma_targets(
            pos.board(),
            us,
            from.0 as int,
            att.0,
            own.0,
            enemy.0,
            king_reach(from.0 as int),
        );
    }
    add_moves(list, from, targets, enemy);
}

/// The sliding moves of one kind of piece.
pub open spec fn slider_fn(b: Seq<Option<Piece>>, us: Color, kind: PieceType) -> spec_fn(int) -> Seq<Move> {
    if kind == PieceType::Bishop {
        bishop_fn(b, us)
    } else if kind == PieceType::Rook {
        rook_fn(b, us)
    } else {
        queen_fn(b, us)
    }
}

fn gen_slider_kind(pos: &Position, us: Color, kind: PieceType, list: &mut MoveList)
    requires
        pos.bb_ok(),
        kind == PieceType::Bishop || kind == PieceType::Rook || kind == PieceType::Queen,
    ensures
        final(list)@ == old(list)@ + collect(holds(pos.board(), us, kind), slider_fn(pos.board(), us, kind), 64),
{
    let ghost b = pos.board();
    let ghost p = holds(b, us, kind);
    let ghost f = slider_fn(b, us, kind);
    let ghost base = list@;
    let own = pos.color_occupancy(us);
    let enemy = pos.color_occupancy(us.opp());
    let occ = pos.occupancy();
    let mut rest = pos.pieces(us, kind);
    let ghost mut k: nat = 0;
    proof {
        pos.lemma_board_len();
        assert forall|t: u64| t < 64 implies #[trigger] bit(rest.0, t) == (p(t as int) && t >= k) by {
            lemma_piece_mask_bit(b, us, kind, t);
        }
    }
    while rest.0 != 0
        invariant
            b.len() == 64,
            kind == PieceType::Bishop || kind == PieceType::Rook || kind == PieceType::Queen,
            p == holds(b, us, kind),
            f == slider_fn(b, us, kind),
            own.0 == color_mask(b, us),
            enemy.0 == color_mask(b, other(us)),
            occ.0 == occ_mask(b),
            k <= 64,
            forall|t: u64| t < 64 ==> #[trigger] bit(rest.0, t) == (p(t as int) && t >= k),
            list@ == base + collect(p, f, k),
        decreases 64 - k,
    {
        let ghost r0 = rest.0;
        let from = rest.pop_lsb();
        proof {
            lemma_pop_step(r0, rest.0, from.0 as int, k, p, f);
        }
        let att = match kind {
            PieceType::Bishop => magic::bishop_attacks(from, occ),
            PieceType::Rook => magic::rook_attacks(from, occ),
            _ => magic::queen_attacks(from, occ),
        };
        let targets = Bitboard(att.0 & !own.0);
        proof {
            let s = from.0 as int;
            let reach = if kind == PieceType::Bishop {
                bishop_reach(b, s)
            } else if kind == PieceType::Rook {
                rook_reach(b, s)
            } else {
                queen_reach(b, s)
            };
            lemma_targets(b, us, s, att.0, own.0, enemy.0, reach);
            assert(f(s) == step_moves(b, us, s, reach));
        }
        add_moves(list, from, targets, enemy);
        proof {
            let t = from.0 as int;
            assert(list@ =~= base + collect(p, f, (t + 1) as nat));
            k = (t + 1) as nat;
        }
    }
    proof {
        lemma_pop_done(rest.0, k, p, f);
    }
}

fn gen_sliders(pos: &Position, us: Color, list: &mut MoveList)
    requires
        pos.bb_ok(),
    ensures
        final(list)@ == old(list)@ + slider_moves(pos.board(), us),
{
    let ghost base = list@;
    gen_slider_kind(pos, us, PieceType::Bishop, list);
    gen_slider_kind(pos, us, PieceType::Rook, list);
    gen_slider_kind(pos, us, PieceType::Queen, list);
    assert(list@ =~= base + slider_moves(pos.board(), us));
}


// ---------------------------------------------------------------------------
// Pawns
// ---------------------------------------------------------------------------
/// The rank a pawn of color `us` promotes on.
pub open spec fn promo_rank(us: Color) -> int {
    if us == Color::White {
        7
    } else {
        0
    }
}

/// The rank a pawn of color `us` starts on (and may push two squares from).
pub open spec fn start_rank(us: Color) -> int {
    if us == Color::White {
        1
    } else {
        6
    }
}

/// The square in front of `s` for a pawn of color `us`, if on the board.
pub open spec fn forward_sq(s: int, us: Color) -> Option<int> {
    if us == Color::White {
        if rank_of(s) < 7 {
            Some(s + 8)
        } else {
            None
        }
    } else {
        if rank_of(s) > 0 {
            Some(s - 8)
        } else {
            None
        }
    }
}

/// The four promotions from `from` to `to`: knight, bishop, rook, queen.
pub open spec fn promo_moves(from: int, to: int, capture: bool) -> Seq<Move> {
    let c: u16 = if capture {
        12
    } else {
        8
    };
    seq![
        mk_move(from, to, c),
        mk_move(from, to, (c + 1) as u16),
        mk_move(from, to, (c + 2) as u16),
        mk_move(from, to, (c + 3) as u16),
    ]
}

/// Single push (or its promotions) onto an empty square, then the double
/// push from the start rank when both squares are empty.
pub open spec fn pawn_pushes(b: Seq<Option<Piece>>, us: Color, from: int) -> Seq<Move> {
    match forward_sq(from, us) {
        Some(one) => if b[one] is None {
            if rank_of(one) == promo_rank(us) {
                promo_moves(from, one, false)
            } else {
                seq![mk_move(from, one, 0)] + if rank_of(from) == start_rank(us) && b[forward_sq(
                    one,
                    us,
                ).unwrap()] is None {
                    seq![mk_move(from, forward_sq(one, us).unwrap(), 1)]
                } else {
                    Seq::empty()
                }
            }
        } else {
            Seq::empty()
        },
        None => Seq::empty(),
    }
}

pub open spec fn pawn_cap_fn(from: int, us: Color) -> spec_fn(int) -> Seq<Move> {
    |t: int|
        if rank_of(t) == promo_rank(us) {
            promo_moves(from, t, true)
        } else {
            seq![mk_move(from, t, 4)]
        }
}

/// Diagonal captures of opponent pieces (promoting on the last rank).
pub open spec fn pawn_captures(b: Seq<Option<Piece>>, us: Color, from: int) -> Seq<Move> {
    collect(
        |t: int| pawn_target(us, from, t) && holds_color(b, other(us), t),
        pawn_cap_fn(from, us),
        64,
    )
}

/// The en-passant capture onto the en-passant square, when it is attacked.
pub open spec fn pawn_ep(ep: Option<Square>, us: Color, from: int) -> Seq<Move> {
    match ep {
        Some(e) => if pawn_target(us, from, e.0 as int) {
            seq![mk_move(from, e.0 as int, 5)]
        } else {
            Seq::empty()
        },
        None => Seq::empty(),
    }
}

pub open spec fn pawn_fn(b: Seq<Option<Piece>>, us: Color, ep: Option<Square>) -> spec_fn(int) -> Seq<Move> {
    |s: int| pawn_pushes(b, us, s) + pawn_captures(b, us, s) + pawn_ep(ep, us, s)
}

/// Pawn moves, by ascending origin square.
pub open spec fn pawn_moves(b: Seq<Option<Piece>>, us: Color, ep: Option<Square>) -> Seq<Move> {
    collect(holds(b, us, PieceType::Pawn), pawn_fn(b, us, ep), 64)
}

fn push_promotions(list: &mut MoveList, from: Square, to: Square, capture: bool)
    requires
        from.valid(),
        to.valid(),
    ensures
        final(list)@ == old(list)@ + promo_moves(from.0 as int, to.0 as int, capture),
{
    let ghost base = list@;
    if capture {
        list.push(Move::new(from, to, MoveFlag::PromoKnightCapture));
        list.push(Move::new(from, to, MoveFlag::PromoBishopCapture));
        list.push(Move::new(from, to, MoveFlag::PromoRookCapture));
        list.push(Move::new(from, to, MoveFlag::PromoQueenCapture));
    } else {
        list.push(Move::new(from, to, MoveFlag::PromoKnight));
        list.push(Move::new(from, to, MoveFlag::PromoBishop));
        list.push(Move::new(from, to, MoveFlag::PromoRook));
        list.push(Move::new(from, to, MoveFlag::PromoQueen));
    }
    assert(list@ =~= base + promo_moves(from.0 as int, to.0 as int, capture));
}

#[inline]
fn forward(sq: Square, us: Color) -> (r: Option<Square>)
    requires
        sq.valid(),
    ensures
        r matches Some(x) ==> x.valid() && forward_sq(sq.0 as int, us) == Some(x.0 as int),
        r is None ==> forward_sq(sq.0 as int, us) is None,
{
    match us {
        Color::White => {
            if sq.rank() < 7 {
                Some(Square(sq.0 + 8))
            } else {
                None
            }
        },
        Color::Black => {
            if sq.rank() > 0 {
                Some(Square(sq.0 - 8))
            } else {
                None
            }
        },
    }
}

fn gen_pawn_captures(list: &mut MoveList, from: Square, us: Color, caps: Bitboard, promo_rank: u8)
    requires
        from.valid(),
        promo_rank == crate::movegen::promo_rank(us),
    ensures
        final(list)@ == old(list)@ + collect(bits_of(caps.0), pawn_cap_fn(from.0 as int, us), 64),
{
    let ghost p = bits_of(caps.0);
    let ghost f = pawn_cap_fn(from.0 as int, us);
    let ghost base = list@;
    let mut rest = caps;
    let ghost mut k: nat = 0;
    while rest.0 != 0
        invariant
            from.valid(),
            promo_rank == crate::movegen::promo_rank(us),
            p == bits_of(caps.0),
            f == pawn_cap_fn(from.0 as int, us),
            k <= 64,
            forall|t: u64| t < 64 ==> #[trigger] bit(rest.0, t) == (p(t as int) && t >= k),
            list@ == base + collect(p, f, k),
        decreases 64 - k,
    {
        let ghost r0 = rest.0;
        let to = rest.pop_lsb();
        proof {
            lemma_pop_step(r0, rest.0, to.0 as int, k, p, f);
        }
        if to.rank() == promo_rank {
            push_promotions(list, from, to, true);
        } else {
            list.push(Move::new(from, to, MoveFlag::Capture));
        }
        proof {
            let t = to.0 as int;
            assert(list@ =~= base + collect(p, f, (t + 1) as nat));
            k = (t + 1) as nat;
        }
    }
    proof {
        lemma_pop_done(rest.0, k, p, f);
    }
}

/// The moves of the pawn on `from`: pushes, captures, en passant.
fn gen_pawn_from(
    pos: &Position,
    us: Color,
    from: Square,
    empty: Bitboard,
    enemy: Bitboard,
    promo_rank: u8,
    start_rank: u8,
    list: &mut MoveList,
)
    requires
        pos.bb_ok(),
        pos.ep_sq() matches Some(e) ==> e.valid(),
        from.valid(),
        empty.0 == !occ_mask(pos.board()),
        enemy.0 == color_mask(pos.board(), other(us)),
        promo_rank == crate::movegen::promo_rank(us),
        start_rank == crate::movegen::start_rank(us),
    ensures
        final(list)@ == old(list)@ + pawn_fn(pos.board(), us, pos.ep_sq())(from.0 as int),
{
    let ghost b = pos.board();
    let ghost ep = pos.ep_sq();
    let them = us.opp();
    proof {
        pos.lemma_board_len();
    }
    let ghost l0 = list@;
    // Pushes.
    if let Some(one) = forward(from, us) {
        proof {
            lemma_bit_ops(occ_mask(b), occ_mask(b), one.0 as u64);
            lemma_occ_mask_bit(b, one.0 as u64);
        }
        if empty.contains(one) {
            if one.rank() == promo_rank {
                push_promotions(list, from, one, false);
            } else {
                list.push(Move::new(from, one, MoveFlag::Quiet));
                if from.rank() == start_rank {
                    let two = forward(one, us).unwrap();
                    proof {
                        lemma_bit_ops(occ_mask(b), occ_mask(b), two.0 as u64);
                        lemma_occ_mask_bit(b, two.0 as u64);
                    }
                    if empty.contains(two) {
                        list.push(Move::new(from, two, MoveFlag::DoublePush));
                    }
                }
            }
        }
    }
    proof {
        assert(list@ =~= l0 + pawn_pushes(b, us, from.0 as int));
    }
    // Captures.
    let pa = attacks::pawn_attacks(us, from);
    let caps = Bitboard(pa.0 & enemy.0);
    proof {
        let s = from.0 as int;
        let p1 = bits_of(caps.0);
        let p2 = |t: int| pawn_target(us, s, t) && holds_color(b, other(us), t);
        assert forall|j: int| 0 <= j < 64 implies #[trigger] p1(j) == p2(j) by {
            lemma_bit_ops(pa.0, enemy.0, j as u64);
            lemma_color_mask_bit(b, them, j as u64);
        }
        lemma_collect_ext(p1, pawn_cap_fn(s, us), p2, pawn_cap_fn(s, us), 64);
    }
    let ghost l1 = list@;
    gen_pawn_captures(list, from, us, caps, promo_rank);
    // En passant.
    let ghost l2 = list@;
    if let Some(ep_sq) = pos.ep_square() {
        if pa.contains(ep_sq) {
            list.push(Move::new(from, ep_sq, MoveFlag::EnPassant));
        }
    }
    proof {
        let t = from.0 as int;
        assert(list@ =~= l2 + pawn_ep(ep, us, t));
        assert(list@ =~= l0 + pawn_fn(b, us, ep)(t));
    }
}

fn gen_pawns(pos: &Position, us: Color, list: &mut MoveList)
    requires
        pos.bb_ok(),
        pos.ep_sq() matches Some(e) ==> e.valid(),
    ensures
        final(list)@ == old(list)@ + pawn_moves(pos.board(), us, pos.ep_sq()),
{
    let ghost b = pos.board();
    let ghost ep = pos.ep_sq();
    let ghost p = holds(b, us, PieceType::Pawn);
    let ghost f = pawn_fn(b, us, ep);
    let ghost base = list@;
    let them = us.opp();
    let empty = Bitboard(!pos.occupancy().0);
    let enemy = pos.color_occupancy(them);
    let (promo_rank, start_rank) = match us {
        Color::White => (7u8, 1u8),
        Color::Black => (0u8, 6u8),
    };
    let mut rest = pos.pieces(us, PieceType::Pawn);
    let ghost mut k: nat = 0;
    proof {
        pos.lemma_board_len();
        assert forall|t: u64| t < 64 implies #[trigger] bit(rest.0, t) == (p(t as int) && t >= k) by {
            lemma_piece_mask_bit(b, us, PieceType::Pawn, t);
        }
    }
    while rest.0 != 0
        invariant
            pos.bb_ok(),
            b == pos.board(),
            b.len() == 64,
            ep == pos.ep_sq(),
            ep matches Some(e) ==> e.valid(),
            p == holds(b, us, PieceType::Pawn),
            f == pawn_fn(b, us, ep),
            empty.0 == !occ_mask(b),
            enemy.0 == color_mask(b, them),
            them == other(us),
            promo_rank == crate::movegen::promo_rank(us),
            start_rank == crate::movegen::start_rank(us),
            k <= 64,
            forall|t: u64| t < 64 ==> #[trigger] bit(rest.0, t) == (p(t as int) && t >= k),
            list@ == base + collect(p, f, k),
        decreases 64 - k,
    {
        let ghost r0 = rest.0;
        let from = rest.pop_lsb();
        proof {
            lemma_pop_step(r0, rest.0, from.0 as int, k, p, f);
        }
        gen_pawn_from(pos, us, from, empty, enemy, promo_rank, start_rank, list);
        proof {
            let t = from.0 as int;
            assert(list@ =~= base + collect(p, f, (t + 1) as nat));
            k = (t + 1) as nat;
        }
    }
    proof {
        lemma_pop_done(rest.0, k, p, f);
    }
}


// ---------------------------------------------------------------------------
// Castling and the full pseudo-legal list
// ---------------------------------------------------------------------------
/// The king's origin square for castling.
pub open spec fn castle_e(us: Color) -> int {
    if us == Color::White {
        4
    } else {
        60
    }
}

/// King-side castling: available right, F and G empty and not attacked;
/// queen-side: available right, D, C and B empty, D and C not attacked.
/// Neither while in check.
pub open spec fn castle_moves(b: Seq<Option<Piece>>, us: Color, rights: u8) -> Seq<Move> {
    let them = other(us);
    let e = castle_e(us);
    let kflag: u8 = if us == Color::White {
        CastleRights::WHITE_KING
    } else {
        CastleRights::BLACK_KING
    };
    let qflag: u8 = if us == Color::White {
        CastleRights::WHITE_QUEEN
    } else {
        CastleRights::BLACK_QUEEN
    };
    if attacked(b, king_of(b, us), them) {
        Seq::empty()
    } else {
        (if rights & kflag != 0 && b[e + 1] is None && b[e + 2] is None && !attacked(b, e + 1, them)
            && !attacked(b, e + 2, them) {
            seq![mk_move(e, e + 2, 2)]
        } else {
            Seq::empty()
        }) + (if rights & qflag != 0 && b[e - 1] is None && b[e - 2] is None && b[e - 3] is None
            && !attacked(b, e - 1, them) && !attacked(b, e - 2, them) {
            seq![mk_move(e, e - 2, 3)]
        } else {
            Seq::empty()
        })
    }
}

fn gen_castling(pos: &Position, us: Color, list: &mut MoveList)
    requires
        pos.bb_ok(),
        has_king(pos.board(), us),
    ensures
        final(list)@ == old(list)@ + castle_moves(pos.board(), us, pos.rights()),
{
    let ghost base = list@;
    if pos.in_check(us) {
        return;
    }
    let occ = pos.occupancy();
    let rights = pos.castling();
    let them = us.opp();

    // Square indices per color: (E, F, G, D, C, B).
    let (e, f, g, d, c, b, king_flag, queen_flag) = match us {
        Color::White => (4u8, 5u8, 6u8, 3u8, 2u8, 1u8, CastleRights::WHITE_KING, CastleRights::WHITE_QUEEN),
        Color::Black => (60u8, 61u8, 62u8, 59u8, 58u8, 57u8, CastleRights::BLACK_KING, CastleRights::BLACK_QUEEN),
    };
    proof {
        let bd = pos.board();
        lemma_occ_mask_bit(bd, f as u64);
        lemma_occ_mask_bit(bd, g as u64);
        lemma_occ_mask_bit(bd, d as u64);
        lemma_occ_mask_bit(bd, c as u64);
        lemma_occ_mask_bit(bd, b as u64);
    }
    let ghost l0 = list@;
    if rights.has(king_flag) && !occ.contains(Square(f)) && !occ.contains(Square(g))
        && !pos.is_attacked(Square(f), them) && !pos.is_attacked(Square(g), them) {
        list.push(Move::new(Square(e), Square(g), MoveFlag::KingCastle));
    }
    if rights.has(queen_flag) && !occ.contains(Square(d)) && !occ.contains(Square(c))
        && !occ.contains(Square(b)) && !pos.is_attacked(Square(d), them) && !pos.is_attacked(
        Square(c),
        them,
    ) {
        list.push(Move::new(Square(e), Square(c), MoveFlag::QueenCastle));
    }
    assert(list@ =~= base + castle_moves(pos.board(), us, pos.rights()));
}

/// Every pseudo-legal move of side `us`: pawn moves, knight moves, king
/// moves, bishop/rook/queen moves, then castling.
pub open spec fn pseudo_moves(b: Seq<Option<Piece>>, us: Color, rights: u8, ep: Option<Square>) -> Seq<Move> {
    pawn_moves(b, us, ep) + knight_moves(b, us) + king_moves(b, us) + slider_moves(b, us)
        + castle_moves(b, us, rights)
}

/// The pseudo-legal moves of a position.
pub open spec fn pseudo_of(pos: Position) -> Seq<Move> {
    pseudo_moves(pos.board(), pos.stm(), pos.rights(), pos.ep_sq())
}

pub fn generate_pseudo_legal(pos: &Position, list: &mut MoveList)
    requires
        pos.wf(),
        has_king(pos.board(), pos.stm()),
    ensures
        final(list)@ == old(list)@ + pseudo_of(*pos),
        pseudo_of(*pos).no_duplicates(),
        all_moves(pseudo_of(*pos), own_move(pos.board(), pos.stm())),
{
    let ghost base = list@;
    proof {
        pos.lemma_wf_bounds();
        lemma_legal_distinct(*pos);
    }
    let us = pos.side_to_move();
    gen_pawns(pos, us, list);
    gen_knights(pos, us, list);
    gen_king(pos, us, list);
    gen_sliders(pos, us, list);
    gen_castling(pos, us, list);
    assert(list@ =~= base + pseudo_of(*pos));
}


// ---------------------------------------------------------------------------
// Soundness of the generated moves
// ---------------------------------------------------------------------------
/// The en-passant square, if any, is consistent: on the third rank from the
/// opponent's side, empty, with the opponent's pawn right behind it.
pub open spec fn ep_ok(b: Seq<Option<Piece>>, us: Color, ep: Option<Square>) -> bool {
    match ep {
        None => true,
        Some(e) => {
            let s = e.0 as int;
            let behind = if us == Color::White {
                s - 8
            } else {
                s + 8
            };
            &&& s < 64
            &&& rank_of(s) == (if us == Color::White {
                5int
            } else {
                2int
            })
            &&& b[s] is None
            &&& b[behind] == Some(Piece { color: other(us), kind: PieceType::Pawn })
        },
    }
}

/// Square `s` holds a piece of color `c` and kind `k`.
pub open spec fn holds_piece(b: Seq<Option<Piece>>, s: int, c: Color, k: PieceType) -> bool {
    b[s] == Some(Piece { color: c, kind: k })
}

/// Each castling right has its king and its rook on their starting squares.
pub open spec fn castle_ok(b: Seq<Option<Piece>>, rights: u8) -> bool {
    &&& rights & 1 != 0 ==> holds_piece(b, 4, Color::White, PieceType::King) && holds_piece(
        b,
        7,
        Color::White,
        PieceType::Rook,
    )
    &&& rights & 2 != 0 ==> holds_piece(b, 4, Color::White, PieceType::King) && holds_piece(
        b,
        0,
        Color::White,
        PieceType::Rook,
    )
    &&& rights & 4 != 0 ==> holds_piece(b, 60, Color::Black, PieceType::King) && holds_piece(
        b,
        63,
        Color::Black,
        PieceType::Rook,
    )
    &&& rights & 8 != 0 ==> holds_piece(b, 60, Color::Black, PieceType::King) && holds_piece(
        b,
        56,
        Color::Black,
        PieceType::Rook,
    )
}

/// A position moves can be generated and played from: well formed, the side
/// to move has a king, and the en-passant square and castling rights are
/// consistent with the board.
pub open spec fn playable(pos: Position) -> bool {
    &&& pos.wf()
    &&& has_king(pos.board(), pos.stm())
    &&& ep_ok(pos.board(), pos.stm(), pos.ep_sq())
    &&& castle_ok(pos.board(), pos.rights())
}

/// The move can be made and unmade, and the mover keeps a king.
pub open spec fn move_sound(b: Seq<Option<Piece>>, us: Color, m: Move) -> bool {
    &&& applicable(b, m)
    &&& reversible(b, m, us)
    &&& has_king(board_after(b, m, us), us)
}

/// The shape of a generated move: it moves a piece of the mover; it only
/// takes a piece its mover attacks (or en passant, onto the en-passant
/// square); a double push goes two squares straight ahead from the start rank
/// over an empty square; castling moves the king two squares from its
/// origin.
pub open spec fn move_shape(b: Seq<Option<Piece>>, us: Color, ep: Option<Square>, m: Move) -> bool {
    let from = mv_from(m);
    let to = mv_to(m);
    let c = mv_code(m);
    &&& holds_color(b, us, from)
    &&& (code_is_capture(c) && c != 5 ==> holds_color(b, other(us), to) && attacker_at(
        b,
        to,
        us,
        from,
    ))
    &&& (!code_is_capture(c) ==> b[to] is None)
    &&& (c == 5 ==> {
        &&& ep matches Some(e) && e.0 == to
        &&& ep_capture_square(from, to) == to + (if us == Color::White { -8int } else { 8int })
    })
    &&& (c == 1 ==> {
        &&& b[from] == Some(Piece { color: us, kind: PieceType::Pawn })
        &&& rank_of(from) == start_rank(us)
        &&& to == from + (if us == Color::White { 16int } else { -16int })
        &&& b[(from + to) / 2] is None
        &&& b[to] is None
    })
    &&& (c == 2 ==> {
        &&& from == castle_e(us)
        &&& to == from + 2
        &&& b[from + 1] is None
        &&& holds_piece(b, from + 3, us, PieceType::Rook)
    })
    &&& (c == 3 ==> {
        &&& from == castle_e(us)
        &&& to == from - 2
        &&& b[from - 1] is None
        &&& holds_piece(b, from - 4, us, PieceType::Rook)
    })
    &&& (c == 2 || c == 3 ==> holds_piece(b, from, us, PieceType::King))
    &&& (holds_piece(b, from, us, PieceType::Pawn) ==> pawn_shape(us, from, to, c))
    &&& (!holds_piece(b, from, us, PieceType::Pawn) ==> c == 0 || c == 2 || c == 3 || c == 4)
}

/// Where a pawn move of color `us` goes: a push (or push promotion) one
/// square forward, a double push two squares forward, a capture (en passant
/// or promoting too) one square diagonally forward.
pub open spec fn pawn_shape(us: Color, from: int, to: int, c: u16) -> bool {
    let fwd = if us == Color::White {
        8int
    } else {
        -8int
    };
    &&& (c == 0 || 8 <= c < 12 ==> to == from + fwd)
    &&& (c == 1 ==> to == from + 2 * fwd)
    &&& (code_is_capture(c) ==> pawn_target(us, from, to))
    &&& c != 2
    &&& c != 3
    &&& c < 16
}

proof fn lemma_step_sound(
    b: Seq<Option<Piece>>,
    us: Color,
    ep: Option<Square>,
    s: int,
    reach: spec_fn(int) -> bool,
    i: int,
)
    requires
        b.len() == 64,
        0 <= s < 64,
        holds_color(b, us, s),
        !holds_piece(b, s, us, PieceType::Pawn),
        has_king(b, us),
        forall|t: int|
            0 <= t < 64 && reach(t) && holds_color(b, other(us), t) ==> #[trigger] attacker_at(
                b,
                t,
                us,
                s,
            ),
        0 <= i < step_moves(b, us, s, reach).len(),
    ensures
        move_sound(b, us, step_moves(b, us, s, reach)[i]),
        move_shape(b, us, ep, step_moves(b, us, s, reach)[i]),
{
    let p = |t: int| reach(t) && !holds_color(b, us, t);
    let f = |t: int|
        seq![mk_move(s, t, if holds_color(b, other(us), t) { 4u16 } else { 0u16 })];
    lemma_collect_member(p, f, 64, i);
    let (t, j) = choose|t: int, j: int|
        0 <= t < 64 && p(t) && 0 <= j < f(t).len() && #[trigger] f(t)[j] == collect(p, f, 64)[i];
    let c: u16 = if holds_color(b, other(us), t) {
        4u16
    } else {
        0u16
    };
    let m = mk_move(s, t, c);
    assert(m == step_moves(b, us, s, reach)[i]);
    lemma_mk_move(s, t, c);
    let b2 = board_after(b, m, us);
    assert(b2 == relocate(b, s, t));
    if captured_by(b, m) is Some {
        assert(attacker_at(b, t, us, s));
    }
    let k = choose|k: int| 0 <= k < 64 && b[k] == Some(Piece { color: us, kind: PieceType::King });
    if k == s {
        assert(b2[t] == b[k]);
    } else {
        assert(k != t);
        assert(b2[k] == b[k]);
    }
}

proof fn lemma_pawn_sound(b: Seq<Option<Piece>>, us: Color, ep: Option<Square>, s: int, i: int)
    requires
        b.len() == 64,
        0 <= s < 64,
        b[s] == Some(Piece { color: us, kind: PieceType::Pawn }),
        has_king(b, us),
        ep_ok(b, us, ep),
        0 <= i < pawn_fn(b, us, ep)(s).len(),
    ensures
        move_sound(b, us, pawn_fn(b, us, ep)(s)[i]),
        move_shape(b, us, ep, pawn_fn(b, us, ep)(s)[i]),
{
    let k = choose|k: int| 0 <= k < 64 && b[k] == Some(Piece { color: us, kind: PieceType::King });
    let pushes = pawn_pushes(b, us, s);
    let caps = pawn_captures(b, us, s);
    let eps = pawn_ep(ep, us, s);
    let m = pawn_fn(b, us, ep)(s)[i];
    assert(pawn_fn(b, us, ep)(s) == pushes + caps + eps);
    if i < pushes.len() {
        let one = forward_sq(s, us).unwrap();
        assert(0 <= one < 64);
        if rank_of(one) == promo_rank(us) {
            let c: u16 = (8 + i) as u16;
            assert(m == mk_move(s, one, c));
            lemma_mk_move(s, one, c);
            assert(board_after(b, m, us)[k] == b[k]);
        } else if i == 0 {
            assert(m == mk_move(s, one, 0));
            lemma_mk_move(s, one, 0);
            assert(board_after(b, m, us)[k] == b[k]);
        } else {
            let two = forward_sq(one, us).unwrap();
            assert(0 <= two < 64);
            assert(m == mk_move(s, two, 1));
            lemma_mk_move(s, two, 1);
            assert((s + two) / 2 == one);
            assert(board_after(b, m, us)[k] == b[k]);
        }
    } else if i < pushes.len() + caps.len() {
        let pc = |t: int| pawn_target(us, s, t) && holds_color(b, other(us), t);
        let f = pawn_cap_fn(s, us);
        let ii = i - pushes.len();
        lemma_collect_member(pc, f, 64, ii);
        let (t, j) = choose|t: int, j: int|
            0 <= t < 64 && pc(t) && 0 <= j < f(t).len() && #[trigger] f(t)[j] == collect(pc, f, 64)[ii];
        assert(m == f(t)[j]);
        if rank_of(t) == promo_rank(us) {
            let c: u16 = (12 + j) as u16;
            assert(m == mk_move(s, t, c));
            lemma_mk_move(s, t, c);
        } else {
            assert(m == mk_move(s, t, 4));
            lemma_mk_move(s, t, 4);
        }
        assert(attacker_at(b, t, us, s));
        assert(board_after(b, m, us)[k] == b[k]);
    } else {
        let e = ep.unwrap();
        let t = e.0 as int;
        assert(m == mk_move(s, t, 5));
        lemma_mk_move(s, t, 5);
        let cap = ep_capture_square(s, t);
        assert(cap == if us == Color::White { t - 8 } else { t + 8 });
        assert(board_after(b, m, us)[k] == b[k]);
    }
}

proof fn lemma_castle_sound(b: Seq<Option<Piece>>, us: Color, ep: Option<Square>, rights: u8, i: int)
    requires
        b.len() == 64,
        has_king(b, us),
        castle_ok(b, rights),
        0 <= i < castle_moves(b, us, rights).len(),
    ensures
        move_sound(b, us, castle_moves(b, us, rights)[i]),
        move_shape(b, us, ep, castle_moves(b, us, rights)[i]),
{
    let e = castle_e(us);
    let m = castle_moves(b, us, rights)[i];
    let k = choose|k: int| 0 <= k < 64 && b[k] == Some(Piece { color: us, kind: PieceType::King });
    assert(rights & 1 != 0 ==> b[4] is Some && b[7] is Some);
    if m == mk_move(e, e + 2, 2) {
        lemma_mk_move(e, e + 2, 2);
        let b2 = board_after(b, m, us);
        if k == e {
            assert(b2[e + 2] == b[k]);
        } else if k == e + 3 {
            assert(b2[e + 1] == b[k]);
        } else {
            assert(b2[k] == b[k]);
        }
    } else {
        assert(m == mk_move(e, e - 2, 3));
        lemma_mk_move(e, e - 2, 3);
        let b2 = board_after(b, m, us);
        if k == e {
            assert(b2[e - 2] == b[k]);
        } else if k == e - 4 {
            assert(b2[e - 1] == b[k]);
        } else {
            assert(b2[k] == b[k]);
        }
    }
}


/// Every pseudo-legal move of a playable position can be made and unmade
/// and leaves the mover a king.
pub proof fn lemma_pseudo_sound(pos: Position, i: int)
    requires
        playable(pos),
        0 <= i < pseudo_of(pos).len(),
    ensures
        move_sound(pos.board(), pos.stm(), pseudo_of(pos)[i]),
        move_shape(pos.board(), pos.stm(), pos.ep_sq(), pseudo_of(pos)[i]),
{
    let b = pos.board();
    let us = pos.stm();
    let ep = pos.ep_sq();
    pos.lemma_board_len();
    pos.lemma_wf_bounds();
    let pm = pawn_moves(b, us, pos.ep_sq());
    let nm = knight_moves(b, us);
    let km = king_moves(b, us);
    let sm = slider_moves(b, us);
    let cm = castle_moves(b, us, pos.rights());
    assert(pseudo_of(pos) == pm + nm + km + sm + cm);
    let m = pseudo_of(pos)[i];
    if i < pm.len() {
        let p = holds(b, us, PieceType::Pawn);
        let f = pawn_fn(b, us, pos.ep_sq());
        lemma_collect_member(p, f, 64, i);
        let (sq, j) = choose|sq: int, j: int|
            0 <= sq < 64 && p(sq) && 0 <= j < f(sq).len() && #[trigger] f(sq)[j] == collect(p, f, 64)[i];
        lemma_pawn_sound(b, us, pos.ep_sq(), sq, j);
    } else if i < pm.len() + nm.len() {
        let ii = i - pm.len();
        let p = holds(b, us, PieceType::Knight);
        let f = knight_fn(b, us);
        lemma_collect_member(p, f, 64, ii);
        let (sq, j) = choose|sq: int, j: int|
            0 <= sq < 64 && p(sq) && 0 <= j < f(sq).len() && #[trigger] f(sq)[j] == collect(p, f, 64)[ii];
        lemma_step_sound(b, us, ep, sq, knight_reach(sq), j);
    } else if i < pm.len() + nm.len() + km.len() {
        let ii = i - pm.len() - nm.len();
        lemma_king_of(b, us);
        lemma_step_sound(b, us, ep, king_of(b, us), king_reach(king_of(b, us)), ii);
    } else if i < pm.len() + nm.len() + km.len() + sm.len() {
        let ii = i - pm.len() - nm.len() - km.len();
        let bm = collect(holds(b, us, PieceType::Bishop), bishop_fn(b, us), 64);
        let rm = collect(holds(b, us, PieceType::Rook), rook_fn(b, us), 64);
        let qm = collect(holds(b, us, PieceType::Queen), queen_fn(b, us), 64);
        assert(sm == bm + rm + qm);
        if ii < bm.len() {
            let p = holds(b, us, PieceType::Bishop);
            let f = bishop_fn(b, us);
            lemma_collect_member(p, f, 64, ii);
            let (sq, j) = choose|sq: int, j: int|
                0 <= sq < 64 && p(sq) && 0 <= j < f(sq).len() && #[trigger] f(sq)[j] == collect(p, f, 64)[ii];
            assert forall|t: int|
                0 <= t < 64 && bishop_reach(b, sq)(t) && holds_color(b, other(us), t) implies #[trigger] attacker_at(
                b,
                t,
                us,
                sq,
            ) by {
                crate::magic::lemma_slider_symmetric(sq, t, occ_mask(b));
            }
            lemma_step_sound(b, us, ep, sq, bishop_reach(b, sq), j);
        } else if ii < bm.len() + rm.len() {
            let i2 = ii - bm.len();
            let p = holds(b, us, PieceType::Rook);
            let f = rook_fn(b, us);
            lemma_collect_member(p, f, 64, i2);
            let (sq, j) = choose|sq: int, j: int|
                0 <= sq < 64 && p(sq) && 0 <= j < f(sq).len() && #[trigger] f(sq)[j] == collect(p, f, 64)[i2];
            assert forall|t: int|
                0 <= t < 64 && rook_reach(b, sq)(t) && holds_color(b, other(us), t) implies #[trigger] attacker_at(
                b,
                t,
                us,
                sq,
            ) by {
                crate::magic::lemma_slider_symmetric(sq, t, occ_mask(b));
            }
            lemma_step_sound(b, us, ep, sq, rook_reach(b, sq), j);
        } else {
            let i2 = ii - bm.len() - rm.len();
            let p = holds(b, us, PieceType::Queen);
            let f = queen_fn(b, us);
            lemma_collect_member(p, f, 64, i2);
            let (sq, j) = choose|sq: int, j: int|
                0 <= sq < 64 && p(sq) && 0 <= j < f(sq).len() && #[trigger] f(sq)[j] == collect(p, f, 64)[i2];
            assert forall|t: int|
                0 <= t < 64 && queen_reach(b, sq)(t) && holds_color(b, other(us), t) implies #[trigger] attacker_at(
                b,
                t,
                us,
                sq,
            ) by {
                crate::magic::lemma_slider_symmetric(sq, t, occ_mask(b));
            }
            lemma_step_sound(b, us, ep, sq, queen_reach(b, sq), j);
        }
    } else {
        let ii = i - pm.len() - nm.len() - km.len() - sm.len();
        lemma_castle_sound(b, us, pos.ep_sq(), pos.rights(), ii);
    }
}

/// The move leaves the mover's king unattacked.
pub open spec fn legal_after(b: Seq<Option<Piece>>, us: Color, m: Move) -> bool {
    let b2 = board_after(b, m, us);
    !attacked(b2, king_of(b2, us), other(us))
}

/// The legal moves of side `us` on board `b` with castling rights `rights`
/// and en-passant square `ep`: the pseudo-legal moves, in order, that do not
/// leave the mover in check.
pub open spec fn legal_in(b: Seq<Option<Piece>>, us: Color, rights: u8, ep: Option<Square>) -> Seq<Move> {
    pseudo_moves(b, us, rights, ep).filter(|m: Move| legal_after(b, us, m))
}

/// The legal moves of a position.
pub open spec fn legal_of(pos: Position) -> Seq<Move> {
    legal_in(pos.board(), pos.stm(), pos.rights(), pos.ep_sq())
}

/// All fully legal moves in the position. Mutates `pos` transiently via
/// make/unmake but leaves it unchanged on return.
pub fn legal_moves(pos: &mut Position) -> (r: MoveList)
    requires
        playable(*old(pos)),
    ensures
        *final(pos) == *old(pos),
        r@ == legal_of(*old(pos)),
        r@.no_duplicates(),
{
    let ghost p0 = *pos;
    proof {
        lemma_legal_distinct(p0);
    }
    let mut pseudo = MoveList::new();
    generate_pseudo_legal(pos, &mut pseudo);

    let us = pos.side_to_move();
    let mut legal = MoveList::new();
    let n = pseudo.len();
    let mut i: usize = 0;
    let ghost pred = |m: Move| legal_after(p0.board(), p0.stm(), m);
    while i < n
        invariant
            *pos == p0,
            playable(p0),
            us == p0.stm(),
            n == pseudo@.len(),
            pseudo@ == pseudo_of(p0),
            pred == (|m: Move| legal_after(p0.board(), p0.stm(), m)),
            i <= n,
            legal@ == pseudo@.subrange(0, i as int).filter(pred),
        decreases n - i,
    {
        let m = pseudo.get(i);
        proof {
            lemma_pseudo_sound(p0, i as int);
        }
        let undo = pos.make_move(m);
        proof {
            pos.lemma_board_len();
            pos.lemma_wf_bounds();
        }
        let ok = !pos.is_attacked(pos.king_square(us), us.opp());
        if ok {
            legal.push(m);
        }
        pos.unmake_move(undo);
        proof {
            let s1 = pseudo@.subrange(0, i + 1);
            assert(s1.drop_last() =~= pseudo@.subrange(0, i as int));
            assert(ok == pred(m));
            assert(legal@ =~= s1.filter(pred)) by {
                reveal_with_fuel(Seq::filter, 1);
            }
        }
        i = i + 1;
    }
    proof {
        assert(pseudo@.subrange(0, n as int) =~= pseudo@);
    }
    legal
}

/// A legal move can be made and unmade, has the shape of a generated move,
/// and does not leave the mover in check.
pub proof fn lemma_legal_sound(p: Position, m: Move)
    requires
        playable(p),
        legal_of(p).contains(m),
    ensures
        move_sound(p.board(), p.stm(), m),
        move_shape(p.board(), p.stm(), p.ep_sq(), m),
        legal_after(p.board(), p.stm(), m),
{
    let pred = |x: Move| legal_after(p.board(), p.stm(), x);
    pseudo_of(p).lemma_filter_contains_rev(pred, m);
    let i = choose|i: int| 0 <= i < pseudo_of(p).len() && pseudo_of(p)[i] == m;
    let j = choose|j: int| 0 <= j < legal_of(p).len() && legal_of(p)[j] == m;
    pseudo_of(p).lemma_filter_pred(pred, j);
    lemma_pseudo_sound(p, i);
}

/// A position play can go on from: playable, and the side that just moved
/// has a king that is not left attacked.
pub open spec fn sane(pos: Position) -> bool {
    &&& playable(pos)
    &&& has_king(pos.board(), other(pos.stm()))
    &&& !attacked(pos.board(), king_of(pos.board(), other(pos.stm())), pos.stm())
}

/// `q` is the position reached from `p` by making move `m`.
pub open spec fn made(p: Position, m: Move, q: Position) -> bool {
    &&& q.wf()
    &&& q.board() == board_after(p.board(), m, p.stm())
    &&& q.stm() == other(p.stm())
    &&& q.rights() == rights_after(p.rights(), m)
    &&& q.ep_sq() == ep_after(m)
    &&& q.half() == half_after(p.board(), m, p.half())
    &&& q.full() == full_after(p.stm(), p.full())
}

/// The position that move `m` leads to from `p`.
pub open spec fn next_position(p: Position, m: Move) -> Position {
    choose|q: Position| made(p, m, q)
}

/// `made` determines the position reached.
pub proof fn lemma_made_unique(p: Position, m: Move, q: Position)
    requires
        made(p, m, q),
    ensures
        next_position(p, m) == q,
{
    let r = next_position(p, m);
    assert(made(p, m, r));
    q.lemma_wf_ext(r);
}

/// Squares a move does not touch keep their piece.
proof fn lemma_after_frame(b: Seq<Option<Piece>>, us: Color, ep: Option<Square>, m: Move, s: int)
    requires
        b.len() == 64,
        applicable(b, m),
        move_shape(b, us, ep, m),
        0 <= s < 64,
        s != mv_from(m),
        s != mv_to(m),
        mv_code(m) == 5 ==> s != ep_capture_square(mv_from(m), mv_to(m)),
        mv_code(m) == 2 ==> s != mv_from(m) + 3 && s != mv_from(m) + 1,
        mv_code(m) == 3 ==> s != mv_from(m) - 4 && s != mv_from(m) - 1,
    ensures
        board_after(b, m, us)[s] == b[s],
{
}

/// A legal move from a sane position leads to a sane position: the opponent
/// keeps its king (only attacked pieces are taken), a double push leaves a
/// valid en-passant square, and every castling right that survives still has
/// its king and rook at home.
pub proof fn lemma_legal_move_keeps_sane(p: Position, m: Move, q: Position)
    requires
        sane(p),
        legal_of(p).contains(m),
        made(p, m, q),
    ensures
        sane(q),
{
    let b = p.board();
    let us = p.stm();
    let them = other(us);
    let ep = p.ep_sq();
    p.lemma_board_len();
    p.lemma_wf_bounds();
    q.lemma_board_len();
    lemma_legal_sound(p, m);
    let b2 = q.board();
    let from = mv_from(m);
    let to = mv_to(m);
    let c = mv_code(m);
    // The opponent's king stays where it was.
    lemma_king_of(b, them);
    let k = king_of(b, them);
    assert(k != to) by {
        if k == to && code_is_capture(c) && c != 5 {
            assert(attacker_at(b, k, us, from));
        }
    }
    if c == 5 {
        assert(k != ep_capture_square(from, to));
    }
    lemma_after_frame(b, us, ep, m, k);
    assert(b2[k] == b[k]);
    assert(has_king(b2, them));
    assert(other(them) == us);
    // En passant after a double push.
    if c == 1 {
        let mid = (from + to) / 2;
        assert(q.ep_sq() == Some(Square(mid as u8)));
        lemma_after_frame(b, us, ep, m, mid);
        assert(ep_ok(b2, them, q.ep_sq()));
    }
    assert(ep_ok(b2, them, q.ep_sq()));
    // Castling rights that survive keep their pieces.
    lemma_rights_after_bits(p.rights(), m);
    let r2 = q.rights();
    if c == 5 {
        let e = ep.unwrap();
        assert(rank_of(to) == 5 || rank_of(to) == 2);
    }
    assert forall|s: int|
        (s == 0 || s == 4 || s == 7 || s == 56 || s == 60 || s == 63) && #[trigger] b2[s] != b[s]
            implies (s == from || s == to || (c == 2 && s == from + 3) || (c == 3 && s == from - 4)) by {
        if s != from && s != to && !(c == 2 && s == from + 3) && !(c == 3 && s == from - 4) {
            if c == 2 || c == 3 {
                assert(from == 4 || from == 60);
            }
            lemma_after_frame(b, us, ep, m, s);
        }
    }
    assert(castle_ok(b2, r2));
}

/// The initial board: both kings present, Black's king not attacked, and
/// every castling right with its king and rook at home.
pub proof fn lemma_start_board()
    ensures
        ({
            let b = crate::position::start_board();
            &&& b.len() == 64
            &&& has_king(b, Color::White)
            &&& has_king(b, Color::Black)
            &&& !attacked(b, king_of(b, Color::Black), Color::White)
            &&& castle_ok(b, 15)
        }),
{
    let b = crate::position::start_board();
    assert(b[4] == Some(Piece { color: Color::White, kind: PieceType::King }));
    assert(b[60] == Some(Piece { color: Color::Black, kind: PieceType::King }));
    assert(has_king(b, Color::White));
    assert(has_king(b, Color::Black));
    lemma_king_of(b, Color::Black);
    let k = king_of(b, Color::Black);
    assert(k == 60);
    let occ = occ_mask(b);
    lemma_occ_mask_bit(b, 51);
    lemma_occ_mask_bit(b, 52);
    lemma_occ_mask_bit(b, 53);
    lemma_occ_mask_bit(b, 59);
    lemma_occ_mask_bit(b, 61);
    assert forall|a: int| 0 <= a < 64 implies !#[trigger] attacker_at(b, 60, Color::White, a) by {
        if a < 16 {
            assert(!slider_target(60, a, occ, bishop_dirs())) by {
                assert(!ray(4, 7, 1, 1, occ, a, 7));
                assert(!ray(4, 7, 1, -1, occ, a, 7));
                assert(!ray(4, 7, -1, 1, occ, a, 7));
                assert(!ray(4, 7, -1, -1, occ, a, 7));
            }
            assert(!slider_target(60, a, occ, rook_dirs())) by {
                assert(!ray(4, 7, 1, 0, occ, a, 7));
                assert(!ray(4, 7, -1, 0, occ, a, 7));
                assert(!ray(4, 7, 0, 1, occ, a, 7));
                assert(!ray(4, 7, 0, -1, occ, a, 7));
            }
        }
    }
    assert(castle_ok(b, 15));
}

/// The initial position is sane.
pub proof fn lemma_start_sane(p: Position)
    requires
        p.wf(),
        p.board() == crate::position::start_board(),
        p.stm() == Color::White,
        p.rights() == 15,
        p.ep_sq() is None,
    ensures
        sane(p),
{
    lemma_start_board();
}

} // verus!

verus! {

// ---------------------------------------------------------------------------
// No move is generated twice
// ---------------------------------------------------------------------------
/// Every move of `s` satisfies `q`.
pub open spec fn all_moves(s: Seq<Move>, q: spec_fn(Move) -> bool) -> bool {
    forall|i: int| 0 <= i < s.len() ==> #[trigger] q(s[i])
}

/// Two move lists without repeats whose moves are told apart by `qa` and
/// `qb` make a list without repeats.
proof fn lemma_concat_distinct(
    a: Seq<Move>,
    b: Seq<Move>,
    qa: spec_fn(Move) -> bool,
    qb: spec_fn(Move) -> bool,
)
    requires
        a.no_duplicates(),
        b.no_duplicates(),
        all_moves(a, qa),
        all_moves(b, qb),
        forall|m: Move| #[trigger] qa(m) ==> !qb(m),
    ensures
        (a + b).no_duplicates(),
{
    assert forall|i: int, j: int| 0 <= i < a.len() && 0 <= j < b.len() implies a[i] != b[j] by {
        assert(qa(a[i]));
        assert(qb(b[j]));
    }
    vstd::seq_lib::lemma_no_dup_in_concat(a, b);
}

/// The union of the lists for the squares `p` picks, each without repeats
/// and with its moves keyed by its square, has no repeats; its moves are
/// keyed by squares `p` picks and satisfy what each list's moves do.
proof fn lemma_collect_distinct(
    p: spec_fn(int) -> bool,
    f: spec_fn(int) -> Seq<Move>,
    n: nat,
    key: spec_fn(Move) -> int,
    q: spec_fn(Move) -> bool,
)
    requires
        forall|s: int|
            0 <= s < n && #[trigger] p(s) ==> f(s).no_duplicates() && all_moves(f(s), q) && forall|i: int|
                0 <= i < f(s).len() ==> key(#[trigger] f(s)[i]) == s,
    ensures
        collect(p, f, n).no_duplicates(),
        all_moves(collect(p, f, n), q),
        forall|i: int|
            0 <= i < collect(p, f, n).len() ==> 0 <= key(#[trigger] collect(p, f, n)[i]) < n && p(
                key(collect(p, f, n)[i]),
            ),
    decreases n,
{
    if n > 0 {
        lemma_collect_distinct(p, f, (n - 1) as nat, key, q);
        let c = collect(p, f, (n - 1) as nat);
        let g = if p(n - 1) {
            f(n - 1)
        } else {
            Seq::<Move>::empty()
        };
        assert(collect(p, f, n) == c + g);
        let qa = |m: Move| key(m) < n - 1;
        let qb = |m: Move| key(m) == n - 1;
        assert forall|i: int| 0 <= i < c.len() implies #[trigger] qa(c[i]) by {}
        assert forall|i: int| 0 <= i < g.len() implies #[trigger] qb(g[i]) by {}
        lemma_concat_distinct(c, g, qa, qb);
        let r = c + g;
        assert forall|i: int| 0 <= i < r.len() implies #[trigger] q(r[i]) by {
            if i < c.len() {
                assert(r[i] == c[i]);
            } else {
                assert(r[i] == g[i - c.len()]);
            }
        }
        assert forall|i: int| 0 <= i < r.len() implies 0 <= key(#[trigger] r[i]) < n && p(key(r[i])) by {
            if i < c.len() {
                assert(r[i] == c[i]);
            } else {
                assert(r[i] == g[i - c.len()]);
            }
        }
    }
}

/// A quiet move or a capture (codes 0 and 4), from `from`.
pub open spec fn step_from(from: int) -> spec_fn(Move) -> bool {
    |m: Move| mv_from(m) == from && (mv_code(m) == 0 || mv_code(m) == 4)
}

proof fn lemma_step_distinct(b: Seq<Option<Piece>>, us: Color, from: int, reach: spec_fn(int) -> bool)
    requires
        0 <= from < 64,
    ensures
        step_moves(b, us, from, reach).no_duplicates(),
        all_moves(step_moves(b, us, from, reach), step_from(from)),
{
    let p = |t: int| reach(t) && !holds_color(b, us, t);
    let f = |t: int|
        seq![mk_move(from, t, if holds_color(b, other(us), t) { 4u16 } else { 0u16 })];
    assert forall|t: int| 0 <= t < 64 && #[trigger] p(t) implies f(t).no_duplicates() && all_moves(
        f(t),
        step_from(from),
    ) && forall|i: int| 0 <= i < f(t).len() ==> mv_to(#[trigger] f(t)[i]) == t by {
        lemma_mk_move(from, t, if holds_color(b, other(us), t) { 4u16 } else { 0u16 });
        assert(f(t)[0] == mk_move(from, t, if holds_color(b, other(us), t) { 4u16 } else { 0u16 }));
    }
    lemma_collect_distinct(p, f, 64, |m: Move| mv_to(m), step_from(from));
}

/// The piece-step moves of pieces of kind `k` (codes 0 and 4, from a square
/// holding such a piece).
pub open spec fn piece_step(b: Seq<Option<Piece>>, us: Color, k: PieceType) -> spec_fn(Move) -> bool {
    |m: Move|
        b[mv_from(m)] == Some(Piece { color: us, kind: k }) && (mv_code(m) == 0 || mv_code(m) == 4)
}

proof fn lemma_kind_distinct(
    b: Seq<Option<Piece>>,
    us: Color,
    k: PieceType,
    f: spec_fn(int) -> Seq<Move>,
    reach: spec_fn(int) -> spec_fn(int) -> bool,
)
    requires
        forall|s: int| #[trigger] f(s) == step_moves(b, us, s, reach(s)),
    ensures
        collect(holds(b, us, k), f, 64).no_duplicates(),
        all_moves(collect(holds(b, us, k), f, 64), piece_step(b, us, k)),
{
    let p = holds(b, us, k);
    assert forall|s: int| 0 <= s < 64 && #[trigger] p(s) implies f(s).no_duplicates() && all_moves(
        f(s),
        piece_step(b, us, k),
    ) && forall|i: int| 0 <= i < f(s).len() ==> mv_from(#[trigger] f(s)[i]) == s by {
        lemma_step_distinct(b, us, s, reach(s));
        assert forall|i: int| 0 <= i < f(s).len() implies #[trigger] piece_step(b, us, k)(f(s)[i]) by {
            assert(step_from(s)(f(s)[i]));
        }
        assert forall|i: int| 0 <= i < f(s).len() implies mv_from(#[trigger] f(s)[i]) == s by {
            assert(step_from(s)(f(s)[i]));
        }
    }
    lemma_collect_distinct(p, f, 64, |m: Move| mv_from(m), piece_step(b, us, k));
}

/// A pawn move from `from`: a push (codes 0, 1, 8..11), a capture (4,
/// 12..15) or en passant (5).
pub open spec fn pawn_from(from: int) -> spec_fn(Move) -> bool {
    |m: Move| mv_from(m) == from && mv_code(m) != 2 && mv_code(m) != 3 && mv_code(m) < 16
}

proof fn lemma_promo_distinct(from: int, to: int, capture: bool)
    requires
        0 <= from < 64,
        0 <= to < 64,
    ensures
        promo_moves(from, to, capture).no_duplicates(),
        forall|i: int|
            0 <= i < 4 ==> {
                let m = #[trigger] promo_moves(from, to, capture)[i];
                &&& mv_from(m) == from
                &&& mv_to(m) == to
                &&& mv_code(m) == (if capture { 12int } else { 8int }) + i
            },
        promo_moves(from, to, capture).len() == 4,
{
    let c: u16 = if capture {
        12
    } else {
        8
    };
    lemma_mk_move(from, to, c);
    lemma_mk_move(from, to, (c + 1) as u16);
    lemma_mk_move(from, to, (c + 2) as u16);
    lemma_mk_move(from, to, (c + 3) as u16);
}

proof fn lemma_pawn_fn_distinct(b: Seq<Option<Piece>>, us: Color, ep: Option<Square>, s: int)
    requires
        0 <= s < 64,
        ep matches Some(e) ==> e.valid(),
    ensures
        pawn_fn(b, us, ep)(s).no_duplicates(),
        all_moves(pawn_fn(b, us, ep)(s), pawn_from(s)),
{
    let pu = pawn_pushes(b, us, s);
    let ca = pawn_captures(b, us, s);
    let e = pawn_ep(ep, us, s);
    // Pushes.
    let push_q = |m: Move|
        mv_from(m) == s && (mv_code(m) == 0 || mv_code(m) == 1 || (8 <= mv_code(m) < 12));
    assert(pu.no_duplicates() && all_moves(pu, push_q)) by {
        match forward_sq(s, us) {
            Some(one) => {
                if b[one] is None {
                    if rank_of(one) == promo_rank(us) {
                        lemma_promo_distinct(s, one, false);
                    } else {
                        lemma_mk_move(s, one, 0);
                        if rank_of(s) == start_rank(us) && b[forward_sq(one, us).unwrap()] is None {
                            let two = forward_sq(one, us).unwrap();
                            lemma_mk_move(s, two, 1);
                            assert(pu =~= seq![mk_move(s, one, 0), mk_move(s, two, 1)]);
                        } else {
                            assert(pu =~= seq![mk_move(s, one, 0)]);
                        }
                    }
                }
            },
            None => {},
        }
    }
    // Captures.
    let cap_q = |m: Move| mv_from(m) == s && (mv_code(m) == 4 || (12 <= mv_code(m) < 16));
    let cp = |t: int| pawn_target(us, s, t) && holds_color(b, other(us), t);
    let cf = pawn_cap_fn(s, us);
    assert forall|t: int| 0 <= t < 64 && #[trigger] cp(t) implies cf(t).no_duplicates() && all_moves(
        cf(t),
        cap_q,
    ) && forall|i: int| 0 <= i < cf(t).len() ==> mv_to(#[trigger] cf(t)[i]) == t by {
        if rank_of(t) == promo_rank(us) {
            lemma_promo_distinct(s, t, true);
        } else {
            lemma_mk_move(s, t, 4);
            assert(cf(t) =~= seq![mk_move(s, t, 4)]);
        }
    }
    lemma_collect_distinct(cp, cf, 64, |m: Move| mv_to(m), cap_q);
    // En passant.
    let ep_q = |m: Move| mv_from(m) == s && mv_code(m) == 5;
    assert(e.no_duplicates() && all_moves(e, ep_q)) by {
        match ep {
            Some(sq) => {
                if pawn_target(us, s, sq.0 as int) {
                    lemma_mk_move(s, sq.0 as int, 5);
                }
            },
            None => {},
        }
    }
    let q1 = |m: Move|
        mv_from(m) == s && (mv_code(m) == 0 || mv_code(m) == 1 || (8 <= mv_code(m) < 16) || mv_code(m)
            == 4);
    lemma_concat_distinct(pu, ca, push_q, cap_q);
    assert forall|i: int| 0 <= i < (pu + ca).len() implies #[trigger] q1((pu + ca)[i]) by {
        if i < pu.len() {
            assert(push_q(pu[i]));
        } else {
            assert(cap_q(ca[i - pu.len()]));
        }
    }
    lemma_concat_distinct(pu + ca, e, q1, ep_q);
    let all = pu + ca + e;
    assert(pawn_fn(b, us, ep)(s) == all);
    assert forall|i: int| 0 <= i < all.len() implies #[trigger] pawn_from(s)(all[i]) by {
        if i < (pu + ca).len() {
            assert(q1((pu + ca)[i]));
        } else {
            assert(ep_q(e[i - (pu + ca).len()]));
        }
    }
}

/// A pawn move, from a square holding a pawn of the side.
pub open spec fn pawn_move_q(b: Seq<Option<Piece>>, us: Color) -> spec_fn(Move) -> bool {
    |m: Move|
        b[mv_from(m)] == Some(Piece { color: us, kind: PieceType::Pawn }) && mv_code(m) != 2 && mv_code(m)
            != 3
}

proof fn lemma_pawns_distinct(b: Seq<Option<Piece>>, us: Color, ep: Option<Square>)
    requires
        ep matches Some(e) ==> e.valid(),
    ensures
        pawn_moves(b, us, ep).no_duplicates(),
        all_moves(pawn_moves(b, us, ep), pawn_move_q(b, us)),
{
    let p = holds(b, us, PieceType::Pawn);
    let f = pawn_fn(b, us, ep);
    assert forall|s: int| 0 <= s < 64 && #[trigger] p(s) implies f(s).no_duplicates() && all_moves(
        f(s),
        pawn_move_q(b, us),
    ) && forall|i: int| 0 <= i < f(s).len() ==> mv_from(#[trigger] f(s)[i]) == s by {
        lemma_pawn_fn_distinct(b, us, ep, s);
        assert forall|i: int| 0 <= i < f(s).len() implies #[trigger] pawn_move_q(b, us)(f(s)[i]) by {
            assert(pawn_from(s)(f(s)[i]));
        }
        assert forall|i: int| 0 <= i < f(s).len() implies mv_from(#[trigger] f(s)[i]) == s by {
            assert(pawn_from(s)(f(s)[i]));
        }
    }
    lemma_collect_distinct(p, f, 64, |m: Move| mv_from(m), pawn_move_q(b, us));
}

/// A castling move (codes 2 and 3).
pub open spec fn castle_q() -> spec_fn(Move) -> bool {
    |m: Move| mv_code(m) == 2 || mv_code(m) == 3
}

proof fn lemma_castles_distinct(b: Seq<Option<Piece>>, us: Color, rights: u8)
    ensures
        castle_moves(b, us, rights).no_duplicates(),
        all_moves(castle_moves(b, us, rights), castle_q()),
{
    let e = castle_e(us);
    lemma_mk_move(e, e + 2, 2);
    lemma_mk_move(e, e - 2, 3);
}

/// The pseudo-legal moves repeat no move.
pub proof fn lemma_pseudo_distinct(b: Seq<Option<Piece>>, us: Color, rights: u8, ep: Option<Square>)
    requires
        b.len() == 64,
        has_king(b, us),
        ep matches Some(e) ==> e.valid(),
    ensures
        pseudo_moves(b, us, rights, ep).no_duplicates(),
        all_moves(pseudo_moves(b, us, rights, ep), own_move(b, us)),
{
    lemma_king_of(b, us);
    let kq = piece_step(b, us, PieceType::King);
    let pq = pawn_move_q(b, us);
    let nq = piece_step(b, us, PieceType::Knight);
    let bq = piece_step(b, us, PieceType::Bishop);
    let rq = piece_step(b, us, PieceType::Rook);
    let qq = piece_step(b, us, PieceType::Queen);
    let cq = castle_q();
    lemma_pawns_distinct(b, us, ep);
    lemma_kind_distinct(b, us, PieceType::Knight, |s: int| step_moves(b, us, s, knight_reach(s)), |s: int| knight_reach(s));
    assert(knight_moves(b, us) == collect(holds(b, us, PieceType::Knight), |s: int| step_moves(b, us, s, knight_reach(s)), 64));
    lemma_kind_distinct(b, us, PieceType::Bishop, bishop_fn(b, us), |s: int| bishop_reach(b, s));
    lemma_kind_distinct(b, us, PieceType::Rook, rook_fn(b, us), |s: int| rook_reach(b, s));
    lemma_kind_distinct(b, us, PieceType::Queen, queen_fn(b, us), |s: int| queen_reach(b, s));
    let k = king_of(b, us);
    lemma_step_distinct(b, us, k, king_reach(k));
    let km = king_moves(b, us);
    assert forall|i: int| 0 <= i < km.len() implies #[trigger] kq(km[i]) by {
        assert(step_from(k)(km[i]));
    }
    lemma_castles_distinct(b, us, rights);
    let pm = pawn_moves(b, us, ep);
    let nm = knight_moves(b, us);
    let bm = collect(holds(b, us, PieceType::Bishop), bishop_fn(b, us), 64);
    let rm = collect(holds(b, us, PieceType::Rook), rook_fn(b, us), 64);
    let qm = collect(holds(b, us, PieceType::Queen), queen_fn(b, us), 64);
    let cm = castle_moves(b, us, rights);
    // Pawns and knights.
    let q2 = |m: Move| pq(m) || nq(m);
    lemma_concat_distinct(pm, nm, pq, nq);
    assert forall|i: int| 0 <= i < (pm + nm).len() implies #[trigger] q2((pm + nm)[i]) by {
        if i < pm.len() {
            assert(pq(pm[i]));
        } else {
            assert(nq(nm[i - pm.len()]));
        }
    }
    // ... and the king.
    let q3 = |m: Move| q2(m) || kq(m);
    let s3 = pm + nm + km;
    lemma_concat_distinct(pm + nm, km, q2, kq);
    assert forall|i: int| 0 <= i < s3.len() implies #[trigger] q3(s3[i]) by {
        if i < (pm + nm).len() {
            assert(q2((pm + nm)[i]));
        } else {
            assert(kq(km[i - (pm + nm).len()]));
        }
    }
    // The sliders.
    let q4 = |m: Move| bq(m) || rq(m);
    lemma_concat_distinct(bm, rm, bq, rq);
    assert forall|i: int| 0 <= i < (bm + rm).len() implies #[trigger] q4((bm + rm)[i]) by {
        if i < bm.len() {
            assert(bq(bm[i]));
        } else {
            assert(rq(rm[i - bm.len()]));
        }
    }
    let q5 = |m: Move| q4(m) || qq(m);
    let sl = bm + rm + qm;
    lemma_concat_distinct(bm + rm, qm, q4, qq);
    assert forall|i: int| 0 <= i < sl.len() implies #[trigger] q5(sl[i]) by {
        if i < (bm + rm).len() {
            assert(q4((bm + rm)[i]));
        } else {
            assert(qq(qm[i - (bm + rm).len()]));
        }
    }
    assert(slider_moves(b, us) == sl);
    let q6 = |m: Move| q3(m) || q5(m);
    let s6 = s3 + sl;
    lemma_concat_distinct(s3, sl, q3, q5);
    assert forall|i: int| 0 <= i < s6.len() implies #[trigger] q6(s6[i]) by {
        if i < s3.len() {
            assert(q3(s3[i]));
        } else {
            assert(q5(sl[i - s3.len()]));
        }
    }
    lemma_concat_distinct(s6, cm, q6, cq);
    assert(pseudo_moves(b, us, rights, ep) == s6 + cm);
    let all = s6 + cm;
    assert forall|i: int| 0 <= i < all.len() implies #[trigger] own_move(b, us)(all[i]) by {
        if i < s6.len() {
            assert(q6(s6[i]));
            assert(q3(s6[i]) || q5(s6[i]));
        } else {
            assert(cq(cm[i - s6.len()]));
        }
    }
}

/// A move of side `us`: castling, or a move of one of its pieces.
pub open spec fn own_move(b: Seq<Option<Piece>>, us: Color) -> spec_fn(Move) -> bool {
    |m: Move| mv_code(m) == 2 || mv_code(m) == 3 || holds_color(b, us, mv_from(m))
}

/// A filtered list without repeats has none.
proof fn lemma_filter_distinct(s: Seq<Move>, pred: spec_fn(Move) -> bool)
    requires
        s.no_duplicates(),
    ensures
        s.filter(pred).no_duplicates(),
    decreases s.len(),
{
    reveal(Seq::filter);
    if s.len() > 0 {
        let d = s.drop_last();
        assert(d.no_duplicates()) by {
            assert forall|i: int, j: int| 0 <= i < d.len() && 0 <= j < d.len() && i != j implies d[i] != d[j] by {
                assert(d[i] == s[i] && d[j] == s[j]);
            }
        }
        lemma_filter_distinct(d, pred);
        if pred(s.last()) {
            let fd = d.filter(pred);
            assert(!fd.contains(s.last())) by {
                if fd.contains(s.last()) {
                    d.lemma_filter_contains_rev(pred, s.last());
                    let w = choose|w: int| 0 <= w < d.len() && d[w] == s.last();
                    assert(s[w] == s[s.len() - 1]);
                }
            }
            let r = fd.push(s.last());
            assert forall|i: int, j: int| 0 <= i < r.len() && 0 <= j < r.len() && i != j implies r[i] != r[j] by {
                if i == fd.len() {
                    assert(fd[j] != s.last());
                } else if j == fd.len() {
                    assert(fd[i] != s.last());
                }
            }
        }
    }
}

/// The legal moves repeat no move.
pub proof fn lemma_legal_distinct(pos: Position)
    requires
        pos.wf(),
        has_king(pos.board(), pos.stm()),
    ensures
        legal_of(pos).no_duplicates(),
        pseudo_of(pos).no_duplicates(),
        all_moves(pseudo_of(pos), own_move(pos.board(), pos.stm())),
{
    pos.lemma_board_len();
    pos.lemma_wf_bounds();
    lemma_pseudo_distinct(pos.board(), pos.stm(), pos.rights(), pos.ep_sq());
    lemma_filter_distinct(pseudo_of(pos), |m: Move| legal_after(pos.board(), pos.stm(), m));
}

/// Castling needs its right: a castling move leaves the king's home square
/// (e1 or e8) for the g-file only while the side holds its king-side right
/// (`WHITE_KING` or `BLACK_KING`), and for the c-file only while it holds its
/// queen-side right (`WHITE_QUEEN` or `BLACK_QUEEN`).
pub proof fn lemma_castle_needs_right(b: Seq<Option<Piece>>, us: Color, rights: u8, m: Move)
    requires
        castle_moves(b, us, rights).contains(m),
    ensures
        mv_from(m) == (if us == Color::White { 4int } else { 60int }),
        mv_to(m) == (if us == Color::White { 6int } else { 62int }) || mv_to(m) == (if us
            == Color::White {
            2int
        } else {
            58int
        }),
        mv_to(m) == (if us == Color::White { 6int } else { 62int }) ==> rights & (if us
            == Color::White {
            CastleRights::WHITE_KING
        } else {
            CastleRights::BLACK_KING
        }) != 0,
        mv_to(m) == (if us == Color::White { 2int } else { 58int }) ==> rights & (if us
            == Color::White {
            CastleRights::WHITE_QUEEN
        } else {
            CastleRights::BLACK_QUEEN
        }) != 0,
{
    let e = castle_e(us);
    lemma_mk_move(e, e + 2, 2);
    lemma_mk_move(e, e - 2, 3);
    let s = castle_moves(b, us, rights);
    let i = choose|i: int| 0 <= i < s.len() && s[i] == m;
    assert(s[i] == m);
}

} // verus!
