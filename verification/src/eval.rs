//! Static evaluation: material + piece-square tables, with a king table that is
//! tapered between middlegame and endgame by remaining material.
//!
//! Tables are written in the human-readable a8-first layout (rank 8 on top).
//! A white piece on square `sq` reads the entry of the mirrored square
//! (`sq ^ 56`); a black piece reads the entry of `sq` itself and is
//! subtracted, giving a vertically symmetric evaluation.

use crate::position::{has_king, king_of, lemma_king_of, Position};
use crate::types::{file_of, other, rank_of, Color, Piece, PieceType, Square};
use vstd::prelude::*;

verus! {

/// Full board phase: the phase weights of all pieces of the initial position.
pub const MAX_PHASE: i32 = 24;

pub const BISHOP_PAIR_BONUS: i32 = 30;

/// Centipawn material value of a piece kind.
pub open spec fn material(k: PieceType) -> int {
    match k {
        PieceType::Pawn => 100,
        PieceType::Knight => 320,
        PieceType::Bishop => 330,
        PieceType::Rook => 500,
        PieceType::Queen => 900,
        PieceType::King => 0,
    }
}

/// Phase weight of a piece kind for tapering the king table.
pub open spec fn phase_weight(k: PieceType) -> int {
    match k {
        PieceType::Knight => 1,
        PieceType::Bishop => 1,
        PieceType::Rook => 2,
        PieceType::Queen => 4,
        _ => 0,
    }
}

/// Pawn piece-square values, rank 8 first.
pub open spec fn pawn_table() -> Seq<int> {
    seq![
        0int, 0, 0, 0, 0, 0, 0, 0,
        50, 50, 50, 50, 50, 50, 50, 50,
        10, 10, 20, 30, 30, 20, 10, 10,
        5, 5, 10, 25, 25, 10, 5, 5,
        0, 0, 0, 20, 20, 0, 0, 0,
        5, -5, -10, 0, 0, -10, -5, 5,
        5, 10, 10, -20, -20, 10, 10, 5,
        0, 0, 0, 0, 0, 0, 0, 0,
    ]
}

fn pawn_table_at(i: usize) -> (r: i32)
    requires
        i < 64,
    ensures
        r == pawn_table()[i as int],
        -50 <= r <= 50,
{
    let t: [i32; 64] = [
        0, 0, 0, 0, 0, 0, 0, 0,
        50, 50, 50, 50, 50, 50, 50, 50,
        10, 10, 20, 30, 30, 20, 10, 10,
        5, 5, 10, 25, 25, 10, 5, 5,
        0, 0, 0, 20, 20, 0, 0, 0,
        5, -5, -10, 0, 0, -10, -5, 5,
        5, 10, 10, -20, -20, 10, 10, 5,
        0, 0, 0, 0, 0, 0, 0, 0,
    ];
    assert(t@.map_values(|x: i32| x as int) =~= pawn_table());
    t[i]
}

/// Knight piece-square values, rank 8 first.
pub open spec fn knight_table() -> Seq<int> {
    seq![
        -50int, -40, -30, -30, -30, -30, -40, -50,
        -40, -20, 0, 0, 0, 0, -20, -40,
        -30, 0, 10, 15, 15, 10, 0, -30,
        -30, 5, 15, 20, 20, 15, 5, -30,
        -30, 0, 15, 20, 20, 15, 0, -30,
        -30, 5, 10, 15, 15, 10, 5, -30,
        -40, -20, 0, 5, 5, 0, -20, -40,
        -50, -40, -30, -30, -30, -30, -40, -50,
    ]
}

fn knight_table_at(i: usize) -> (r: i32)
    requires
        i < 64,
    ensures
        r == knight_table()[i as int],
        -50 <= r <= 50,
{
    let t: [i32; 64] = [
        -50, -40, -30, -30, -30, -30, -40, -50,
        -40, -20, 0, 0, 0, 0, -20, -40,
        -30, 0, 10, 15, 15, 10, 0, -30,
        -30, 5, 15, 20, 20, 15, 5, -30,
        -30, 0, 15, 20, 20, 15, 0, -30,
        -30, 5, 10, 15, 15, 10, 5, -30,
        -40, -20, 0, 5, 5, 0, -20, -40,
        -50, -40, -30, -30, -30, -30, -40, -50,
    ];
    assert(t@.map_values(|x: i32| x as int) =~= knight_table());
    t[i]
}

/// Bishop piece-square values, rank 8 first.
pub open spec fn bishop_table() -> Seq<int> {
    seq![
        -20int, -10, -10, -10, -10, -10, -10, -20,
        -10, 0, 0, 0, 0, 0, 0, -10,
        -10, 0, 5, 10, 10, 5, 0, -10,
        -10, 5, 5, 10, 10, 5, 5, -10,
        -10, 0, 10, 10, 10, 10, 0, -10,
        -10, 10, 10, 10, 10, 10, 10, -10,
        -10, 5, 0, 0, 0, 0, 5, -10,
        -20, -10, -10, -10, -10, -10, -10, -20,
    ]
}

fn bishop_table_at(i: usize) -> (r: i32)
    requires
        i < 64,
    ensures
        r == bishop_table()[i as int],
        -50 <= r <= 50,
{
    let t: [i32; 64] = [
        -20, -10, -10, -10, -10, -10, -10, -20,
        -10, 0, 0, 0, 0, 0, 0, -10,
        -10, 0, 5, 10, 10, 5, 0, -10,
        -10, 5, 5, 10, 10, 5, 5, -10,
        -10, 0, 10, 10, 10, 10, 0, -10,
        -10, 10, 10, 10, 10, 10, 10, -10,
        -10, 5, 0, 0, 0, 0, 5, -10,
        -20, -10, -10, -10, -10, -10, -10, -20,
    ];
    assert(t@.map_values(|x: i32| x as int) =~= bishop_table());
    t[i]
}

/// Rook piece-square values, rank 8 first.
pub open spec fn rook_table() -> Seq<int> {
    seq![
        0int, 0, 0, 0, 0, 0, 0, 0,
        5, 10, 10, 10, 10, 10, 10, 5,
        -5, 0, 0, 0, 0, 0, 0, -5,
        -5, 0, 0, 0, 0, 0, 0, -5,
        -5, 0, 0, 0, 0, 0, 0, -5,
        -5, 0, 0, 0, 0, 0, 0, -5,
        -5, 0, 0, 0, 0, 0, 0, -5,
        0, 0, 0, 5, 5, 0, 0, 0,
    ]
}

fn rook_table_at(i: usize) -> (r: i32)
    requires
        i < 64,
    ensures
        r == rook_table()[i as int],
        -50 <= r <= 50,
{
    let t: [i32; 64] = [
        0, 0, 0, 0, 0, 0, 0, 0,
        5, 10, 10, 10, 10, 10, 10, 5,
        -5, 0, 0, 0, 0, 0, 0, -5,
        -5, 0, 0, 0, 0, 0, 0, -5,
        -5, 0, 0, 0, 0, 0, 0, -5,
        -5, 0, 0, 0, 0, 0, 0, -5,
        -5, 0, 0, 0, 0, 0, 0, -5,
        0, 0, 0, 5, 5, 0, 0, 0,
    ];
    assert(t@.map_values(|x: i32| x as int) =~= rook_table());
    t[i]
}

/// Queen piece-square values, rank 8 first.
pub open spec fn queen_table() -> Seq<int> {
    seq![
        -20int, -10, -10, -5, -5, -10, -10, -20,
        -10, 0, 0, 0, 0, 0, 0, -10,
        -10, 0, 5, 5, 5, 5, 0, -10,
        -5, 0, 5, 5, 5, 5, 0, -5,
        0, 0, 5, 5, 5, 5, 0, -5,
        -10, 5, 5, 5, 5, 5, 0, -10,
        -10, 0, 5, 0, 0, 0, 0, -10,
        -20, -10, -10, -5, -5, -10, -10, -20,
    ]
}

fn queen_table_at(i: usize) -> (r: i32)
    requires
        i < 64,
    ensures
        r == queen_table()[i as int],
        -50 <= r <= 50,
{
    let t: [i32; 64] = [
        -20, -10, -10, -5, -5, -10, -10, -20,
        -10, 0, 0, 0, 0, 0, 0, -10,
        -10, 0, 5, 5, 5, 5, 0, -10,
        -5, 0, 5, 5, 5, 5, 0, -5,
        0, 0, 5, 5, 5, 5, 0, -5,
        -10, 5, 5, 5, 5, 5, 0, -10,
        -10, 0, 5, 0, 0, 0, 0, -10,
        -20, -10, -10, -5, -5, -10, -10, -20,
    ];
    assert(t@.map_values(|x: i32| x as int) =~= queen_table());
    t[i]
}

/// King (middlegame) piece-square values, rank 8 first.
pub open spec fn king_mg_table() -> Seq<int> {
    seq![
        -30int, -40, -40, -50, -50, -40, -40, -30,
        -30, -40, -40, -50, -50, -40, -40, -30,
        -30, -40, -40, -50, -50, -40, -40, -30,
        -30, -40, -40, -50, -50, -40, -40, -30,
        -20, -30, -30, -40, -40, -30, -30, -20,
        -10, -20, -20, -20, -20, -20, -20, -10,
        20, 20, 0, 0, 0, 0, 20, 20,
        20, 30, 10, 0, 0, 10, 30, 20,
    ]
}

fn king_mg_table_at(i: usize) -> (r: i32)
    requires
        i < 64,
    ensures
        r == king_mg_table()[i as int],
        -50 <= r <= 50,
{
    let t: [i32; 64] = [
        -30, -40, -40, -50, -50, -40, -40, -30,
        -30, -40, -40, -50, -50, -40, -40, -30,
        -30, -40, -40, -50, -50, -40, -40, -30,
        -30, -40, -40, -50, -50, -40, -40, -30,
        -20, -30, -30, -40, -40, -30, -30, -20,
        -10, -20, -20, -20, -20, -20, -20, -10,
        20, 20, 0, 0, 0, 0, 20, 20,
        20, 30, 10, 0, 0, 10, 30, 20,
    ];
    assert(t@.map_values(|x: i32| x as int) =~= king_mg_table());
    t[i]
}

/// King (endgame) piece-square values, rank 8 first.
pub open spec fn king_eg_table() -> Seq<int> {
    seq![
        -50int, -40, -30, -20, -20, -30, -40, -50,
        -30, -20, -10, 0, 0, -10, -20, -30,
        -30, -10, 20, 30, 30, 20, -10, -30,
        -30, -10, 30, 40, 40, 30, -10, -30,
        -30, -10, 30, 40, 40, 30, -10, -30,
        -30, -10, 20, 30, 30, 20, -10, -30,
        -30, -30, 0, 0, 0, 0, -30, -30,
        -50, -30, -30, -30, -30, -30, -30, -50,
    ]
}

fn king_eg_table_at(i: usize) -> (r: i32)
    requires
        i < 64,
    ensures
        r == king_eg_table()[i as int],
        -50 <= r <= 50,
{
    let t: [i32; 64] = [
        -50, -40, -30, -20, -20, -30, -40, -50,
        -30, -20, -10, 0, 0, -10, -20, -30,
        -30, -10, 20, 30, 30, 20, -10, -30,
        -30, -10, 30, 40, 40, 30, -10, -30,
        -30, -10, 30, 40, 40, 30, -10, -30,
        -30, -10, 20, 30, 30, 20, -10, -30,
        -30, -30, 0, 0, 0, 0, -30, -30,
        -50, -30, -30, -30, -30, -30, -30, -50,
    ];
    assert(t@.map_values(|x: i32| x as int) =~= king_eg_table());
    t[i]
}

/// The piece-square value of kind `k` at table index `i`.
pub open spec fn table(k: PieceType, i: int) -> int {
    match k {
        PieceType::Pawn => pawn_table()[i],
        PieceType::Knight => knight_table()[i],
        PieceType::Bishop => bishop_table()[i],
        PieceType::Rook => rook_table()[i],
        PieceType::Queen => queen_table()[i],
        PieceType::King => king_mg_table()[i],
    }
}

fn table_at(k: PieceType, i: usize) -> (r: i32)
    requires
        i < 64,
    ensures
        r == table(k, i as int),
        -50 <= r <= 50,
{
    match k {
        PieceType::Pawn => pawn_table_at(i),
        PieceType::Knight => knight_table_at(i),
        PieceType::Bishop => bishop_table_at(i),
        PieceType::Rook => rook_table_at(i),
        PieceType::Queen => queen_table_at(i),
        PieceType::King => king_mg_table_at(i),
    }
}

/// The square on the same file and the mirrored rank.
pub open spec fn flip(s: int) -> int {
    (7 - rank_of(s)) * 8 + file_of(s)
}

/// The sum of `g` over the first `n` files of rank `r`.
pub open spec fn row_sum(g: spec_fn(int) -> int, r: int, n: nat) -> int
    decreases n,
{
    if n == 0 {
        0
    } else {
        row_sum(g, r, (n - 1) as nat) + g(r * 8 + n - 1)
    }
}

/// The sum of `g` over the squares of the first `n` ranks.
pub open spec fn grid_sum(g: spec_fn(int) -> int, n: nat) -> int
    decreases n,
{
    if n == 0 {
        0
    } else {
        grid_sum(g, (n - 1) as nat) + row_sum(g, n - 1, 8)
    }
}

/// White-relative material and placement value of the piece on `s` (kings
/// count through their own tapered table instead).
pub open spec fn square_value(o: Option<Piece>, s: int) -> int {
    match o {
        Some(p) => if p.kind == PieceType::King {
            0
        } else if p.color == Color::White {
            material(p.kind) + table(p.kind, flip(s))
        } else {
            -(material(p.kind) + table(p.kind, s))
        },
        None => 0,
    }
}

pub open spec fn weight_of(o: Option<Piece>) -> int {
    match o {
        Some(p) => phase_weight(p.kind),
        None => 0,
    }
}

pub open spec fn is_bishop_of(o: Option<Piece>, c: Color) -> int {
    if o == Some(Piece { color: c, kind: PieceType::Bishop }) {
        1
    } else {
        0
    }
}

/// The game phase: the phase weights on the board, capped at the full-board
/// value.
pub open spec fn phase_of(b: Seq<Option<Piece>>) -> int {
    let w = grid_sum(|s: int| weight_of(b[s]), 8);
    if w < MAX_PHASE {
        w
    } else {
        MAX_PHASE as int
    }
}

/// Integer division rounding toward zero, as Rust's `/` does.
pub open spec fn tdiv(a: int, d: int) -> int {
    if a >= 0 {
        a / d
    } else {
        -((-a) / d)
    }
}

/// The tapered king value at table index `i` in phase `ph`.
pub open spec fn king_value(i: int, ph: int) -> int {
    tdiv(king_mg_table()[i] * ph + king_eg_table()[i] * (MAX_PHASE - ph), MAX_PHASE as int)
}

pub open spec fn pair_bonus(b: Seq<Option<Piece>>, c: Color) -> int {
    if grid_sum(|s: int| is_bishop_of(b[s], c), 8) >= 2 {
        BISHOP_PAIR_BONUS as int
    } else {
        0
    }
}

/// The evaluation from White's side.
pub open spec fn white_eval(b: Seq<Option<Piece>>) -> int {
    let ph = phase_of(b);
    grid_sum(|s: int| square_value(b[s], s), 8) + king_value(flip(king_of(b, Color::White)), ph)
        - king_value(king_of(b, Color::Black), ph) + pair_bonus(b, Color::White) - pair_bonus(
        b,
        Color::Black,
    )
}

/// The evaluation from the side to move's side.
pub open spec fn eval_of(b: Seq<Option<Piece>>, us: Color) -> int {
    if us == Color::White {
        white_eval(b)
    } else {
        -white_eval(b)
    }
}

fn material_of(k: PieceType) -> (r: i32)
    ensures
        r == material(k),
{
    match k {
        PieceType::Pawn => 100,
        PieceType::Knight => 320,
        PieceType::Bishop => 330,
        PieceType::Rook => 500,
        PieceType::Queen => 900,
        PieceType::King => 0,
    }
}

fn weight_of_kind(k: PieceType) -> (r: i32)
    ensures
        r == phase_weight(k),
{
    match k {
        PieceType::Knight => 1,
        PieceType::Bishop => 1,
        PieceType::Rook => 2,
        PieceType::Queen => 4,
        _ => 0,
    }
}

/// Index of the mirrored square.
fn flip_index(sq: Square) -> (r: usize)
    requires
        sq.valid(),
    ensures
        r == flip(sq.0 as int),
        r < 64,
{
    ((7 - sq.rank()) * 8 + sq.file()) as usize
}

fn king_value_at(i: usize, ph: i32) -> (r: i32)
    requires
        i < 64,
        0 <= ph <= MAX_PHASE,
    ensures
        r == king_value(i as int, ph as int),
        -50 <= r <= 50,
{
    let mg = king_mg_table_at(i);
    let eg = king_eg_table_at(i);
    let rest = MAX_PHASE - ph;
    assert(-1200 <= mg * ph <= 1200) by (nonlinear_arith)
        requires
            -50 <= mg <= 50,
            0 <= ph <= 24,
    ;
    assert(-1200 <= eg * rest <= 1200) by (nonlinear_arith)
        requires
            -50 <= eg <= 50,
            0 <= rest <= 24,
    ;
    assert(-50 * 24 <= mg * ph + eg * rest <= 50 * 24) by (nonlinear_arith)
        requires
            -50 <= mg <= 50,
            -50 <= eg <= 50,
            0 <= ph <= 24,
            rest == 24 - ph,
    ;
    let num = mg * ph + eg * rest;
    if num >= 0 {
        num / MAX_PHASE
    } else {
        -((-num) / MAX_PHASE)
    }
}

/// The terms square `sq` adds to the evaluation: its value, its phase
/// weight, and whether it holds a white or a black bishop.
fn square_terms(pos: &Position, sq: Square) -> (r: (i32, i32, i32, i32))
    requires
        sq.valid(),
    ensures
        r.0 == square_value(pos.board()[sq.0 as int], sq.0 as int),
        r.1 == weight_of(pos.board()[sq.0 as int]),
        r.2 == is_bishop_of(pos.board()[sq.0 as int], Color::White),
        r.3 == is_bishop_of(pos.board()[sq.0 as int], Color::Black),
        -950 <= r.0 <= 950,
        0 <= r.1 <= 4,
        0 <= r.2 <= 1,
        0 <= r.3 <= 1,
{
    match pos.piece_on(sq) {
        Some(p) => {
            let w = weight_of_kind(p.kind);
            let v: i32 = if p.kind == PieceType::King {
                0
            } else {
                match p.color {
                    Color::White => material_of(p.kind) + table_at(p.kind, flip_index(sq)),
                    Color::Black => -(material_of(p.kind) + table_at(p.kind, sq.index())),
                }
            };
            let bishop = p.kind == PieceType::Bishop;
            let wb: i32 = if bishop && p.color == Color::White {
                1
            } else {
                0
            };
            let bb: i32 = if bishop && p.color == Color::Black {
                1
            } else {
                0
            };
            (v, w, wb, bb)
        },
        None => (0, 0, 0, 0),
    }
}

/// Evaluate from the side-to-move's perspective (positive = better for them).
pub fn evaluate(pos: &Position) -> (r: i32)
    requires
        pos.wf(),
        has_king(pos.board(), Color::White),
        has_king(pos.board(), Color::Black),
    ensures
        r == eval_of(pos.board(), pos.stm()),
        -70000 <= r <= 70000,
{
    proof {
        pos.lemma_wf_bounds();
        pos.lemma_board_len();
    }
    let ghost b = pos.board();
    let ghost gv = |s: int| square_value(b[s], s);
    let ghost gw = |s: int| weight_of(b[s]);
    let ghost gwb = |s: int| is_bishop_of(b[s], Color::White);
    let ghost gbb = |s: int| is_bishop_of(b[s], Color::Black);
    let mut score: i32 = 0;
    let mut weights: i32 = 0;
    let mut white_bishops: i32 = 0;
    let mut black_bishops: i32 = 0;
    let mut rank: u8 = 0;
    while rank < 8
        invariant
            b == pos.board(),
            b.len() == 64,
            rank <= 8,
            score == grid_sum(gv, rank as nat),
            weights == grid_sum(gw, rank as nat),
            white_bishops == grid_sum(gwb, rank as nat),
            black_bishops == grid_sum(gbb, rank as nat),
            gv == (|s: int| square_value(b[s], s)),
            gw == (|s: int| weight_of(b[s])),
            gwb == (|s: int| is_bishop_of(b[s], Color::White)),
            gbb == (|s: int| is_bishop_of(b[s], Color::Black)),
            -7600 * rank <= score <= 7600 * rank,
            0 <= weights <= 32 * rank,
            0 <= white_bishops <= 8 * rank,
            0 <= black_bishops <= 8 * rank,
        decreases 8 - rank,
    {
        let ghost s0 = score;
        let ghost w0 = weights;
        let ghost wb0 = white_bishops;
        let ghost bb0 = black_bishops;
        let mut file: u8 = 0;
        while file < 8
            invariant
                b == pos.board(),
                b.len() == 64,
                rank < 8,
                file <= 8,
                score == s0 + row_sum(gv, rank as int, file as nat),
                weights == w0 + row_sum(gw, rank as int, file as nat),
                white_bishops == wb0 + row_sum(gwb, rank as int, file as nat),
                black_bishops == bb0 + row_sum(gbb, rank as int, file as nat),
                gv == (|s: int| square_value(b[s], s)),
                gw == (|s: int| weight_of(b[s])),
                gwb == (|s: int| is_bishop_of(b[s], Color::White)),
                gbb == (|s: int| is_bishop_of(b[s], Color::Black)),
                -7600 * rank - 950 * file <= score <= 7600 * rank + 950 * file,
                0 <= weights <= 32 * rank + 4 * file,
                0 <= white_bishops <= 8 * rank + file,
                0 <= black_bishops <= 8 * rank + file,
            decreases 8 - file,
        {
            let sq = Square::from_file_rank(file, rank);
            let (v, w, wb, bb) = square_terms(pos, sq);
            proof {
                assert(gv(rank * 8 + file) == v);
                assert(gw(rank * 8 + file) == w);
                assert(gwb(rank * 8 + file) == wb);
                assert(gbb(rank * 8 + file) == bb);
            }
            score = score + v;
            weights = weights + w;
            white_bishops = white_bishops + wb;
            black_bishops = black_bishops + bb;
            file = file + 1;
        }
        rank = rank + 1;
    }
    let phase = if weights < MAX_PHASE {
        weights
    } else {
        MAX_PHASE
    };
    let wk = pos.king_square(Color::White);
    let bk = pos.king_square(Color::Black);
    score = score + king_value_at(flip_index(wk), phase);
    score = score - king_value_at(bk.index(), phase);
    if white_bishops >= 2 {
        score = score + BISHOP_PAIR_BONUS;
    }
    if black_bishops >= 2 {
        score = score - BISHOP_PAIR_BONUS;
    }
    match pos.side_to_move() {
        Color::White => score,
        Color::Black => -score,
    }
}

// ---------------------------------------------------------------------------
// Symmetry
// ---------------------------------------------------------------------------
/// The board seen from the other side: ranks mirrored and colors swapped.
pub open spec fn mirror_board(b: Seq<Option<Piece>>) -> Seq<Option<Piece>> {
    Seq::new(
        64,
        |s: int|
            match b[flip(s)] {
                Some(p) => Some(Piece { color: other(p.color), kind: p.kind }),
                None => None,
            },
    )
}

proof fn lemma_row_flip(g: spec_fn(int) -> int, r: int, n: nat)
    requires
        0 <= r < 8,
        n <= 8,
    ensures
        row_sum(|s: int| g(flip(s)), r, n) == row_sum(g, 7 - r, n),
    decreases n,
{
    if n > 0 {
        lemma_row_flip(g, r, (n - 1) as nat);
        assert(flip(r * 8 + n - 1) == (7 - r) * 8 + n - 1);
    }
}

proof fn lemma_row_ext(g1: spec_fn(int) -> int, g2: spec_fn(int) -> int, r: int, n: nat)
    requires
        0 <= r < 8,
        n <= 8,
        forall|s: int| 0 <= s < 64 ==> #[trigger] g1(s) == g2(s),
    ensures
        row_sum(g1, r, n) == row_sum(g2, r, n),
    decreases n,
{
    if n > 0 {
        lemma_row_ext(g1, g2, r, (n - 1) as nat);
        assert(g1(r * 8 + n - 1) == g2(r * 8 + n - 1));
    }
}

proof fn lemma_row_neg(g: spec_fn(int) -> int, r: int, n: nat)
    ensures
        row_sum(|s: int| -g(s), r, n) == -row_sum(g, r, n),
    decreases n,
{
    if n > 0 {
        lemma_row_neg(g, r, (n - 1) as nat);
    }
}

proof fn lemma_grid_ext(g1: spec_fn(int) -> int, g2: spec_fn(int) -> int, n: nat)
    requires
        n <= 8,
        forall|s: int| 0 <= s < 64 ==> #[trigger] g1(s) == g2(s),
    ensures
        grid_sum(g1, n) == grid_sum(g2, n),
    decreases n,
{
    if n > 0 {
        lemma_grid_ext(g1, g2, (n - 1) as nat);
        lemma_row_ext(g1, g2, n - 1, 8);
    }
}

proof fn lemma_grid_neg(g: spec_fn(int) -> int, n: nat)
    ensures
        grid_sum(|s: int| -g(s), n) == -grid_sum(g, n),
    decreases n,
{
    if n > 0 {
        lemma_grid_neg(g, (n - 1) as nat);
        lemma_row_neg(g, n - 1, 8);
    }
}

/// Summing over the mirrored squares sums over all squares.
proof fn lemma_grid_flip(g: spec_fn(int) -> int)
    ensures
        grid_sum(|s: int| g(flip(s)), 8) == grid_sum(g, 8),
{
    let h = |s: int| g(flip(s));
    reveal_with_fuel(grid_sum, 9);
    lemma_row_flip(g, 0, 8);
    lemma_row_flip(g, 1, 8);
    lemma_row_flip(g, 2, 8);
    lemma_row_flip(g, 3, 8);
    lemma_row_flip(g, 4, 8);
    lemma_row_flip(g, 5, 8);
    lemma_row_flip(g, 6, 8);
    lemma_row_flip(g, 7, 8);
}

/// The evaluation is symmetric: the position with ranks mirrored, colors
/// swapped and the other side to move evaluates the same (for boards with
/// one king per side).
pub proof fn lemma_eval_symmetric(b: Seq<Option<Piece>>, us: Color)
    requires
        b.len() == 64,
        has_king(b, Color::White),
        has_king(b, Color::Black),
        forall|s: int, t: int|
            0 <= s < 64 && 0 <= t < 64 && #[trigger] b[s] == #[trigger] b[t] && (b[s] is Some
                && b[s]->0.kind == PieceType::King) ==> s == t,
    ensures
        eval_of(mirror_board(b), other(us)) == eval_of(b, us),
{
    let m = mirror_board(b);
    assert forall|s: int| 0 <= s < 64 implies flip(flip(s)) == s && 0 <= #[trigger] flip(s) < 64 by {}
    // Piece values negate.
    let gv = |s: int| square_value(b[s], s);
    let gvm = |s: int| square_value(m[s], s);
    assert forall|s: int| 0 <= s < 64 implies #[trigger] gvm(s) == (|x: int| -(|y: int| gv(flip(y)))(x))(s) by {
        assert(flip(flip(s)) == s);
    }
    lemma_grid_ext(gvm, |x: int| -(|y: int| gv(flip(y)))(x), 8);
    lemma_grid_neg(|y: int| gv(flip(y)), 8);
    lemma_grid_flip(gv);
    // Phase weights and bishop counts carry over.
    let gw = |s: int| weight_of(b[s]);
    let gwm = |s: int| weight_of(m[s]);
    assert forall|s: int| 0 <= s < 64 implies #[trigger] gwm(s) == (|y: int| gw(flip(y)))(s) by {}
    lemma_grid_ext(gwm, |y: int| gw(flip(y)), 8);
    lemma_grid_flip(gw);
    let gbw = |s: int| is_bishop_of(b[s], Color::White);
    let gbb = |s: int| is_bishop_of(b[s], Color::Black);
    let gmw = |s: int| is_bishop_of(m[s], Color::White);
    let gmb = |s: int| is_bishop_of(m[s], Color::Black);
    assert forall|s: int| 0 <= s < 64 implies #[trigger] gmw(s) == (|y: int| gbb(flip(y)))(s) by {}
    assert forall|s: int| 0 <= s < 64 implies #[trigger] gmb(s) == (|y: int| gbw(flip(y)))(s) by {}
    lemma_grid_ext(gmw, |y: int| gbb(flip(y)), 8);
    lemma_grid_ext(gmb, |y: int| gbw(flip(y)), 8);
    lemma_grid_flip(gbb);
    lemma_grid_flip(gbw);
    // Kings change places.
    lemma_king_of(b, Color::White);
    lemma_king_of(b, Color::Black);
    let kw = king_of(b, Color::White);
    let kb = king_of(b, Color::Black);
    assert(m[flip(kb)] == Some(Piece { color: Color::White, kind: PieceType::King }));
    assert(m[flip(kw)] == Some(Piece { color: Color::Black, kind: PieceType::King }));
    assert(has_king(m, Color::White));
    assert(has_king(m, Color::Black));
    lemma_king_of(m, Color::White);
    lemma_king_of(m, Color::Black);
    let mw = king_of(m, Color::White);
    let mb = king_of(m, Color::Black);
    assert(b[flip(mw)] == b[kb]);
    assert(flip(mw) == kb);
    assert(b[flip(mb)] == b[kw]);
    assert(flip(mb) == kw);
    assert(flip(flip(mb)) == mb);
}

/// `evaluate` is symmetric: a position and its mirror image (ranks
/// reversed, colors swapped, the other side to move) get the same score,
/// for positions with one king per side.
pub proof fn lemma_evaluate_mirrored(p: Position, q: Position)
    requires
        p.wf(),
        q.wf(),
        has_king(p.board(), Color::White),
        has_king(p.board(), Color::Black),
        forall|s: int, t: int|
            0 <= s < 64 && 0 <= t < 64 && #[trigger] p.board()[s] == #[trigger] p.board()[t] && (
            p.board()[s] is Some && p.board()[s]->0.kind == PieceType::King) ==> s == t,
        q.board() == mirror_board(p.board()),
        q.stm() == other(p.stm()),
    ensures
        eval_of(q.board(), q.stm()) == eval_of(p.board(), p.stm()),
{
    p.lemma_board_len();
    lemma_eval_symmetric(p.board(), p.stm());
}

/// The initial position is its own mirror image, so it evaluates to 0.
pub proof fn lemma_start_eval_zero()
    ensures
        eval_of(crate::position::start_board(), Color::White) == 0,
        eval_of(crate::position::start_board(), Color::Black) == 0,
{
    let b = crate::position::start_board();
    assert forall|s: int| 0 <= s < 64 implies #[trigger] mirror_board(b)[s] == b[s] by {
        assert(0 <= flip(s) < 64);
    }
    assert(mirror_board(b) =~= b);
    assert(b[4] == Some(Piece { color: Color::White, kind: PieceType::King }));
    assert(b[60] == Some(Piece { color: Color::Black, kind: PieceType::King }));
    assert forall|s: int, t: int|
        0 <= s < 64 && 0 <= t < 64 && #[trigger] b[s] == #[trigger] b[t] && (b[s] is Some
            && b[s]->0.kind == PieceType::King) implies s == t by {
        if b[s] is Some && b[s]->0.kind == PieceType::King {
            assert(s == 4 || s == 60);
            assert(t == 4 || t == 60);
        }
    }
    lemma_eval_symmetric(b, Color::White);
}

} // verus!
