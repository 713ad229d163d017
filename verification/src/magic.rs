//! Sliding-piece attacks (rook, bishop, queen).
//!
//! Each attack set is the union of the rays that leave the square in the
//! piece's directions, each ray stopping on (and including) its first
//! occupied square.

use crate::bitboard::{bit, lemma_bit_ops, lemma_bit_or, lemma_zero_iff_no_bits, popcount, Bitboard};
use crate::rng::{nth_draw, state_after, SplitMix64};
use crate::types::{file_of, rank_of, Square};
use vstd::prelude::*;

verus! {

const ROOK_DIRS: [(i8, i8); 4] = [(1, 0), (-1, 0), (0, 1), (0, -1)];

const BISHOP_DIRS: [(i8, i8); 4] = [(1, 1), (1, -1), (-1, 1), (-1, -1)];

/// The four rook directions (file step, rank step).
pub open spec fn rook_dirs() -> Seq<(i8, i8)> {
    seq![(1i8, 0i8), (-1i8, 0i8), (0i8, 1i8), (0i8, -1i8)]
}

/// The four bishop directions (file step, rank step).
pub open spec fn bishop_dirs() -> Seq<(i8, i8)> {
    seq![(1i8, 1i8), (1i8, -1i8), (-1i8, 1i8), (-1i8, -1i8)]
}

/// A direction: each step is -1, 0 or 1, and not both 0.
pub open spec fn dir_ok(d: (i8, i8)) -> bool {
    -1 <= d.0 <= 1 && -1 <= d.1 <= 1 && !(d.0 == 0 && d.1 == 0)
}

pub open spec fn on_board(f: int, r: int) -> bool {
    0 <= f < 8 && 0 <= r < 8
}

/// Square `t` lies on the ray leaving file `f`, rank `r` in direction
/// (`df`, `dr`): within `n` steps, and no occupied square (per `occ`)
/// stands strictly between the start and `t`.
pub open spec fn ray(f: int, r: int, df: int, dr: int, occ: u64, t: int, n: nat) -> bool
    decreases n,
{
    if n == 0 {
        false
    } else {
        let nf = f + df;
        let nr = r + dr;
        on_board(nf, nr) && (t == nr * 8 + nf || (!bit(occ, (nr * 8 + nf) as u64) && ray(
            nf,
            nr,
            df,
            dr,
            occ,
            t,
            (n - 1) as nat,
        )))
    }
}

/// `t` is attacked from `s` along one of the four directions `dirs`.
pub open spec fn slider_target(s: int, t: int, occ: u64, dirs: Seq<(i8, i8)>) -> bool {
    exists|i: int|
        0 <= i < 4 && #[trigger] ray(
            file_of(s),
            rank_of(s),
            dirs[i].0 as int,
            dirs[i].1 as int,
            occ,
            t,
            7,
        )
}

/// Every square on a ray is on the board.
proof fn lemma_ray_on_board(f: int, r: int, df: int, dr: int, occ: u64, t: int, n: nat)
    requires
        ray(f, r, df, dr, occ, t, n),
    ensures
        0 <= t < 64,
    decreases n,
{
    if n > 0 {
        let nf = f + df;
        let nr = r + dr;
        if t != nr * 8 + nf {
            lemma_ray_on_board(nf, nr, df, dr, occ, t, (n - 1) as nat);
        }
    }
}

/// A step of a ray from file `f`, rank `r`: not null, and small enough that
/// the first step stays within `i8` (further steps are only taken from
/// squares on the board, and a step that large leaves it at once).
pub open spec fn step_ok(f: int, r: int, d: (i8, i8)) -> bool {
    f + d.0 <= 127 && r + d.1 <= 127 && !(d.0 == 0 && d.1 == 0)
}

/// A ray with a non-null step stays on the board for at most 7 steps.
proof fn lemma_steps_on_board(f0: int, r0: int, df: int, dr: int, k: int)
    requires
        0 <= f0 < 8,
        0 <= r0 < 8,
        k >= 0,
        !(df == 0 && dr == 0),
        0 <= f0 + k * df < 8,
        0 <= r0 + k * dr < 8,
    ensures
        k <= 7,
{
    if df != 0 {
        assert(k <= 7) by (nonlinear_arith)
            requires
                0 <= f0 < 8,
                0 <= f0 + k * df < 8,
                k >= 0,
                df != 0,
        ;
    } else {
        assert(k <= 7) by (nonlinear_arith)
            requires
                0 <= r0 < 8,
                0 <= r0 + k * dr < 8,
                k >= 0,
                dr != 0,
        ;
    }
}

/// Ray-walk attack set for the given occupancy. Stops on (and includes) the
/// first blocker in each direction.
pub fn slow_slider_attacks(sq: Square, occ: u64, dirs: &[(i8, i8); 4]) -> (res: Bitboard)
    requires
        sq.valid(),
        forall|i: int|
            0 <= i < 4 ==> step_ok(file_of(sq.0 as int), rank_of(sq.0 as int), #[trigger] dirs@[i]),
    ensures
        forall|t: u64|
            t < 64 ==> #[trigger] bit(res.0, t) == slider_target(sq.0 as int, t as int, occ, dirs@),
{
    let mut attacks = 0u64;
    proof {
        assert forall|t: u64| t < 64 implies !#[trigger] bit(0u64, t) by {
            assert(!bit(0u64, t)) by (bit_vector);
        }
    }
    let f0 = sq.file() as i8;
    let r0 = sq.rank() as i8;
    let mut i: usize = 0;
    while i < 4
        invariant
            0 <= f0 < 8,
            0 <= r0 < 8,
            f0 == file_of(sq.0 as int),
            r0 == rank_of(sq.0 as int),
            i <= 4,
            forall|k: int| 0 <= k < 4 ==> step_ok(f0 as int, r0 as int, #[trigger] dirs@[k]),
            forall|t: u64|
                t < 64 ==> #[trigger] bit(attacks, t) == exists|k: int|
                    0 <= k < i && #[trigger] ray(
                        f0 as int,
                        r0 as int,
                        dirs@[k].0 as int,
                        dirs@[k].1 as int,
                        occ,
                        t as int,
                        7,
                    ),
        decreases 4 - i,
    {
        let (df, dr) = dirs[i];
        let ghost a0 = attacks;
        let mut f = f0 + df;
        let mut r = r0 + dr;
        let mut blocked = false;
        let ghost mut n: nat = 7;
        while !blocked && 0 <= f && f < 8 && 0 <= r && r < 8
            invariant
                0 <= f0 < 8,
                0 <= r0 < 8,
                step_ok(f0 as int, r0 as int, (df, dr)),
                n <= 7,
                f == f0 + (8 - n) * df,
                r == r0 + (8 - n) * dr,
                forall|t: u64|
                    t < 64 ==> (#[trigger] bit(attacks, t) || (!blocked && ray(
                        f - df,
                        r - dr,
                        df as int,
                        dr as int,
                        occ,
                        t as int,
                        n,
                    ))) == (bit(a0, t) || ray(
                        f0 as int,
                        r0 as int,
                        df as int,
                        dr as int,
                        occ,
                        t as int,
                        7,
                    )),
                forall|t: u64|
                    t < 64 ==> (#[trigger] bit(attacks, t) ==> (bit(a0, t) || ray(
                        f0 as int,
                        r0 as int,
                        df as int,
                        dr as int,
                        occ,
                        t as int,
                        7,
                    ))),
            decreases n, (if blocked { 0int } else { 1int }),
        {
            let s = (r * 8 + f) as u64;
            let b = 1u64 << s;
            let ghost old_attacks = attacks;
            let ghost of = f;
            let ghost or = r;
            let ghost old_n = n;
            assert(forall|t: u64|
                #![trigger bit(old_attacks, t)]
                t < 64 ==> (bit(old_attacks, t) || ray(
                    of - df,
                    or - dr,
                    df as int,
                    dr as int,
                    occ,
                    t as int,
                    old_n,
                )) == (bit(a0, t) || ray(
                    f0 as int,
                    r0 as int,
                    df as int,
                    dr as int,
                    occ,
                    t as int,
                    7,
                )));
            proof {
                lemma_steps_on_board(f0 as int, r0 as int, df as int, dr as int, 8 - n);
                assert(n >= 1);

                assert forall|t: u64| t < 64 implies #[trigger] bit(attacks | b, t) == (bit(
                    attacks,
                    t,
                ) || s == t) by {
                    lemma_bit_or(attacks, s, t);
                }
                assert forall|t: u64| t < 64 implies #[trigger] ray(
                    f - df,
                    r - dr,
                    df as int,
                    dr as int,
                    occ,
                    t as int,
                    n,
                ) == (t == s || (!bit(occ, s) && ray(
                    f as int,
                    r as int,
                    df as int,
                    dr as int,
                    occ,
                    t as int,
                    (n - 1) as nat,
                ))) by {
                    assert(f - df + df == f);
                    assert(r - dr + dr == r);
                }
            }
            attacks = attacks | b;
            let hit = occ & b != 0;
            proof {
                let o = occ;
                assert((o & (1u64 << s) != 0) == bit(o, s)) by (bit_vector)
                    requires
                        s < 64,
                ;
            }
            if hit {
                blocked = true;
            } else {
                proof {
                    assert(df <= 7) by (nonlinear_arith)
                        requires
                            of == f0 + (8 - old_n) * df,
                            0 <= f0,
                            of < 8,
                            8 - old_n >= 1,
                    ;
                    assert(dr <= 7) by (nonlinear_arith)
                        requires
                            or == r0 + (8 - old_n) * dr,
                            0 <= r0,
                            or < 8,
                            8 - old_n >= 1,
                    ;
                }
                f = f + df;
                r = r + dr;
                proof {
                    n = (n - 1) as nat;
                    assert(f == f0 + (8 - n) * df) by (nonlinear_arith)
                        requires
                            f == of + df,
                            of == f0 + (8 - old_n) * df,
                            n == old_n - 1,
                    ;
                    assert(r == r0 + (8 - n) * dr) by (nonlinear_arith)
                        requires
                            r == or + dr,
                            or == r0 + (8 - old_n) * dr,
                            n == old_n - 1,
                    ;
                }
            }
            proof {
                assert forall|t: u64| t < 64 implies (#[trigger] bit(attacks, t) || (!blocked && ray(
                    f - df,
                    r - dr,
                    df as int,
                    dr as int,
                    occ,
                    t as int,
                    n,
                ))) == (bit(old_attacks, t) || ray(
                    of - df,
                    or - dr,
                    df as int,
                    dr as int,
                    occ,
                    t as int,
                    old_n,
                )) by {
                    if !hit {
                        assert(f - df == of);
                        assert(r - dr == or);
                    }
                }
                assert forall|t: u64| t < 64 implies (#[trigger] bit(attacks, t) ==> (bit(a0, t) || ray(
                    f0 as int,
                    r0 as int,
                    df as int,
                    dr as int,
                    occ,
                    t as int,
                    7,
                ))) by {
                    assert(bit(old_attacks, t) || !bit(old_attacks, t));
                }
            }
        }
        proof {
            assert forall|t: u64| t < 64 implies !(!blocked && #[trigger] ray(
                f - df,
                r - dr,
                df as int,
                dr as int,
                occ,
                t as int,
                n,
            )) by {
                if !blocked && n > 0 {
                    reveal_with_fuel(ray, 1);
                }
            }
            assert forall|t: u64| t < 64 implies #[trigger] bit(attacks, t) == exists|k: int|
                0 <= k < i + 1 && #[trigger] ray(
                    f0 as int,
                    r0 as int,
                    dirs@[k].0 as int,
                    dirs@[k].1 as int,
                    occ,
                    t as int,
                    7,
                ) by {
                if bit(attacks, t) {
                    if bit(a0, t) {
                        let k = choose|k: int|
                            0 <= k < i && #[trigger] ray(
                                f0 as int,
                                r0 as int,
                                dirs@[k].0 as int,
                                dirs@[k].1 as int,
                                occ,
                                t as int,
                                7,
                            );
                        assert(0 <= k < i + 1);
                    } else {
                        assert(ray(
                            f0 as int,
                            r0 as int,
                            dirs@[i as int].0 as int,
                            dirs@[i as int].1 as int,
                            occ,
                            t as int,
                            7,
                        ));
                    }
                }
                if exists|k: int|
                    0 <= k < i + 1 && #[trigger] ray(
                        f0 as int,
                        r0 as int,
                        dirs@[k].0 as int,
                        dirs@[k].1 as int,
                        occ,
                        t as int,
                        7,
                    ) {
                    let k = choose|k: int|
                        0 <= k < i + 1 && #[trigger] ray(
                            f0 as int,
                            r0 as int,
                            dirs@[k].0 as int,
                            dirs@[k].1 as int,
                            occ,
                            t as int,
                            7,
                        );
                    if k < i {
                        assert(bit(a0, t));
                    }
                }
            }
        }
        i = i + 1;
    }
    Bitboard(attacks)
}

#[inline]
pub fn rook_attacks(sq: Square, occ: Bitboard) -> (res: Bitboard)
    requires
        sq.valid(),
    ensures
        forall|t: u64|
            t < 64 ==> #[trigger] bit(res.0, t) == slider_target(
                sq.0 as int,
                t as int,
                occ.0,
                rook_dirs(),
            ),
{
    assert(ROOK_DIRS@ =~= rook_dirs());
    slow_slider_attacks(sq, occ.0, &ROOK_DIRS)
}

#[inline]
pub fn bishop_attacks(sq: Square, occ: Bitboard) -> (res: Bitboard)
    requires
        sq.valid(),
    ensures
        forall|t: u64|
            t < 64 ==> #[trigger] bit(res.0, t) == slider_target(
                sq.0 as int,
                t as int,
                occ.0,
                bishop_dirs(),
            ),
{
    assert(BISHOP_DIRS@ =~= bishop_dirs());
    slow_slider_attacks(sq, occ.0, &BISHOP_DIRS)
}

#[inline]
pub fn queen_attacks(sq: Square, occ: Bitboard) -> (res: Bitboard)
    requires
        sq.valid(),
    ensures
        forall|t: u64|
            t < 64 ==> #[trigger] bit(res.0, t) == (slider_target(
                sq.0 as int,
                t as int,
                occ.0,
                rook_dirs(),
            ) || slider_target(sq.0 as int, t as int, occ.0, bishop_dirs())),
{
    let a = rook_attacks(sq, occ);
    let b = bishop_attacks(sq, occ);
    proof {
        assert forall|t: u64| t < 64 implies #[trigger] bit(a.0 | b.0, t) == (bit(a.0, t) || bit(
            b.0,
            t,
        )) by {
            crate::bitboard::lemma_bit_ops(a.0, b.0, t);
        }
    }
    Bitboard(a.0 | b.0)
}

} // verus!

verus! {

/// `j` steps of size `d` (-1, 0 or 1).
pub open spec fn off(d: int, j: int) -> int {
    if d > 0 {
        j
    } else if d < 0 {
        -j
    } else {
        0
    }
}

/// `t` is exactly `k` steps along the ray from (`f`, `r`), every step is
/// on the board, and the squares before `t` are empty.
pub open spec fn ray_at(f: int, r: int, df: int, dr: int, occ: u64, t: int, k: int) -> bool {
    &&& 1 <= k
    &&& on_board(f + off(df, k), r + off(dr, k))
    &&& t == (r + off(dr, k)) * 8 + f + off(df, k)
    &&& forall|j: int|
        1 <= j < k ==> on_board(f + off(df, j), r + off(dr, j)) && !#[trigger] bit(
            occ,
            ((r + off(dr, j)) * 8 + f + off(df, j)) as u64,
        )
}

proof fn lemma_off_succ(d: int, j: int)
    requires
        -1 <= d <= 1,
    ensures
        off(d, j + 1) == d + off(d, j),
{
}

/// A ray that reaches `t` within `n` steps does so after some `k <= n`
/// steps with nothing in between.
proof fn lemma_ray_fwd(f: int, r: int, df: int, dr: int, occ: u64, t: int, n: nat)
    requires
        -1 <= df <= 1,
        -1 <= dr <= 1,
        ray(f, r, df, dr, occ, t, n),
    ensures
        exists|k: int| k <= n && #[trigger] ray_at(f, r, df, dr, occ, t, k),
    decreases n,
{
    let nf = f + df;
    let nr = r + dr;
    lemma_off_succ(df, 0);
    lemma_off_succ(dr, 0);
    if t == nr * 8 + nf {
        assert(ray_at(f, r, df, dr, occ, t, 1));
    } else {
        lemma_ray_fwd(nf, nr, df, dr, occ, t, (n - 1) as nat);
        let k1 = choose|k: int| k <= n - 1 && #[trigger] ray_at(nf, nr, df, dr, occ, t, k);
        lemma_off_succ(df, k1);
        lemma_off_succ(dr, k1);
        assert forall|j: int| 1 <= j < k1 + 1 implies on_board(f + off(df, j), r + off(dr, j))
            && !#[trigger] bit(occ, ((r + off(dr, j)) * 8 + f + off(df, j)) as u64) by {
            if j > 1 {
                lemma_off_succ(df, j - 1);
                lemma_off_succ(dr, j - 1);
                assert(!bit(occ, ((nr + off(dr, j - 1)) * 8 + nf + off(df, j - 1)) as u64));
            }
        }
        assert(ray_at(f, r, df, dr, occ, t, k1 + 1));
    }
}

/// A target `k` steps along the ray with nothing in between is on the ray.
proof fn lemma_ray_bwd(f: int, r: int, df: int, dr: int, occ: u64, t: int, n: nat, k: int)
    requires
        -1 <= df <= 1,
        -1 <= dr <= 1,
        k <= n,
        ray_at(f, r, df, dr, occ, t, k),
    ensures
        ray(f, r, df, dr, occ, t, n),
    decreases n,
{
    let nf = f + df;
    let nr = r + dr;
    lemma_off_succ(df, 0);
    lemma_off_succ(dr, 0);
    if k > 1 {
        assert(!bit(occ, ((r + off(dr, 1)) * 8 + f + off(df, 1)) as u64));
        lemma_off_succ(df, k - 1);
        lemma_off_succ(dr, k - 1);
        assert forall|j: int| 1 <= j < k - 1 implies on_board(nf + off(df, j), nr + off(dr, j))
            && !#[trigger] bit(occ, ((nr + off(dr, j)) * 8 + nf + off(df, j)) as u64) by {
            lemma_off_succ(df, j);
            lemma_off_succ(dr, j);
            assert(!bit(occ, ((r + off(dr, j + 1)) * 8 + f + off(df, j + 1)) as u64));
        }
        assert(ray_at(nf, nr, df, dr, occ, t, k - 1));
        lemma_ray_bwd(nf, nr, df, dr, occ, t, (n - 1) as nat, k - 1);
    }
}

/// A ray from `s` reaching `t` read backwards is a ray from `t` reaching `s`.
proof fn lemma_ray_reverse(s: int, t: int, df: int, dr: int, occ: u64, k: int)
    requires
        0 <= s < 64,
        -1 <= df <= 1,
        -1 <= dr <= 1,
        ray_at(file_of(s), rank_of(s), df, dr, occ, t, k),
    ensures
        0 <= t < 64,
        ray_at(file_of(t), rank_of(t), -df, -dr, occ, s, k),
{
    let f = file_of(s);
    let r = rank_of(s);
    let tf = f + off(df, k);
    let tr = r + off(dr, k);
    assert(file_of(t) == tf && rank_of(t) == tr);
    assert forall|j: int| #[trigger] off(-df, j) == -off(df, j) by {}
    assert forall|j: int| 1 <= j < k implies on_board(tf + off(-df, j), tr + off(-dr, j)) && !#[trigger] bit(
        occ,
        ((tr + off(-dr, j)) * 8 + tf + off(-df, j)) as u64,
    ) by {
        assert(off(-df, j) == -off(df, j));
        assert(off(-dr, j) == -off(dr, j));
        assert(off(df, k) - off(df, j) == off(df, k - j));
        assert(off(dr, k) - off(dr, j) == off(dr, k - j));
        assert(1 <= k - j < k);
        assert(!bit(occ, ((r + off(dr, k - j)) * 8 + f + off(df, k - j)) as u64));
    }
    assert(off(-df, k) == -off(df, k));
    assert(off(-dr, k) == -off(dr, k));
    assert(s == r * 8 + f);
}

/// Line of sight along a set of directions closed under reversal is
/// symmetric.
pub proof fn lemma_slider_symmetric(s: int, t: int, occ: u64)
    requires
        0 <= s < 64,
        0 <= t < 64,
    ensures
        slider_target(s, t, occ, rook_dirs()) == slider_target(t, s, occ, rook_dirs()),
        slider_target(s, t, occ, bishop_dirs()) == slider_target(t, s, occ, bishop_dirs()),
{
    if slider_target(s, t, occ, rook_dirs()) {
        lemma_slider_one_way(s, t, occ, rook_dirs());
    }
    if slider_target(t, s, occ, rook_dirs()) {
        lemma_slider_one_way(t, s, occ, rook_dirs());
    }
    if slider_target(s, t, occ, bishop_dirs()) {
        lemma_slider_one_way(s, t, occ, bishop_dirs());
    }
    if slider_target(t, s, occ, bishop_dirs()) {
        lemma_slider_one_way(t, s, occ, bishop_dirs());
    }
}

proof fn lemma_slider_one_way(s: int, t: int, occ: u64, dirs: Seq<(i8, i8)>)
    requires
        0 <= s < 64,
        0 <= t < 64,
        dirs == rook_dirs() || dirs == bishop_dirs(),
        slider_target(s, t, occ, dirs),
    ensures
        slider_target(t, s, occ, dirs),
{
    let i = choose|i: int|
        0 <= i < 4 && #[trigger] ray(
            file_of(s),
            rank_of(s),
            dirs[i].0 as int,
            dirs[i].1 as int,
            occ,
            t,
            7,
        );
    let df = dirs[i].0 as int;
    let dr = dirs[i].1 as int;
    lemma_ray_fwd(file_of(s), rank_of(s), df, dr, occ, t, 7);
    let k = choose|k: int| k <= 7 && #[trigger] ray_at(file_of(s), rank_of(s), df, dr, occ, t, k);
    lemma_ray_reverse(s, t, df, dr, occ, k);
    let i2 = if dirs == rook_dirs() {
        if i == 0 {
            1int
        } else if i == 1 {
            0
        } else if i == 2 {
            3
        } else {
            2
        }
    } else {
        3 - i
    };
    assert(dirs[i2].0 as int == -df && dirs[i2].1 as int == -dr);
    lemma_ray_bwd(file_of(t), rank_of(t), -df, -dr, occ, s, 7, k);
    assert(ray(file_of(t), rank_of(t), dirs[i2].0 as int, dirs[i2].1 as int, occ, s, 7));
}

} // verus!

verus! {

// ---------------------------------------------------------------------------
// Magic bitboards
// ---------------------------------------------------------------------------
/// `t` is an inner square of the ray leaving file `f`, rank `r` in direction
/// (`df`, `dr`) within `n` steps: on the ray, with the next square along it
/// still on the board (the edge square ends a ray whatever stands on it).
pub open spec fn inner(f: int, r: int, df: int, dr: int, t: int, n: nat) -> bool
    decreases n,
{
    if n == 0 {
        false
    } else {
        let nf = f + df;
        let nr = r + dr;
        on_board(nf, nr) && on_board(nf + df, nr + dr) && (t == nr * 8 + nf || inner(
            nf,
            nr,
            df,
            dr,
            t,
            (n - 1) as nat,
        ))
    }
}

/// `t` is an inner square of one of the four rays from `s`: a square whose
/// occupancy can change the attack set.
pub open spec fn mask_target(s: int, t: int, dirs: Seq<(i8, i8)>) -> bool {
    exists|i: int|
        0 <= i < 4 && #[trigger] inner(
            file_of(s),
            rank_of(s),
            dirs[i].0 as int,
            dirs[i].1 as int,
            t,
            7,
        )
}

/// Two words with the same 64 bits are equal.
pub proof fn lemma_bits_eq(a: u64, c: u64)
    requires
        forall|t: u64| t < 64 ==> #[trigger] bit(a, t) == bit(c, t),
    ensures
        a == c,
{
    assert forall|t: u64| t < 64 implies !#[trigger] bit(a ^ c, t) by {
        lemma_bit_ops(a, c, t);
    }
    lemma_zero_iff_no_bits(a ^ c);
    assert(a ^ c == 0u64 ==> a == c) by (bit_vector);
}

/// A ray only looks at the occupancy of its inner squares.
proof fn lemma_ray_inner(f: int, r: int, df: int, dr: int, occ: u64, occ2: u64, t: int, n: nat)
    requires
        forall|q: int|
            0 <= q < 64 && #[trigger] inner(f, r, df, dr, q, n) ==> bit(occ, q as u64) == bit(
                occ2,
                q as u64,
            ),
    ensures
        ray(f, r, df, dr, occ, t, n) == ray(f, r, df, dr, occ2, t, n),
    decreases n,
{
    if n > 0 {
        let nf = f + df;
        let nr = r + dr;
        if on_board(nf, nr) {
            let q = nr * 8 + nf;
            assert forall|q2: int|
                0 <= q2 < 64 && #[trigger] inner(nf, nr, df, dr, q2, (n - 1) as nat) implies bit(
                occ,
                q2 as u64,
            ) == bit(occ2, q2 as u64) by {
                assert(inner(f, r, df, dr, q2, n));
            }
            lemma_ray_inner(nf, nr, df, dr, occ, occ2, t, (n - 1) as nat);
            if on_board(nf + df, nr + dr) {
                assert(inner(f, r, df, dr, q, n));
            } else if n > 1 {
                assert(!ray(nf, nr, df, dr, occ, t, (n - 1) as nat));
                assert(!ray(nf, nr, df, dr, occ2, t, (n - 1) as nat));
            }
        }
    }
}

/// The attack set is that of the occupancy of the inner squares alone.
pub proof fn lemma_slider_masked(s: int, t: int, occ: u64, mask: u64, dirs: Seq<(i8, i8)>)
    requires
        0 <= s < 64,
        forall|q: u64| q < 64 ==> #[trigger] bit(mask, q) == mask_target(s, q as int, dirs),
    ensures
        slider_target(s, t, occ, dirs) == slider_target(s, t, occ & mask, dirs),
{
    assert forall|i: int| 0 <= i < 4 implies #[trigger] ray(
        file_of(s),
        rank_of(s),
        dirs[i].0 as int,
        dirs[i].1 as int,
        occ,
        t,
        7,
    ) == ray(file_of(s), rank_of(s), dirs[i].0 as int, dirs[i].1 as int, occ & mask, t, 7) by {
        assert forall|q: int|
            0 <= q < 64 && #[trigger] inner(
                file_of(s),
                rank_of(s),
                dirs[i].0 as int,
                dirs[i].1 as int,
                q,
                7,
            ) implies bit(occ, q as u64) == bit(occ & mask, q as u64) by {
            assert(mask_target(s, q, dirs));
            assert(bit(mask, q as u64));
            lemma_bit_ops(occ, mask, q as u64);
        }
        lemma_ray_inner(
            file_of(s),
            rank_of(s),
            dirs[i].0 as int,
            dirs[i].1 as int,
            occ,
            occ & mask,
            t,
            7,
        );
    }
    if slider_target(s, t, occ, dirs) {
        let i = choose|i: int|
            0 <= i < 4 && #[trigger] ray(
                file_of(s),
                rank_of(s),
                dirs[i].0 as int,
                dirs[i].1 as int,
                occ,
                t,
                7,
            );
        assert(ray(file_of(s), rank_of(s), dirs[i].0 as int, dirs[i].1 as int, occ & mask, t, 7));
    }
    if slider_target(s, t, occ & mask, dirs) {
        let i = choose|i: int|
            0 <= i < 4 && #[trigger] ray(
                file_of(s),
                rank_of(s),
                dirs[i].0 as int,
                dirs[i].1 as int,
                occ & mask,
                t,
                7,
            );
        assert(ray(file_of(s), rank_of(s), dirs[i].0 as int, dirs[i].1 as int, occ, t, 7));
    }
}

/// Square `t` is listed in `s`.
pub open spec fn has_sq(s: Seq<u8>, t: u64) -> bool {
    exists|j: int| 0 <= j < s.len() && s[j] as u64 == t
}

/// Relevant occupancy mask: the inner squares of the four rays from `sq`,
/// as a bit mask and as a list of squares.
#[verifier::spinoff_prover]
pub fn relevant_mask(sq: Square, dirs: &[(i8, i8); 4]) -> (r: (u64, Vec<u8>))
    requires
        sq.valid(),
        forall|i: int| 0 <= i < 4 ==> dir_ok(#[trigger] dirs@[i]),
    ensures
        forall|q: u64| q < 64 ==> #[trigger] bit(r.0, q) == mask_target(sq.0 as int, q as int, dirs@),
        forall|q: u64| q < 64 ==> (mask_target(sq.0 as int, q as int, dirs@) <==> has_sq(r.1@, q)),
        forall|j: int| 0 <= j < r.1@.len() ==> #[trigger] r.1@[j] < 64,
        r.1@.len() <= 24,
{
    let mut mask = 0u64;
    let mut sqs: Vec<u8> = Vec::new();
    proof {
        assert forall|t: u64| t < 64 implies !#[trigger] bit(0u64, t) by {
            lemma_zero_iff_no_bits(0u64);
        }
    }
    let f0 = sq.file() as i8;
    let r0 = sq.rank() as i8;
    let mut i: usize = 0;
    while i < 4
        invariant
            0 <= f0 < 8,
            0 <= r0 < 8,
            f0 == file_of(sq.0 as int),
            r0 == rank_of(sq.0 as int),
            i <= 4,
            sqs@.len() <= 6 * i,
            forall|k: int| 0 <= k < 4 ==> dir_ok(#[trigger] dirs@[k]),
            forall|j: int| 0 <= j < sqs@.len() ==> #[trigger] sqs@[j] < 64,
            forall|t: u64|
                t < 64 ==> (#[trigger] bit(mask, t) == has_sq(sqs@, t)),
            forall|t: u64|
                #![trigger has_sq(sqs@, t)]
                t < 64 ==> (has_sq(sqs@, t) == exists|k: int|
                    0 <= k < i && #[trigger] inner(
                        f0 as int,
                        r0 as int,
                        dirs@[k].0 as int,
                        dirs@[k].1 as int,
                        t as int,
                        7,
                    )),
        decreases 4 - i,
    {
        let (df, dr) = dirs[i];
        let ghost s0 = sqs@;
        let ghost l0 = sqs@.len();
        let mut f = f0 + df;
        let mut r = r0 + dr;
        let ghost mut n: nat = 7;
        while 0 <= f && f < 8 && 0 <= r && r < 8 && 0 <= f + df && f + df < 8 && 0 <= r + dr && r
            + dr < 8
            invariant
                0 <= f0 < 8,
                0 <= r0 < 8,
                dir_ok((df, dr)),
                1 <= n <= 7,
                f == f0 + (if df > 0 { 8 - n } else if df < 0 { n - 8 } else { 0 }),
                r == r0 + (if dr > 0 { 8 - n } else if dr < 0 { n - 8 } else { 0 }),
                sqs@.len() == l0 + (7 - n),
                l0 <= 6 * i,
                i < 4,
                forall|j: int| 0 <= j < sqs@.len() ==> #[trigger] sqs@[j] < 64,
                forall|t: u64| t < 64 ==> (#[trigger] bit(mask, t) == has_sq(sqs@, t)),
                forall|t: u64|
                    t < 64 ==> ((has_sq(sqs@, t) || inner(
                        f - df,
                        r - dr,
                        df as int,
                        dr as int,
                        t as int,
                        n,
                    )) == (has_sq(s0, t) || inner(
                        f0 as int,
                        r0 as int,
                        df as int,
                        dr as int,
                        t as int,
                        7,
                    ))),
            decreases n,
        {
            let s = (r * 8 + f) as u8;
            let ghost old_sqs = sqs@;
            let ghost of = f;
            let ghost or = r;
            let ghost old_n = n;
            assert(forall|t: u64|
                t < 64 ==> ((has_sq(old_sqs, t) || inner(
                    of - df,
                    or - dr,
                    df as int,
                    dr as int,
                    t as int,
                    old_n,
                )) == (has_sq(s0, t) || inner(
                    f0 as int,
                    r0 as int,
                    df as int,
                    dr as int,
                    t as int,
                    7,
                ))));
            proof {
                assert(n >= 2);
                assert forall|t: u64| t < 64 implies #[trigger] inner(
                    f - df,
                    r - dr,
                    df as int,
                    dr as int,
                    t as int,
                    n,
                ) == (t == s || inner(f as int, r as int, df as int, dr as int, t as int, (n - 1) as nat)) by {
                    assert(f - df + df == f);
                    assert(r - dr + dr == r);
                }
                assert forall|t: u64| t < 64 implies #[trigger] bit(mask | (1u64 << (s as u64)), t) == (bit(
                    mask,
                    t,
                ) || s as u64 == t) by {
                    lemma_bit_or(mask, s as u64, t);
                }
            }
            mask = mask | (1u64 << (s as u64));
            sqs.push(s);
            f = f + df;
            r = r + dr;
            proof {
                n = (n - 1) as nat;
                assert forall|t: u64| t < 64 implies (#[trigger] bit(mask, t) == has_sq(sqs@, t)) by {
                    if t == s as u64 {
                        assert(sqs@[sqs@.len() - 1] == s);
                    } else {
                        if has_sq(sqs@, t) {
                            let j = choose|j: int| 0 <= j < sqs@.len() && sqs@[j] as u64 == t;
                            assert(j < old_sqs.len());
                            assert(old_sqs[j] as u64 == t);
                        }
                        if has_sq(old_sqs, t) {
                            let j = choose|j: int| 0 <= j < old_sqs.len() && old_sqs[j] as u64 == t;
                            assert(sqs@[j] as u64 == t);
                        }
                    }
                }
                assert forall|t: u64| t < 64 implies ((has_sq(sqs@, t) || inner(
                    f - df,
                    r - dr,
                    df as int,
                    dr as int,
                    t as int,
                    n,
                )) == (has_sq(s0, t) || inner(
                    f0 as int,
                    r0 as int,
                    df as int,
                    dr as int,
                    t as int,
                    7,
                ))) by {
                    assert(f - df == of && r - dr == or);
                    assert(inner(of - df, or - dr, df as int, dr as int, t as int, old_n) == (t == s
                        || inner(of as int, or as int, df as int, dr as int, t as int, n)));
                    assert((has_sq(old_sqs, t) || inner(
                        of - df,
                        or - dr,
                        df as int,
                        dr as int,
                        t as int,
                        old_n,
                    )) == (has_sq(s0, t) || inner(
                        f0 as int,
                        r0 as int,
                        df as int,
                        dr as int,
                        t as int,
                        7,
                    )));
                    if t == s as u64 {
                        assert(sqs@[sqs@.len() - 1] == s);
                    } else {
                        if has_sq(sqs@, t) {
                            let j = choose|j: int| 0 <= j < sqs@.len() && sqs@[j] as u64 == t;
                            assert(old_sqs[j] as u64 == t);
                        }
                        if has_sq(old_sqs, t) {
                            let j = choose|j: int| 0 <= j < old_sqs.len() && old_sqs[j] as u64 == t;
                            assert(sqs@[j] as u64 == t);
                        }
                    }
                }
            }
        }
        proof {
            assert forall|t: u64| t < 64 implies !#[trigger] inner(
                f - df,
                r - dr,
                df as int,
                dr as int,
                t as int,
                n,
            ) by {
                assert(f - df + df == f);
                assert(r - dr + dr == r);
            }
            assert forall|t: u64| #![trigger has_sq(sqs@, t)] t < 64 implies (has_sq(sqs@, t) == exists|k: int|
                0 <= k < i + 1 && #[trigger] inner(
                    f0 as int,
                    r0 as int,
                    dirs@[k].0 as int,
                    dirs@[k].1 as int,
                    t as int,
                    7,
                )) by {
                assert((has_sq(sqs@, t) || inner(f - df, r - dr, df as int, dr as int, t as int, n))
                    == (has_sq(s0, t) || inner(f0 as int, r0 as int, df as int, dr as int, t as int, 7)));
                assert(!inner(f - df, r - dr, df as int, dr as int, t as int, n));
                assert(dirs@[i as int] == (df, dr));
                if has_sq(sqs@, t) {
                    if has_sq(s0, t) {
                        let k = choose|k: int|
                            0 <= k < i && #[trigger] inner(
                                f0 as int,
                                r0 as int,
                                dirs@[k].0 as int,
                                dirs@[k].1 as int,
                                t as int,
                                7,
                            );
                        assert(0 <= k < i + 1);
                    } else {
                        assert(inner(
                            f0 as int,
                            r0 as int,
                            dirs@[i as int].0 as int,
                            dirs@[i as int].1 as int,
                            t as int,
                            7,
                        ));
                    }
                }
                if exists|k: int|
                    0 <= k < i + 1 && #[trigger] inner(
                        f0 as int,
                        r0 as int,
                        dirs@[k].0 as int,
                        dirs@[k].1 as int,
                        t as int,
                        7,
                    ) {
                    let k = choose|k: int|
                        0 <= k < i + 1 && #[trigger] inner(
                            f0 as int,
                            r0 as int,
                            dirs@[k].0 as int,
                            dirs@[k].1 as int,
                            t as int,
                            7,
                        );
                    if k < i {
                        assert(has_sq(s0, t));
                    }
                }
            }
        }
        i = i + 1;
    }
    proof {
        assert forall|q: u64| q < 64 implies #[trigger] bit(mask, q) == mask_target(sq.0 as int, q as int, dirs@) by {
            if bit(mask, q) {
                let k = choose|k: int|
                    0 <= k < 4 && #[trigger] inner(
                        f0 as int,
                        r0 as int,
                        dirs@[k].0 as int,
                        dirs@[k].1 as int,
                        q as int,
                        7,
                    );
            }
        }
    }
    (mask, sqs)
}

/// Every bit of `s` is one of the first `j` listed squares.
pub open spec fn within(s: u64, sqs: Seq<u8>, j: int) -> bool {
    forall|t: u64| t < 64 && #[trigger] bit(s, t) ==> has_sq(sqs.take(j), t)
}

/// Every occupancy of the listed squares (each subset of them, as a bit
/// board), starting with the empty one.
fn subsets(sqs: &Vec<u8>) -> (occs: Vec<u64>)
    requires
        sqs@.len() <= 24,
        forall|j: int| 0 <= j < sqs@.len() ==> #[trigger] sqs@[j] < 64,
    ensures
        forall|s: u64| #[trigger] within(s, sqs@, sqs@.len() as int) ==> occs@.contains(s),
        forall|q: int| 0 <= q < occs@.len() ==> within(#[trigger] occs@[q], sqs@, sqs@.len() as int),
{
    let mut occs: Vec<u64> = Vec::new();
    occs.push(0);
    proof {
        vstd::arithmetic::power2::lemma2_to64();
        assert forall|s: u64| #[trigger] within(s, sqs@, 0) implies occs@.contains(s) by {
            assert forall|t: u64| t < 64 implies !#[trigger] bit(s, t) by {
                if bit(s, t) {
                    assert(sqs@.take(0).len() == 0);
                }
            }
            lemma_zero_iff_no_bits(s);
            assert(occs@[0] == s);
        }
        assert(within(occs@[0], sqs@, 0)) by {
            lemma_zero_iff_no_bits(0u64);
        }
    }
    let mut j: usize = 0;
    while j < sqs.len()
        invariant
            j <= sqs@.len(),
            sqs@.len() <= 24,
            forall|q: int| 0 <= q < sqs@.len() ==> #[trigger] sqs@[q] < 64,
            occs@.len() == vstd::arithmetic::power2::pow2(j as nat),
            forall|s: u64| #[trigger] within(s, sqs@, j as int) ==> occs@.contains(s),
            forall|q: int| 0 <= q < occs@.len() ==> within(#[trigger] occs@[q], sqs@, j as int),
        decreases sqs@.len() - j,
    {
        let b = sqs[j];
        let l = occs.len();
        let ghost old_occs = occs@;
        proof {
            vstd::arithmetic::power2::lemma2_to64();
            vstd::arithmetic::power2::lemma_pow2_strictly_increases(j as nat, 24);
            if j < 24 {
            }
        }
        let mut i: usize = 0;
        while i < l
            invariant
                l == old_occs.len(),
                l <= 0x100_0000,
                b < 64,
                i <= l,
                occs@.len() == l + i,
                forall|q: int| 0 <= q < l ==> #[trigger] occs@[q] == old_occs[q],
                forall|q: int| 0 <= q < i ==> #[trigger] occs@[l + q] == old_occs[q] | (1u64 << (b as u64)),
            decreases l - i,
        {
            let x = occs[i];
            occs.push(x | (1u64 << (b as u64)));
            i = i + 1;
        }
        proof {
            vstd::arithmetic::power2::lemma_pow2_unfold((j + 1) as nat);
            let t1 = sqs@.take(j + 1);
            assert(t1 =~= sqs@.take(j as int).push(b));
            assert forall|q: int| 0 <= q < occs@.len() implies within(#[trigger] occs@[q], sqs@, j + 1) by {
                let q0 = if q < l { q } else { q - l };
                assert(within(old_occs[q0], sqs@, j as int));
                assert forall|t: u64| t < 64 && #[trigger] bit(occs@[q], t) implies has_sq(t1, t) by {
                    if q < l {
                        assert(has_sq(sqs@.take(j as int), t));
                        let w = choose|w: int| 0 <= w < j && sqs@.take(j as int)[w] as u64 == t;
                        assert(t1[w] == sqs@.take(j as int)[w]);
                    } else {
                        assert(occs@[l + q0] == old_occs[q0] | (1u64 << (b as u64)));
                        assert(l + q0 == q);
                        lemma_bit_or(old_occs[q0], b as u64, t);
                        if bit(old_occs[q0], t) {
                            assert(has_sq(sqs@.take(j as int), t));
                            let w = choose|w: int| 0 <= w < j && sqs@.take(j as int)[w] as u64 == t;
                            assert(t1[w] == sqs@.take(j as int)[w]);
                        } else {
                            assert(t == b as u64);
                            assert(t1[j as int] == b);
                        }
                    }
                }
            }
            assert forall|s: u64| #[trigger] within(s, sqs@, j + 1) implies occs@.contains(s) by {
                let s2 = s & !(1u64 << (b as u64));
                assert forall|t: u64| t < 64 implies #[trigger] bit(s2, t) == (bit(s, t) && t != b as u64) by {
                    lemma_bit_ops(s, !(1u64 << (b as u64)), t);
                    lemma_bit_ops(1u64 << (b as u64), 0, t);
                    crate::bitboard::lemma_bit_single(b as u64, t);
                }
                assert(within(s2, sqs@, j as int)) by {
                    assert forall|t: u64| t < 64 && #[trigger] bit(s2, t) implies has_sq(sqs@.take(j as int), t) by {
                        assert(has_sq(t1, t));
                        let q = choose|q: int| 0 <= q < t1.len() && t1[q] as u64 == t;
                        assert(q != j);
                        assert(sqs@.take(j as int)[q] == t1[q]);
                    }
                }
                let q = choose|q: int| 0 <= q < old_occs.len() && old_occs[q] == s2;
                if bit(s, b as u64) {
                    let y = old_occs[q] | (1u64 << (b as u64));
                    assert forall|t: u64| t < 64 implies #[trigger] bit(y, t) == bit(s, t) by {
                        lemma_bit_or(s2, b as u64, t);
                    }
                    lemma_bits_eq(y, s);
                    assert(occs@[l + q] == s);
                } else {
                    assert forall|t: u64| t < 64 implies #[trigger] bit(s2, t) == bit(s, t) by {}
                    lemma_bits_eq(s2, s);
                    assert(occs@[q] == s);
                }
            }
        }
        j = j + 1;
    }
    proof {
        assert(sqs@.take(sqs@.len() as int) =~= sqs@);
    }
    occs
}

/// The table index of `x` under `magic`: the top bits of the product.
pub open spec fn magic_index(x: u64, magic: u64, shift: u32) -> int {
    (vstd::wrapping::u64_specs::wrapping_mul(x, magic) >> (shift as u64)) as int
}

/// A magic bitboard for one square: the relevant mask, the multiplier, the
/// shift, and the attack set of each index.
pub struct Magic {
    pub mask: u64,
    pub magic: u64,
    pub shift: u32,
    pub attacks: Vec<Bitboard>,
}

impl Magic {
    /// The table has one entry per index a shift of `shift` leaves.
    pub open spec fn sized(self) -> bool {
        &&& 40 <= self.shift <= 63
        &&& self.attacks@.len() == vstd::arithmetic::power2::pow2((64 - self.shift) as nat)
    }

    /// The attack set the table gives for occupancy `occ`.
    pub open spec fn lookup(self, occ: u64) -> Bitboard {
        self.attacks@[magic_index(occ & self.mask, self.magic, self.shift)]
    }

    /// Every occupancy gets the attack set of the ray walk from `s` in
    /// directions `dirs`.
    #[verifier::opaque]
    pub open spec fn answers(self, s: int, dirs: Seq<(i8, i8)>) -> bool {
        &&& self.sized()
        &&& forall|occ: u64, t: u64|
            t < 64 ==> #[trigger] bit(self.lookup(occ).0, t) == slider_target(s, t as int, occ, dirs)
    }

    #[inline]
    pub fn index(&self, occ: u64) -> (r: usize)
        requires
            self.sized(),
        ensures
            r == magic_index(occ & self.mask, self.magic, self.shift),
            r < self.attacks@.len(),
    {
        let x = (occ & self.mask).wrapping_mul(self.magic);
        proof {
            lemma_index_bound(x, self.shift);
        }
        (x >> (self.shift as u64)) as usize
    }

    #[inline]
    pub fn attacks(&self, occ: u64) -> (r: Bitboard)
        requires
            self.sized(),
        ensures
            r == self.lookup(occ),
    {
        self.attacks[self.index(occ)]
    }
}

/// Shifting out `shift` bits leaves an index below 2^(64 - shift).
proof fn lemma_index_bound(x: u64, shift: u32)
    requires
        40 <= shift <= 63,
    ensures
        (x >> (shift as u64)) < vstd::arithmetic::power2::pow2((64 - shift) as nat),
        vstd::arithmetic::power2::pow2((64 - shift) as nat) <= 0x100_0000,
{
    use_pow2_facts(shift);
    vstd::bits::lemma_u64_shr_is_div(x, shift as u64);
    let p = vstd::arithmetic::power2::pow2(shift as nat);
    let q = vstd::arithmetic::power2::pow2((64 - shift) as nat);
    assert(x < p * q);
    assert((x as int) / (p as int) < q) by (nonlinear_arith)
        requires
            0 <= x < p * q,
            p > 0,
    ;
}

proof fn use_pow2_facts(shift: u32)
    requires
        40 <= shift <= 63,
    ensures
        vstd::arithmetic::power2::pow2(shift as nat) * vstd::arithmetic::power2::pow2(
            (64 - shift) as nat,
        ) == 0x1_0000_0000_0000_0000,
        vstd::arithmetic::power2::pow2(shift as nat) > 0,
        vstd::arithmetic::power2::pow2((64 - shift) as nat) <= 0x100_0000,
{
    vstd::arithmetic::power2::lemma2_to64();
    vstd::arithmetic::power2::lemma_pow2_adds(shift as nat, (64 - shift) as nat);
    vstd::arithmetic::power2::lemma_pow2_pos(shift as nat);
    if 64 - shift < 24 {
        vstd::arithmetic::power2::lemma_pow2_strictly_increases((64 - shift) as nat, 24);
    }
}

/// The relevant mask of square `s` in directions `dirs`: the word whose set
/// bits are the inner ray squares.
pub open spec fn relevant_mask_of(s: int, dirs: Seq<(i8, i8)>) -> u64 {
    choose|m: u64| #[trigger] is_mask_of(m, s, dirs)
}

/// The set bits of `m` are the inner ray squares of `s`.
pub open spec fn is_mask_of(m: u64, s: int, dirs: Seq<(i8, i8)>) -> bool {
    forall|q: u64| q < 64 ==> #[trigger] bit(m, q) == mask_target(s, q as int, dirs)
}

/// The shift of the magic index: 64 minus the number of mask squares.
pub open spec fn magic_shift_of(s: int, dirs: Seq<(i8, i8)>) -> u32 {
    (64 - popcount(relevant_mask_of(s, dirs))) as u32
}

/// The mask has between 1 and 24 squares, so that a table index fits.
pub open spec fn mask_usable(s: int, dirs: Seq<(i8, i8)>) -> bool {
    1 <= popcount(relevant_mask_of(s, dirs)) <= 24
}

/// The `k`-th magic candidate (from 0) drawn from a generator in state
/// `seed`: the AND of its next three draws.
pub open spec fn candidate(seed: u64, k: nat) -> u64 {
    nth_draw(seed, 3 * k + 1) & nth_draw(seed, 3 * k + 2) & nth_draw(seed, 3 * k + 3)
}

/// Occupancies `a` and `b` of the mask share an index under `magic` but
/// differ in their attack sets at square `t`.
pub open spec fn clash(
    s: int,
    dirs: Seq<(i8, i8)>,
    mask: u64,
    magic: u64,
    shift: u32,
    a: u64,
    b: u64,
    t: u64,
) -> bool {
    &&& a & mask == a
    &&& b & mask == b
    &&& t < 64
    &&& magic_index(a, magic, shift) == magic_index(b, magic, shift)
    &&& slider_target(s, t as int, a, dirs) != slider_target(s, t as int, b, dirs)
}

/// Candidate `k` from `seed` is rejected: too few high bits in the product
/// with the mask, or two occupancies clash.
pub open spec fn candidate_fails(s: int, dirs: Seq<(i8, i8)>, seed: u64, k: nat) -> bool {
    let mask = relevant_mask_of(s, dirs);
    let c = candidate(seed, k);
    popcount(vstd::wrapping::u64_specs::wrapping_mul(mask, c) & 0xFF00_0000_0000_0000u64) < 6
        || exists|a: u64, b: u64, t: u64|
        #[trigger] clash(s, dirs, mask, c, magic_shift_of(s, dirs), a, b, t)
}

/// Candidate `k` is the first one accepted among the 2^64 - 1 tried.
pub open spec fn found_at(s: int, dirs: Seq<(i8, i8)>, seed: u64, k: nat) -> bool {
    &&& k < u64::MAX
    &&& !candidate_fails(s, dirs, seed, k)
    &&& forall|j: nat| j < k ==> #[trigger] candidate_fails(s, dirs, seed, j)
}

/// The search for a magic of `s` from generator state `seed` finds none.
pub open spec fn magic_search_fails(s: int, dirs: Seq<(i8, i8)>, seed: u64) -> bool {
    !mask_usable(s, dirs) || forall|k: nat| k < u64::MAX ==> #[trigger] candidate_fails(
        s,
        dirs,
        seed,
        k,
    )
}

/// The generator state after the search for a magic of `s` from `seed`:
/// three draws per candidate tried, none when the mask is unusable.
pub open spec fn seed_after_search(s: int, dirs: Seq<(i8, i8)>, seed: u64) -> u64 {
    if !mask_usable(s, dirs) {
        seed
    } else if exists|k: nat| #[trigger] found_at(s, dirs, seed, k) {
        state_after(seed, 3 * ((choose|k: nat| #[trigger] found_at(s, dirs, seed, k)) + 1))
    } else {
        state_after(seed, 3 * (u64::MAX as nat))
    }
}

proof fn lemma_found_unique(s: int, dirs: Seq<(i8, i8)>, seed: u64, k1: nat, k2: nat)
    requires
        found_at(s, dirs, seed, k1),
        found_at(s, dirs, seed, k2),
    ensures
        k1 == k2,
{
    if k1 < k2 {
        assert(candidate_fails(s, dirs, seed, k1));
    } else if k2 < k1 {
        assert(candidate_fails(s, dirs, seed, k2));
    }
}

/// Fills the table of `magic`: each listed occupancy's attack set at its
/// index; `None` when two listed occupancies with different attack sets
/// share an index.
fn fill_table(occs: &Vec<u64>, refs: &Vec<Bitboard>, magic: u64, shift: u32, size: usize) -> (r: Option<
    Vec<Bitboard>,
>)
    requires
        refs@.len() == occs@.len(),
        size == vstd::arithmetic::power2::pow2((64 - shift) as nat),
        40 <= shift <= 63,
    ensures
        r matches Some(table) ==> {
            &&& table@.len() == size
            &&& forall|q: int|
                0 <= q < occs@.len() ==> #[trigger] table@[magic_index(occs@[q], magic, shift)] == refs@[q]
        },
        r is None ==> exists|qa: int, qb: int|
            0 <= qa < occs@.len() && 0 <= qb < occs@.len() && magic_index(occs@[qa], magic, shift)
                == magic_index(occs@[qb], magic, shift) && #[trigger] refs@[qa] != #[trigger] refs@[qb],
{
    let mut table: Vec<Bitboard> = vec![Bitboard(0); size];
    let mut used: Vec<bool> = vec![false; size];
    let mut i: usize = 0;
    while i < occs.len()
        invariant
            table@.len() == size,
            used@.len() == size,
            size == vstd::arithmetic::power2::pow2((64 - shift) as nat),
            40 <= shift <= 63,
            refs@.len() == occs@.len(),
            i <= occs@.len(),
            forall|q: int|
                0 <= q < i ==> {
                    let k = #[trigger] magic_index(occs@[q], magic, shift);
                    &&& used@[k]
                    &&& table@[k] == refs@[q]
                },
            forall|kk: int|
                0 <= kk < size && #[trigger] used@[kk] ==> exists|q: int|
                    0 <= q < i && magic_index(occs@[q], magic, shift) == kk && table@[kk]
                        == #[trigger] refs@[q],
        decreases occs@.len() - i,
    {
        let x = occs[i].wrapping_mul(magic);
        proof {
            lemma_index_bound(x, shift);
        }
        let idx = (x >> (shift as u64)) as usize;
        let ghost k0 = magic_index(occs@[i as int], magic, shift);
        assert(idx as int == k0);
        let ghost t0 = table@;
        let ghost u0 = used@;
        if used[idx] {
            if table[idx] != refs[i] {
                proof {
                    assert(u0[idx as int]);
                    let qa = choose|q: int|
                        0 <= q < i && magic_index(occs@[q], magic, shift) == idx as int && t0[idx as int]
                            == #[trigger] refs@[q];
                    assert(refs@[qa] != refs@[i as int]);
                }
                return None;
            }
        } else {
            used.set(idx, true);
            table.set(idx, refs[i]);
        }
        proof {
            assert forall|q: int| 0 <= q < i + 1 implies {
                let k = #[trigger] magic_index(occs@[q], magic, shift);
                &&& used@[k]
                &&& table@[k] == refs@[q]
            } by {
                let k = magic_index(occs@[q], magic, shift);
                lemma_index_bound(vstd::wrapping::u64_specs::wrapping_mul(occs@[q], magic), shift);
                if q < i {
                    assert(u0[k] && t0[k] == refs@[q]);
                    if k == k0 {
                        assert(used@[k]);
                        assert(table@[k] == refs@[q]);
                    } else {
                        assert(used@[k] == u0[k]);
                        assert(table@[k] == t0[k]);
                    }
                } else {
                    assert(q == i);
                    assert(k == k0);
                    assert(used@[k]);
                    assert(table@[k] == refs@[q]);
                }
            }
            assert forall|kk: int| 0 <= kk < size && #[trigger] used@[kk] implies exists|q: int|
                0 <= q < i + 1 && magic_index(occs@[q], magic, shift) == kk && table@[kk]
                    == #[trigger] refs@[q] by {
                if kk == k0 {
                    assert(table@[kk] == refs@[i as int]);
                } else {
                    assert(u0[kk]);
                    let q = choose|q: int|
                        0 <= q < i && magic_index(occs@[q], magic, shift) == kk && t0[kk]
                            == #[trigger] refs@[q];
                    assert(table@[kk] == refs@[q]);
                }
            }
        }
        i = i + 1;
    }
    Some(table)
}

/// Two listed occupancies of the mask that share an index but not their
/// attack sets make the candidate fail.
proof fn lemma_conflict_fails(
    s0: int,
    dirs: Seq<(i8, i8)>,
    seed0: u64,
    k: nat,
    mask: u64,
    shift: u32,
    occs: Seq<u64>,
    refs: Seq<Bitboard>,
)
    requires
        mask == relevant_mask_of(s0, dirs),
        shift == magic_shift_of(s0, dirs),
        refs.len() == occs.len(),
        forall|q: int| 0 <= q < occs.len() ==> #[trigger] occs[q] & mask == occs[q],
        forall|q: int, t: u64|
            0 <= q < occs.len() && t < 64 ==> #[trigger] bit(refs[q].0, t) == slider_target(
                s0,
                t as int,
                occs[q],
                dirs,
            ),
        exists|qa: int, qb: int|
            0 <= qa < occs.len() && 0 <= qb < occs.len() && magic_index(occs[qa], candidate(seed0, k), shift)
                == magic_index(occs[qb], candidate(seed0, k), shift) && #[trigger] refs[qa]
                != #[trigger] refs[qb],
    ensures
        candidate_fails(s0, dirs, seed0, k),
{
    let magic = candidate(seed0, k);
    let (qa, qb) = choose|qa: int, qb: int|
        0 <= qa < occs.len() && 0 <= qb < occs.len() && magic_index(occs[qa], magic, shift)
            == magic_index(occs[qb], magic, shift) && #[trigger] refs[qa] != #[trigger] refs[qb];
    let ra = refs[qa].0;
    let rb = refs[qb].0;
    assert(ra != rb);
    assert(exists|t: u64| t < 64 && bit(ra, t) != bit(rb, t)) by {
        if !(exists|t: u64| t < 64 && bit(ra, t) != bit(rb, t)) {
            assert forall|t: u64| t < 64 implies #[trigger] bit(ra, t) == bit(rb, t) by {}
            lemma_bits_eq(ra, rb);
        }
    }
    let t = choose|t: u64| t < 64 && bit(ra, t) != bit(rb, t);
    assert(bit(refs[qa].0, t) == slider_target(s0, t as int, occs[qa], dirs));
    assert(bit(refs[qb].0, t) == slider_target(s0, t as int, occs[qb], dirs));
    assert(occs[qa] & mask == occs[qa]);
    assert(occs[qb] & mask == occs[qb]);
    assert(clash(s0, dirs, mask, magic, shift, occs[qa], occs[qb], t));
}

/// A table holding each listed occupancy's attack set at its index answers
/// every occupancy as the ray walk does, and no two occupancies clash.
proof fn lemma_table_answers(
    s0: int,
    dirs: Seq<(i8, i8)>,
    mask: u64,
    shift: u32,
    magic: u64,
    sqs: Seq<u8>,
    occs: Seq<u64>,
    refs: Seq<Bitboard>,
    m: Magic,
)
    requires
        0 <= s0 < 64,
        m.mask == mask,
        m.magic == magic,
        m.shift == shift,
        40 <= shift <= 63,
        m.attacks@.len() == vstd::arithmetic::power2::pow2((64 - shift) as nat),
        refs.len() == occs.len(),
        forall|q: u64| q < 64 ==> #[trigger] bit(mask, q) == mask_target(s0, q as int, dirs),
        forall|q: u64| q < 64 ==> (mask_target(s0, q as int, dirs) <==> has_sq(sqs, q)),
        forall|s: u64| #[trigger] within(s, sqs, sqs.len() as int) ==> occs.contains(s),
        forall|q: int, t: u64|
            0 <= q < occs.len() && t < 64 ==> #[trigger] bit(refs[q].0, t) == slider_target(
                s0,
                t as int,
                occs[q],
                dirs,
            ),
        forall|q: int|
            0 <= q < occs.len() ==> #[trigger] m.attacks@[magic_index(occs[q], magic, shift)] == refs[q],
    ensures
        m.answers(s0, dirs),
        !exists|a: u64, b: u64, t: u64| #[trigger] clash(s0, dirs, mask, magic, shift, a, b, t),
{
    reveal(Magic::answers);
    assert forall|occ: u64, t: u64| t < 64 implies #[trigger] bit(m.lookup(occ).0, t) == slider_target(
        s0,
        t as int,
        occ,
        dirs,
    ) by {
        let s = occ & mask;
        assert(within(s, sqs, sqs.len() as int)) by {
            assert(sqs.take(sqs.len() as int) =~= sqs);
            assert forall|u: u64| u < 64 && #[trigger] bit(s, u) implies has_sq(
                sqs.take(sqs.len() as int),
                u,
            ) by {
                lemma_bit_ops(occ, mask, u);
            }
        }
        let q = choose|q: int| 0 <= q < occs.len() && occs[q] == s;
        assert(m.attacks@[magic_index(occs[q], magic, shift)] == refs[q]);
        assert(bit(refs[q].0, t) == slider_target(s0, t as int, occs[q], dirs));
        lemma_slider_masked(s0, t as int, occ, mask, dirs);
    }
    if exists|a: u64, b: u64, t: u64| #[trigger] clash(s0, dirs, mask, magic, shift, a, b, t) {
        let (a, b, t) = choose|a: u64, b: u64, t: u64| #[trigger] clash(s0, dirs, mask, magic, shift, a, b, t);
        assert(a & mask == a && b & mask == b);
        assert(bit(m.lookup(a).0, t) == slider_target(s0, t as int, a, dirs));
        assert(bit(m.lookup(b).0, t) == slider_target(s0, t as int, b, dirs));
    }
}

/// `m` is the magic found for `s` from generator state `seed`: the
/// relevant mask, the shift of its size, the first accepted candidate, and a
/// table that answers every occupancy as the ray walk does.
pub open spec fn magic_found(m: Magic, s: int, dirs: Seq<(i8, i8)>, seed: u64) -> bool {
    &&& m.mask == relevant_mask_of(s, dirs)
    &&& is_mask_of(m.mask, s, dirs)
    &&& m.shift == 64 - popcount(m.mask)
    &&& exists|k: nat| #[trigger] found_at(s, dirs, seed, k) && m.magic == candidate(seed, k)
    &&& m.answers(s, dirs)
}

proof fn lemma_draws(seed0: u64, k: nat, st: u64)
    requires
        st == state_after(seed0, 3 * k),
    ensures
        ({
            let g = crate::rng::GAMMA;
            let s1 = vstd::wrapping::u64_specs::wrapping_add(st, g);
            let s2 = vstd::wrapping::u64_specs::wrapping_add(s1, g);
            let s3 = vstd::wrapping::u64_specs::wrapping_add(s2, g);
            &&& state_after(seed0, 3 * (k + 1)) == s3
            &&& candidate(seed0, k) == crate::rng::mix_spec(s1) & crate::rng::mix_spec(s2)
                & crate::rng::mix_spec(s3)
        }),
{
    let g = crate::rng::GAMMA;
    assert(state_after(seed0, 3 * k + 1) == vstd::wrapping::u64_specs::wrapping_add(st, g));
    assert(state_after(seed0, 3 * k + 2) == vstd::wrapping::u64_specs::wrapping_add(
        state_after(seed0, 3 * k + 1),
        g,
    ));
    assert(state_after(seed0, 3 * k + 3) == vstd::wrapping::u64_specs::wrapping_add(
        state_after(seed0, 3 * k + 2),
        g,
    ));
    assert(3 * (k + 1) == 3 * k + 3);
}

proof fn lemma_prefilter_fails(s0: int, dirs: Seq<(i8, i8)>, seed0: u64, k: nat, mask: u64, magic: u64)
    requires
        mask == relevant_mask_of(s0, dirs),
        magic == candidate(seed0, k),
        popcount(vstd::wrapping::u64_specs::wrapping_mul(mask, magic) & 0xFF00_0000_0000_0000u64) < 6,
    ensures
        candidate_fails(s0, dirs, seed0, k),
{
}

proof fn lemma_found(s0: int, dirs: Seq<(i8, i8)>, seed0: u64, k: nat, mask: u64, magic: u64)
    requires
        mask == relevant_mask_of(s0, dirs),
        magic == candidate(seed0, k),
        mask_usable(s0, dirs),
        k < u64::MAX,
        popcount(vstd::wrapping::u64_specs::wrapping_mul(mask, magic) & 0xFF00_0000_0000_0000u64) >= 6,
        !exists|a: u64, b: u64, t: u64| #[trigger] clash(s0, dirs, mask, magic, magic_shift_of(s0, dirs), a, b, t),
        forall|j: nat| j < k ==> #[trigger] candidate_fails(s0, dirs, seed0, j),
    ensures
        found_at(s0, dirs, seed0, k),
        seed_after_search(s0, dirs, seed0) == state_after(seed0, 3 * (k + 1)),
        !magic_search_fails(s0, dirs, seed0),
{
    assert(found_at(s0, dirs, seed0, k));
    let kc = choose|kk: nat| #[trigger] found_at(s0, dirs, seed0, kk);
    lemma_found_unique(s0, dirs, seed0, kc, k);
    assert(!candidate_fails(s0, dirs, seed0, k));
}

/// Finds a magic multiplier for `sq`: draws sparse candidates from `rng`
/// until one has at least 6 of the top 8 bits of its product with the mask
/// set and maps every occupancy of the relevant mask to a table slot without
/// two occupancies with different attack sets sharing a slot; the table
/// built then answers every occupancy as the ray walk does. `None` exactly
/// when the mask is empty or has more than 24 squares (no table index
/// fits), or when all of the 2^64 - 1 candidates are rejected.
#[verifier::spinoff_prover]
#[verifier::rlimit(100)]
pub(crate) fn build_magic(sq: Square, dirs: &[(i8, i8); 4], rng: &mut SplitMix64) -> (r: Option<Magic>)
    requires
        sq.valid(),
        forall|i: int| 0 <= i < 4 ==> dir_ok(#[trigger] dirs@[i]),
    ensures
        final(rng).0 == seed_after_search(sq.0 as int, dirs@, old(rng).0),
        r is None <==> magic_search_fails(sq.0 as int, dirs@, old(rng).0),
        r matches Some(m) ==> magic_found(m, sq.0 as int, dirs@, old(rng).0),
{
    let ghost seed0 = rng.0;
    let ghost s0 = sq.0 as int;
    let (mask, sqs) = relevant_mask(sq, dirs);
    proof {
        assert(is_mask_of(mask, s0, dirs@));
        let c = relevant_mask_of(s0, dirs@);
        assert forall|q: u64| q < 64 implies #[trigger] bit(c, q) == bit(mask, q) by {}
        lemma_bits_eq(c, mask);
    }
    let bits = Bitboard(mask).count();
    if bits == 0 || bits > 24 {
        return None;
    }
    let shift: u32 = 64 - bits;
    proof {
        use_pow2_facts(shift);
        vstd::bits::lemma_usize_shl_is_mul(1, bits as usize);
        vstd::arithmetic::power2::lemma2_to64();
    }
    let size: usize = 1usize << (bits as usize);
    let occs = subsets(&sqs);
    let mut refs: Vec<Bitboard> = Vec::new();
    let mut i: usize = 0;
    while i < occs.len()
        invariant
            sq.valid(),
            forall|k: int| 0 <= k < 4 ==> dir_ok(#[trigger] dirs@[k]),
            i <= occs@.len(),
            refs@.len() == i,
            forall|q: int, t: u64|
                0 <= q < i && t < 64 ==> #[trigger] bit(refs@[q].0, t) == slider_target(
                    sq.0 as int,
                    t as int,
                    occs@[q],
                    dirs@,
                ),
        decreases occs@.len() - i,
    {
        refs.push(slow_slider_attacks(sq, occs[i], dirs));
        i = i + 1;
    }
    proof {
        // Every listed occupancy is an occupancy of the mask.
        assert forall|q: int| 0 <= q < occs@.len() implies #[trigger] occs@[q] & mask == occs@[q] by {
            let a = occs@[q];
            assert(within(a, sqs@, sqs@.len() as int));
            assert(sqs@.take(sqs@.len() as int) =~= sqs@);
            assert forall|u: u64| u < 64 implies #[trigger] bit(a & mask, u) == bit(a, u) by {
                lemma_bit_ops(a, mask, u);
            }
            lemma_bits_eq(a & mask, a);
        }
    }
    let mut tries: u64 = 0;
    let mut result: Option<Magic> = None;
    while tries < u64::MAX
        invariant_except_break
            result is None,
            forall|j: nat| j < tries ==> #[trigger] candidate_fails(s0, dirs@, seed0, j),
        invariant
            refs@.len() == occs@.len(),
            size == vstd::arithmetic::power2::pow2((64 - shift) as nat),
            40 <= shift <= 63,
            shift == 64 - popcount(mask),
            mask == relevant_mask_of(s0, dirs@),
            shift == magic_shift_of(s0, dirs@),
            mask_usable(s0, dirs@),
            s0 == sq.0 as int,
            rng.0 == state_after(seed0, 3 * (tries as nat)),
            forall|q: u64| q < 64 ==> #[trigger] bit(mask, q) == mask_target(sq.0 as int, q as int, dirs@),
            forall|q: u64| q < 64 ==> (mask_target(sq.0 as int, q as int, dirs@) <==> has_sq(sqs@, q)),
            forall|s: u64| #[trigger] within(s, sqs@, sqs@.len() as int) ==> occs@.contains(s),
            forall|q: int| 0 <= q < occs@.len() ==> #[trigger] occs@[q] & mask == occs@[q],
            forall|q: int, t: u64|
                0 <= q < occs@.len() && t < 64 ==> #[trigger] bit(refs@[q].0, t) == slider_target(
                    sq.0 as int,
                    t as int,
                    occs@[q],
                    dirs@,
                ),
            sq.valid(),
        ensures
            result matches Some(m) ==> magic_found(m, s0, dirs@, seed0) && rng.0 == seed_after_search(
                s0,
                dirs@,
                seed0,
            ) && !magic_search_fails(s0, dirs@, seed0),
            result is None ==> forall|j: nat| j < u64::MAX ==> #[trigger] candidate_fails(
                s0,
                dirs@,
                seed0,
                j,
            ),
            result is None ==> rng.0 == state_after(seed0, 3 * (u64::MAX as nat)),
        decreases u64::MAX - tries,
    {
        let ghost k = tries as nat;
        proof {
            lemma_draws(seed0, k, rng.0);
        }
        tries = tries + 1;
        let magic = rng.sparse();
        if Bitboard(mask.wrapping_mul(magic) & 0xFF00_0000_0000_0000).count() < 6 {
            proof {
                lemma_prefilter_fails(s0, dirs@, seed0, k, mask, magic);
            }
            continue;
        }
        let table = match fill_table(&occs, &refs, magic, shift, size) {
            Some(t) => t,
            None => {
                proof {
                    lemma_conflict_fails(s0, dirs@, seed0, k, mask, shift, occs@, refs@);
                }
                continue;
            },
        };
        let m = Magic { mask, magic, shift, attacks: table };
        proof {
            lemma_table_answers(s0, dirs@, mask, shift, magic, sqs@, occs@, refs@, m);
            lemma_found(s0, dirs@, seed0, k, mask, magic);
            assert(tries as nat == k + 1);
            assert(found_at(s0, dirs@, seed0, k) && m.magic == candidate(seed0, k));
            assert(magic_found(m, s0, dirs@, seed0));
            assert(rng.0 == seed_after_search(s0, dirs@, seed0));
        }
        result = Some(m);
        break;
    }
    proof {
        if result is None {
            assert(!exists|kk: nat| #[trigger] found_at(s0, dirs@, seed0, kk)) by {
                if exists|kk: nat| #[trigger] found_at(s0, dirs@, seed0, kk) {
                    let kk = choose|kk: nat| #[trigger] found_at(s0, dirs@, seed0, kk);
                    assert(candidate_fails(s0, dirs@, seed0, kk));
                }
            }
        }
    }
    result
}

/// The seed of the generator the magic tables are searched with.
pub const MAGIC_SEED: u64 = 0x1234_5678_9abc_def0;

/// The square of the `i`-th table built: rooks 0..64, then bishops.
pub open spec fn build_sq(i: int) -> int {
    if i < 64 {
        i
    } else {
        i - 64
    }
}

/// The directions of the `i`-th table built.
pub open spec fn build_dirs(i: int) -> Seq<(i8, i8)> {
    if i < 64 {
        rook_dirs()
    } else {
        bishop_dirs()
    }
}

/// The generator state when the `i`-th table's search starts.
pub open spec fn seed_before(i: nat) -> u64
    decreases i,
{
    if i == 0 {
        MAGIC_SEED
    } else {
        seed_after_search(build_sq(i - 1), build_dirs(i - 1), seed_before((i - 1) as nat))
    }
}

/// The magic tables of every square for rooks and bishops.
pub struct Magics {
    rook: Vec<Magic>,
    bishop: Vec<Magic>,
}

impl Magics {
    /// Every square's rook and bishop table answers as the ray walk does.
    pub closed spec fn wf(self) -> bool {
        &&& self.rook@.len() == 64
        &&& self.bishop@.len() == 64
        &&& forall|s: int| 0 <= s < 64 ==> (#[trigger] self.rook@[s]).answers(s, rook_dirs())
        &&& forall|s: int| 0 <= s < 64 ==> (#[trigger] self.bishop@[s]).answers(s, bishop_dirs())
    }

    /// Every table is the one `build_magic` finds for its square from the
    /// generator state that the searches of the squares before it leave.
    pub closed spec fn from_stream(self) -> bool {
        &&& forall|i: int|
            0 <= i < 64 ==> magic_found(#[trigger] self.rook@[i], i, rook_dirs(), seed_before(i as nat))
        &&& forall|i: int|
            0 <= i < 64 ==> magic_found(
                #[trigger] self.bishop@[i],
                i,
                bishop_dirs(),
                seed_before((64 + i) as nat),
            )
    }

    /// Builds the tables of all 64 squares, rooks first, then bishops, from
    /// one generator seeded with `MAGIC_SEED`, each search starting where the
    /// previous one left the generator. `None` exactly when the search of
    /// some square finds no magic (see `build_magic`).
    pub fn new() -> (r: Option<Magics>)
        ensures
            r is None <==> exists|i: nat|
                i < 128 && #[trigger] magic_search_fails(build_sq(i as int), build_dirs(i as int), seed_before(i)),
            r matches Some(m) ==> m.wf() && m.from_stream(),
    {
        let mut rng = SplitMix64::new(MAGIC_SEED);
        proof {
            assert(ROOK_DIRS@ =~= rook_dirs());
            assert(BISHOP_DIRS@ =~= bishop_dirs());
        }
        let mut rook: Vec<Magic> = Vec::new();
        let mut s: u8 = 0;
        while s < 64
            invariant
                s <= 64,
                rook@.len() == s,
                ROOK_DIRS@ == rook_dirs(),
                rng.0 == seed_before(s as nat),
                forall|q: int|
                    0 <= q < s ==> magic_found(#[trigger] rook@[q], q, rook_dirs(), seed_before(q as nat)),
                forall|i: nat|
                    i < s ==> !#[trigger] magic_search_fails(build_sq(i as int), build_dirs(i as int), seed_before(i)),
            decreases 64 - s,
        {
            let ghost r0 = rng.0;
            let ghost ss = s as int;
            match build_magic(Square(s), &ROOK_DIRS, &mut rng) {
                Some(m) => rook.push(m),
                None => {
                    proof {
                        assert(build_sq(ss) == ss && build_dirs(ss) == rook_dirs());
                        assert(magic_search_fails(build_sq(ss), build_dirs(ss), seed_before(s as nat)));
                    }
                    return None;
                },
            }
            proof {
                assert(build_sq(ss) == ss && build_dirs(ss) == rook_dirs());
                assert(seed_before((s + 1) as nat) == seed_after_search(ss, rook_dirs(), seed_before(s as nat)));
            }
            s = s + 1;
        }
        let mut bishop: Vec<Magic> = Vec::new();
        let mut s: u8 = 0;
        while s < 64
            invariant
                s <= 64,
                bishop@.len() == s,
                rook@.len() == 64,
                BISHOP_DIRS@ == bishop_dirs(),
                rng.0 == seed_before((64 + s) as nat),
                forall|q: int|
                    0 <= q < 64 ==> magic_found(#[trigger] rook@[q], q, rook_dirs(), seed_before(q as nat)),
                forall|q: int|
                    0 <= q < s ==> magic_found(
                        #[trigger] bishop@[q],
                        q,
                        bishop_dirs(),
                        seed_before((64 + q) as nat),
                    ),
                forall|i: nat|
                    i < 64 + s ==> !#[trigger] magic_search_fails(build_sq(i as int), build_dirs(i as int), seed_before(i)),
            decreases 64 - s,
        {
            let ghost ss = s as int;
            match build_magic(Square(s), &BISHOP_DIRS, &mut rng) {
                Some(m) => bishop.push(m),
                None => {
                    proof {
                        assert(build_sq(64 + ss) == ss && build_dirs(64 + ss) == bishop_dirs());
                        assert(magic_search_fails(
                            build_sq(64 + ss),
                            build_dirs(64 + ss),
                            seed_before((64 + s) as nat),
                        ));
                    }
                    return None;
                },
            }
            proof {
                assert(build_sq(64 + ss) == ss && build_dirs(64 + ss) == bishop_dirs());
                assert(seed_before((64 + s + 1) as nat) == seed_after_search(
                    ss,
                    bishop_dirs(),
                    seed_before((64 + s) as nat),
                ));
            }
            s = s + 1;
        }
        let r = Magics { rook, bishop };
        proof {
            assert forall|i: int| 0 <= i < 64 implies (#[trigger] r.rook@[i]).answers(i, rook_dirs()) by {
                assert(magic_found(r.rook@[i], i, rook_dirs(), seed_before(i as nat)));
            }
            assert forall|i: int| 0 <= i < 64 implies (#[trigger] r.bishop@[i]).answers(i, bishop_dirs()) by {
                assert(magic_found(r.bishop@[i], i, bishop_dirs(), seed_before((64 + i) as nat)));
            }
            assert(!exists|i: nat|
                i < 128 && #[trigger] magic_search_fails(build_sq(i as int), build_dirs(i as int), seed_before(i)));
        }
        Some(r)
    }

    /// Rook attacks from `sq` by table lookup: the same set as `rook_attacks`.
    pub fn rook(&self, sq: Square, occ: Bitboard) -> (res: Bitboard)
        requires
            self.wf(),
            sq.valid(),
        ensures
            forall|t: u64|
                t < 64 ==> #[trigger] bit(res.0, t) == slider_target(
                    sq.0 as int,
                    t as int,
                    occ.0,
                    rook_dirs(),
                ),
    {
        let m = &self.rook[sq.index()];
        proof {
            assert(m.answers(sq.0 as int, rook_dirs()));
            reveal(Magic::answers);
        }
        m.attacks(occ.0)
    }

    /// Bishop attacks from `sq` by table lookup: the same set as
    /// `bishop_attacks`.
    pub fn bishop(&self, sq: Square, occ: Bitboard) -> (res: Bitboard)
        requires
            self.wf(),
            sq.valid(),
        ensures
            forall|t: u64|
                t < 64 ==> #[trigger] bit(res.0, t) == slider_target(
                    sq.0 as int,
                    t as int,
                    occ.0,
                    bishop_dirs(),
                ),
    {
        let m = &self.bishop[sq.index()];
        proof {
            assert(m.answers(sq.0 as int, bishop_dirs()));
            reveal(Magic::answers);
        }
        m.attacks(occ.0)
    }
}

} // verus!
